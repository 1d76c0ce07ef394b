use lox::parser::Expression;
use lox::parser::Parser;
use lox::scanner::Literal;
use lox::scanner::Scanner;
use lox::scanner::Token;
use lox::scanner::TokenType;

fn parse_source(source: &[u8]) -> Result<Expression, lox::parser::ParseError> {
    let mut scanner = Scanner::new();
    let tokens = scanner.scan_tokens(source);
    assert_eq!(scanner.errors.len(), 0);
    let mut parser = Parser::new();
    parser.tokens = tokens;
    parser.expression()
}

fn numeric_leaf(e: &Expression) -> f64 {
    match e {
        Expression::Literal { value: Literal::Numeric(digits) } => {
            std::str::from_utf8(digits).unwrap().parse().unwrap()
        }
        _ => panic!("expected a numeric literal leaf"),
    }
}

#[test]
fn can_build() {
    let _x = Expression::Assign {
        name: Token {
            token_type: TokenType::Equal,
            lexeme: b"=".to_vec(),
            literal: Literal::Nil,
            line: 1,
        },
        value: Box::new(Expression::Literal { value: Literal::Numeric(b"1.0".to_vec()) }),
    };
}

#[test]
fn multiplication_binds_tighter_than_addition() {
    let tree = parse_source(b"1 + 2 * 3").unwrap();
    match tree {
        Expression::Binary { left, operator, right } => {
            assert_eq!(operator.token_type, TokenType::Plus);
            assert_eq!(numeric_leaf(&left), 1.0);
            match *right {
                Expression::Binary { left: rl, operator: ro, right: rr } => {
                    assert_eq!(ro.token_type, TokenType::Star);
                    assert_eq!(numeric_leaf(&rl), 2.0);
                    assert_eq!(numeric_leaf(&rr), 3.0);
                }
                _ => panic!("expected a product on the right"),
            }
        }
        _ => panic!("expected a sum at the root"),
    }
}

#[test]
fn equality_is_left_associated() {
    let tree = parse_source(b"1 == 2 == 3").unwrap();
    match tree {
        Expression::Binary { left, operator, right } => {
            assert_eq!(operator.token_type, TokenType::EqualEqual);
            assert_eq!(numeric_leaf(&right), 3.0);
            match *left {
                Expression::Binary { left: ll, operator: lo, right: lr } => {
                    assert_eq!(lo.token_type, TokenType::EqualEqual);
                    assert_eq!(numeric_leaf(&ll), 1.0);
                    assert_eq!(numeric_leaf(&lr), 2.0);
                }
                _ => panic!("expected the first comparison on the left"),
            }
        }
        _ => panic!("expected an equality at the root"),
    }
}

#[test]
fn missing_closing_paren_is_reported() {
    let err = parse_source(b"(1 + 2").unwrap_err();
    assert_eq!(err.message, "Expect ')' after expression.".to_string());
    assert_eq!(err.line, 1);
    assert_eq!(err.lexeme, Vec::<u8>::new());
}

#[test]
fn grouping_is_its_own_node() {
    let tree = parse_source(b"(1 + 2) * 3").unwrap();
    match tree {
        Expression::Binary { left, operator, right } => {
            assert_eq!(operator.token_type, TokenType::Star);
            assert_eq!(numeric_leaf(&right), 3.0);
            assert!(matches!(*left, Expression::Grouping { .. }));
        }
        _ => panic!("expected a product at the root"),
    }
}

#[test]
fn chained_prefixes_nest_to_the_right() {
    let tree = parse_source(b"!!true").unwrap();
    match tree {
        Expression::Unary { operator, right } => {
            assert_eq!(operator.token_type, TokenType::Bang);
            match *right {
                Expression::Unary { operator: io, right: ir } => {
                    assert_eq!(io.token_type, TokenType::Bang);
                    assert!(
                        matches!(*ir, Expression::Literal { value: Literal::Boolean(true) })
                    );
                }
                _ => panic!("expected a nested prefix"),
            }
        }
        _ => panic!("expected a prefix at the root"),
    }
}

#[test]
fn literal_leaves() {
    assert!(matches!(
        parse_source(b"nil").unwrap(),
        Expression::Literal { value: Literal::Nil }
    ));
    assert!(matches!(
        parse_source(b"false").unwrap(),
        Expression::Literal { value: Literal::Boolean(false) }
    ));
    match parse_source(b"\"hi\"").unwrap() {
        Expression::Literal { value: Literal::Text(text) } => {
            assert_eq!(text, b"hi".to_vec());
        }
        _ => panic!("expected a text literal"),
    }
}

#[test]
fn empty_input_is_a_syntax_error() {
    let err = parse_source(b"").unwrap_err();
    assert_eq!(err.message, "Expect expression.".to_string());
    assert_eq!(err.line, 1);
}

#[test]
fn stray_operator_is_a_syntax_error() {
    let err = parse_source(b"+ 1").unwrap_err();
    assert_eq!(err.message, "Expect expression.".to_string());
    assert_eq!(err.lexeme, b"+".to_vec());
    assert_eq!(err.line, 1);
}

#[test]
fn reparsing_yields_an_identical_tree() {
    let mut scanner = Scanner::new();
    let tokens = scanner.scan_tokens(b"1 + (2 * 3) == 7");
    let mut first = Parser::new();
    first.tokens = tokens;
    let one = first.expression().unwrap();
    let mut second = Parser::new();
    second.tokens = scanner.scan_tokens(b"1 + (2 * 3) == 7");
    let two = second.expression().unwrap();
    assert_eq!(format!("{:?}", one), format!("{:?}", two));
}
