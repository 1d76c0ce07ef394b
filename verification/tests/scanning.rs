use lox::scanner::Literal;
use lox::scanner::LexErrorKind;
use lox::scanner::Scanner;
use lox::scanner::TokenType;
use lox::scanner::is_alphanumeric_underscore;

#[test]
fn test_is_alphanumeric_underscore() {
    assert_eq!(is_alphanumeric_underscore('a'), true);
    assert_eq!(is_alphanumeric_underscore('Z'), true);
    assert_eq!(is_alphanumeric_underscore('1'), true);
    assert_eq!(is_alphanumeric_underscore('0'), true);
    assert_eq!(is_alphanumeric_underscore(','), false);
    assert_eq!(is_alphanumeric_underscore('\0'), false);
    assert_eq!(is_alphanumeric_underscore('\n'), false);
}

fn numeric_value(literal: &Literal) -> f64 {
    match literal {
        Literal::Numeric(digits) => std::str::from_utf8(digits).unwrap().parse().unwrap(),
        _ => panic!("expected a numeric literal"),
    }
}

#[test]
fn grouping_and_product_token_kinds() {
    let mut scanner = Scanner::new();
    let tokens = scanner.scan_tokens(b"(1 + 2) * 3");
    let kinds: Vec<TokenType> = tokens.iter().map(|t| t.token_type).collect();
    assert_eq!(
        kinds,
        vec![
            TokenType::LeftParen,
            TokenType::Number,
            TokenType::Plus,
            TokenType::Number,
            TokenType::RightParen,
            TokenType::Star,
            TokenType::Number,
            TokenType::Eof,
        ]
    );
    assert_eq!(scanner.errors.len(), 0);
    assert_eq!(tokens[1].lexeme, b"1".to_vec());
    assert_eq!(tokens[3].lexeme, b"2".to_vec());
    assert_eq!(tokens[6].lexeme, b"3".to_vec());
    assert_eq!(numeric_value(&tokens[1].literal), 1.0);
    assert_eq!(numeric_value(&tokens[3].literal), 2.0);
    assert_eq!(numeric_value(&tokens[6].literal), 3.0);
}

#[test]
fn comment_is_skipped_and_lines_counted() {
    let mut scanner = Scanner::new();
    let tokens = scanner.scan_tokens(b"// comment\n42");
    assert_eq!(tokens.len(), 2);
    assert_eq!(tokens[0].token_type, TokenType::Number);
    assert_eq!(tokens[0].lexeme, b"42".to_vec());
    assert_eq!(numeric_value(&tokens[0].literal), 42.0);
    assert_eq!(tokens[1].token_type, TokenType::Eof);
    assert_eq!(tokens[1].line, 2);
    assert_eq!(scanner.errors.len(), 0);
}

#[test]
fn unterminated_string_is_an_error() {
    let mut scanner = Scanner::new();
    let tokens = scanner.scan_tokens(b"\"unterminated");
    assert_eq!(tokens.len(), 1);
    assert_eq!(tokens[0].token_type, TokenType::Eof);
    assert_eq!(scanner.errors.len(), 1);
    assert_eq!(scanner.errors[0].kind, LexErrorKind::UnterminatedString);
    assert_eq!(scanner.errors[0].line, 1);
}

#[test]
fn string_literal_value_and_lines() {
    let mut scanner = Scanner::new();
    let tokens = scanner.scan_tokens(b"\"hi\nthere\" 7");
    assert_eq!(tokens.len(), 3);
    assert_eq!(tokens[0].token_type, TokenType::String);
    assert_eq!(tokens[0].lexeme, b"\"hi\nthere\"".to_vec());
    assert_eq!(tokens[0].literal, Literal::Text(b"hi\nthere".to_vec()));
    assert_eq!(tokens[0].line, 1);
    assert_eq!(tokens[1].token_type, TokenType::Number);
    assert_eq!(tokens[1].line, 2);
    assert_eq!(tokens[2].line, 2);
}

#[test]
fn keywords_and_identifiers() {
    let mut scanner = Scanner::new();
    let tokens = scanner.scan_tokens(b"and or while foo _bar class2");
    let kinds: Vec<TokenType> = tokens.iter().map(|t| t.token_type).collect();
    assert_eq!(
        kinds,
        vec![
            TokenType::And,
            TokenType::Or,
            TokenType::While,
            TokenType::Identifier,
            TokenType::Identifier,
            TokenType::Identifier,
            TokenType::Eof,
        ]
    );
    assert_eq!(tokens[4].lexeme, b"_bar".to_vec());
    assert_eq!(tokens[5].lexeme, b"class2".to_vec());
}

#[test]
fn one_and_two_character_operators() {
    let mut scanner = Scanner::new();
    let tokens = scanner.scan_tokens(b"!= == <= >= < > ! = / .");
    let kinds: Vec<TokenType> = tokens.iter().map(|t| t.token_type).collect();
    assert_eq!(
        kinds,
        vec![
            TokenType::BangEqual,
            TokenType::EqualEqual,
            TokenType::LessEqual,
            TokenType::GreaterEqual,
            TokenType::Less,
            TokenType::Greater,
            TokenType::Bang,
            TokenType::Equal,
            TokenType::Slash,
            TokenType::Dot,
            TokenType::Eof,
        ]
    );
}

#[test]
fn trailing_dot_is_not_part_of_a_number() {
    let mut scanner = Scanner::new();
    let tokens = scanner.scan_tokens(b"123. 4.5");
    let kinds: Vec<TokenType> = tokens.iter().map(|t| t.token_type).collect();
    assert_eq!(
        kinds,
        vec![TokenType::Number, TokenType::Dot, TokenType::Number, TokenType::Eof]
    );
    assert_eq!(tokens[0].lexeme, b"123".to_vec());
    assert_eq!(tokens[2].lexeme, b"4.5".to_vec());
    assert_eq!(numeric_value(&tokens[2].literal), 4.5);
}

#[test]
fn unrecognized_character_is_recorded_and_skipped() {
    let mut scanner = Scanner::new();
    let tokens = scanner.scan_tokens(b"@ 1");
    assert_eq!(tokens.len(), 2);
    assert_eq!(tokens[0].token_type, TokenType::Number);
    assert_eq!(scanner.errors.len(), 1);
    assert_eq!(scanner.errors[0].kind, LexErrorKind::UnrecognizedCharacter(b'@'));
    assert_eq!(scanner.errors[0].line, 1);
}

#[test]
fn empty_source_yields_only_the_sentinel() {
    let mut scanner = Scanner::new();
    let tokens = scanner.scan_tokens(b"");
    assert_eq!(tokens.len(), 1);
    assert_eq!(tokens[0].token_type, TokenType::Eof);
    assert_eq!(tokens[0].lexeme, Vec::<u8>::new());
    assert_eq!(tokens[0].line, 1);
    assert_eq!(scanner.errors.len(), 0);
}

#[test]
fn scanner_runs_are_independent() {
    let mut scanner = Scanner::new();
    let first = scanner.scan_tokens(b"1 + 2");
    let second = scanner.scan_tokens(b"1 + 2");
    assert_eq!(first.len(), second.len());
    assert_eq!(first, second);
}
