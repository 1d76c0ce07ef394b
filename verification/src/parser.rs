use vstd::prelude::*;

use crate::scanner::Literal;
use crate::scanner::SpecLiteral;
use crate::scanner::SpecToken;
use crate::scanner::Token;
use crate::scanner::TokenType;

verus! {

/// An expression tree. A parent owns its children outright; no node is
/// shared, and none is mutated after the parser hands the tree out.
#[derive(Debug)]
pub enum Expression {
    Assign { name: Token, value: Box<Expression> },
    Binary { left: Box<Expression>, operator: Token, right: Box<Expression> },
    Literal { value: Literal },
    Grouping { expression: Box<Expression> },
    Unary { operator: Token, right: Box<Expression> },
}

/// The mathematical value of an [`Expression`].
#[verifier::ext_equal]
pub ghost enum SpecExpression {
    Assign { name: SpecToken, value: Box<SpecExpression> },
    Binary { left: Box<SpecExpression>, operator: SpecToken, right: Box<SpecExpression> },
    Literal { value: SpecLiteral },
    Grouping { expression: Box<SpecExpression> },
    Unary { operator: SpecToken, right: Box<SpecExpression> },
}

/// The mathematical value of an expression tree, node by node.
pub open spec fn spec_expr_view(e: &Expression) -> SpecExpression
    decreases e,
{
    match e {
        Expression::Assign { name, value } => SpecExpression::Assign {
            name: name@,
            value: Box::new(spec_expr_view(value)),
        },
        Expression::Binary { left, operator, right } => SpecExpression::Binary {
            left: Box::new(spec_expr_view(left)),
            operator: operator@,
            right: Box::new(spec_expr_view(right)),
        },
        Expression::Literal { value } => SpecExpression::Literal { value: value@ },
        Expression::Grouping { expression } => SpecExpression::Grouping {
            expression: Box::new(spec_expr_view(expression)),
        },
        Expression::Unary { operator, right } => SpecExpression::Unary {
            operator: operator@,
            right: Box::new(spec_expr_view(right)),
        },
    }
}

impl View for Expression {
    type V = SpecExpression;

    open spec fn view(&self) -> SpecExpression {
        spec_expr_view(self)
    }
}

/// A syntax error: the line and lexeme of the token that defeated the
/// parser, and what was expected instead.
#[derive(Debug, PartialEq, Eq)]
pub struct ParseError {
    pub line: usize,
    pub lexeme: Vec<u8>,
    pub message: String,
}

/// The mathematical value of a [`ParseError`].
#[verifier::ext_equal]
pub ghost struct SpecParseError {
    pub line: int,
    pub lexeme: Seq<u8>,
    pub message: Seq<char>,
}

impl View for ParseError {
    type V = SpecParseError;

    open spec fn view(&self) -> SpecParseError {
        SpecParseError { line: self.line as int, lexeme: self.lexeme@, message: self.message@ }
    }
}

/// The error attached to a token that fits no grammar production, built
/// from the token under the cursor.
pub open spec fn spec_err(ts: Seq<SpecToken>, pos: int, msg: Seq<char>) -> SpecParseError {
    if 0 <= pos < ts.len() {
        SpecParseError { line: ts[pos].line, lexeme: ts[pos].lexeme, message: msg }
    } else {
        arbitrary()
    }
}

/// The outcome of parsing one grammar production from position `pos`: the
/// expression and the position one past it, or the first syntax error.
pub type SpecParsed = Result<(SpecExpression, int), SpecParseError>;

/// Lowest-precedence binary level: `!=` and `==`, left-associative.
pub open spec fn spec_equality(ts: Seq<SpecToken>, pos: int) -> SpecParsed
    decreases ts.len() - pos, 9int,
{
    match spec_comparison(ts, pos) {
        Err(e) => Err(e),
        Ok((e0, p0)) => if pos < p0 <= ts.len() {
            spec_equality_rest(ts, p0, e0)
        } else {
            // A successful sub-parse always advances (lemma_parse_advances);
            // this branch only makes the recursion visibly well-founded.
            Err(arbitrary())
        },
    }
}

/// Folds further `!=` / `==` operands onto `left`, left-associatively.
pub open spec fn spec_equality_rest(ts: Seq<SpecToken>, pos: int, left: SpecExpression) -> SpecParsed
    decreases ts.len() - pos, 10int,
{
    if 0 <= pos < ts.len() && (ts[pos].token_type == TokenType::BangEqual || ts[pos].token_type
        == TokenType::EqualEqual) {
        match spec_comparison(ts, pos + 1) {
            Err(e) => Err(e),
            Ok((r, p)) => if pos < p <= ts.len() {
                spec_equality_rest(
                    ts,
                    p,
                    SpecExpression::Binary {
                        left: Box::new(left),
                        operator: ts[pos],
                        right: Box::new(r),
                    },
                )
            } else {
                Err(arbitrary())
            },
        }
    } else {
        Ok((left, pos))
    }
}

/// Comparison level: `>`, `>=`, `<`, `<=`, left-associative.
pub open spec fn spec_comparison(ts: Seq<SpecToken>, pos: int) -> SpecParsed
    decreases ts.len() - pos, 7int,
{
    match spec_addition(ts, pos) {
        Err(e) => Err(e),
        Ok((e0, p0)) => if pos < p0 <= ts.len() {
            spec_comparison_rest(ts, p0, e0)
        } else {
            Err(arbitrary())
        },
    }
}

/// Folds further comparison operands onto `left`, left-associatively.
pub open spec fn spec_comparison_rest(
    ts: Seq<SpecToken>,
    pos: int,
    left: SpecExpression,
) -> SpecParsed
    decreases ts.len() - pos, 8int,
{
    if 0 <= pos < ts.len() && (ts[pos].token_type == TokenType::Greater || ts[pos].token_type
        == TokenType::GreaterEqual || ts[pos].token_type == TokenType::Less || ts[pos].token_type
        == TokenType::LessEqual) {
        match spec_addition(ts, pos + 1) {
            Err(e) => Err(e),
            Ok((r, p)) => if pos < p <= ts.len() {
                spec_comparison_rest(
                    ts,
                    p,
                    SpecExpression::Binary {
                        left: Box::new(left),
                        operator: ts[pos],
                        right: Box::new(r),
                    },
                )
            } else {
                Err(arbitrary())
            },
        }
    } else {
        Ok((left, pos))
    }
}

/// Additive level: `-` and `+`, left-associative.
pub open spec fn spec_addition(ts: Seq<SpecToken>, pos: int) -> SpecParsed
    decreases ts.len() - pos, 5int,
{
    match spec_multiplication(ts, pos) {
        Err(e) => Err(e),
        Ok((e0, p0)) => if pos < p0 <= ts.len() {
            spec_addition_rest(ts, p0, e0)
        } else {
            Err(arbitrary())
        },
    }
}

/// Folds further additive operands onto `left`, left-associatively.
pub open spec fn spec_addition_rest(
    ts: Seq<SpecToken>,
    pos: int,
    left: SpecExpression,
) -> SpecParsed
    decreases ts.len() - pos, 6int,
{
    if 0 <= pos < ts.len() && (ts[pos].token_type == TokenType::Minus || ts[pos].token_type
        == TokenType::Plus) {
        match spec_multiplication(ts, pos + 1) {
            Err(e) => Err(e),
            Ok((r, p)) => if pos < p <= ts.len() {
                spec_addition_rest(
                    ts,
                    p,
                    SpecExpression::Binary {
                        left: Box::new(left),
                        operator: ts[pos],
                        right: Box::new(r),
                    },
                )
            } else {
                Err(arbitrary())
            },
        }
    } else {
        Ok((left, pos))
    }
}

/// Multiplicative level: `/` and `*`, left-associative.
pub open spec fn spec_multiplication(ts: Seq<SpecToken>, pos: int) -> SpecParsed
    decreases ts.len() - pos, 3int,
{
    match spec_unary(ts, pos) {
        Err(e) => Err(e),
        Ok((e0, p0)) => if pos < p0 <= ts.len() {
            spec_multiplication_rest(ts, p0, e0)
        } else {
            Err(arbitrary())
        },
    }
}

/// Folds further multiplicative operands onto `left`, left-associatively.
pub open spec fn spec_multiplication_rest(
    ts: Seq<SpecToken>,
    pos: int,
    left: SpecExpression,
) -> SpecParsed
    decreases ts.len() - pos, 4int,
{
    if 0 <= pos < ts.len() && (ts[pos].token_type == TokenType::Slash || ts[pos].token_type
        == TokenType::Star) {
        match spec_unary(ts, pos + 1) {
            Err(e) => Err(e),
            Ok((r, p)) => if pos < p <= ts.len() {
                spec_multiplication_rest(
                    ts,
                    p,
                    SpecExpression::Binary {
                        left: Box::new(left),
                        operator: ts[pos],
                        right: Box::new(r),
                    },
                )
            } else {
                Err(arbitrary())
            },
        }
    } else {
        Ok((left, pos))
    }
}

/// Prefix level: chains of `!` and `-`, right-associative.
pub open spec fn spec_unary(ts: Seq<SpecToken>, pos: int) -> SpecParsed
    decreases ts.len() - pos, 2int,
{
    if 0 <= pos < ts.len() && (ts[pos].token_type == TokenType::Bang || ts[pos].token_type
        == TokenType::Minus) {
        match spec_unary(ts, pos + 1) {
            Err(e) => Err(e),
            Ok((r, p)) => Ok(
                (SpecExpression::Unary { operator: ts[pos], right: Box::new(r) }, p),
            ),
        }
    } else {
        spec_primary(ts, pos)
    }
}

/// Highest level: literal leaves and parenthesized groupings. Any other
/// token is a syntax error; the grammar has no further fallback.
pub open spec fn spec_primary(ts: Seq<SpecToken>, pos: int) -> SpecParsed
    decreases ts.len() - pos, 1int,
{
    if 0 <= pos < ts.len() {
        let t = ts[pos];
        if t.token_type == TokenType::False {
            Ok((SpecExpression::Literal { value: SpecLiteral::Boolean(false) }, pos + 1))
        } else if t.token_type == TokenType::True {
            Ok((SpecExpression::Literal { value: SpecLiteral::Boolean(true) }, pos + 1))
        } else if t.token_type == TokenType::Nil {
            Ok((SpecExpression::Literal { value: SpecLiteral::Nil }, pos + 1))
        } else if t.token_type == TokenType::Number || t.token_type == TokenType::String {
            Ok((SpecExpression::Literal { value: t.literal }, pos + 1))
        } else if t.token_type == TokenType::LeftParen {
            match spec_expression(ts, pos + 1) {
                Err(e) => Err(e),
                Ok((inner, p)) => if 0 <= p < ts.len() && ts[p].token_type
                    == TokenType::RightParen {
                    Ok((SpecExpression::Grouping { expression: Box::new(inner) }, p + 1))
                } else {
                    Err(spec_err(ts, p, "Expect ')' after expression."@))
                },
            }
        } else {
            Err(spec_err(ts, pos, "Expect expression."@))
        }
    } else {
        Err(arbitrary())
    }
}

/// One whole expression: the entry production, an alias for the lowest
/// binary level.
pub open spec fn spec_expression(ts: Seq<SpecToken>, pos: int) -> SpecParsed
    decreases ts.len() - pos, 11int,
{
    spec_equality(ts, pos)
}

/// A successful sub-parse consumes at least one token and never runs past
/// the end of the sequence; the folding levels consume zero or more.
#[verifier::rlimit(100)]
pub proof fn lemma_parse_advances(ts: Seq<SpecToken>, pos: int)
    ensures
        spec_primary(ts, pos) is Ok ==> pos < spec_primary(ts, pos)->Ok_0.1 <= ts.len(),
        spec_unary(ts, pos) is Ok ==> pos < spec_unary(ts, pos)->Ok_0.1 <= ts.len(),
        spec_multiplication(ts, pos) is Ok ==> pos < spec_multiplication(ts, pos)->Ok_0.1
            <= ts.len(),
        spec_addition(ts, pos) is Ok ==> pos < spec_addition(ts, pos)->Ok_0.1 <= ts.len(),
        spec_comparison(ts, pos) is Ok ==> pos < spec_comparison(ts, pos)->Ok_0.1 <= ts.len(),
        spec_equality(ts, pos) is Ok ==> pos < spec_equality(ts, pos)->Ok_0.1 <= ts.len(),
        spec_expression(ts, pos) is Ok ==> pos < spec_expression(ts, pos)->Ok_0.1 <= ts.len(),
    decreases ts.len() - pos, 20int,
{
    if 0 <= pos < ts.len() {
        lemma_parse_advances(ts, pos + 1);
        assert(spec_primary(ts, pos) is Ok ==> pos < spec_primary(ts, pos)->Ok_0.1 <= ts.len());
        assert(spec_unary(ts, pos) is Ok ==> pos < spec_unary(ts, pos)->Ok_0.1 <= ts.len());
        match spec_unary(ts, pos) {
            Err(_) => {}
            Ok((e0, p0)) => {
                lemma_rest_advances(ts, p0, e0);
            }
        }
        assert(spec_multiplication(ts, pos) is Ok ==> pos < spec_multiplication(ts, pos)->Ok_0.1
            <= ts.len());
        match spec_multiplication(ts, pos) {
            Err(_) => {}
            Ok((e0, p0)) => {
                lemma_rest_advances(ts, p0, e0);
            }
        }
        assert(spec_addition(ts, pos) is Ok ==> pos < spec_addition(ts, pos)->Ok_0.1 <= ts.len());
        match spec_addition(ts, pos) {
            Err(_) => {}
            Ok((e0, p0)) => {
                lemma_rest_advances(ts, p0, e0);
            }
        }
        assert(spec_comparison(ts, pos) is Ok ==> pos < spec_comparison(ts, pos)->Ok_0.1
            <= ts.len());
        match spec_comparison(ts, pos) {
            Err(_) => {}
            Ok((e0, p0)) => {
                lemma_rest_advances(ts, p0, e0);
            }
        }
        assert(spec_equality(ts, pos) is Ok ==> pos < spec_equality(ts, pos)->Ok_0.1 <= ts.len());
    } else {
        assert(spec_primary(ts, pos) is Err);
        assert(spec_unary(ts, pos) is Err);
        assert(spec_multiplication(ts, pos) is Err);
        assert(spec_addition(ts, pos) is Err);
        assert(spec_comparison(ts, pos) is Err);
        assert(spec_equality(ts, pos) is Err);
    }
}

/// The folding levels never move backwards and never run past the end.
pub proof fn lemma_rest_advances(ts: Seq<SpecToken>, pos: int, left: SpecExpression)
    requires
        pos <= ts.len(),
    ensures
        spec_multiplication_rest(ts, pos, left) is Ok ==> pos <= spec_multiplication_rest(
            ts,
            pos,
            left,
        )->Ok_0.1 <= ts.len(),
        spec_addition_rest(ts, pos, left) is Ok ==> pos <= spec_addition_rest(
            ts,
            pos,
            left,
        )->Ok_0.1 <= ts.len(),
        spec_comparison_rest(ts, pos, left) is Ok ==> pos <= spec_comparison_rest(
            ts,
            pos,
            left,
        )->Ok_0.1 <= ts.len(),
        spec_equality_rest(ts, pos, left) is Ok ==> pos <= spec_equality_rest(
            ts,
            pos,
            left,
        )->Ok_0.1 <= ts.len(),
    decreases ts.len() - pos, 21int,
{
    if 0 <= pos < ts.len() {
        lemma_parse_advances(ts, pos + 1);
        match spec_unary(ts, pos + 1) {
            Err(_) => {}
            Ok((r, p)) => {
                if pos < p <= ts.len() {
                    lemma_rest_advances(
                        ts,
                        p,
                        SpecExpression::Binary {
                            left: Box::new(left),
                            operator: ts[pos],
                            right: Box::new(r),
                        },
                    );
                }
            }
        }
        match spec_multiplication(ts, pos + 1) {
            Err(_) => {}
            Ok((r, p)) => {
                if pos < p <= ts.len() {
                    lemma_rest_advances(
                        ts,
                        p,
                        SpecExpression::Binary {
                            left: Box::new(left),
                            operator: ts[pos],
                            right: Box::new(r),
                        },
                    );
                }
            }
        }
        match spec_addition(ts, pos + 1) {
            Err(_) => {}
            Ok((r, p)) => {
                if pos < p <= ts.len() {
                    lemma_rest_advances(
                        ts,
                        p,
                        SpecExpression::Binary {
                            left: Box::new(left),
                            operator: ts[pos],
                            right: Box::new(r),
                        },
                    );
                }
            }
        }
        match spec_comparison(ts, pos + 1) {
            Err(_) => {}
            Ok((r, p)) => {
                if pos < p <= ts.len() {
                    lemma_rest_advances(
                        ts,
                        p,
                        SpecExpression::Binary {
                            left: Box::new(left),
                            operator: ts[pos],
                            right: Box::new(r),
                        },
                    );
                }
            }
        }
    }
}

/// There is an end-of-input token at or after position `pos`. The parser
/// never steps past such a token, so this is its safety invariant.
pub open spec fn has_eof_from(ts: Seq<SpecToken>, pos: int) -> bool {
    exists|i: int| pos <= i < ts.len() && ts[i].token_type == TokenType::Eof
}

/// A guarded end-of-input token keeps the cursor inside the sequence.
pub proof fn lemma_eof_bounds(ts: Seq<SpecToken>, pos: int)
    requires
        has_eof_from(ts, pos),
    ensures
        0 <= pos ==> pos < ts.len(),
{
    let i = choose|i: int| pos <= i < ts.len() && ts[i].token_type == TokenType::Eof;
}

/// Consuming a token other than end-of-input keeps an end-of-input token
/// ahead of the cursor.
pub proof fn lemma_eof_step(ts: Seq<SpecToken>, pos: int)
    requires
        has_eof_from(ts, pos),
        0 <= pos < ts.len(),
        ts[pos].token_type != TokenType::Eof,
    ensures
        has_eof_from(ts, pos + 1),
{
    let i = choose|i: int| pos <= i < ts.len() && ts[i].token_type == TokenType::Eof;
    assert(i != pos);
    assert(pos + 1 <= i < ts.len() && ts[i].token_type == TokenType::Eof);
}

/// The token at `pos` is not end-of-input and has kind `t`: what a
/// successful `check` observes.
pub open spec fn spec_check_at(ts: Seq<SpecToken>, pos: int, t: TokenType) -> bool {
    ts[pos].token_type != TokenType::Eof && ts[pos].token_type == t
}

/// The token at `pos` is not end-of-input and its kind is one of `kinds`:
/// what a successful `matcher` observes.
pub open spec fn spec_match_any(ts: Seq<SpecToken>, pos: int, kinds: Seq<TokenType>) -> bool {
    ts[pos].token_type != TokenType::Eof && kinds.contains(ts[pos].token_type)
}

/// The executable result `r` and final cursor `endpos` agree with the
/// mathematical parse `s`: same tree and cursor on success, same error on
/// failure.
pub open spec fn parse_outcome(
    r: Result<Expression, ParseError>,
    s: SpecParsed,
    endpos: int,
) -> bool {
    match s {
        Ok((e, p)) => r is Ok && r->Ok_0@ == e && endpos == p,
        Err(se) => r is Err && r->Err_0@ == se,
    }
}

/// The recursive-descent parser: a token sequence and one forward cursor.
pub struct Parser {
    /// The tokens under consideration; the parser never changes them.
    pub tokens: Vec<Token>,
    /// How many tokens have been consumed.
    pub current: usize,
}

impl Parser {
    /// The parser's safety invariant: an end-of-input token stands at or
    /// after the cursor, so every lookahead lands on a real token.
    pub open spec fn wf(&self) -> bool {
        has_eof_from(self.tokens.deep_view(), self.current as int)
    }

    /// A parser with no tokens and the cursor at the start. Fill `tokens`
    /// with a scan that ends in an end-of-input token before parsing.
    pub fn new() -> (r: Parser)
        ensures
            r.tokens@.len() == 0,
            r.current == 0,
    {
        Parser { tokens: Vec::new(), current: 0 }
    }

    /// Parses one whole expression from the cursor onwards: exactly the
    /// mathematical parse [`spec_expression`] of the token sequence.
    pub fn expression(&mut self) -> (r: Result<Expression, ParseError>)
        requires
            old(self).wf(),
        ensures
            final(self).tokens == old(self).tokens,
            final(self).wf(),
            old(self).current <= final(self).current,
            parse_outcome(
                r,
                spec_expression(old(self).tokens.deep_view(), old(self).current as int),
                final(self).current as int,
            ),
        decreases old(self).tokens@.len() - old(self).current, 11int,
    {
        let r = self.equality();
        r
    }

    /// The `!=` / `==` level, folded left-associatively.
    #[verifier::loop_isolation(false)]
    #[verifier::rlimit(100)]
    fn equality(&mut self) -> (r: Result<Expression, ParseError>)
        requires
            old(self).wf(),
        ensures
            final(self).tokens == old(self).tokens,
            final(self).wf(),
            old(self).current <= final(self).current,
            parse_outcome(
                r,
                spec_equality(old(self).tokens.deep_view(), old(self).current as int),
                final(self).current as int,
            ),
        decreases old(self).tokens@.len() - old(self).current, 9int,
    {
        let ghost ts = self.tokens.deep_view();
        let ghost cur0 = self.current as int;
        let mut expr = match self.comparison() {
            Ok(e) => e,
            Err(err) => {
                return Err(err);
            }
        };
        proof {
            lemma_parse_advances(ts, cur0);
        }
        while self.matcher(&vec![TokenType::BangEqual, TokenType::EqualEqual])
            invariant
                self.tokens == old(self).tokens,
                self.tokens.deep_view() == ts,
                self.wf(),
                cur0 <= self.current <= ts.len(),
                spec_equality(ts, cur0) == spec_equality_rest(ts, self.current as int, expr@),
            decreases ts.len() - self.current,
        {
            let ghost opos = self.current - 1;
            let operator = self.previous().clone();
            let right = match self.comparison() {
                Ok(e) => e,
                Err(err) => {
                    return Err(err);
                }
            };
            proof {
                lemma_parse_advances(ts, opos + 1);
            }
            expr = Expression::Binary {
                left: Box::new(expr),
                operator,
                right: Box::new(right),
            };
        }
        Ok(expr)
    }

    /// The `>` / `>=` / `<` / `<=` level, folded left-associatively.
    #[verifier::loop_isolation(false)]
    #[verifier::rlimit(100)]
    fn comparison(&mut self) -> (r: Result<Expression, ParseError>)
        requires
            old(self).wf(),
        ensures
            final(self).tokens == old(self).tokens,
            final(self).wf(),
            old(self).current <= final(self).current,
            parse_outcome(
                r,
                spec_comparison(old(self).tokens.deep_view(), old(self).current as int),
                final(self).current as int,
            ),
        decreases old(self).tokens@.len() - old(self).current, 7int,
    {
        let ghost ts = self.tokens.deep_view();
        let ghost cur0 = self.current as int;
        let mut expr = match self.addition() {
            Ok(e) => e,
            Err(err) => {
                return Err(err);
            }
        };
        proof {
            lemma_parse_advances(ts, cur0);
        }
        while self.matcher(
            &vec![
                TokenType::Greater,
                TokenType::GreaterEqual,
                TokenType::Less,
                TokenType::LessEqual,
            ],
        )
            invariant
                self.tokens == old(self).tokens,
                self.tokens.deep_view() == ts,
                self.wf(),
                cur0 <= self.current <= ts.len(),
                spec_comparison(ts, cur0) == spec_comparison_rest(ts, self.current as int, expr@),
            decreases ts.len() - self.current,
        {
            let ghost opos = self.current - 1;
            let operator = self.previous().clone();
            let right = match self.addition() {
                Ok(e) => e,
                Err(err) => {
                    return Err(err);
                }
            };
            proof {
                lemma_parse_advances(ts, opos + 1);
            }
            expr = Expression::Binary {
                left: Box::new(expr),
                operator,
                right: Box::new(right),
            };
        }
        Ok(expr)
    }

    /// The `-` / `+` level, folded left-associatively.
    #[verifier::loop_isolation(false)]
    #[verifier::rlimit(100)]
    fn addition(&mut self) -> (r: Result<Expression, ParseError>)
        requires
            old(self).wf(),
        ensures
            final(self).tokens == old(self).tokens,
            final(self).wf(),
            old(self).current <= final(self).current,
            parse_outcome(
                r,
                spec_addition(old(self).tokens.deep_view(), old(self).current as int),
                final(self).current as int,
            ),
        decreases old(self).tokens@.len() - old(self).current, 5int,
    {
        let ghost ts = self.tokens.deep_view();
        let ghost cur0 = self.current as int;
        let mut expr = match self.multiplication() {
            Ok(e) => e,
            Err(err) => {
                return Err(err);
            }
        };
        proof {
            lemma_parse_advances(ts, cur0);
        }
        while self.matcher(&vec![TokenType::Minus, TokenType::Plus])
            invariant
                self.tokens == old(self).tokens,
                self.tokens.deep_view() == ts,
                self.wf(),
                cur0 <= self.current <= ts.len(),
                spec_addition(ts, cur0) == spec_addition_rest(ts, self.current as int, expr@),
            decreases ts.len() - self.current,
        {
            let ghost opos = self.current - 1;
            let operator = self.previous().clone();
            let right = match self.multiplication() {
                Ok(e) => e,
                Err(err) => {
                    return Err(err);
                }
            };
            proof {
                lemma_parse_advances(ts, opos + 1);
            }
            expr = Expression::Binary {
                left: Box::new(expr),
                operator,
                right: Box::new(right),
            };
        }
        Ok(expr)
    }

    /// The `/` / `*` level, folded left-associatively.
    #[verifier::loop_isolation(false)]
    #[verifier::rlimit(100)]
    fn multiplication(&mut self) -> (r: Result<Expression, ParseError>)
        requires
            old(self).wf(),
        ensures
            final(self).tokens == old(self).tokens,
            final(self).wf(),
            old(self).current <= final(self).current,
            parse_outcome(
                r,
                spec_multiplication(old(self).tokens.deep_view(), old(self).current as int),
                final(self).current as int,
            ),
        decreases old(self).tokens@.len() - old(self).current, 3int,
    {
        let ghost ts = self.tokens.deep_view();
        let ghost cur0 = self.current as int;
        let mut expr = match self.unary() {
            Ok(e) => e,
            Err(err) => {
                return Err(err);
            }
        };
        proof {
            lemma_parse_advances(ts, cur0);
        }
        while self.matcher(&vec![TokenType::Slash, TokenType::Star])
            invariant
                self.tokens == old(self).tokens,
                self.tokens.deep_view() == ts,
                self.wf(),
                cur0 <= self.current <= ts.len(),
                spec_multiplication(ts, cur0) == spec_multiplication_rest(
                    ts,
                    self.current as int,
                    expr@,
                ),
            decreases ts.len() - self.current,
        {
            let ghost opos = self.current - 1;
            let operator = self.previous().clone();
            let right = match self.unary() {
                Ok(e) => e,
                Err(err) => {
                    return Err(err);
                }
            };
            proof {
                lemma_parse_advances(ts, opos + 1);
            }
            expr = Expression::Binary {
                left: Box::new(expr),
                operator,
                right: Box::new(right),
            };
        }
        Ok(expr)
    }

    /// The prefix level: `!` and `-` applied to a further unary expression,
    /// so chained prefixes nest to the right.
    fn unary(&mut self) -> (r: Result<Expression, ParseError>)
        requires
            old(self).wf(),
        ensures
            final(self).tokens == old(self).tokens,
            final(self).wf(),
            old(self).current <= final(self).current,
            parse_outcome(
                r,
                spec_unary(old(self).tokens.deep_view(), old(self).current as int),
                final(self).current as int,
            ),
        decreases old(self).tokens@.len() - old(self).current, 2int,
    {
        if self.matcher(&vec![TokenType::Bang, TokenType::Minus]) {
            let operator = self.previous().clone();
            match self.unary() {
                Ok(right) => Ok(
                    Expression::Unary { operator, right: Box::new(right) },
                ),
                Err(err) => Err(err),
            }
        } else {
            let r = self.primary();
            r
        }
    }

    /// The leaf level: literal constants and parenthesized groupings. Any
    /// other token is a syntax error.
    #[verifier::loop_isolation(false)]
    #[verifier::rlimit(100)]
    fn primary(&mut self) -> (r: Result<Expression, ParseError>)
        requires
            old(self).wf(),
        ensures
            final(self).tokens == old(self).tokens,
            final(self).wf(),
            old(self).current <= final(self).current,
            parse_outcome(
                r,
                spec_primary(old(self).tokens.deep_view(), old(self).current as int),
                final(self).current as int,
            ),
        decreases old(self).tokens@.len() - old(self).current, 1int,
    {
        let ghost ts = self.tokens.deep_view();
        let ghost cur0 = self.current as int;
        if self.matcher(&vec![TokenType::False]) {
            Ok(Expression::Literal { value: Literal::boolean(false) })
        } else if self.matcher(&vec![TokenType::True]) {
            Ok(Expression::Literal { value: Literal::boolean(true) })
        } else if self.matcher(&vec![TokenType::Nil]) {
            Ok(Expression::Literal { value: Literal::Nil })
        } else if self.matcher(&vec![TokenType::Number]) {
            Ok(Expression::Literal { value: self.previous().literal.clone() })
        } else if self.matcher(&vec![TokenType::String]) {
            Ok(Expression::Literal { value: self.previous().literal.clone() })
        } else if self.matcher(&vec![TokenType::LeftParen]) {
            let expr = match self.expression() {
                Ok(e) => e,
                Err(err) => {
                    return Err(err);
                }
            };
            proof {
                lemma_parse_advances(ts, cur0 + 1);
                lemma_eof_bounds(ts, self.current as int);
            }
            match self.consume(&TokenType::RightParen, "Expect ')' after expression.") {
                Ok(_) => Ok(Expression::Grouping { expression: Box::new(expr) }),
                Err(err) => Err(err),
            }
        } else {
            proof {
                lemma_eof_bounds(ts, cur0);
            }
            let line = self.peek().line;
            let lex = self.peek().lexeme.clone();
            proof {
                assert(lex@ =~= ts[cur0].lexeme);
            }
            Err(ParseError { line, lexeme: lex, message: "Expect expression.".to_owned() })
        }
    }

    /// Consumes the current token when its kind is one of `ttypes`; a
    /// single token of lookahead chooses every production.
    fn matcher(&mut self, ttypes: &Vec<TokenType>) -> (r: bool)
        requires
            old(self).wf(),
        ensures
            final(self).tokens == old(self).tokens,
            final(self).wf(),
            r == spec_match_any(
                old(self).tokens.deep_view(),
                old(self).current as int,
                ttypes@,
            ),
            final(self).current == if r {
                old(self).current + 1
            } else {
                old(self).current as int
            },
    {
        let ghost ts = self.tokens.deep_view();
        let ghost cur0 = self.current as int;
        let mut i: usize = 0;
        while i < ttypes.len()
            invariant
                self == old(self),
                self.wf(),
                ts == self.tokens.deep_view(),
                cur0 == self.current as int,
                i <= ttypes@.len(),
                forall|j: int| 0 <= j < i ==> !spec_check_at(ts, cur0, ttypes@[j]),
            decreases ttypes@.len() - i,
        {
            let t = ttypes[i];
            if self.check(&t) {
                self.advance();
                proof {
                    assert(ttypes@.contains(ts[cur0].token_type));
                }
                return true;
            }
            i = i + 1;
        }
        proof {
            assert(!spec_match_any(ts, cur0, ttypes@)) by {
                if ts[cur0].token_type != TokenType::Eof && ttypes@.contains(
                    ts[cur0].token_type,
                ) {
                    let j = choose|j: int|
                        0 <= j < ttypes@.len() && ttypes@[j] == ts[cur0].token_type;
                    assert(!spec_check_at(ts, cur0, ttypes@[j]));
                }
            }
        }
        false
    }

    /// The current token is not end-of-input and has the given kind.
    fn check(&self, ttype: &TokenType) -> (r: bool)
        requires
            self.wf(),
        ensures
            r == spec_check_at(self.tokens.deep_view(), self.current as int, *ttype),
    {
        if self.is_at_end() {
            return false;
        }
        self.peek().token_type == *ttype
    }

    /// Steps the cursor over one token; never steps over end-of-input.
    fn advance(&mut self)
        requires
            old(self).wf(),
            old(self).tokens.deep_view()[old(self).current as int].token_type != TokenType::Eof,
        ensures
            final(self).tokens == old(self).tokens,
            final(self).wf(),
            final(self).current == old(self).current + 1,
    {
        proof {
            lemma_eof_bounds(self.tokens.deep_view(), self.current as int);
            lemma_eof_step(self.tokens.deep_view(), self.current as int);
        }
        if !self.is_at_end() {
            let n: usize = self.tokens.len();
            proof {
                assert(self.current < n);
            }
            self.current = self.current + 1;
        }
    }

    /// The cursor rests on the end-of-input token.
    fn is_at_end(&self) -> (r: bool)
        requires
            self.wf(),
        ensures
            r == (self.tokens.deep_view()[self.current as int].token_type == TokenType::Eof),
    {
        self.peek().token_type == TokenType::Eof
    }

    /// The token under the cursor, unconsumed.
    fn peek(&self) -> (r: &Token)
        requires
            self.wf(),
        ensures
            r@ == self.tokens.deep_view()[self.current as int],
    {
        proof {
            lemma_eof_bounds(self.tokens.deep_view(), self.current as int);
        }
        &self.tokens[self.current]
    }

    /// The most recently consumed token.
    fn previous(&self) -> (r: &Token)
        requires
            1 <= self.current <= self.tokens@.len(),
        ensures
            r@ == self.tokens.deep_view()[self.current - 1],
    {
        &self.tokens[self.current - 1]
    }

    /// Consumes the current token when it has the expected kind; otherwise
    /// reports a syntax error carrying that token's line and lexeme together
    /// with `error_msg`, and does not advance. This is the grammar's only
    /// checked-failure point.
    fn consume(&mut self, ttype: &TokenType, error_msg: &str) -> (r: Result<Token, ParseError>)
        requires
            old(self).wf(),
        ensures
            final(self).tokens == old(self).tokens,
            final(self).wf(),
            spec_check_at(old(self).tokens.deep_view(), old(self).current as int, *ttype)
                ==> r is Ok && r->Ok_0@ == old(self).tokens.deep_view()[old(self).current as int]
                && final(self).current == old(self).current + 1,
            !spec_check_at(old(self).tokens.deep_view(), old(self).current as int, *ttype)
                ==> r is Err && final(self).current == old(self).current && r->Err_0@
                == (SpecParseError {
                line: old(self).tokens.deep_view()[old(self).current as int].line,
                lexeme: old(self).tokens.deep_view()[old(self).current as int].lexeme,
                message: error_msg@,
            }),
    {
        let ghost ts = self.tokens.deep_view();
        let ghost cur0 = self.current as int;
        if self.check(ttype) {
            self.advance();
            let t = self.previous().clone();
            Ok(t)
        } else {
            proof {
                lemma_eof_bounds(ts, cur0);
            }
            let line = self.peek().line;
            let lex = self.peek().lexeme.clone();
            proof {
                assert(lex@ =~= ts[cur0].lexeme);
            }
            Err(ParseError { line, lexeme: lex, message: error_msg.to_owned() })
        }
    }
}

/// Parsing is a pure function of the token sequence: two parsers over
/// structurally identical tokens, each with its cursor reset to the start,
/// are bound to structurally identical outcomes, so re-parsing the same
/// tokens always yields an identical tree.
pub proof fn lemma_reparse_identical(first: Parser, second: Parser)
    requires
        first.tokens.deep_view() == second.tokens.deep_view(),
        first.current == 0,
        second.current == 0,
    ensures
        spec_expression(first.tokens.deep_view(), 0) == spec_expression(
            second.tokens.deep_view(),
            0,
        ),
{
}

} // verus!
