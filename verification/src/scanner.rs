use vstd::prelude::*;

use crate::spans::NEWLINE;
use crate::spans::QUOTE;
use crate::spans::comment_end;
use crate::spans::digits_end;
use crate::spans::ident_end;
use crate::spans::is_alnum_byte;
use crate::spans::is_alpha_byte;
use crate::spans::is_digit_byte;
use crate::spans::newlines_between;
use crate::spans::string_close;

verus! {

broadcast use crate::spans::lemma_digits_end, crate::spans::lemma_ident_end,
    crate::spans::lemma_comment_end, crate::spans::lemma_string_close,
    crate::spans::lemma_newlines_between_bounds, crate::spans::lemma_newlines_one;

/// The classification of a token: every token the lexer can produce carries
/// exactly one of these kinds.
#[derive(Debug, Clone, Copy, PartialEq, Eq, Structural)]
pub enum TokenType {
    // Single-character tokens.
    LeftParen,
    RightParen,
    LeftBrace,
    RightBrace,
    Comma,
    Dot,
    Minus,
    Plus,
    Semicolon,
    Slash,
    Star,
    // One or two character tokens.
    Bang,
    BangEqual,
    Equal,
    EqualEqual,
    Greater,
    GreaterEqual,
    Less,
    LessEqual,
    // Literals.
    Identifier,
    String,
    Number,
    // Keywords.
    And,
    Class,
    Else,
    False,
    Fun,
    For,
    If,
    Nil,
    Or,
    Print,
    Return,
    Super,
    This,
    True,
    Var,
    While,
    Eof,
}

/// Whether a character is an ASCII letter, an ASCII digit, or an underscore.
pub open spec fn spec_is_alphanumeric_underscore(c: char) -> bool {
    ('0' <= c && c <= '9') || ('a' <= c && c <= 'z') || ('A' <= c && c <= 'Z') || c == '_'
}

/// Decides whether a character may continue an identifier: an ASCII letter,
/// an ASCII digit, or an underscore.
pub fn is_alphanumeric_underscore(c: char) -> (r: bool)
    ensures
        r == spec_is_alphanumeric_underscore(c),
{
    ('0' <= c && c <= '9') || ('a' <= c && c <= 'z') || ('A' <= c && c <= 'Z') || c == '_'
}

/// The semantic value carried by a token. A number keeps the exact digit
/// span it was written with (sign-free, decimal, optionally with a single
/// fractional part), so no precision is lost and a later stage may convert
/// it to whatever numeric type it evaluates with. A string keeps the raw
/// bytes strictly between its quotes.
#[derive(Debug, PartialEq, Eq)]
pub enum Literal {
    Numeric(Vec<u8>),
    Text(Vec<u8>),
    Boolean(bool),
    Nil,
}

/// The mathematical value of a [`Literal`].
#[verifier::ext_equal]
pub ghost enum SpecLiteral {
    Numeric(Seq<u8>),
    Text(Seq<u8>),
    Boolean(bool),
    Nil,
}

impl View for Literal {
    type V = SpecLiteral;

    open spec fn view(&self) -> SpecLiteral {
        match self {
            Literal::Numeric(digits) => SpecLiteral::Numeric(digits@),
            Literal::Text(text) => SpecLiteral::Text(text@),
            Literal::Boolean(b) => SpecLiteral::Boolean(*b),
            Literal::Nil => SpecLiteral::Nil,
        }
    }
}

impl DeepView for Literal {
    type V = SpecLiteral;

    open spec fn deep_view(&self) -> SpecLiteral {
        self.view()
    }
}

impl Literal {
    /// The literal attached to the `true` and `false` keywords when they are
    /// turned into expression leaves.
    pub fn boolean(b: bool) -> (r: Literal)
        ensures
            r@ == SpecLiteral::Boolean(b),
    {
        Literal::Boolean(b)
    }
}

impl Clone for Token {
    /// Clones a token; the copy carries the same view.
    fn clone(&self) -> (r: Token)
        ensures
            r@ == self@,
    {
        let r = Token {
            token_type: self.token_type,
            lexeme: self.lexeme.clone(),
            literal: self.literal.clone(),
            line: self.line,
        };
        proof {
            assert(r.lexeme@ =~= self.lexeme@);
            assert(r@ =~= self@);
        }
        r
    }
}

impl Clone for Literal {
    /// Clones a literal; the copy carries the same view.
    fn clone(&self) -> (r: Literal)
        ensures
            r@ == self@,
    {
        let r = match self {
            Literal::Numeric(digits) => Literal::Numeric(digits.clone()),
            Literal::Text(text) => Literal::Text(text.clone()),
            Literal::Boolean(b) => Literal::Boolean(*b),
            Literal::Nil => Literal::Nil,
        };
        proof {
            match self {
                Literal::Numeric(digits) => {
                    assert(r->Numeric_0@ =~= digits@);
                }
                Literal::Text(text) => {
                    assert(r->Text_0@ =~= text@);
                }
                _ => {}
            }
        }
        r
    }
}

/// One classified unit of source text: its kind, the exact source bytes it
/// was derived from, its semantic value, and the 1-based line it began on.
#[derive(Debug, PartialEq, Eq)]
pub struct Token {
    pub token_type: TokenType,
    pub lexeme: Vec<u8>,
    pub literal: Literal,
    pub line: usize,
}

/// The mathematical value of a [`Token`].
#[verifier::ext_equal]
pub ghost struct SpecToken {
    pub token_type: TokenType,
    pub lexeme: Seq<u8>,
    pub literal: SpecLiteral,
    pub line: int,
}

impl View for Token {
    type V = SpecToken;

    open spec fn view(&self) -> SpecToken {
        SpecToken {
            token_type: self.token_type,
            lexeme: self.lexeme@,
            literal: self.literal@,
            line: self.line as int,
        }
    }
}

impl DeepView for Token {
    type V = SpecToken;

    open spec fn deep_view(&self) -> SpecToken {
        self.view()
    }
}

/// What went wrong at some point of a scan.
#[derive(Debug, Clone, Copy, PartialEq, Eq, Structural)]
pub enum LexErrorKind {
    /// End of input was reached inside a string literal.
    UnterminatedString,
    /// The byte matches no token-start rule; it is recorded and skipped.
    UnrecognizedCharacter(u8),
}

/// A recoverable lexical error together with the 1-based line it was
/// detected on. Scanning records it and continues.
#[derive(Debug, Clone, Copy, PartialEq, Eq, Structural)]
pub struct LexError {
    pub kind: LexErrorKind,
    pub line: usize,
}

/// The mathematical value of a [`LexError`].
#[verifier::ext_equal]
pub ghost struct SpecLexError {
    pub kind: LexErrorKind,
    pub line: int,
}

impl View for LexError {
    type V = SpecLexError;

    open spec fn view(&self) -> SpecLexError {
        SpecLexError { kind: self.kind, line: self.line as int }
    }
}

impl DeepView for LexError {
    type V = SpecLexError;

    open spec fn deep_view(&self) -> SpecLexError {
        self.view()
    }
}

/// End of a number literal that starts at `pos`: a maximal digit run,
/// optionally extended over a dot when, and only when, the dot is directly
/// followed by another digit.
pub open spec fn number_end(src: Seq<u8>, pos: int) -> int {
    let d = digits_end(src, pos);
    if d + 1 < src.len() && src[d] == 46 && is_digit_byte(src[d + 1]) {
        digits_end(src, d + 2)
    } else {
        d
    }
}

/// The token kind of a one-byte punctuation token, if the byte is one.
pub open spec fn single_char_kind(b: u8) -> Option<TokenType> {
    if b == 40 {  // (
        Some(TokenType::LeftParen)
    } else if b == 41 {  // )
        Some(TokenType::RightParen)
    } else if b == 123 {  // {
        Some(TokenType::LeftBrace)
    } else if b == 125 {  // }
        Some(TokenType::RightBrace)
    } else if b == 44 {  // ,
        Some(TokenType::Comma)
    } else if b == 46 {  // .
        Some(TokenType::Dot)
    } else if b == 45 {  // -
        Some(TokenType::Minus)
    } else if b == 43 {  // +
        Some(TokenType::Plus)
    } else if b == 59 {  // ;
        Some(TokenType::Semicolon)
    } else if b == 42 {  // *
        Some(TokenType::Star)
    } else {
        None
    }
}

/// For the four bytes that may start a two-byte operator: the kind emitted
/// alone, and the kind emitted when an equals sign follows.
pub open spec fn two_char_kinds(b: u8) -> Option<(TokenType, TokenType)> {
    if b == 33 {  // !
        Some((TokenType::Bang, TokenType::BangEqual))
    } else if b == 61 {  // =
        Some((TokenType::Equal, TokenType::EqualEqual))
    } else if b == 60 {  // <
        Some((TokenType::Less, TokenType::LessEqual))
    } else if b == 62 {  // >
        Some((TokenType::Greater, TokenType::GreaterEqual))
    } else {
        None
    }
}

/// The keyword kind a given identifier spelling maps to, or `Identifier`
/// when it is none of the sixteen reserved words.
pub open spec fn spec_keyword(s: Seq<u8>) -> TokenType {
    if s == seq![97u8, 110u8, 100u8] {  // and
        TokenType::And
    } else if s == seq![99u8, 108u8, 97u8, 115u8, 115u8] {  // class
        TokenType::Class
    } else if s == seq![101u8, 108u8, 115u8, 101u8] {  // else
        TokenType::Else
    } else if s == seq![102u8, 97u8, 108u8, 115u8, 101u8] {  // false
        TokenType::False
    } else if s == seq![102u8, 111u8, 114u8] {  // for
        TokenType::For
    } else if s == seq![102u8, 117u8, 110u8] {  // fun
        TokenType::Fun
    } else if s == seq![105u8, 102u8] {  // if
        TokenType::If
    } else if s == seq![110u8, 105u8, 108u8] {  // nil
        TokenType::Nil
    } else if s == seq![111u8, 114u8] {  // or
        TokenType::Or
    } else if s == seq![112u8, 114u8, 105u8, 110u8, 116u8] {  // print
        TokenType::Print
    } else if s == seq![114u8, 101u8, 116u8, 117u8, 114u8, 110u8] {  // return
        TokenType::Return
    } else if s == seq![115u8, 117u8, 112u8, 101u8, 114u8] {  // super
        TokenType::Super
    } else if s == seq![116u8, 104u8, 105u8, 115u8] {  // this
        TokenType::This
    } else if s == seq![116u8, 114u8, 117u8, 101u8] {  // true
        TokenType::True
    } else if s == seq![118u8, 97u8, 114u8] {  // var
        TokenType::Var
    } else if s == seq![119u8, 104u8, 105u8, 108u8, 101u8] {  // while
        TokenType::While
    } else {
        TokenType::Identifier
    }
}

/// The end-of-input sentinel token: empty lexeme, no literal, final line.
pub open spec fn eof_token(line: int) -> SpecToken {
    SpecToken {
        token_type: TokenType::Eof,
        lexeme: Seq::empty(),
        literal: SpecLiteral::Nil,
        line,
    }
}

/// A token without a literal value whose lexeme is `src[pos..end]`.
pub open spec fn plain_token(kind: TokenType, src: Seq<u8>, pos: int, end: int, line: int) -> SpecToken {
    SpecToken {
        token_type: kind,
        lexeme: src.subrange(pos, end),
        literal: SpecLiteral::Nil,
        line,
    }
}

/// Prepends one token to a scan outcome.
pub open spec fn with_token(
    t: SpecToken,
    rest: (Seq<SpecToken>, Seq<SpecLexError>),
) -> (Seq<SpecToken>, Seq<SpecLexError>) {
    (seq![t] + rest.0, rest.1)
}

/// Prepends one error to a scan outcome.
pub open spec fn with_error(
    e: SpecLexError,
    rest: (Seq<SpecToken>, Seq<SpecLexError>),
) -> (Seq<SpecToken>, Seq<SpecLexError>) {
    (rest.0, seq![e] + rest.1)
}

/// The tokens and errors produced by scanning `src` from byte position
/// `pos` onwards with the line counter at `line`. This is the scanner's
/// whole specification: one branch per classification rule, ending in the
/// single end-of-input token.
pub open spec fn scan_from(src: Seq<u8>, pos: int, line: int) -> (Seq<SpecToken>, Seq<SpecLexError>)
    decreases src.len() - pos,
{
    if pos < 0 || pos >= src.len() {
        (seq![eof_token(line)], Seq::empty())
    } else {
        let b = src[pos];
        if single_char_kind(b).is_some() {
            with_token(
                plain_token(single_char_kind(b).unwrap(), src, pos, pos + 1, line),
                scan_from(src, pos + 1, line),
            )
        } else if two_char_kinds(b).is_some() {
            if pos + 1 < src.len() && src[pos + 1] == 61 {  // =
                with_token(
                    plain_token(two_char_kinds(b).unwrap().1, src, pos, pos + 2, line),
                    scan_from(src, pos + 2, line),
                )
            } else {
                with_token(
                    plain_token(two_char_kinds(b).unwrap().0, src, pos, pos + 1, line),
                    scan_from(src, pos + 1, line),
                )
            }
        } else if b == 47 {  // /
            if pos + 1 < src.len() && src[pos + 1] == 47 {
                scan_from(src, comment_end(src, pos + 2), line)
            } else {
                with_token(
                    plain_token(TokenType::Slash, src, pos, pos + 1, line),
                    scan_from(src, pos + 1, line),
                )
            }
        } else if b == 32 || b == 13 || b == 9 {  // space, carriage return, tab
            scan_from(src, pos + 1, line)
        } else if b == NEWLINE {
            scan_from(src, pos + 1, line + 1)
        } else if b == QUOTE {
            let close = string_close(src, pos + 1);
            if close >= src.len() {
                let line2 = line + newlines_between(src, pos + 1, src.len() as int);
                with_error(
                    SpecLexError { kind: LexErrorKind::UnterminatedString, line: line2 },
                    scan_from(src, src.len() as int, line2),
                )
            } else {
                let line2 = line + newlines_between(src, pos + 1, close);
                with_token(
                    SpecToken {
                        token_type: TokenType::String,
                        lexeme: src.subrange(pos, close + 1),
                        literal: SpecLiteral::Text(src.subrange(pos + 1, close)),
                        line,
                    },
                    scan_from(src, close + 1, line2),
                )
            }
        } else if is_digit_byte(b) {
            let end = number_end(src, pos);
            with_token(
                SpecToken {
                    token_type: TokenType::Number,
                    lexeme: src.subrange(pos, end),
                    literal: SpecLiteral::Numeric(src.subrange(pos, end)),
                    line,
                },
                scan_from(src, end, line),
            )
        } else if is_alpha_byte(b) {
            let end = ident_end(src, pos);
            with_token(
                plain_token(spec_keyword(src.subrange(pos, end)), src, pos, end, line),
                scan_from(src, end, line),
            )
        } else {
            with_error(
                SpecLexError { kind: LexErrorKind::UnrecognizedCharacter(b), line },
                scan_from(src, pos + 1, line),
            )
        }
    }
}

/// The tokens and errors of a whole scan of `src`: from its first byte,
/// with the line counter starting at 1.
pub open spec fn spec_scan(src: Seq<u8>) -> (Seq<SpecToken>, Seq<SpecLexError>) {
    scan_from(src, 0, 1)
}

/// Decides [`is_digit_byte`].
fn is_digit_b(b: u8) -> (r: bool)
    ensures
        r == is_digit_byte(b),
{
    48 <= b && b <= 57
}

/// Decides [`is_alpha_byte`].
fn is_alpha_b(b: u8) -> (r: bool)
    ensures
        r == is_alpha_byte(b),
{
    (97 <= b && b <= 122) || (65 <= b && b <= 90) || b == 95
}

/// Decides [`is_alnum_byte`].
fn is_alnum_b(b: u8) -> (r: bool)
    ensures
        r == is_alnum_byte(b),
{
    is_digit_b(b) || is_alpha_b(b)
}

/// Byte-for-byte equality of two slices.
fn bytes_eq(a: &[u8], b: &[u8]) -> (r: bool)
    ensures
        r == (a@ == b@),
{
    if a.len() != b.len() {
        return false;
    }
    let mut i: usize = 0;
    while i < a.len()
        invariant
            i <= a@.len(),
            a@.len() == b@.len(),
            forall|j: int| 0 <= j < i ==> a@[j] == b@[j],
        decreases a@.len() - i,
    {
        if *vstd::slice::slice_index_get(a, i) != *vstd::slice::slice_index_get(b, i) {
            return false;
        }
        i = i + 1;
    }
    proof {
        assert(a@ =~= b@);
    }
    true
}

/// Looks an identifier spelling up in the fixed keyword table.
fn keyword_kind(s: &[u8]) -> (t: TokenType)
    ensures
        t == spec_keyword(s@),
{
    if bytes_eq(s, vec![97u8, 110u8, 100u8].as_slice()) {  // and
        TokenType::And
    } else if bytes_eq(s, vec![99u8, 108u8, 97u8, 115u8, 115u8].as_slice()) {  // class
        TokenType::Class
    } else if bytes_eq(s, vec![101u8, 108u8, 115u8, 101u8].as_slice()) {  // else
        TokenType::Else
    } else if bytes_eq(s, vec![102u8, 97u8, 108u8, 115u8, 101u8].as_slice()) {  // false
        TokenType::False
    } else if bytes_eq(s, vec![102u8, 111u8, 114u8].as_slice()) {  // for
        TokenType::For
    } else if bytes_eq(s, vec![102u8, 117u8, 110u8].as_slice()) {  // fun
        TokenType::Fun
    } else if bytes_eq(s, vec![105u8, 102u8].as_slice()) {  // if
        TokenType::If
    } else if bytes_eq(s, vec![110u8, 105u8, 108u8].as_slice()) {  // nil
        TokenType::Nil
    } else if bytes_eq(s, vec![111u8, 114u8].as_slice()) {  // or
        TokenType::Or
    } else if bytes_eq(s, vec![112u8, 114u8, 105u8, 110u8, 116u8].as_slice()) {  // print
        TokenType::Print
    } else if bytes_eq(s, vec![114u8, 101u8, 116u8, 117u8, 114u8, 110u8].as_slice()) {  // return
        TokenType::Return
    } else if bytes_eq(s, vec![115u8, 117u8, 112u8, 101u8, 114u8].as_slice()) {  // super
        TokenType::Super
    } else if bytes_eq(s, vec![116u8, 104u8, 105u8, 115u8].as_slice()) {  // this
        TokenType::This
    } else if bytes_eq(s, vec![116u8, 114u8, 117u8, 101u8].as_slice()) {  // true
        TokenType::True
    } else if bytes_eq(s, vec![118u8, 97u8, 114u8].as_slice()) {  // var
        TokenType::Var
    } else if bytes_eq(s, vec![119u8, 104u8, 105u8, 108u8, 101u8].as_slice()) {  // while
        TokenType::While
    } else {
        TokenType::Identifier
    }
}

/// Concatenation facts shared by the token-emitting scanner steps.
proof fn lemma_token_step(
    old_dv: Seq<SpecToken>,
    new_dv: Seq<SpecToken>,
    t: SpecToken,
    src: Seq<u8>,
    pos: int,
    line: int,
    pos2: int,
    line2: int,
)
    requires
        new_dv == old_dv + seq![t],
        scan_from(src, pos, line) == with_token(t, scan_from(src, pos2, line2)),
    ensures
        new_dv + scan_from(src, pos2, line2).0 == old_dv + scan_from(src, pos, line).0,
        scan_from(src, pos2, line2).1 == scan_from(src, pos, line).1,
{
    assert(new_dv + scan_from(src, pos2, line2).0 =~= old_dv + scan_from(src, pos, line).0);
}

/// Concatenation facts shared by the error-recording scanner steps.
proof fn lemma_error_step(
    old_ev: Seq<SpecLexError>,
    new_ev: Seq<SpecLexError>,
    e: SpecLexError,
    src: Seq<u8>,
    pos: int,
    line: int,
    pos2: int,
    line2: int,
)
    requires
        new_ev == old_ev + seq![e],
        scan_from(src, pos, line) == with_error(e, scan_from(src, pos2, line2)),
    ensures
        new_ev + scan_from(src, pos2, line2).1 == old_ev + scan_from(src, pos, line).1,
        scan_from(src, pos2, line2).0 == scan_from(src, pos, line).0,
{
    assert(new_ev + scan_from(src, pos2, line2).1 =~= old_ev + scan_from(src, pos, line).1);
}

/// The lexer. It owns the token and error lists it fills; the cursor, the
/// lexeme start and the line counter are reset on every run, so results do
/// not depend on earlier runs.
pub struct Scanner {
    /// The tokens of the latest run, in source order.
    pub tokens: Vec<Token>,
    /// The lexical errors of the latest run, in source order.
    pub errors: Vec<LexError>,
    /// Start of the lexeme being scanned.
    pub start: usize,
    /// The read cursor: how many bytes have been consumed.
    pub current: usize,
    /// The 1-based line the cursor is on.
    pub line: usize,
}

impl Scanner {
    /// A fresh scanner with empty output lists.
    pub fn new() -> (r: Scanner)
        ensures
            r.errors.deep_view() == Seq::<SpecLexError>::empty(),
    {
        let r = Scanner { tokens: Vec::new(), errors: Vec::new(), start: 0, current: 0, line: 1 };
        proof {
            assert(r.errors.deep_view() =~= Seq::<SpecLexError>::empty());
        }
        r
    }

    /// Scans the whole of `source` and returns its token sequence; the
    /// lexical errors of the run are left in `errors`. The result is exactly
    /// the mathematical scan [`spec_scan`] of the input.
    pub fn scan_tokens(&mut self, source: &[u8]) -> (r: Vec<Token>)
        requires
            source@.len() < usize::MAX,
        ensures
            r.deep_view() == spec_scan(source@).0,
            final(self).errors.deep_view() == spec_scan(source@).1,
    {
        self.tokens = Vec::new();
        self.errors = Vec::new();
        self.start = 0;
        self.current = 0;
        self.line = 1;
        proof {
            assert(self.tokens.deep_view() =~= Seq::<SpecToken>::empty());
            assert(self.errors.deep_view() =~= Seq::<SpecLexError>::empty());
        }
        while !self.is_at_end(source)
            invariant
                source@.len() < usize::MAX,
                self.current <= source@.len(),
                1 <= self.line,
                self.line <= self.current + 1,
                scan_from(source@, 0, 1).0 == self.tokens.deep_view() + scan_from(
                    source@,
                    self.current as int,
                    self.line as int,
                ).0,
                scan_from(source@, 0, 1).1 == self.errors.deep_view() + scan_from(
                    source@,
                    self.current as int,
                    self.line as int,
                ).1,
            decreases source@.len() - self.current,
        {
            self.start = self.current;
            self.scan_token(source);
        }
        let ghost line0 = self.line as int;
        let ghost dv0 = self.tokens.deep_view();
        self.tokens.push(
            Token {
                token_type: TokenType::Eof,
                lexeme: Vec::new(),
                literal: Literal::Nil,
                line: self.line,
            },
        );
        proof {
            assert(self.tokens.deep_view() =~= dv0 + seq![eof_token(line0)]);
            assert(self.tokens.deep_view() =~= spec_scan(source@).0);
            assert(self.errors.deep_view() =~= spec_scan(source@).1);
        }
        let r = self.tokens.clone();
        proof {
            assert forall|i: int| 0 <= i < r@.len() implies r@[i]@ == self.tokens@[i]@ by {
                assert(cloned::<Token>(self.tokens[i], r[i]));
            }
            assert(r.deep_view() =~= self.tokens.deep_view());
        }
        r
    }

    /// The cursor has consumed the whole input.
    fn is_at_end(&self, source: &[u8]) -> (r: bool)
        ensures
            r == (self.current >= source@.len()),
    {
        self.current >= source.len()
    }

    /// Consumes and returns the byte under the cursor.
    fn advance(&mut self, source: &[u8]) -> (r: u8)
        requires
            source@.len() < usize::MAX,
            old(self).current < source@.len(),
        ensures
            final(self).current == old(self).current + 1,
            r == source@[old(self).current as int],
            final(self).tokens == old(self).tokens,
            final(self).errors == old(self).errors,
            final(self).start == old(self).start,
            final(self).line == old(self).line,
    {
        self.current = self.current + 1;
        *vstd::slice::slice_index_get(source, self.current - 1)
    }

    /// The byte under the cursor, or 0 at the end of input; does not consume.
    fn peek(&self, source: &[u8]) -> (r: u8)
        ensures
            r == if self.current < source@.len() {
                source@[self.current as int]
            } else {
                0u8
            },
    {
        if self.is_at_end(source) {
            0
        } else {
            *vstd::slice::slice_index_get(source, self.current)
        }
    }

    /// The byte one past the cursor, or 0 when none exists; does not consume.
    fn peek_next(&self, source: &[u8]) -> (r: u8)
        requires
            source@.len() < usize::MAX,
            self.current <= source@.len(),
        ensures
            r == if self.current + 1 < source@.len() {
                source@[self.current as int + 1]
            } else {
                0u8
            },
    {
        if self.current + 1 >= source.len() {
            0
        } else {
            *vstd::slice::slice_index_get(source, self.current + 1)
        }
    }

    /// Consumes the byte under the cursor exactly when it equals `expected`.
    fn match_next(&mut self, expected: u8, source: &[u8]) -> (r: bool)
        requires
            source@.len() < usize::MAX,
            old(self).current <= source@.len(),
        ensures
            r == (old(self).current < source@.len() && source@[old(self).current as int]
                == expected),
            final(self).current == if r {
                old(self).current + 1
            } else {
                old(self).current as int
            },
            final(self).tokens == old(self).tokens,
            final(self).errors == old(self).errors,
            final(self).start == old(self).start,
            final(self).line == old(self).line,
    {
        if self.is_at_end(source) {
            return false;
        }
        if *vstd::slice::slice_index_get(source, self.current) != expected {
            return false;
        }
        self.current = self.current + 1;
        true
    }

    /// Appends a token of kind `ttype` whose lexeme is the span from the
    /// current lexeme start to the cursor, on the current line.
    fn add_token(&mut self, ttype: TokenType, literal: Literal, source: &[u8])
        requires
            old(self).start <= old(self).current <= source@.len(),
        ensures
            final(self).tokens.deep_view() == old(self).tokens.deep_view() + seq![
                SpecToken {
                    token_type: ttype,
                    lexeme: source@.subrange(old(self).start as int, old(self).current as int),
                    literal: literal@,
                    line: old(self).line as int,
                },
            ],
            final(self).errors == old(self).errors,
            final(self).start == old(self).start,
            final(self).current == old(self).current,
            final(self).line == old(self).line,
    {
        let text = vstd::slice::slice_to_vec(
            vstd::slice::slice_subrange(source, self.start, self.current),
        );
        let ghost dv0 = self.tokens.deep_view();
        self.tokens.push(Token { token_type: ttype, lexeme: text, literal, line: self.line });
        proof {
            assert(self.tokens.deep_view() =~= dv0 + seq![
                SpecToken {
                    token_type: ttype,
                    lexeme: source@.subrange(old(self).start as int, old(self).current as int),
                    literal: literal@,
                    line: old(self).line as int,
                },
            ]);
        }
    }

    /// Consumes one classification step at the cursor: exactly one token,
    /// one recorded error, or one skipped span of whitespace or comment.
    fn scan_token(&mut self, source: &[u8])
        requires
            source@.len() < usize::MAX,
            old(self).current < source@.len(),
            old(self).start == old(self).current,
            1 <= old(self).line,
            old(self).line <= old(self).current + 1,
        ensures
            old(self).current < final(self).current <= source@.len(),
            1 <= final(self).line,
            final(self).line <= final(self).current + 1,
            final(self).tokens.deep_view() + scan_from(
                source@,
                final(self).current as int,
                final(self).line as int,
            ).0 == old(self).tokens.deep_view() + scan_from(
                source@,
                old(self).current as int,
                old(self).line as int,
            ).0,
            final(self).errors.deep_view() + scan_from(
                source@,
                final(self).current as int,
                final(self).line as int,
            ).1 == old(self).errors.deep_view() + scan_from(
                source@,
                old(self).current as int,
                old(self).line as int,
            ).1,
    {
        let ghost src = source@;
        let ghost pos0 = self.current as int;
        let ghost line0 = self.line as int;
        let ghost dv0 = self.tokens.deep_view();
        let ghost ev0 = self.errors.deep_view();
        let c = self.advance(source);
        match c {
            40 => {  // (
                self.add_token(TokenType::LeftParen, Literal::Nil, source);
                proof {
                    lemma_token_step(
                        dv0,
                        self.tokens.deep_view(),
                        plain_token(TokenType::LeftParen, src, pos0, pos0 + 1, line0),
                        src,
                        pos0,
                        line0,
                        pos0 + 1,
                        line0,
                    );
                }
            }
            41 => {  // )
                self.add_token(TokenType::RightParen, Literal::Nil, source);
                proof {
                    lemma_token_step(
                        dv0,
                        self.tokens.deep_view(),
                        plain_token(TokenType::RightParen, src, pos0, pos0 + 1, line0),
                        src,
                        pos0,
                        line0,
                        pos0 + 1,
                        line0,
                    );
                }
            }
            123 => {  // {
                self.add_token(TokenType::LeftBrace, Literal::Nil, source);
                proof {
                    lemma_token_step(
                        dv0,
                        self.tokens.deep_view(),
                        plain_token(TokenType::LeftBrace, src, pos0, pos0 + 1, line0),
                        src,
                        pos0,
                        line0,
                        pos0 + 1,
                        line0,
                    );
                }
            }
            125 => {  // }
                self.add_token(TokenType::RightBrace, Literal::Nil, source);
                proof {
                    lemma_token_step(
                        dv0,
                        self.tokens.deep_view(),
                        plain_token(TokenType::RightBrace, src, pos0, pos0 + 1, line0),
                        src,
                        pos0,
                        line0,
                        pos0 + 1,
                        line0,
                    );
                }
            }
            44 => {  // ,
                self.add_token(TokenType::Comma, Literal::Nil, source);
                proof {
                    lemma_token_step(
                        dv0,
                        self.tokens.deep_view(),
                        plain_token(TokenType::Comma, src, pos0, pos0 + 1, line0),
                        src,
                        pos0,
                        line0,
                        pos0 + 1,
                        line0,
                    );
                }
            }
            46 => {  // .
                self.add_token(TokenType::Dot, Literal::Nil, source);
                proof {
                    lemma_token_step(
                        dv0,
                        self.tokens.deep_view(),
                        plain_token(TokenType::Dot, src, pos0, pos0 + 1, line0),
                        src,
                        pos0,
                        line0,
                        pos0 + 1,
                        line0,
                    );
                }
            }
            45 => {  // -
                self.add_token(TokenType::Minus, Literal::Nil, source);
                proof {
                    lemma_token_step(
                        dv0,
                        self.tokens.deep_view(),
                        plain_token(TokenType::Minus, src, pos0, pos0 + 1, line0),
                        src,
                        pos0,
                        line0,
                        pos0 + 1,
                        line0,
                    );
                }
            }
            43 => {  // +
                self.add_token(TokenType::Plus, Literal::Nil, source);
                proof {
                    lemma_token_step(
                        dv0,
                        self.tokens.deep_view(),
                        plain_token(TokenType::Plus, src, pos0, pos0 + 1, line0),
                        src,
                        pos0,
                        line0,
                        pos0 + 1,
                        line0,
                    );
                }
            }
            42 => {  // *
                self.add_token(TokenType::Star, Literal::Nil, source);
                proof {
                    lemma_token_step(
                        dv0,
                        self.tokens.deep_view(),
                        plain_token(TokenType::Star, src, pos0, pos0 + 1, line0),
                        src,
                        pos0,
                        line0,
                        pos0 + 1,
                        line0,
                    );
                }
            }
            59 => {  // ;
                self.add_token(TokenType::Semicolon, Literal::Nil, source);
                proof {
                    lemma_token_step(
                        dv0,
                        self.tokens.deep_view(),
                        plain_token(TokenType::Semicolon, src, pos0, pos0 + 1, line0),
                        src,
                        pos0,
                        line0,
                        pos0 + 1,
                        line0,
                    );
                }
            }
            33 => {  // !
                if self.match_next(61, source) {
                    self.add_token(TokenType::BangEqual, Literal::Nil, source);
                    proof {
                        lemma_token_step(
                            dv0,
                            self.tokens.deep_view(),
                            plain_token(TokenType::BangEqual, src, pos0, pos0 + 2, line0),
                            src,
                            pos0,
                            line0,
                            pos0 + 2,
                            line0,
                        );
                    }
                } else {
                    self.add_token(TokenType::Bang, Literal::Nil, source);
                    proof {
                        lemma_token_step(
                            dv0,
                            self.tokens.deep_view(),
                            plain_token(TokenType::Bang, src, pos0, pos0 + 1, line0),
                            src,
                            pos0,
                            line0,
                            pos0 + 1,
                            line0,
                        );
                    }
                }
            }
            61 => {  // =
                if self.match_next(61, source) {
                    self.add_token(TokenType::EqualEqual, Literal::Nil, source);
                    proof {
                        lemma_token_step(
                            dv0,
                            self.tokens.deep_view(),
                            plain_token(TokenType::EqualEqual, src, pos0, pos0 + 2, line0),
                            src,
                            pos0,
                            line0,
                            pos0 + 2,
                            line0,
                        );
                    }
                } else {
                    self.add_token(TokenType::Equal, Literal::Nil, source);
                    proof {
                        lemma_token_step(
                            dv0,
                            self.tokens.deep_view(),
                            plain_token(TokenType::Equal, src, pos0, pos0 + 1, line0),
                            src,
                            pos0,
                            line0,
                            pos0 + 1,
                            line0,
                        );
                    }
                }
            }
            60 => {  // <
                if self.match_next(61, source) {
                    self.add_token(TokenType::LessEqual, Literal::Nil, source);
                    proof {
                        lemma_token_step(
                            dv0,
                            self.tokens.deep_view(),
                            plain_token(TokenType::LessEqual, src, pos0, pos0 + 2, line0),
                            src,
                            pos0,
                            line0,
                            pos0 + 2,
                            line0,
                        );
                    }
                } else {
                    self.add_token(TokenType::Less, Literal::Nil, source);
                    proof {
                        lemma_token_step(
                            dv0,
                            self.tokens.deep_view(),
                            plain_token(TokenType::Less, src, pos0, pos0 + 1, line0),
                            src,
                            pos0,
                            line0,
                            pos0 + 1,
                            line0,
                        );
                    }
                }
            }
            62 => {  // >
                if self.match_next(61, source) {
                    self.add_token(TokenType::GreaterEqual, Literal::Nil, source);
                    proof {
                        lemma_token_step(
                            dv0,
                            self.tokens.deep_view(),
                            plain_token(TokenType::GreaterEqual, src, pos0, pos0 + 2, line0),
                            src,
                            pos0,
                            line0,
                            pos0 + 2,
                            line0,
                        );
                    }
                } else {
                    self.add_token(TokenType::Greater, Literal::Nil, source);
                    proof {
                        lemma_token_step(
                            dv0,
                            self.tokens.deep_view(),
                            plain_token(TokenType::Greater, src, pos0, pos0 + 1, line0),
                            src,
                            pos0,
                            line0,
                            pos0 + 1,
                            line0,
                        );
                    }
                }
            }
            47 => {  // /
                if self.match_next(47, source) {
                    // A line comment: skip up to, but excluding, the newline.
                    while self.peek(source) != NEWLINE && !self.is_at_end(source)
                        invariant
                            src == source@,
                            source@.len() < usize::MAX,
                            pos0 + 2 <= self.current <= src.len(),
                            comment_end(src, pos0 + 2) == comment_end(src, self.current as int),
                            self.tokens.deep_view() == dv0,
                            self.errors.deep_view() == ev0,
                            self.line as int == line0,
                            self.start as int == pos0,
                        decreases src.len() - self.current,
                    {
                        proof {
                            assert(comment_end(src, self.current as int) == comment_end(
                                src,
                                self.current as int + 1,
                            ));
                        }
                        self.advance(source);
                    }
                    proof {
                        assert(comment_end(src, self.current as int) == self.current as int);
                        assert(scan_from(src, pos0, line0) == scan_from(
                            src,
                            self.current as int,
                            line0,
                        ));
                    }
                } else {
                    self.add_token(TokenType::Slash, Literal::Nil, source);
                    proof {
                        lemma_token_step(
                            dv0,
                            self.tokens.deep_view(),
                            plain_token(TokenType::Slash, src, pos0, pos0 + 1, line0),
                            src,
                            pos0,
                            line0,
                            pos0 + 1,
                            line0,
                        );
                    }
                }
            }
            32 => {}  // space
            13 => {}  // carriage return
            9 => {}  // tab
            10 => {  // newline
                self.line = self.line + 1;
            }
            34 => {  // " begins a string literal
                self.string(source);
            }
            _ => {
                if is_digit_b(c) {
                    self.number(source);
                } else if is_alpha_b(c) {
                    self.identifier(source);
                } else {
                    self.errors.push(
                        LexError { kind: LexErrorKind::UnrecognizedCharacter(c), line: self.line },
                    );
                    proof {
                        assert(self.errors.deep_view() =~= ev0 + seq![
                            SpecLexError { kind: LexErrorKind::UnrecognizedCharacter(src[pos0]), line: line0 },
                        ]);
                        lemma_error_step(
                            ev0,
                            self.errors.deep_view(),
                            SpecLexError {
                                kind: LexErrorKind::UnrecognizedCharacter(src[pos0]),
                                line: line0,
                            },
                            src,
                            pos0,
                            line0,
                            pos0 + 1,
                            line0,
                        );
                    }
                }
            }
        }
    }

    /// Scans the rest of a string literal whose opening quote the cursor has
    /// just passed. On success the token carries the line its opening quote
    /// began on; an unterminated literal is recorded as an error instead.
    fn string(&mut self, source: &[u8])
        requires
            source@.len() < usize::MAX,
            old(self).start < source@.len(),
            old(self).current == old(self).start + 1,
            source@[old(self).start as int] == QUOTE,
            1 <= old(self).line,
            old(self).line <= old(self).start + 1,
        ensures
            old(self).start < final(self).current <= source@.len(),
            1 <= final(self).line,
            final(self).line <= final(self).current + 1,
            final(self).tokens.deep_view() + scan_from(
                source@,
                final(self).current as int,
                final(self).line as int,
            ).0 == old(self).tokens.deep_view() + scan_from(
                source@,
                old(self).start as int,
                old(self).line as int,
            ).0,
            final(self).errors.deep_view() + scan_from(
                source@,
                final(self).current as int,
                final(self).line as int,
            ).1 == old(self).errors.deep_view() + scan_from(
                source@,
                old(self).start as int,
                old(self).line as int,
            ).1,
    {
        let ghost src = source@;
        let ghost p0 = self.start as int;
        let ghost line0 = self.line as int;
        let ghost dv0 = self.tokens.deep_view();
        let ghost ev0 = self.errors.deep_view();
        let start_line = self.line;
        while self.peek(source) != QUOTE && !self.is_at_end(source)
            invariant
                src == source@,
                source@.len() < usize::MAX,
                p0 + 1 <= self.current,
                self.current <= string_close(src, p0 + 1),
                string_close(src, p0 + 1) == string_close(src, self.current as int),
                self.line as int == line0 + newlines_between(src, p0 + 1, self.current as int),
                self.line as int <= self.current as int,
                1 <= line0 <= p0 + 1,
                self.tokens.deep_view() == dv0,
                self.errors.deep_view() == ev0,
                self.start as int == p0,
            decreases src.len() - self.current,
        {
            proof {
                assert((self.current as int) < string_close(src, p0 + 1));
                assert(string_close(src, self.current as int) == string_close(
                    src,
                    self.current as int + 1,
                ));
                assert(newlines_between(src, p0 + 1, self.current as int + 1) == newlines_between(
                    src,
                    p0 + 1,
                    self.current as int,
                ) + if src[self.current as int] == NEWLINE {
                    1int
                } else {
                    0int
                });
            }
            if self.peek(source) == NEWLINE {
                self.line = self.line + 1;
            }
            self.advance(source);
        }
        if self.is_at_end(source) {
            // The closing quote never came: record the error and give up on
            // this literal; scanning is finished, the cursor is at the end.
            self.errors.push(
                LexError { kind: LexErrorKind::UnterminatedString, line: self.line },
            );
            proof {
                assert(string_close(src, p0 + 1) == src.len() as int);
                assert(self.errors.deep_view() =~= ev0 + seq![
                    SpecLexError {
                        kind: LexErrorKind::UnterminatedString,
                        line: line0 + newlines_between(src, p0 + 1, src.len() as int),
                    },
                ]);
                lemma_error_step(
                    ev0,
                    self.errors.deep_view(),
                    SpecLexError {
                        kind: LexErrorKind::UnterminatedString,
                        line: line0 + newlines_between(src, p0 + 1, src.len() as int),
                    },
                    src,
                    p0,
                    line0,
                    src.len() as int,
                    line0 + newlines_between(src, p0 + 1, src.len() as int),
                );
            }
            return;
        }
        let ghost close = string_close(src, p0 + 1);
        proof {
            assert(string_close(src, self.current as int) == self.current as int);
        }
        self.advance(source);
        // The literal's value is the span strictly between the quotes; the
        // token's line is the one its opening quote began on.
        let text = vstd::slice::slice_to_vec(
            vstd::slice::slice_subrange(source, self.start + 1, self.current - 1),
        );
        let lexeme = vstd::slice::slice_to_vec(
            vstd::slice::slice_subrange(source, self.start, self.current),
        );
        self.tokens.push(
            Token {
                token_type: TokenType::String,
                lexeme,
                literal: Literal::Text(text),
                line: start_line,
            },
        );
        proof {
            let t = SpecToken {
                token_type: TokenType::String,
                lexeme: src.subrange(p0, close + 1),
                literal: SpecLiteral::Text(src.subrange(p0 + 1, close)),
                line: line0,
            };
            assert(self.tokens.deep_view() =~= dv0 + seq![t]);
            lemma_token_step(
                dv0,
                self.tokens.deep_view(),
                t,
                src,
                p0,
                line0,
                close + 1,
                line0 + newlines_between(src, p0 + 1, close),
            );
        }
    }

    /// Scans the rest of a number literal whose first digit the cursor has
    /// just passed: a maximal digit run, and a fractional part only when a
    /// dot is directly followed by a digit. The token's literal keeps the
    /// digit span exactly as written.
    fn number(&mut self, source: &[u8])
        requires
            source@.len() < usize::MAX,
            old(self).start < source@.len(),
            old(self).current == old(self).start + 1,
            is_digit_byte(source@[old(self).start as int]),
            1 <= old(self).line,
            old(self).line <= old(self).start + 1,
        ensures
            old(self).start < final(self).current <= source@.len(),
            final(self).line == old(self).line,
            final(self).tokens.deep_view() + scan_from(
                source@,
                final(self).current as int,
                final(self).line as int,
            ).0 == old(self).tokens.deep_view() + scan_from(
                source@,
                old(self).start as int,
                old(self).line as int,
            ).0,
            final(self).errors.deep_view() + scan_from(
                source@,
                final(self).current as int,
                final(self).line as int,
            ).1 == old(self).errors.deep_view() + scan_from(
                source@,
                old(self).start as int,
                old(self).line as int,
            ).1,
    {
        let ghost src = source@;
        let ghost p0 = self.start as int;
        let ghost line0 = self.line as int;
        let ghost dv0 = self.tokens.deep_view();
        let ghost ev0 = self.errors.deep_view();
        while is_digit_b(self.peek(source))
            invariant
                src == source@,
                source@.len() < usize::MAX,
                p0 < self.current,
                self.current <= digits_end(src, p0),
                digits_end(src, p0) == digits_end(src, self.current as int),
                self.tokens.deep_view() == dv0,
                self.errors.deep_view() == ev0,
                self.line as int == line0,
                self.start as int == p0,
            decreases src.len() - self.current,
        {
            proof {
                assert(digits_end(src, self.current as int) == digits_end(
                    src,
                    self.current as int + 1,
                ));
            }
            self.advance(source);
        }
        let ghost d = digits_end(src, p0);
        proof {
            assert(digits_end(src, self.current as int) == self.current as int);
        }
        if self.peek(source) == 46 && is_digit_b(self.peek_next(source)) {
            // A fractional part: consume the dot, then its digit run.
            self.advance(source);
            while is_digit_b(self.peek(source))
                invariant
                    src == source@,
                    source@.len() < usize::MAX,
                    d + 1 < src.len(),
                    src[d] == 46,
                    is_digit_byte(src[d + 1]),
                    self.current as int == d + 1 || (d + 2 <= self.current && self.current
                        <= digits_end(src, d + 2) && digits_end(src, d + 2) == digits_end(
                        src,
                        self.current as int,
                    )),
                    self.tokens.deep_view() == dv0,
                    self.errors.deep_view() == ev0,
                    self.line as int == line0,
                    self.start as int == p0,
                decreases src.len() - self.current,
            {
                proof {
                    if self.current as int != d + 1 {
                        assert(digits_end(src, self.current as int) == digits_end(
                            src,
                            self.current as int + 1,
                        ));
                    }
                }
                self.advance(source);
            }
            proof {
                assert(self.current as int != d + 1);
                assert(digits_end(src, self.current as int) == self.current as int);
                assert(number_end(src, p0) == self.current as int);
            }
        } else {
            proof {
                assert(number_end(src, p0) == self.current as int);
            }
        }
        let digits = vstd::slice::slice_to_vec(
            vstd::slice::slice_subrange(source, self.start, self.current),
        );
        let ghost ne = self.current as int;
        self.add_token(TokenType::Number, Literal::Numeric(digits), source);
        proof {
            let t = SpecToken {
                token_type: TokenType::Number,
                lexeme: src.subrange(p0, ne),
                literal: SpecLiteral::Numeric(src.subrange(p0, ne)),
                line: line0,
            };
            assert(self.tokens.deep_view() == dv0 + seq![t]);
            lemma_token_step(dv0, self.tokens.deep_view(), t, src, p0, line0, ne, line0);
        }
    }

    /// Scans the rest of an identifier whose first byte the cursor has just
    /// passed, then classifies its spelling against the keyword table.
    fn identifier(&mut self, source: &[u8])
        requires
            source@.len() < usize::MAX,
            old(self).start < source@.len(),
            old(self).current == old(self).start + 1,
            is_alpha_byte(source@[old(self).start as int]),
            1 <= old(self).line,
            old(self).line <= old(self).start + 1,
        ensures
            old(self).start < final(self).current <= source@.len(),
            final(self).line == old(self).line,
            final(self).tokens.deep_view() + scan_from(
                source@,
                final(self).current as int,
                final(self).line as int,
            ).0 == old(self).tokens.deep_view() + scan_from(
                source@,
                old(self).start as int,
                old(self).line as int,
            ).0,
            final(self).errors.deep_view() + scan_from(
                source@,
                final(self).current as int,
                final(self).line as int,
            ).1 == old(self).errors.deep_view() + scan_from(
                source@,
                old(self).start as int,
                old(self).line as int,
            ).1,
    {
        let ghost src = source@;
        let ghost p0 = self.start as int;
        let ghost line0 = self.line as int;
        let ghost dv0 = self.tokens.deep_view();
        while is_alnum_b(self.peek(source))
            invariant
                src == source@,
                source@.len() < usize::MAX,
                p0 < self.current,
                self.current <= ident_end(src, p0),
                ident_end(src, p0) == ident_end(src, self.current as int),
                self.tokens.deep_view() == dv0,
                self.errors.deep_view() == old(self).errors.deep_view(),
                self.line as int == line0,
                self.start as int == p0,
            decreases src.len() - self.current,
        {
            proof {
                assert(ident_end(src, self.current as int) == ident_end(
                    src,
                    self.current as int + 1,
                ));
            }
            self.advance(source);
        }
        proof {
            assert(ident_end(src, self.current as int) == self.current as int);
        }
        let kind = keyword_kind(
            vstd::slice::slice_subrange(source, self.start, self.current),
        );
        let ghost ie = self.current as int;
        self.add_token(kind, Literal::Nil, source);
        proof {
            let t = plain_token(spec_keyword(src.subrange(p0, ie)), src, p0, ie, line0);
            assert(self.tokens.deep_view() == dv0 + seq![t]);
            lemma_token_step(dv0, self.tokens.deep_view(), t, src, p0, line0, ie, line0);
        }
    }
}

/// Scanning from any position yields at least the end-of-input token; it is
/// the last token, no other token is end-of-input, and it carries the line
/// the counter reaches after every remaining newline has been counted.
pub proof fn lemma_scan_from_eof(src: Seq<u8>, pos: int, line: int)
    requires
        0 <= pos <= src.len(),
    ensures
        scan_from(src, pos, line).0.len() >= 1,
        scan_from(src, pos, line).0.last() == eof_token(
            line + newlines_between(src, pos, src.len() as int),
        ),
        forall|i: int|
            0 <= i < scan_from(src, pos, line).0.len() - 1 ==> #[trigger] scan_from(
                src,
                pos,
                line,
            ).0[i].token_type != TokenType::Eof,
    decreases src.len() - pos,
{
    let len = src.len() as int;
    if pos >= len {
        assert(newlines_between(src, pos, len) == 0);
    } else {
        let b = src[pos];
        crate::spans::lemma_newlines_split(src, pos, pos + 1, len);
        if single_char_kind(b).is_some() {
            lemma_scan_from_eof(src, pos + 1, line);
        } else if two_char_kinds(b).is_some() {
            if pos + 1 < len && src[pos + 1] == 61 {
                crate::spans::lemma_newlines_split(src, pos + 1, pos + 2, len);
                lemma_scan_from_eof(src, pos + 2, line);
            } else {
                lemma_scan_from_eof(src, pos + 1, line);
            }
        } else if b == 47 {
            if pos + 1 < len && src[pos + 1] == 47 {
                let e = comment_end(src, pos + 2);
                crate::spans::lemma_newlines_split(src, pos + 1, pos + 2, len);
                crate::spans::lemma_newlines_split(src, pos + 2, e, len);
                crate::spans::lemma_newlines_zero(src, pos + 2, e);
                lemma_scan_from_eof(src, e, line);
            } else {
                lemma_scan_from_eof(src, pos + 1, line);
            }
        } else if b == 32 || b == 13 || b == 9 {
            lemma_scan_from_eof(src, pos + 1, line);
        } else if b == NEWLINE {
            lemma_scan_from_eof(src, pos + 1, line + 1);
        } else if b == QUOTE {
            let close = string_close(src, pos + 1);
            crate::spans::lemma_newlines_split(src, pos + 1, close, len);
            if close >= len {
                lemma_scan_from_eof(src, len, line + newlines_between(src, pos + 1, len));
            } else {
                crate::spans::lemma_newlines_split(src, close, close + 1, len);
                lemma_scan_from_eof(
                    src,
                    close + 1,
                    line + newlines_between(src, pos + 1, close),
                );
            }
        } else if is_digit_byte(b) {
            let e = number_end(src, pos);
            assert(pos < e <= len);
            assert forall|i: int| pos <= i < e implies #[trigger] src[i] != NEWLINE by {
                let d = digits_end(src, pos);
                if i < d {
                    assert(is_digit_byte(src[i]));
                } else if i == d {
                    assert(src[i] == 46);
                } else {
                    assert(is_digit_byte(src[i]));
                }
            }
            crate::spans::lemma_newlines_split(src, pos, e, len);
            crate::spans::lemma_newlines_zero(src, pos, e);
            lemma_scan_from_eof(src, e, line);
        } else if is_alpha_byte(b) {
            let e = ident_end(src, pos);
            assert forall|i: int| pos <= i < e implies #[trigger] src[i] != NEWLINE by {
                assert(is_alnum_byte(src[i]));
            }
            crate::spans::lemma_newlines_split(src, pos, e, len);
            crate::spans::lemma_newlines_zero(src, pos, e);
            lemma_scan_from_eof(src, e, line);
        } else {
            lemma_scan_from_eof(src, pos + 1, line);
        }
    }
}

/// The token sequence of a whole scan ends with exactly one end-of-input
/// token, whose line is the last line of the source: line 1 plus one for
/// every newline byte in the input.
pub proof fn lemma_scan_ends_with_eof(src: Seq<u8>)
    ensures
        spec_scan(src).0.len() >= 1,
        spec_scan(src).0.last() == eof_token(1 + newlines_between(src, 0, src.len() as int)),
        forall|i: int|
            0 <= i < spec_scan(src).0.len() - 1 ==> #[trigger] spec_scan(
                src,
            ).0[i].token_type != TokenType::Eof,
{
    lemma_scan_from_eof(src, 0, 1);
}

/// The source span `[start, end)` of each token that a scan from `pos`
/// emits, in emission order; the end-of-input token gets the empty span at
/// the very end. The branches mirror [`scan_from`], whose tokens never
/// depend on the line counter for their position.
pub open spec fn token_spans(src: Seq<u8>, pos: int) -> Seq<(int, int)>
    decreases src.len() - pos,
{
    if pos < 0 || pos >= src.len() {
        seq![(src.len() as int, src.len() as int)]
    } else {
        let b = src[pos];
        if single_char_kind(b).is_some() {
            seq![(pos, pos + 1)] + token_spans(src, pos + 1)
        } else if two_char_kinds(b).is_some() {
            if pos + 1 < src.len() && src[pos + 1] == 61 {
                seq![(pos, pos + 2)] + token_spans(src, pos + 2)
            } else {
                seq![(pos, pos + 1)] + token_spans(src, pos + 1)
            }
        } else if b == 47 {
            if pos + 1 < src.len() && src[pos + 1] == 47 {
                token_spans(src, comment_end(src, pos + 2))
            } else {
                seq![(pos, pos + 1)] + token_spans(src, pos + 1)
            }
        } else if b == 32 || b == 13 || b == 9 || b == NEWLINE {
            token_spans(src, pos + 1)
        } else if b == QUOTE {
            let close = string_close(src, pos + 1);
            if close >= src.len() {
                token_spans(src, src.len() as int)
            } else {
                seq![(pos, close + 1)] + token_spans(src, close + 1)
            }
        } else if is_digit_byte(b) {
            seq![(pos, number_end(src, pos))] + token_spans(src, number_end(src, pos))
        } else if is_alpha_byte(b) {
            seq![(pos, ident_end(src, pos))] + token_spans(src, ident_end(src, pos))
        } else {
            token_spans(src, pos + 1)
        }
    }
}

/// All facts [`lemma_scan_lexemes`] states of a scan tail, lifted over one
/// more leading token whose span ends where the tail begins.
proof fn lemma_span_cons(
    src: Seq<u8>,
    t0: SpecToken,
    e: int,
    toks: Seq<SpecToken>,
    spans: Seq<(int, int)>,
    pos: int,
)
    requires
        0 <= pos <= e <= src.len(),
        t0.lexeme == src.subrange(pos, e),
        toks.len() == spans.len(),
        forall|j: int|
            0 <= j < spans.len() ==> e <= (#[trigger] spans[j]).0 && spans[j].0 <= spans[j].1
                <= src.len() && toks[j].lexeme == src.subrange(spans[j].0, spans[j].1),
        forall|j: int| 0 <= j < spans.len() - 1 ==> (#[trigger] spans[j]).1 <= spans[j + 1].0,
    ensures
        (seq![t0] + toks).len() == (seq![(pos, e)] + spans).len(),
        forall|j: int|
            0 <= j < (seq![(pos, e)] + spans).len() ==> pos <= (#[trigger] (seq![(pos, e)]
                + spans)[j]).0 && (seq![(pos, e)] + spans)[j].0 <= (seq![(pos, e)] + spans)[j].1
                <= src.len() && (seq![t0] + toks)[j].lexeme == src.subrange(
                (seq![(pos, e)] + spans)[j].0,
                (seq![(pos, e)] + spans)[j].1,
            ),
        forall|j: int|
            0 <= j < (seq![(pos, e)] + spans).len() - 1 ==> ((#[trigger] (seq![(pos, e)]
                + spans)[j]).1 <= (seq![(pos, e)] + spans)[j + 1].0),
{
    let s = seq![(pos, e)] + spans;
    let t = seq![t0] + toks;
    assert forall|j: int|
        0 <= j < s.len() implies pos <= (#[trigger] s[j]).0 && s[j].0 <= s[j].1 <= src.len()
        && t[j].lexeme == src.subrange(s[j].0, s[j].1) by {
        if j == 0 {
            assert(s[0] == (pos, e));
            assert(t[0] == t0);
        } else {
            assert(s[j] == spans[j - 1]);
            assert(t[j] == toks[j - 1]);
        }
    }
    assert forall|j: int| 0 <= j < s.len() - 1 implies ((#[trigger] s[j]).1 <= s[j + 1].0) by {
        if j == 0 {
            if spans.len() > 0 {
                assert(s[1] == spans[0]);
            }
        } else {
            assert(s[j] == spans[j - 1]);
            assert(s[j + 1] == spans[j]);
        }
    }
}

/// The byte-accounting invariant of a scan: its tokens' lexemes are, in
/// emission order, non-overlapping slices of the source taken left to
/// right; the skipped whitespace and comments are exactly the bytes the
/// spans leave out, so re-inserting them between the lexemes reconstructs
/// the source text.
pub proof fn lemma_scan_lexemes(src: Seq<u8>, pos: int, line: int)
    requires
        0 <= pos <= src.len(),
    ensures
        token_spans(src, pos).len() == scan_from(src, pos, line).0.len(),
        forall|j: int|
            0 <= j < token_spans(src, pos).len() ==> pos <= (#[trigger] token_spans(
                src,
                pos,
            )[j]).0 && token_spans(src, pos)[j].0 <= token_spans(src, pos)[j].1 <= src.len()
                && scan_from(src, pos, line).0[j].lexeme == src.subrange(
                token_spans(src, pos)[j].0,
                token_spans(src, pos)[j].1,
            ),
        forall|j: int|
            0 <= j < token_spans(src, pos).len() - 1 ==> ((#[trigger] token_spans(
                src,
                pos,
            )[j]).1 <= token_spans(src, pos)[j + 1].0),
    decreases src.len() - pos,
{
    let len = src.len() as int;
    if pos >= len {
        assert(token_spans(src, pos) == seq![(len, len)]);
        assert(scan_from(src, pos, line).0 == seq![eof_token(line)]);
        assert(eof_token(line).lexeme =~= src.subrange(len, len));
    } else {
        let b = src[pos];
        if single_char_kind(b).is_some() {
            lemma_scan_lexemes(src, pos + 1, line);
            lemma_span_cons(
                src,
                plain_token(single_char_kind(b).unwrap(), src, pos, pos + 1, line),
                pos + 1,
                scan_from(src, pos + 1, line).0,
                token_spans(src, pos + 1),
                pos,
            );
        } else if two_char_kinds(b).is_some() {
            if pos + 1 < len && src[pos + 1] == 61 {
                lemma_scan_lexemes(src, pos + 2, line);
                lemma_span_cons(
                    src,
                    plain_token(two_char_kinds(b).unwrap().1, src, pos, pos + 2, line),
                    pos + 2,
                    scan_from(src, pos + 2, line).0,
                    token_spans(src, pos + 2),
                    pos,
                );
            } else {
                lemma_scan_lexemes(src, pos + 1, line);
                lemma_span_cons(
                    src,
                    plain_token(two_char_kinds(b).unwrap().0, src, pos, pos + 1, line),
                    pos + 1,
                    scan_from(src, pos + 1, line).0,
                    token_spans(src, pos + 1),
                    pos,
                );
            }
        } else if b == 47 {
            if pos + 1 < len && src[pos + 1] == 47 {
                let e = comment_end(src, pos + 2);
                lemma_scan_lexemes(src, e, line);
                assert forall|j: int|
                    0 <= j < token_spans(src, pos).len() implies pos <= (#[trigger] token_spans(
                        src,
                        pos,
                    )[j]).0 && token_spans(src, pos)[j].0 <= token_spans(src, pos)[j].1 <= src.len()
                        && scan_from(src, pos, line).0[j].lexeme == src.subrange(
                        token_spans(src, pos)[j].0,
                        token_spans(src, pos)[j].1,
                    ) by {
                    assert(token_spans(src, pos)[j] == token_spans(src, e)[j]);
                }
            } else {
                lemma_scan_lexemes(src, pos + 1, line);
                lemma_span_cons(
                    src,
                    plain_token(TokenType::Slash, src, pos, pos + 1, line),
                    pos + 1,
                    scan_from(src, pos + 1, line).0,
                    token_spans(src, pos + 1),
                    pos,
                );
            }
        } else if b == 32 || b == 13 || b == 9 {
            lemma_scan_lexemes(src, pos + 1, line);
        } else if b == NEWLINE {
            lemma_scan_lexemes(src, pos + 1, line + 1);
        } else if b == QUOTE {
            let close = string_close(src, pos + 1);
            if close >= len {
                let line2 = line + newlines_between(src, pos + 1, len);
                lemma_scan_lexemes(src, len, line2);
            } else {
                let line2 = line + newlines_between(src, pos + 1, close);
                lemma_scan_lexemes(src, close + 1, line2);
                lemma_span_cons(
                    src,
                    SpecToken {
                        token_type: TokenType::String,
                        lexeme: src.subrange(pos, close + 1),
                        literal: SpecLiteral::Text(src.subrange(pos + 1, close)),
                        line,
                    },
                    close + 1,
                    scan_from(src, close + 1, line2).0,
                    token_spans(src, close + 1),
                    pos,
                );
            }
        } else if is_digit_byte(b) {
            let e = number_end(src, pos);
            lemma_scan_lexemes(src, e, line);
            lemma_span_cons(
                src,
                SpecToken {
                    token_type: TokenType::Number,
                    lexeme: src.subrange(pos, e),
                    literal: SpecLiteral::Numeric(src.subrange(pos, e)),
                    line,
                },
                e,
                scan_from(src, e, line).0,
                token_spans(src, e),
                pos,
            );
        } else if is_alpha_byte(b) {
            let e = ident_end(src, pos);
            lemma_scan_lexemes(src, e, line);
            lemma_span_cons(
                src,
                plain_token(spec_keyword(src.subrange(pos, e)), src, pos, e, line),
                e,
                scan_from(src, e, line).0,
                token_spans(src, e),
                pos,
            );
        } else {
            lemma_scan_lexemes(src, pos + 1, line);
        }
    }
}

/// The byte-accounting invariant for a whole scan: concatenating the
/// lexemes of the tokens of `spec_scan`, in order, with the skipped
/// whitespace and comment bytes re-inserted between them, reconstructs the
/// source, because the lexemes are non-overlapping slices of it taken left
/// to right.
pub proof fn lemma_scan_byte_accounting(src: Seq<u8>)
    ensures
        token_spans(src, 0).len() == spec_scan(src).0.len(),
        forall|j: int|
            0 <= j < token_spans(src, 0).len() ==> 0 <= (#[trigger] token_spans(src, 0)[j]).0
                && token_spans(src, 0)[j].0 <= token_spans(src, 0)[j].1 <= src.len() && spec_scan(
                src,
            ).0[j].lexeme == src.subrange(token_spans(src, 0)[j].0, token_spans(src, 0)[j].1),
        forall|j: int|
            0 <= j < token_spans(src, 0).len() - 1 ==> ((#[trigger] token_spans(src, 0)[j]).1
                <= token_spans(src, 0)[j + 1].0),
{
    lemma_scan_lexemes(src, 0, 1);
}

} // verus!
