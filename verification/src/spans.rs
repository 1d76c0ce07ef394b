use vstd::prelude::*;

verus! {

/// ASCII code of the line-feed character.
pub const NEWLINE: u8 = 10;

/// ASCII code of the double quote that delimits string literals.
pub const QUOTE: u8 = 34;

/// A byte is an ASCII decimal digit.
pub open spec fn is_digit_byte(b: u8) -> bool {
    48 <= b && b <= 57
}

/// A byte is an ASCII letter or an underscore: the characters that may begin
/// an identifier.
pub open spec fn is_alpha_byte(b: u8) -> bool {
    (97 <= b && b <= 122) || (65 <= b && b <= 90) || b == 95
}

/// A byte that may continue an identifier: a letter, digit, or underscore.
pub open spec fn is_alnum_byte(b: u8) -> bool {
    is_digit_byte(b) || is_alpha_byte(b)
}

/// End of the maximal run of decimal digits that starts at `pos`.
pub open spec fn digits_end(src: Seq<u8>, pos: int) -> int
    decreases src.len() - pos,
{
    if 0 <= pos && pos < src.len() && is_digit_byte(src[pos]) {
        digits_end(src, pos + 1)
    } else {
        pos
    }
}

/// End of the maximal run of identifier bytes that starts at `pos`.
pub open spec fn ident_end(src: Seq<u8>, pos: int) -> int
    decreases src.len() - pos,
{
    if 0 <= pos && pos < src.len() && is_alnum_byte(src[pos]) {
        ident_end(src, pos + 1)
    } else {
        pos
    }
}

/// First position at or after `pos` holding a newline, or the input's end:
/// where a line comment stops being skipped.
pub open spec fn comment_end(src: Seq<u8>, pos: int) -> int
    decreases src.len() - pos,
{
    if 0 <= pos && pos < src.len() && src[pos] != NEWLINE {
        comment_end(src, pos + 1)
    } else {
        pos
    }
}

/// First position at or after `pos` holding a closing double quote, or the
/// input's length when the string literal is unterminated.
pub open spec fn string_close(src: Seq<u8>, pos: int) -> int
    decreases src.len() - pos,
{
    if 0 <= pos && pos < src.len() {
        if src[pos] == QUOTE {
            pos
        } else {
            string_close(src, pos + 1)
        }
    } else {
        src.len() as int
    }
}

/// How many newline bytes lie in `src[a..b]`.
pub open spec fn newlines_between(src: Seq<u8>, a: int, b: int) -> int
    decreases b - a,
{
    if a < b {
        newlines_between(src, a, b - 1) + if 0 <= b - 1 && b - 1 < src.len() && src[b - 1]
            == NEWLINE {
            1int
        } else {
            0int
        }
    } else {
        0
    }
}

/// Bounds and characterization of [`digits_end`]: it never moves backwards,
/// stays within the input, spans digits only, and stops at the first
/// non-digit.
pub broadcast proof fn lemma_digits_end(src: Seq<u8>, pos: int)
    ensures
        pos <= #[trigger] digits_end(src, pos),
        pos <= src.len() ==> digits_end(src, pos) <= src.len(),
        forall|i: int| pos <= i < digits_end(src, pos) ==> is_digit_byte(#[trigger] src[i]),
        0 <= digits_end(src, pos) < src.len() ==> !is_digit_byte(src[digits_end(src, pos)]),
    decreases src.len() - pos,
{
    if 0 <= pos && pos < src.len() && is_digit_byte(src[pos]) {
        lemma_digits_end(src, pos + 1);
    }
}

/// Bounds and characterization of [`ident_end`], as for [`lemma_digits_end`].
pub broadcast proof fn lemma_ident_end(src: Seq<u8>, pos: int)
    ensures
        pos <= #[trigger] ident_end(src, pos),
        pos <= src.len() ==> ident_end(src, pos) <= src.len(),
        forall|i: int| pos <= i < ident_end(src, pos) ==> is_alnum_byte(#[trigger] src[i]),
        0 <= ident_end(src, pos) < src.len() ==> !is_alnum_byte(src[ident_end(src, pos)]),
    decreases src.len() - pos,
{
    if 0 <= pos && pos < src.len() && is_alnum_byte(src[pos]) {
        lemma_ident_end(src, pos + 1);
    }
}

/// Bounds and characterization of [`comment_end`]: the skipped span holds no
/// newline, and scanning stops on a newline or at the end of input.
pub broadcast proof fn lemma_comment_end(src: Seq<u8>, pos: int)
    ensures
        pos <= #[trigger] comment_end(src, pos),
        pos <= src.len() ==> comment_end(src, pos) <= src.len(),
        forall|i: int| pos <= i < comment_end(src, pos) ==> #[trigger] src[i] != NEWLINE,
        0 <= comment_end(src, pos) < src.len() ==> src[comment_end(src, pos)] == NEWLINE,
    decreases src.len() - pos,
{
    if 0 <= pos && pos < src.len() && src[pos] != NEWLINE {
        lemma_comment_end(src, pos + 1);
    }
}

/// Bounds and characterization of [`string_close`]: the span before it holds
/// no closing quote, and it points at a quote unless the input ran out.
pub broadcast proof fn lemma_string_close(src: Seq<u8>, pos: int)
    requires
        0 <= pos <= src.len(),
    ensures
        pos <= #[trigger] string_close(src, pos),
        string_close(src, pos) <= src.len(),
        forall|i: int| pos <= i < string_close(src, pos) ==> #[trigger] src[i] != QUOTE,
        string_close(src, pos) < src.len() ==> src[string_close(src, pos)] == QUOTE,
    decreases src.len() - pos,
{
    if 0 <= pos && pos < src.len() && src[pos] != QUOTE {
        lemma_string_close(src, pos + 1);
    }
}

/// The newline count of a span is non-negative and bounded by its width.
pub broadcast proof fn lemma_newlines_between_bounds(src: Seq<u8>, a: int, b: int)
    ensures
        0 <= #[trigger] newlines_between(src, a, b),
        newlines_between(src, a, b) <= if b - a >= 0 {
            b - a
        } else {
            0
        },
    decreases b - a,
{
    if a < b {
        lemma_newlines_between_bounds(src, a, b - 1);
    }
}

/// A span of width one counts exactly its own byte.
pub broadcast proof fn lemma_newlines_one(src: Seq<u8>, a: int)
    ensures
        #[trigger] newlines_between(src, a, a + 1) == if 0 <= a < src.len() && src[a] == NEWLINE {
            1int
        } else {
            0int
        },
{
    assert(newlines_between(src, a, a) == 0);
}

/// Newline counts add up over adjacent spans.
pub proof fn lemma_newlines_split(src: Seq<u8>, a: int, b: int, c: int)
    requires
        a <= b <= c,
    ensures
        newlines_between(src, a, c) == newlines_between(src, a, b) + newlines_between(src, b, c),
    decreases c - b,
{
    if b < c {
        lemma_newlines_split(src, a, b, c - 1);
    }
}

/// A span free of newline bytes counts zero newlines.
pub proof fn lemma_newlines_zero(src: Seq<u8>, a: int, b: int)
    requires
        0 <= a,
        b <= src.len(),
        forall|i: int| a <= i < b ==> #[trigger] src[i] != NEWLINE,
    ensures
        newlines_between(src, a, b) == 0,
    decreases b - a,
{
    if a < b {
        assert(src[b - 1] != NEWLINE);
        lemma_newlines_zero(src, a, b - 1);
    }
}

} // verus!
