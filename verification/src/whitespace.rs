//! Whitespace between tokens: what a document is without it, and why
//! reading does not depend on it.

use vstd::prelude::*;
use crate::document::{
    find_field, find_variant, lemma_find_field, lemma_find_variant, lemma_parse_value_rest,
    parse_entries, parse_fields, parse_items, parse_tuple, parse_value,
};
use crate::error::ErrorView;
use crate::grammar::{
    all_whitespace, any_token, bool_literal, byte_buffer, byte_items, char_literal,
    classify_number, closing_quote, element_step, enum_end, enum_head, EnumHeadView,
    expect_byte, false_word, float_text, is_whitespace, lemma_closing_quote, lemma_rest_bounds,
    lemma_scan_digits, lemma_skip_whitespace, lemma_skip_whitespace_prefix, null_literal,
    null_word, option_head, read_word, scan_digits, scan_exponent, scan_fraction, scan_number,
    signed_integer, skip_whitespace, string_literal, TokenView, true_word, unsigned_integer,
};
use crate::number::is_digit;
use crate::value::ShapeView;

verus! {

/// The length of the token that `t` opens with, where `t` opens with a
/// token: a string reaches to the quote that closes it, or to the end where
/// none does; a word that opens with `n` or `t` takes up to four bytes, one
/// that opens with `f` up to five; any other byte is a token by itself.
pub open spec fn token_len(t: Seq<u8>) -> int {
    if t.len() == 0 {
        0
    } else if t[0] == 0x22 {
        match closing_quote(t.drop_first(), 0) {
            Some(end) => end + 2,
            None => t.len() as int,
        }
    } else if t[0] == 0x6e || t[0] == 0x74 {
        if t.len() < 4 {
            t.len() as int
        } else {
            4
        }
    } else if t[0] == 0x66 {
        if t.len() < 5 {
            t.len() as int
        } else {
            5
        }
    } else {
        1
    }
}

/// A token has at least one byte and no more than there are.
pub proof fn lemma_token_len(t: Seq<u8>)
    requires
        t.len() > 0,
    ensures
        1 <= token_len(t) <= t.len(),
{
    if t[0] == 0x22 {
        lemma_closing_quote(t.drop_first(), 0);
    }
}

/// The document `s` without the whitespace between its tokens. The
/// whitespace inside a string and inside a word stays: it is part of the
/// token.
pub open spec fn squeeze(s: Seq<u8>) -> Seq<u8>
    decreases s.len(),
{
    let t = skip_whitespace(s);
    if t.len() == 0 {
        Seq::empty()
    } else {
        proof {
            lemma_skip_whitespace(s);
            lemma_token_len(t);
        }
        t.subrange(0, token_len(t)) + squeeze(t.subrange(token_len(t), t.len() as int))
    }
}

/// What is left of a stream behind its first token.
pub open spec fn behind_token(s: Seq<u8>) -> Seq<u8> {
    let t = skip_whitespace(s);
    t.subrange(token_len(t), t.len() as int)
}

/// A squeezed document opens as the document does behind its leading
/// whitespace, with the same token, and goes on with what is left,
/// squeezed.
pub proof fn lemma_squeeze_head(s: Seq<u8>)
    ensures
        squeeze(s) == squeeze(skip_whitespace(s)),
        squeeze(s).len() == 0 <==> skip_whitespace(s).len() == 0,
        skip_whitespace(s).len() > 0 ==> {
            let t = skip_whitespace(s);
            let q = squeeze(s);
            &&& q.len() >= token_len(t)
            &&& q[0] == t[0]
            &&& skip_whitespace(q) == q
            &&& q.subrange(0, token_len(t)) == t.subrange(0, token_len(t))
            &&& q.subrange(token_len(t), q.len() as int) == squeeze(behind_token(s))
            &&& token_len(q) == token_len(t)
        },
{
    lemma_skip_whitespace(s);
    let t = skip_whitespace(s);
    if t.len() > 0 {
        lemma_token_len(t);
        let n = token_len(t);
        let q = squeeze(s);
        let rest = squeeze(t.subrange(n, t.len() as int));
        assert(q == t.subrange(0, n) + rest);
        assert(q[0] == t[0]);
        assert(q.subrange(0, n) =~= t.subrange(0, n));
        assert(q.subrange(n, q.len() as int) =~= rest);
        if t[0] == 0x22 {
            lemma_closing_quote(t.drop_first(), 0);
            match closing_quote(t.drop_first(), 0) {
                Some(end) => {
                    lemma_closing_quote_agrees(t.drop_first(), q.drop_first(), 0, end);
                },
                None => {
                    assert(t.subrange(0, n) =~= t);
                    assert(t.subrange(n, t.len() as int) =~= Seq::<u8>::empty());
                    assert(q =~= t);
                },
            }
        } else if t[0] == 0x6e || t[0] == 0x74 || t[0] == 0x66 {
            if n == t.len() {
                assert(t.subrange(n, t.len() as int) =~= Seq::<u8>::empty());
            }
        }
    }
}

/// The quote that closes a body closes every body that begins as it does
/// up to and with that quote.
pub proof fn lemma_closing_quote_agrees(body: Seq<u8>, other: Seq<u8>, from: int, end: int)
    requires
        0 <= from <= end < body.len(),
        closing_quote(body, from) == Some(end),
        other.len() > end,
        forall|j: int| 0 <= j <= end ==> body[j] == other[j],
    ensures
        closing_quote(other, from) == Some(end),
    decreases end - from,
{
    if from < end {
        if body[from] == 0x22 && (from == 0 || body[from - 1] != 0x5c) {
        } else {
            lemma_closing_quote_agrees(body, other, from + 1, end);
        }
    } else {
        lemma_closing_quote(body, from);
    }
}

/// True when a read from a document and the same read from the document
/// squeezed agree: where either gives a value, both give that value, and
/// what is left of the squeezed document is what is left of the document,
/// squeezed.
pub open spec fn same_read<T>(
    plain: (Result<T, ErrorView>, Seq<u8>),
    squeezed: (Result<T, ErrorView>, Seq<u8>),
) -> bool {
    plain.0 is Ok || squeezed.0 is Ok ==> squeezed.0 == plain.0 && squeezed.1 == squeeze(plain.1)
}

/// True when `b` is a token by itself.
pub open spec fn is_single(b: u8) -> bool {
    b != 0x22 && b != 0x6e && b != 0x74 && b != 0x66
}

/// A squeezed document that opens with a token of one byte goes on with
/// the rest of the document, squeezed.
pub proof fn lemma_squeeze_single(s: Seq<u8>)
    requires
        skip_whitespace(s).len() > 0,
        is_single(skip_whitespace(s)[0]),
    ensures
        squeeze(s).len() > 0,
        squeeze(s)[0] == skip_whitespace(s)[0],
        skip_whitespace(squeeze(s)) == squeeze(s),
        squeeze(s).drop_first() == squeeze(skip_whitespace(s).drop_first()),
{
    lemma_squeeze_head(s);
    let t = skip_whitespace(s);
    let q = squeeze(s);
    assert(token_len(t) == 1);
    assert(q.drop_first() =~= q.subrange(1, q.len() as int));
    assert(t.drop_first() =~= t.subrange(1, t.len() as int));
}

/// A delimiter is read from a document and from the document squeezed
/// alike.
pub proof fn lemma_expect_byte_squeezed(s: Seq<u8>, c: char)
    requires
        c == '[' || c == '{' || c == ':' || c == '}' || c == ']' || c == ',',
    ensures
        same_read(expect_byte(s, c), expect_byte(squeeze(s), c)),
{
    lemma_squeeze_head(s);
    let t = skip_whitespace(s);
    if t.len() > 0 && t[0] as char == c {
        lemma_squeeze_single(s);
    }
}

/// The brace that closes a variant is read from a document and from the
/// document squeezed alike.
pub proof fn lemma_enum_end_squeezed(s: Seq<u8>)
    ensures
        same_read(enum_end(s), enum_end(squeeze(s))),
{
    lemma_expect_byte_squeezed(s, '}');
}

/// A pull on an aggregate gives the same on a document and on the document
/// squeezed.
pub proof fn lemma_element_step_squeezed(s: Seq<u8>, first: bool, close: u8)
    requires
        close == 0x5d || close == 0x7d,
    ensures
        same_read(element_step(s, first, close), element_step(squeeze(s), first, close)),
{
    lemma_squeeze_head(s);
    let t = skip_whitespace(s);
    if t.len() > 0 {
        if t[0] == close || t[0] == 0x2c {
            lemma_squeeze_single(s);
        }
    }
}

/// A word is read from the front of a stream as it is from any stream that
/// begins with the same bytes, as many as the word has.
proof fn lemma_read_word_front(t: Seq<u8>, q: Seq<u8>, word: Seq<u8>, expected: Seq<char>)
    requires
        t.len() >= word.len(),
        q.len() >= word.len(),
        q.subrange(0, word.len() as int) == t.subrange(0, word.len() as int),
    ensures
        read_word(q, word, expected).0 == read_word(t, word, expected).0,
{
}

/// The literal `null` is read from a document and from the document
/// squeezed alike.
pub proof fn lemma_null_literal_squeezed(s: Seq<u8>)
    ensures
        same_read(null_literal(s), null_literal(squeeze(s))),
        same_read(option_head(s), option_head(squeeze(s))),
{
    lemma_squeeze_head(s);
    let t = skip_whitespace(s);
    let q = squeeze(s);
    if t.len() > 0 {
        if t[0] == 0x6e {
            if t.len() >= 4 {
                assert(token_len(t) == 4);
                lemma_read_word_front(t, q, null_word(), "null"@);
            } else {
                assert(t.subrange(0, t.len() as int) =~= t);
                assert(q.len() >= t.len());
                assert(behind_token(s) =~= Seq::<u8>::empty());
                assert(q =~= q.subrange(0, t.len() as int) + q.subrange(
                    t.len() as int,
                    q.len() as int,
                ));
                assert(q =~= t);
            }
        } else {
            // no word that opens otherwise is `null`
            if t.len() >= 4 {
                assert(t.subrange(0, 4)[0] == t[0]);
                assert(null_word()[0] == 0x6e);
            }
            if q.len() >= 4 {
                assert(q.subrange(0, 4)[0] == q[0]);
            }
        }
    }
}

/// The literals `true` and `false` are read from a document and from the
/// document squeezed alike.
pub proof fn lemma_bool_literal_squeezed(s: Seq<u8>)
    ensures
        same_read(bool_literal(s), bool_literal(squeeze(s))),
{
    lemma_squeeze_head(s);
    let t = skip_whitespace(s);
    let q = squeeze(s);
    if t.len() > 0 {
        if t[0] == 0x74 {
            if t.len() >= 4 {
                assert(token_len(t) == 4);
                lemma_read_word_front(t, q, true_word(), "true"@);
            } else {
                assert(t.subrange(0, t.len() as int) =~= t);
                assert(behind_token(s) =~= Seq::<u8>::empty());
                assert(q =~= q.subrange(0, t.len() as int) + q.subrange(
                    t.len() as int,
                    q.len() as int,
                ));
                assert(q =~= t);
            }
        } else if t[0] == 0x66 {
            if t.len() >= 5 {
                assert(token_len(t) == 5);
                lemma_read_word_front(t, q, false_word(), "false"@);
            } else {
                assert(t.subrange(0, t.len() as int) =~= t);
                assert(behind_token(s) =~= Seq::<u8>::empty());
                assert(q =~= q.subrange(0, t.len() as int) + q.subrange(
                    t.len() as int,
                    q.len() as int,
                ));
                assert(q =~= t);
            }
        }
    }
}

/// A string is read from a document and from the document squeezed alike.
pub proof fn lemma_string_literal_squeezed(s: Seq<u8>)
    ensures
        same_read(string_literal(s), string_literal(squeeze(s))),
        same_read(char_literal(s), char_literal(squeeze(s))),
{
    lemma_squeeze_head(s);
    let t = skip_whitespace(s);
    let q = squeeze(s);
    if t.len() > 0 && t[0] == 0x22 {
        let body = t.drop_first();
        let other = q.drop_first();
        lemma_closing_quote(body, 0);
        match closing_quote(body, 0) {
            Some(end) => {
                assert(token_len(t) == end + 2);
                assert forall|j: int| 0 <= j <= end implies body[j] == other[j] by {
                    assert(q.subrange(0, end + 2)[j + 1] == t.subrange(0, end + 2)[j + 1]);
                }
                lemma_closing_quote_agrees(body, other, 0, end);
                assert(other.subrange(0, end) =~= body.subrange(0, end));
                assert(other.subrange(end + 1, other.len() as int) =~= q.subrange(
                    end + 2,
                    q.len() as int,
                ));
                assert(body.subrange(end + 1, body.len() as int) =~= t.subrange(
                    end + 2,
                    t.len() as int,
                ));
            },
            None => {
                assert(token_len(t) == t.len());
                assert(t.subrange(0, t.len() as int) =~= t);
                assert(behind_token(s) =~= Seq::<u8>::empty());
                assert(q =~= q.subrange(0, t.len() as int) + q.subrange(
                    t.len() as int,
                    q.len() as int,
                ));
                assert(q =~= t);
            },
        }
    }
}

/// A run of digits is scanned from a document and from the document
/// squeezed alike.
pub proof fn lemma_scan_digits_squeezed(s: Seq<u8>)
    ensures
        scan_digits(squeeze(s)) == (scan_digits(s).0, squeeze(scan_digits(s).1)),
    decreases s.len(),
{
    lemma_squeeze_head(s);
    lemma_skip_whitespace(s);
    let t = skip_whitespace(s);
    if t.len() > 0 && is_digit(t[0]) {
        lemma_squeeze_single(s);
        lemma_scan_digits_squeezed(t.drop_first());
    } else {
        lemma_skip_whitespace(t);
    }
}

/// An integer is read from a document and from the document squeezed
/// alike.
pub proof fn lemma_integer_squeezed(s: Seq<u8>, min: int, max: int)
    ensures
        signed_integer(squeeze(s), min, max) == (
            signed_integer(s, min, max).0,
            squeeze(signed_integer(s, min, max).1),
        ),
        unsigned_integer(squeeze(s), max) == (
            unsigned_integer(s, max).0,
            squeeze(unsigned_integer(s, max).1),
        ),
{
    lemma_squeeze_head(s);
    lemma_scan_digits_squeezed(s);
    let t = skip_whitespace(s);
    if t.len() > 0 {
        if t[0] == 0x2d {
            lemma_squeeze_single(s);
            lemma_scan_digits_squeezed(t.drop_first());
        } else {
            lemma_scan_digits_squeezed(t);
        }
    } else {
        assert(squeeze(t) =~= t);
    }
}

/// A fraction and an exponent are scanned from a document and from the
/// document squeezed alike.
proof fn lemma_scan_part_squeezed(s: Seq<u8>)
    ensures
        scan_fraction(squeeze(s)) == (scan_fraction(s).0, squeeze(scan_fraction(s).1)),
        scan_exponent(squeeze(s)) == (scan_exponent(s).0, squeeze(scan_exponent(s).1)),
{
    lemma_squeeze_head(s);
    lemma_skip_whitespace(s);
    let t = skip_whitespace(s);
    if t.len() > 0 && (t[0] == 0x2e || t[0] == 0x65 || t[0] == 0x45) {
        lemma_squeeze_single(s);
        lemma_scan_digits_squeezed(t.drop_first());
    } else {
        lemma_skip_whitespace(t);
    }
}

/// A number is scanned from a document and from the document squeezed
/// alike.
pub proof fn lemma_number_squeezed(s: Seq<u8>)
    ensures
        scan_number(squeeze(s)) == (scan_number(s).0, squeeze(scan_number(s).1)),
        float_text(squeeze(s)) == (float_text(s).0, squeeze(float_text(s).1)),
        classify_number(squeeze(s)) == (classify_number(s).0, squeeze(classify_number(s).1)),
{
    lemma_squeeze_head(s);
    let t = skip_whitespace(s);
    if t.len() > 0 {
        let at_digits = if t[0] == 0x2d {
            t.drop_first()
        } else {
            t
        };
        if t[0] == 0x2d {
            lemma_squeeze_single(s);
        }
        lemma_scan_digits_squeezed(at_digits);
        let after_digits = scan_digits(at_digits).1;
        lemma_scan_part_squeezed(after_digits);
        let after_fraction = scan_fraction(after_digits).1;
        lemma_scan_part_squeezed(after_fraction);
    } else {
        assert(squeeze(t) =~= t);
    }
}

/// The items of a byte buffer are read from a document and from the
/// document squeezed alike.
pub proof fn lemma_byte_items_squeezed(s: Seq<u8>)
    ensures
        same_read(byte_items(s), byte_items(squeeze(s))),
    decreases s.len(),
{
    lemma_integer_squeezed(s, 0, u8::MAX as int);
    let rest = unsigned_integer(s, u8::MAX as int).1;
    lemma_scan_digits(s);
    lemma_skip_whitespace(rest);
    lemma_squeeze_head(rest);
    let t = skip_whitespace(rest);
    if unsigned_integer(s, u8::MAX as int).0 is Ok && t.len() > 0 {
        if t[0] == 0x5d {
            lemma_squeeze_single(rest);
        } else if t[0] == 0x2c {
            lemma_squeeze_single(rest);
            lemma_byte_items_squeezed(t.drop_first());
        }
    }
}

/// A byte buffer is read from a document and from the document squeezed
/// alike.
pub proof fn lemma_byte_buffer_squeezed(s: Seq<u8>)
    ensures
        same_read(byte_buffer(s), byte_buffer(squeeze(s))),
{
    lemma_expect_byte_squeezed(s, '[');
    lemma_byte_items_squeezed(expect_byte(s, '[').1);
}

/// What is found where nothing is expected is the same in a document and
/// in the document squeezed.
pub proof fn lemma_any_token_squeezed(s: Seq<u8>)
    ensures
        same_read(any_token(s), any_token(squeeze(s))),
{
    lemma_squeeze_head(s);
    lemma_skip_whitespace(s);
    let t = skip_whitespace(s);
    if t.len() > 0 {
        lemma_squeeze_head(t);
        if t[0] == 0x22 {
            lemma_string_literal_squeezed(t);
        } else if t[0] == 0x5b || t[0] == 0x7b {
            lemma_squeeze_single(s);
        } else if t[0] == 0x6e {
            lemma_null_literal_squeezed(t);
        } else if t[0] == 0x74 || t[0] == 0x66 {
            lemma_bool_literal_squeezed(t);
        } else if t[0] == 0x2d || is_digit(t[0]) {
            lemma_number_squeezed(t);
        }
    }
}

/// The start of a variant is read from a document and from the document
/// squeezed alike.
pub proof fn lemma_enum_head_squeezed(s: Seq<u8>)
    ensures
        same_read(enum_head(s), enum_head(squeeze(s))),
{
    lemma_squeeze_head(s);
    lemma_skip_whitespace(s);
    let t = skip_whitespace(s);
    if t.len() > 0 {
        lemma_squeeze_head(t);
        if t[0] == 0x22 {
            lemma_string_literal_squeezed(t);
        } else if t[0] == 0x7b {
            lemma_squeeze_single(s);
            lemma_string_literal_squeezed(t.drop_first());
        }
    }
}

/// A value is read from a document and from the document squeezed alike.
#[verifier::rlimit(30)]
pub proof fn lemma_parse_value_squeezed(shape: ShapeView, s: Seq<u8>)
    ensures
        same_read(parse_value(shape, s), parse_value(shape, squeeze(s))),
    decreases shape, s.len(), 0int,
{
    lemma_skip_whitespace(s);
    match shape {
        ShapeView::Any => {
            lemma_any_token_squeezed(s);
            match any_token(s) {
                (Ok(TokenView::Sequence), rest) => {
                    lemma_parse_items_squeezed(shape, rest, true);
                },
                (Ok(TokenView::Mapping), rest) => {
                    lemma_parse_entries_squeezed(shape, rest, true);
                },
                _ => {},
            }
        },
        ShapeView::Unit => {
            lemma_null_literal_squeezed(s);
        },
        ShapeView::Bool => {
            lemma_bool_literal_squeezed(s);
        },
        ShapeView::I8 => {
            lemma_integer_squeezed(s, i8::MIN as int, i8::MAX as int);
        },
        ShapeView::I16 => {
            lemma_integer_squeezed(s, i16::MIN as int, i16::MAX as int);
        },
        ShapeView::I32 => {
            lemma_integer_squeezed(s, i32::MIN as int, i32::MAX as int);
        },
        ShapeView::I64 => {
            lemma_integer_squeezed(s, i64::MIN as int, i64::MAX as int);
        },
        ShapeView::U8 => {
            lemma_integer_squeezed(s, 0, u8::MAX as int);
        },
        ShapeView::U16 => {
            lemma_integer_squeezed(s, 0, u16::MAX as int);
        },
        ShapeView::U32 => {
            lemma_integer_squeezed(s, 0, u32::MAX as int);
        },
        ShapeView::U64 => {
            lemma_integer_squeezed(s, 0, u64::MAX as int);
        },
        ShapeView::Float => {
            lemma_number_squeezed(s);
        },
        ShapeView::Char => {
            lemma_string_literal_squeezed(s);
        },
        ShapeView::Str => {
            lemma_string_literal_squeezed(s);
        },
        ShapeView::Bytes => {
            lemma_byte_buffer_squeezed(s);
        },
        ShapeView::Optional(inner) => {
            lemma_null_literal_squeezed(s);
            match option_head(s) {
                (Ok(true), rest) => {
                    lemma_parse_value_squeezed(*inner, rest);
                },
                _ => {},
            }
        },
        ShapeView::Sequence(_) => {
            lemma_expect_byte_squeezed(s, '[');
            match expect_byte(s, '[') {
                (Ok(_), rest) => {
                    lemma_parse_items_squeezed(shape, rest, true);
                },
                _ => {},
            }
        },
        ShapeView::Mapping(_, _) => {
            lemma_expect_byte_squeezed(s, '{');
            match expect_byte(s, '{') {
                (Ok(_), rest) => {
                    lemma_parse_entries_squeezed(shape, rest, true);
                },
                _ => {},
            }
        },
        ShapeView::Tuple(_) => {
            lemma_expect_byte_squeezed(s, '[');
            match expect_byte(s, '[') {
                (Ok(_), rest) => {
                    lemma_parse_tuple_squeezed(shape, 0, rest);
                },
                _ => {},
            }
        },
        ShapeView::Struct(_) => {
            lemma_expect_byte_squeezed(s, '{');
            match expect_byte(s, '{') {
                (Ok(_), rest) => {
                    lemma_parse_fields_squeezed(shape, rest, true);
                },
                _ => {},
            }
        },
        ShapeView::Enum(variants) => {
            lemma_enum_head_squeezed(s);
            match enum_head(s) {
                (Ok(EnumHeadView::Tagged(name)), rest) => {
                    match find_variant(variants, name, 0) {
                        Some(i) => {
                            lemma_find_variant(variants, name, 0);
                            lemma_expect_byte_squeezed(rest, ':');
                            match (expect_byte(rest, ':'), variants[i].1) {
                                ((Ok(_), at_payload), Some(payload)) => {
                                    lemma_parse_value_squeezed(payload, at_payload);
                                    lemma_enum_end_squeezed(parse_value(payload, at_payload).1);
                                },
                                _ => {},
                            }
                        },
                        None => {},
                    }
                },
                _ => {},
            }
        },
    }
}

/// The items of a sequence are read from a document and from the document
/// squeezed alike.
pub proof fn lemma_parse_items_squeezed(shape: ShapeView, s: Seq<u8>, first: bool)
    ensures
        same_read(parse_items(shape, s, first), parse_items(shape, squeeze(s), first)),
    decreases shape, s.len(), (if first {
        2int
    } else {
        1int
    }),
{
    lemma_skip_whitespace(s);
    lemma_rest_bounds(s);
    lemma_element_step_squeezed(s, first, 0x5d);
    match element_step(s, first, 0x5d) {
        (Ok(true), rest) => {
            match shape {
                ShapeView::Sequence(item) => {
                    lemma_parse_value_squeezed(*item, rest);
                    lemma_parse_value_rest(*item, rest);
                    lemma_parse_value_rest(*item, squeeze(rest));
                },
                ShapeView::Any => {
                    lemma_parse_value_squeezed(shape, rest);
                    lemma_parse_value_rest(shape, rest);
                    lemma_parse_value_rest(shape, squeeze(rest));
                },
                _ => {},
            }
            let item = match shape {
                ShapeView::Sequence(item) => parse_value(*item, rest),
                ShapeView::Any => parse_value(shape, rest),
                _ => (Err(crate::error::eof()), rest),
            };
            match item {
                (Ok(_), after) => {
                    lemma_parse_items_squeezed(shape, after, false);
                },
                _ => {},
            }
        },
        _ => {},
    }
}

/// The items of a tuple are read from a document and from the document
/// squeezed alike.
pub proof fn lemma_parse_tuple_squeezed(shape: ShapeView, i: int, s: Seq<u8>)
    ensures
        same_read(parse_tuple(shape, i, s), parse_tuple(shape, i, squeeze(s))),
    decreases shape, s.len(), (match shape {
        ShapeView::Tuple(shapes) => if 0 <= i <= shapes.len() {
            shapes.len() - i + 1
        } else {
            0
        },
        _ => 0,
    }),
{
    lemma_skip_whitespace(s);
    lemma_rest_bounds(s);
    match shape {
        ShapeView::Tuple(shapes) => {
            lemma_element_step_squeezed(s, i == 0, 0x5d);
            match element_step(s, i == 0, 0x5d) {
                (Ok(true), rest) => {
                    if 0 <= i < shapes.len() {
                        lemma_parse_value_squeezed(shapes[i], rest);
                        lemma_parse_value_rest(shapes[i], rest);
                        lemma_parse_value_rest(shapes[i], squeeze(rest));
                        match parse_value(shapes[i], rest) {
                            (Ok(_), after) => {
                                lemma_parse_tuple_squeezed(shape, i + 1, after);
                            },
                            _ => {},
                        }
                    }
                },
                _ => {},
            }
        },
        _ => {},
    }
}

/// The entries of a struct are read from a document and from the document
/// squeezed alike.
pub proof fn lemma_parse_fields_squeezed(shape: ShapeView, s: Seq<u8>, first: bool)
    ensures
        same_read(parse_fields(shape, s, first), parse_fields(shape, squeeze(s), first)),
    decreases shape, s.len(), (if first {
        2int
    } else {
        1int
    }),
{
    lemma_skip_whitespace(s);
    lemma_rest_bounds(s);
    match shape {
        ShapeView::Struct(fields) => {
            lemma_element_step_squeezed(s, first, 0x7d);
            match element_step(s, first, 0x7d) {
                (Ok(true), rest) => {
                    lemma_rest_bounds(rest);
                    lemma_string_literal_squeezed(rest);
                    match string_literal(rest) {
                        (Ok(name), after_key) => {
                            lemma_rest_bounds(after_key);
                            lemma_skip_whitespace(after_key);
                            lemma_expect_byte_squeezed(after_key, ':');
                            match (find_field(fields, name, 0), expect_byte(after_key, ':')) {
                                (Some(j), (Ok(_), at_value)) => {
                                    lemma_find_field(fields, name, 0);
                                    lemma_parse_value_squeezed(fields[j].1, at_value);
                                    lemma_parse_value_rest(fields[j].1, at_value);
                                    lemma_parse_value_rest(fields[j].1, squeeze(at_value));
                                    match parse_value(fields[j].1, at_value) {
                                        (Ok(_), after) => {
                                            lemma_parse_fields_squeezed(shape, after, false);
                                        },
                                        _ => {},
                                    }
                                },
                                _ => {},
                            }
                        },
                        _ => {},
                    }
                },
                _ => {},
            }
        },
        _ => {},
    }
}

/// The entries of a map are read from a document and from the document
/// squeezed alike.
pub proof fn lemma_parse_entries_squeezed(shape: ShapeView, s: Seq<u8>, first: bool)
    ensures
        same_read(parse_entries(shape, s, first), parse_entries(shape, squeeze(s), first)),
    decreases shape, s.len(), (if first {
        2int
    } else {
        1int
    }),
{
    lemma_skip_whitespace(s);
    lemma_rest_bounds(s);
    lemma_element_step_squeezed(s, first, 0x7d);
    match element_step(s, first, 0x7d) {
        (Ok(true), rest) => {
            match shape {
                ShapeView::Mapping(key, _) => {
                    lemma_parse_value_squeezed(*key, rest);
                    lemma_parse_value_rest(*key, rest);
                    lemma_parse_value_rest(*key, squeeze(rest));
                },
                ShapeView::Any => {
                    lemma_parse_value_squeezed(shape, rest);
                    lemma_parse_value_rest(shape, rest);
                    lemma_parse_value_rest(shape, squeeze(rest));
                },
                _ => {},
            }
            let key = match shape {
                ShapeView::Mapping(key, _) => parse_value(*key, rest),
                ShapeView::Any => parse_value(shape, rest),
                _ => (Err(crate::error::eof()), rest),
            };
            match key {
                (Ok(_), after_key) => {
                    lemma_rest_bounds(after_key);
                    lemma_skip_whitespace(after_key);
                    lemma_expect_byte_squeezed(after_key, ':');
                    match expect_byte(after_key, ':') {
                        (Ok(_), at_value) => {
                            match shape {
                                ShapeView::Mapping(_, value) => {
                                    lemma_parse_value_squeezed(*value, at_value);
                                    lemma_parse_value_rest(*value, at_value);
                                    lemma_parse_value_rest(*value, squeeze(at_value));
                                },
                                ShapeView::Any => {
                                    lemma_parse_value_squeezed(shape, at_value);
                                    lemma_parse_value_rest(shape, at_value);
                                    lemma_parse_value_rest(shape, squeeze(at_value));
                                },
                                _ => {},
                            }
                            let value = match shape {
                                ShapeView::Mapping(_, value) => parse_value(*value, at_value),
                                ShapeView::Any => parse_value(shape, at_value),
                                _ => (Err(crate::error::eof()), at_value),
                            };
                            match value {
                                (Ok(_), after) => {
                                    lemma_parse_entries_squeezed(shape, after, false);
                                },
                                _ => {},
                            }
                        },
                        _ => {},
                    }
                },
                _ => {},
            }
        },
        _ => {},
    }
}

/// True when the token that `t` opens with ends inside `t`: a string has
/// its closing quote, a word has its four or five bytes.
pub open spec fn token_is_whole(t: Seq<u8>) -> bool {
    if t.len() == 0 {
        false
    } else if t[0] == 0x22 {
        closing_quote(t.drop_first(), 0) is Some
    } else if t[0] == 0x6e || t[0] == 0x74 {
        t.len() >= 4
    } else if t[0] == 0x66 {
        t.len() >= 5
    } else {
        true
    }
}

/// True when `a` is made of whole tokens and the whitespace between them:
/// it ends where a token ends, or in whitespace behind one.
pub open spec fn whole_tokens(a: Seq<u8>) -> bool
    decreases a.len(),
{
    let t = skip_whitespace(a);
    if t.len() == 0 {
        true
    } else {
        proof {
            lemma_skip_whitespace(a);
            lemma_token_len(t);
        }
        token_is_whole(t) && whole_tokens(t.subrange(token_len(t), t.len() as int))
    }
}

/// Skipping the whitespace in front of two streams, one behind the other:
/// where the first holds more than whitespace, only it is skipped into.
pub proof fn lemma_skip_whitespace_append(a: Seq<u8>, x: Seq<u8>)
    ensures
        skip_whitespace(a + x) == (if skip_whitespace(a).len() > 0 {
            skip_whitespace(a) + x
        } else {
            skip_whitespace(x)
        }),
    decreases a.len(),
{
    if a.len() == 0 {
        assert(a + x =~= x);
    } else if is_whitespace(a[0]) {
        assert((a + x)[0] == a[0]);
        assert((a + x).drop_first() =~= a.drop_first() + x);
        lemma_skip_whitespace_append(a.drop_first(), x);
    } else {
        assert((a + x)[0] == a[0]);
    }
}

/// Behind whole tokens a document is squeezed by itself.
pub proof fn lemma_squeeze_append(a: Seq<u8>, x: Seq<u8>)
    requires
        whole_tokens(a),
    ensures
        squeeze(a + x) == squeeze(a) + squeeze(x),
    decreases a.len(),
{
    lemma_skip_whitespace(a);
    lemma_skip_whitespace_append(a, x);
    let t = skip_whitespace(a);
    if t.len() == 0 {
        lemma_squeeze_head(a + x);
        lemma_squeeze_head(x);
        lemma_squeeze_head(a);
        assert(squeeze(a) + squeeze(x) =~= squeeze(x));
    } else {
        lemma_token_len(t);
        let n = token_len(t);
        let u = t + x;
        assert(u[0] == t[0]);
        if t[0] == 0x22 {
            lemma_closing_quote(t.drop_first(), 0);
            let end = closing_quote(t.drop_first(), 0)->0;
            assert forall|j: int| 0 <= j <= end implies t.drop_first()[j] == u.drop_first()[j] by {
                assert(u[j + 1] == t[j + 1]);
            }
            lemma_closing_quote_agrees(t.drop_first(), u.drop_first(), 0, end);
        }
        assert(token_len(u) == n);
        assert(u.subrange(0, n) =~= t.subrange(0, n));
        assert(u.subrange(n, u.len() as int) =~= t.subrange(n, t.len() as int) + x);
        lemma_squeeze_append(t.subrange(n, t.len() as int), x);
        assert(squeeze(a + x) =~= squeeze(a) + squeeze(x));
    }
}

/// Whitespace is squeezed to nothing.
pub proof fn lemma_squeeze_whitespace(whitespace: Seq<u8>, x: Seq<u8>)
    requires
        all_whitespace(whitespace),
    ensures
        squeeze(whitespace + x) == squeeze(x),
{
    lemma_skip_whitespace_prefix(whitespace, x);
    lemma_squeeze_head(whitespace + x);
    lemma_squeeze_head(x);
}

} // verus!
