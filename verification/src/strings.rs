//! Why a string that was written is read back: the escape codec undoes
//! itself, and the quote that closes a written string is the one found.

use vstd::prelude::*;
use vstd::utf8::{
    char_is_scalar, char_u32_cast, encode_scalar, encode_utf8, encode_utf8_decode_utf8,
    encode_utf8_valid_utf8, has_width_1_encoding, is_scalar,
};
use crate::error::ErrorView;
use crate::grammar::{char_literal, closing_quote, skip_whitespace, string_literal};
use crate::parse::{
    escape_spec, escape_text, hex_digit, hex_quad, hex_value, prepend, unescape_spec,
};
use crate::render::quoted;
use crate::text::lemma_encode_utf8_concat;

verus! {

/// A text that is read back as it was written: one that does not end in a
/// backslash. Behind a backslash the closing quote is taken for an escaped
/// one.
pub open spec fn reads_back(text: Seq<char>) -> bool {
    text.len() == 0 || text.last() != '\\'
}

/// The two hexadecimal digits of a number below 256 name that number.
proof fn lemma_hex_digits(n: int)
    requires
        0 <= n < 256,
    ensures
        hex_quad('0', '0', hex_digit(n / 16), hex_digit(n % 16)) == Some(n as u32),
{
    let hi = n / 16;
    let lo = n % 16;
    assert(0 <= hi < 16 && 0 <= lo < 16);
    assert(hex_value(hex_digit(hi)) == Some(hi as u32));
    assert(hex_value(hex_digit(lo)) == Some(lo as u32));
    assert(hex_value('0') == Some(0u32));
}

/// Decoding the escape of a character in front of any text gives the
/// character in front of what the text decodes to.
pub proof fn lemma_unescape_one(c: char, rest: Seq<char>)
    ensures
        unescape_spec(escape_spec(c) + rest) == prepend(c, unescape_spec(rest)),
{
    let x = escape_spec(c) + rest;
    if c == '"' || c == '\\' || c == '\x08' || c == '\x0c' || c == '\n' || c == '\r' || c == '\t' {
        assert(x[0] == '\\');
        assert(x[1] == escape_spec(c)[1]);
        assert(x.skip(2) =~= rest);
    } else if (c as u32) < 0x20 {
        let n = (c as u32) as int;
        assert(x[0] == '\\' && x[1] == 'u' && x[2] == '0' && x[3] == '0');
        assert(x[4] == hex_digit(n / 16) && x[5] == hex_digit(n % 16));
        lemma_hex_digits(n);
        char_is_scalar(c);
        char_u32_cast(c, c as u32);
        assert(x.skip(6) =~= rest);
    } else {
        assert(x[0] == c);
        assert(x.drop_first() =~= rest);
    }
}

/// Decoding undoes escaping.
pub proof fn lemma_unescape_escape(text: Seq<char>)
    ensures
        unescape_spec(escape_text(text)) == Ok::<Seq<char>, ErrorView>(text),
    decreases text.len(),
{
    if text.len() > 0 {
        lemma_unescape_escape(text.drop_first());
        lemma_unescape_one(text[0], escape_text(text.drop_first()));
        assert(seq![text[0]] + text.drop_first() =~= text);
    } else {
        assert(text =~= Seq::<char>::empty());
    }
}

/// The bytes that one character is written as inside a string.
pub open spec fn escaped_bytes(c: char) -> Seq<u8> {
    encode_utf8(escape_spec(c))
}

/// Every quote among `bytes` stands right behind a backslash.
pub open spec fn quotes_escaped(bytes: Seq<u8>) -> bool {
    forall|j: int|
        0 <= j < bytes.len() && #[trigger] bytes[j] == 0x22 ==> j > 0 && bytes[j - 1] == 0x5c
}

/// The encoding of a character that is not ASCII holds no byte below 128.
proof fn lemma_encode_scalar_high(v: u32)
    requires
        is_scalar(v),
        !has_width_1_encoding(v),
    ensures
        forall|j: int| 0 <= j < encode_scalar(v).len() ==> (#[trigger] encode_scalar(v)[j]) >= 0x80,
        encode_scalar(v).len() >= 2,
{
    assert(0xC0u8 | (((v >> 6) & 0x1F) as u8) >= 0x80) by (bit_vector);
    assert(0xE0u8 | (((v >> 12) & 0x0F) as u8) >= 0x80) by (bit_vector);
    assert(0xF0u8 | (((v >> 18) & 0x7) as u8) >= 0x80) by (bit_vector);
    assert(0x80u8 | ((v & 0x3F) as u8) >= 0x80) by (bit_vector);
    assert(0x80u8 | (((v >> 6) & 0x3F) as u8) >= 0x80) by (bit_vector);
    assert(0x80u8 | (((v >> 12) & 0x3F) as u8) >= 0x80) by (bit_vector);
}

/// The encoding of a text of one character is the encoding of the
/// character.
proof fn lemma_encode_one(c: char)
    ensures
        encode_utf8(seq![c]) == encode_scalar(c as u32),
{
    assert(seq![c].drop_first() =~= Seq::<char>::empty());
    assert(encode_utf8(seq![c].drop_first()) =~= Seq::<u8>::empty());
    assert(encode_utf8(seq![c]) =~= encode_scalar(c as u32));
}

/// An ASCII character is encoded as the one byte of its number.
proof fn lemma_encode_ascii(c: char)
    requires
        (c as u32) < 0x80,
    ensures
        encode_scalar(c as u32) == seq![(c as u32) as u8],
{
    let v = c as u32;
    assert((v & 0x7F) as u8 == v as u8) by (bit_vector)
        requires
            v < 0x80,
    ;
    assert(encode_scalar(v) =~= seq![v as u8]);
}

/// The encoding of an ASCII text: byte for byte the numbers of its
/// characters.
pub proof fn lemma_encode_ascii_text(text: Seq<char>)
    requires
        forall|i: int| 0 <= i < text.len() ==> ((#[trigger] text[i]) as u32) < 0x80,
    ensures
        encode_utf8(text).len() == text.len(),
        forall|i: int| 0 <= i < text.len() ==> (#[trigger] encode_utf8(text)[i]) == (text[i] as u32) as u8,
    decreases text.len(),
{
    if text.len() > 0 {
        lemma_encode_ascii(text[0]);
        lemma_encode_ascii_text(text.drop_first());
        assert forall|i: int| 0 <= i < text.len() implies (#[trigger] encode_utf8(text)[i]) == (
        text[i] as u32) as u8 by {
            if i > 0 {
                assert(encode_utf8(text)[i] == encode_utf8(text.drop_first())[i - 1]);
                assert(text.drop_first()[i - 1] == text[i]);
            }
        }
    }
}

/// What one character is written as: at least one byte; a quote only behind
/// a backslash; a backslash at the end only for the backslash itself.
pub proof fn lemma_escaped_bytes(c: char)
    ensures
        escaped_bytes(c).len() > 0,
        quotes_escaped(escaped_bytes(c)),
        escaped_bytes(c).last() == 0x5c <==> c == '\\',
{
    let x = escape_spec(c);
    let b = escaped_bytes(c);
    char_is_scalar(c);
    if c == '"' || c == '\\' || c == '\x08' || c == '\x0c' || c == '\n' || c == '\r' || c == '\t' {
        lemma_encode_ascii_text(x);
        assert(b.len() == 2);
        assert(b[0] == 0x5c);
        assert(b[1] == (x[1] as u32) as u8);
    } else if (c as u32) < 0x20 {
        let n = (c as u32) as int;
        assert((hex_digit(n / 16) as u32) < 0x80 && (hex_digit(n % 16) as u32) < 0x80);
        assert(hex_digit(n / 16) != '"' && hex_digit(n % 16) != '"' && hex_digit(n % 16) != '\\');
        lemma_encode_ascii_text(x);
        assert(b.len() == 6);
        assert(b[0] == 0x5c && b[1] == 0x75 && b[2] == 0x30 && b[3] == 0x30);
        assert(b[4] == (x[4] as u32) as u8 && b[5] == (x[5] as u32) as u8);
    } else {
        assert(x =~= seq![c]);
        lemma_encode_one(c);
        if (c as u32) < 0x80 {
            lemma_encode_ascii(c);
            assert(b =~= seq![(c as u32) as u8]);
        } else {
            lemma_encode_scalar_high(c as u32);
        }
    }
}

/// The bytes between the quotes of a written string: every quote among
/// them stands behind a backslash, and they end in a backslash only where
/// the text does.
pub proof fn lemma_escaped_text_bytes(text: Seq<char>)
    ensures
        quotes_escaped(encode_utf8(escape_text(text))),
        text.len() > 0 ==> encode_utf8(escape_text(text)).len() > 0 && (encode_utf8(
            escape_text(text),
        ).last() == 0x5c <==> text.last() == '\\'),
    decreases text.len(),
{
    if text.len() == 0 {
        assert(escape_text(text) =~= Seq::<char>::empty());
    } else {
        let front = text.drop_last();
        let c = text.last();
        assert(text =~= front.push(c));
        lemma_escaped_text_bytes(front);
        crate::ser::lemma_escape_text_push(front, c);
        lemma_encode_utf8_concat(escape_text(front), escape_spec(c));
        lemma_escaped_bytes(c);
        let a = encode_utf8(escape_text(front));
        let b = escaped_bytes(c);
        let whole = encode_utf8(escape_text(text));
        assert(whole =~= a + b);
        assert forall|j: int| 0 <= j < whole.len() && #[trigger] whole[j] == 0x22 implies j > 0
            && whole[j - 1] == 0x5c by {
            if j < a.len() {
                assert(a[j] == 0x22);
                assert(whole[j - 1] == a[j - 1]);
            } else {
                let k = j - a.len();
                assert(b[k] == 0x22);
                assert(k > 0);
                assert(whole[j - 1] == b[k - 1]);
            }
        }
        assert(whole.last() == b.last());
    }
}

/// Where no quote before `end` closes the body and the quote at `end` does,
/// the closing quote is at `end`.
proof fn lemma_closing_quote_at(body: Seq<u8>, from: int, end: int)
    requires
        0 <= from <= end < body.len(),
        forall|j: int|
            from <= j < end ==> !(#[trigger] body[j] == 0x22 && (j == 0 || body[j - 1] != 0x5c)),
        body[end] == 0x22,
        end == 0 || body[end - 1] != 0x5c,
    ensures
        closing_quote(body, from) == Some(end),
    decreases end - from,
{
    if from < end {
        assert(!(body[from] == 0x22 && (from == 0 || body[from - 1] != 0x5c)));
        lemma_closing_quote_at(body, from + 1, end);
    }
}

/// A written string is read back as the text it was written from, and what
/// stood behind it is left.
pub proof fn lemma_string_round_trip(text: Seq<char>, tail: Seq<u8>)
    requires
        reads_back(text),
    ensures
        string_literal(quoted(text) + tail) == (Ok::<Seq<char>, ErrorView>(text), tail),
{
    let inner = encode_utf8(escape_text(text));
    let s = quoted(text) + tail;
    assert(s[0] == 0x22);
    assert(skip_whitespace(s) == s);
    let body = s.drop_first();
    assert(body =~= inner + seq![0x22u8] + tail);
    let end = inner.len() as int;
    lemma_escaped_text_bytes(text);
    assert forall|j: int| 0 <= j < end implies !(#[trigger] body[j] == 0x22 && (j == 0 || body[j
        - 1] != 0x5c)) by {
        assert(body[j] == inner[j]);
        if j > 0 {
            assert(body[j - 1] == inner[j - 1]);
        }
    }
    assert(body[end] == 0x22);
    if end > 0 {
        assert(body[end - 1] == inner.last());
        if text.len() == 0 {
            assert(escape_text(text) =~= Seq::<char>::empty());
        }
    }
    lemma_closing_quote_at(body, 0, end);
    assert(body.subrange(0, end) =~= inner);
    assert(body.subrange(end + 1, body.len() as int) =~= tail);
    encode_utf8_valid_utf8(escape_text(text));
    encode_utf8_decode_utf8(escape_text(text));
    lemma_unescape_escape(text);
}

/// A written character is read back, unless it is the backslash.
pub proof fn lemma_char_round_trip(c: char, tail: Seq<u8>)
    requires
        c != '\\',
    ensures
        char_literal(quoted(seq![c]) + tail) == (Ok::<char, ErrorView>(c), tail),
{
    lemma_string_round_trip(seq![c], tail);
}

} // verus!
