//! The grammar of the byte stream, as functions from the unread bytes to what
//! is read from them and the bytes that are left.
//!
//! Bytes are written by their numbers: `0x22` is the quote, `0x5c` the
//! backslash, `0x5b` and `0x5d` the brackets, `0x7b` and `0x7d` the braces,
//! `0x2c` the comma, `0x3a` the colon, `0x2d` the minus sign, `0x2e` the
//! point, `0x65` and `0x45` the exponent marks, `0x30` to `0x39` the digits,
//! and `0x6e`, `0x74`, `0x66` the letters that open `null`, `true`, `false`.

use vstd::prelude::*;
use vstd::utf8::{decode_utf8, valid_utf8};
use crate::error::{eof, ErrorView, unexpected_byte};
use crate::number::{all_digits, decimal_value, is_digit};
use crate::parse::unescape_spec;
use crate::text::ascii_text;

verus! {

/// Space, tab, line feed and carriage return.
pub open spec fn is_whitespace(b: u8) -> bool {
    b == 0x20 || b == 0x09 || b == 0x0a || b == 0x0d
}

/// `s` without its leading whitespace.
pub open spec fn skip_whitespace(s: Seq<u8>) -> Seq<u8>
    decreases s.len(),
{
    if s.len() > 0 && is_whitespace(s[0]) {
        skip_whitespace(s.drop_first())
    } else {
        s
    }
}

/// True when every byte of `s` is whitespace.
pub open spec fn all_whitespace(s: Seq<u8>) -> bool {
    forall|i: int| 0 <= i < s.len() ==> is_whitespace(#[trigger] s[i])
}

/// Looking at the next byte that is not whitespace, without taking it.
pub open spec fn peek_byte(s: Seq<u8>) -> (Result<u8, ErrorView>, Seq<u8>) {
    let t = skip_whitespace(s);
    if t.len() == 0 {
        (Err(eof()), t)
    } else {
        (Ok(t[0]), t)
    }
}

/// Taking the next byte that is not whitespace.
pub open spec fn next_byte(s: Seq<u8>) -> (Result<u8, ErrorView>, Seq<u8>) {
    let t = skip_whitespace(s);
    if t.len() == 0 {
        (Err(eof()), t)
    } else {
        (Ok(t[0]), t.drop_first())
    }
}

/// Taking the next byte that is not whitespace and holding it against `c`.
pub open spec fn expect_byte(s: Seq<u8>, c: char) -> (Result<(), ErrorView>, Seq<u8>) {
    let t = skip_whitespace(s);
    if t.len() == 0 {
        (Err(eof()), t)
    } else if t[0] as char == c {
        (Ok(()), t.drop_first())
    } else {
        (Err(unexpected_byte(t[0], c)), t.drop_first())
    }
}

/// Reading as many bytes as `word` has and holding them against it, byte for
/// byte. A stream too short for the word is used up.
pub open spec fn read_word(s: Seq<u8>, word: Seq<u8>, expected: Seq<char>) -> (
    Result<(), ErrorView>,
    Seq<u8>,
) {
    if s.len() < word.len() {
        (Err(eof()), Seq::empty())
    } else {
        let got = s.subrange(0, word.len() as int);
        let rest = s.subrange(word.len() as int, s.len() as int);
        if got == word {
            (Ok(()), rest)
        } else if valid_utf8(got) {
            (Err(ErrorView::Unexpected { found: decode_utf8(got), expected: Some(expected) }), rest)
        } else {
            (Err(ErrorView::Utf8), rest)
        }
    }
}

/// The bytes of `null`.
pub open spec fn null_word() -> Seq<u8> {
    seq![0x6eu8, 0x75u8, 0x6cu8, 0x6cu8]
}

/// The bytes of `true`.
pub open spec fn true_word() -> Seq<u8> {
    seq![0x74u8, 0x72u8, 0x75u8, 0x65u8]
}

/// The bytes of `false`.
pub open spec fn false_word() -> Seq<u8> {
    seq![0x66u8, 0x61u8, 0x6cu8, 0x73u8, 0x65u8]
}

/// The literal `null`, after any whitespace.
pub open spec fn null_literal(s: Seq<u8>) -> (Result<(), ErrorView>, Seq<u8>) {
    let t = skip_whitespace(s);
    if t.len() == 0 {
        (Err(eof()), t)
    } else {
        read_word(t, null_word(), "null"@)
    }
}

/// One of the literals `true` and `false`, after any whitespace. A first
/// byte that opens neither is left unread.
pub open spec fn bool_literal(s: Seq<u8>) -> (Result<bool, ErrorView>, Seq<u8>) {
    let t = skip_whitespace(s);
    if t.len() == 0 {
        (Err(eof()), t)
    } else if t[0] == 0x74 {
        match read_word(t, true_word(), "true"@) {
            (Ok(_), rest) => (Ok(true), rest),
            (Err(e), rest) => (Err(e), rest),
        }
    } else if t[0] == 0x66 {
        match read_word(t, false_word(), "false"@) {
            (Ok(_), rest) => (Ok(false), rest),
            (Err(e), rest) => (Err(e), rest),
        }
    } else {
        (
            Err(
                ErrorView::Unexpected {
                    found: seq![t[0] as char],
                    expected: Some("true or false"@),
                },
            ),
            t,
        )
    }
}

/// The run of digits at the front of `s`, and what is left behind it.
/// Whitespace before each digit is skipped, and so is the whitespace behind
/// the last one: the byte that ends the run is looked at and stays.
pub open spec fn scan_digits(s: Seq<u8>) -> (Seq<u8>, Seq<u8>)
    decreases s.len(),
{
    let t = skip_whitespace(s);
    if t.len() > 0 && is_digit(t[0]) {
        proof {
            lemma_skip_whitespace(s);
        }
        let (digits, rest) = scan_digits(t.drop_first());
        (seq![t[0]] + digits, rest)
    } else {
        (Seq::empty(), t)
    }
}

/// The integer that a sign and a run of digits stand for; none where there
/// is no digit.
pub open spec fn integer_value(negative: bool, digits: Seq<u8>) -> Option<int> {
    if digits.len() == 0 {
        None
    } else if negative {
        Some(-(decimal_value(digits) as int))
    } else {
        Some(decimal_value(digits) as int)
    }
}

/// An integer held to a width: one that lies outside `min ..= max`, or that
/// has no digit, is `ParseInt`.
pub open spec fn narrow(v: Option<int>, min: int, max: int) -> Result<int, ErrorView> {
    match v {
        Some(v) => if min <= v <= max {
            Ok(v)
        } else {
            Err(ErrorView::ParseInt)
        },
        None => Err(ErrorView::ParseInt),
    }
}

/// An optional minus sign and a run of digits, held to `min ..= max`. A
/// stream that holds nothing but whitespace is the end-of-input failure.
pub open spec fn signed_integer(s: Seq<u8>, min: int, max: int) -> (Result<int, ErrorView>, Seq<u8>) {
    let t = skip_whitespace(s);
    if t.len() == 0 {
        (Err(eof()), t)
    } else {
        let negative = t[0] == 0x2d;
        let (digits, rest) = scan_digits(
            if negative {
                t.drop_first()
            } else {
                t
            },
        );
        (narrow(integer_value(negative, digits), min, max), rest)
    }
}

/// A run of digits, held to `0 ..= max`. No sign is looked for: a minus
/// sign, like the end of the input, leaves no digit and is `ParseInt`.
pub open spec fn unsigned_integer(s: Seq<u8>, max: int) -> (Result<int, ErrorView>, Seq<u8>) {
    let (digits, rest) = scan_digits(s);
    (narrow(integer_value(false, digits), 0, max), rest)
}

/// The parts of a number as they are scanned: a minus sign or none, the
/// digits before the point, the point with the digits behind it, and the
/// exponent mark with the digits behind it.
pub struct NumberText {
    pub negative: bool,
    pub digits: Seq<u8>,
    pub fraction: Seq<u8>,
    pub exponent: Seq<u8>,
}

impl NumberText {
    /// The bytes of the number, in the order they were read.
    pub open spec fn bytes(self) -> Seq<u8> {
        (if self.negative {
            seq![0x2du8]
        } else {
            Seq::empty()
        }) + self.digits + self.fraction + self.exponent
    }

    /// True when a point or an exponent mark was read.
    pub open spec fn is_float(self) -> bool {
        self.fraction.len() > 0 || self.exponent.len() > 0
    }
}

/// A point and the run of digits behind it, where the next byte is a point.
pub open spec fn scan_fraction(s: Seq<u8>) -> (Seq<u8>, Seq<u8>) {
    let t = skip_whitespace(s);
    if t.len() > 0 && t[0] == 0x2e {
        let (digits, rest) = scan_digits(t.drop_first());
        (seq![t[0]] + digits, rest)
    } else {
        (Seq::empty(), t)
    }
}

/// An exponent mark, `e` or `E`, and the run of digits behind it, where the
/// next byte is such a mark. No sign is accepted behind the mark: in `1e-5`
/// the exponent is the bare mark, and `-5` is left in the stream.
pub open spec fn scan_exponent(s: Seq<u8>) -> (Seq<u8>, Seq<u8>) {
    let t = skip_whitespace(s);
    if t.len() > 0 && (t[0] == 0x65 || t[0] == 0x45) {
        let (digits, rest) = scan_digits(t.drop_first());
        (seq![t[0]] + digits, rest)
    } else {
        (Seq::empty(), t)
    }
}

/// A number, part by part. The end of the input ends the number wherever it
/// comes, but for a stream that holds nothing but whitespace.
pub open spec fn scan_number(s: Seq<u8>) -> (Result<NumberText, ErrorView>, Seq<u8>) {
    let t = skip_whitespace(s);
    if t.len() == 0 {
        (Err(eof()), t)
    } else {
        let negative = t[0] == 0x2d;
        let (digits, after_digits) = scan_digits(
            if negative {
                t.drop_first()
            } else {
                t
            },
        );
        let (fraction, after_fraction) = scan_fraction(after_digits);
        let (exponent, rest) = scan_exponent(after_fraction);
        (Ok(NumberText { negative, digits, fraction, exponent }), rest)
    }
}

/// The text of a floating-point number. Whether the text names a number is
/// for whoever turns it into one to say.
pub open spec fn float_text(s: Seq<u8>) -> (Result<Seq<char>, ErrorView>, Seq<u8>) {
    match scan_number(s) {
        (Ok(number), rest) => (Ok(ascii_text(number.bytes())), rest),
        (Err(e), rest) => (Err(e), rest),
    }
}

/// A number read without knowing its type.
pub enum NumberView {
    /// A point or an exponent mark was read: the text of the number.
    Float(Seq<char>),
    /// A minus sign was read, and no point or exponent mark.
    Signed(i64),
    /// Digits only.
    Unsigned(u64),
}

/// A number sorted by what was read of it: with a point or an exponent mark
/// it is a float, else with a minus sign a signed integer of 64 bits, else
/// an unsigned integer of 64 bits.
pub open spec fn classify_number(s: Seq<u8>) -> (Result<NumberView, ErrorView>, Seq<u8>) {
    match scan_number(s) {
        (Ok(number), rest) => (
            if number.is_float() {
                Ok(NumberView::Float(ascii_text(number.bytes())))
            } else if number.negative {
                match narrow(integer_value(true, number.digits), i64::MIN as int, i64::MAX as int) {
                    Ok(v) => Ok(NumberView::Signed(v as i64)),
                    Err(e) => Err(e),
                }
            } else {
                match narrow(integer_value(false, number.digits), 0, u64::MAX as int) {
                    Ok(v) => Ok(NumberView::Unsigned(v as u64)),
                    Err(e) => Err(e),
                }
            },
            rest,
        ),
        (Err(e), rest) => (Err(e), rest),
    }
}

/// What a scan for digits leaves is no longer than the stream, has no
/// leading whitespace, and does not open with a digit; the digits are
/// digits.
pub proof fn lemma_scan_digits(s: Seq<u8>)
    ensures
        scan_digits(s).1.len() <= s.len(),
        scan_digits(s).0.len() + scan_digits(s).1.len() <= s.len(),
        skip_whitespace(scan_digits(s).1) == scan_digits(s).1,
        scan_digits(s).1.len() > 0 ==> !is_digit(scan_digits(s).1[0]),
        all_digits(scan_digits(s).0),
    decreases s.len(),
{
    lemma_skip_whitespace(s);
    let t = skip_whitespace(s);
    if t.len() > 0 && is_digit(t[0]) {
        lemma_scan_digits(t.drop_first());
        let (digits, rest) = scan_digits(t.drop_first());
        assert forall|i: int| 0 <= i < (seq![t[0]] + digits).len() implies is_digit(
            #[trigger] (seq![t[0]] + digits)[i],
        ) by {
            if i > 0 {
                assert((seq![t[0]] + digits)[i] == digits[i - 1]);
            }
        }
    } else {
    }
}

/// The place of the quote that closes a string whose body is `s`, looking
/// from `from` on: the first quote that does not stand right behind a
/// backslash. Only the one byte before the quote is looked at, so the quote
/// behind an escaped backslash, as in `"a\\"`, does not close the string.
pub open spec fn closing_quote(s: Seq<u8>, from: int) -> Option<int>
    decreases s.len() - from,
{
    if from < 0 || from >= s.len() {
        None
    } else if s[from] == 0x22 && (from == 0 || s[from - 1] != 0x5c) {
        Some(from)
    } else {
        closing_quote(s, from + 1)
    }
}

/// A string: a quote, the body up to the closing quote, and the text that
/// the body stands for. The body is taken as it stands, whitespace and all.
/// A body without a closing quote uses the stream up.
pub open spec fn string_literal(s: Seq<u8>) -> (Result<Seq<char>, ErrorView>, Seq<u8>) {
    let t = skip_whitespace(s);
    if t.len() == 0 {
        (Err(eof()), t)
    } else if t[0] != 0x22 {
        (Err(unexpected_byte(t[0], '"')), t.drop_first())
    } else {
        let body = t.drop_first();
        match closing_quote(body, 0) {
            None => (Err(ErrorView::Unclosed('"')), Seq::empty()),
            Some(end) => {
                let captured = body.subrange(0, end);
                (
                    if valid_utf8(captured) {
                        unescape_spec(decode_utf8(captured))
                    } else {
                        Err(ErrorView::Utf8)
                    },
                    body.subrange(end + 1, body.len() as int),
                )
            },
        }
    }
}

/// A character: a string whose text is one character, whatever the number
/// of its bytes.
pub open spec fn char_literal(s: Seq<u8>) -> (Result<char, ErrorView>, Seq<u8>) {
    match string_literal(s) {
        (Ok(text), rest) => (
            if text.len() == 1 {
                Ok(text[0])
            } else {
                Err(ErrorView::Unexpected { found: text, expected: Some("single character"@) })
            },
            rest,
        ),
        (Err(e), rest) => (Err(e), rest),
    }
}

/// The items of a byte buffer behind its opening bracket: an unsigned
/// integer of eight bits, then a comma and more of the same, or the closing
/// bracket. There is at least one item.
pub open spec fn byte_items(s: Seq<u8>) -> (Result<Seq<u8>, ErrorView>, Seq<u8>)
    decreases s.len(),
{
    match unsigned_integer(s, u8::MAX as int) {
        (Err(e), rest) => (Err(e), rest),
        (Ok(v), rest) => {
            let t = skip_whitespace(rest);
            if t.len() == 0 {
                (Err(eof()), t)
            } else if t[0] == 0x5d {
                (Ok(seq![v as u8]), t.drop_first())
            } else if t[0] != 0x2c {
                (Err(unexpected_byte(t[0], ',')), t.drop_first())
            } else {
                proof {
                    lemma_scan_digits(s);
                    lemma_skip_whitespace(rest);
                }
                match byte_items(t.drop_first()) {
                    (Ok(more), after) => (Ok(seq![v as u8] + more), after),
                    (Err(e), after) => (Err(e), after),
                }
            }
        },
    }
}

/// A byte buffer: an array of unsigned integers of eight bits.
pub open spec fn byte_buffer(s: Seq<u8>) -> (Result<Seq<u8>, ErrorView>, Seq<u8>) {
    match expect_byte(s, '[') {
        (Ok(_), rest) => byte_items(rest),
        (Err(e), rest) => (Err(e), rest),
    }
}

/// Whether a value stands where an optional one may: `null` is read and
/// says no, any other first byte is left unread and says yes.
pub open spec fn option_head(s: Seq<u8>) -> (Result<bool, ErrorView>, Seq<u8>) {
    let t = skip_whitespace(s);
    if t.len() == 0 {
        (Err(eof()), t)
    } else if t[0] == 0x6e {
        match read_word(t, null_word(), "null"@) {
            (Ok(_), rest) => (Ok(false), rest),
            (Err(e), rest) => (Err(e), rest),
        }
    } else {
        (Ok(true), t)
    }
}

/// What is found where nothing is known of the value to come.
pub enum TokenView {
    /// A string, read to its end.
    Str(Seq<char>),
    /// The bracket that opens a sequence, and nothing behind it.
    Sequence,
    /// The brace that opens a map, and nothing behind it.
    Mapping,
    /// The literal `null`.
    Unit,
    /// One of the literals `true` and `false`.
    Bool(bool),
    /// A number, read to its end.
    Number(NumberView),
}

/// Deciding from the next byte what the value is and reading it: to its end
/// where it is a scalar, its opening delimiter where it is an aggregate. A
/// byte that opens no value is left unread.
pub open spec fn any_token(s: Seq<u8>) -> (Result<TokenView, ErrorView>, Seq<u8>) {
    let t = skip_whitespace(s);
    if t.len() == 0 {
        (Err(eof()), t)
    } else if t[0] == 0x22 {
        match string_literal(t) {
            (Ok(text), rest) => (Ok(TokenView::Str(text)), rest),
            (Err(e), rest) => (Err(e), rest),
        }
    } else if t[0] == 0x5b {
        (Ok(TokenView::Sequence), t.drop_first())
    } else if t[0] == 0x7b {
        (Ok(TokenView::Mapping), t.drop_first())
    } else if t[0] == 0x6e {
        match null_literal(t) {
            (Ok(_), rest) => (Ok(TokenView::Unit), rest),
            (Err(e), rest) => (Err(e), rest),
        }
    } else if t[0] == 0x74 || t[0] == 0x66 {
        match bool_literal(t) {
            (Ok(b), rest) => (Ok(TokenView::Bool(b)), rest),
            (Err(e), rest) => (Err(e), rest),
        }
    } else if t[0] == 0x2d || is_digit(t[0]) {
        match classify_number(t) {
            (Ok(n), rest) => (Ok(TokenView::Number(n)), rest),
            (Err(e), rest) => (Err(e), rest),
        }
    } else {
        (Err(ErrorView::Unexpected { found: seq![t[0] as char], expected: None }), t)
    }
}

/// How a variant is written.
pub enum EnumHeadView {
    /// A bare string: the name of a variant without payload.
    Unit(Seq<char>),
    /// An object of one entry: the name of the variant is its key, read with
    /// the brace before it; the colon and the payload are still to come.
    Tagged(Seq<char>),
}

/// The start of a variant: a string, or a brace and a string. Any other
/// first byte is left unread.
pub open spec fn enum_head(s: Seq<u8>) -> (Result<EnumHeadView, ErrorView>, Seq<u8>) {
    let t = skip_whitespace(s);
    if t.len() == 0 {
        (Err(eof()), t)
    } else if t[0] == 0x22 {
        match string_literal(t) {
            (Ok(name), rest) => (Ok(EnumHeadView::Unit(name)), rest),
            (Err(e), rest) => (Err(e), rest),
        }
    } else if t[0] == 0x7b {
        match string_literal(t.drop_first()) {
            (Ok(name), rest) => (Ok(EnumHeadView::Tagged(name)), rest),
            (Err(e), rest) => (Err(e), rest),
        }
    } else {
        (
            Err(
                ErrorView::Unexpected {
                    found: seq![t[0] as char],
                    expected: Some("string or object"@),
                },
            ),
            t,
        )
    }
}

/// The brace that closes a variant written as an object. Whatever stands in
/// its place, the end of the input too, leaves the object unclosed.
pub open spec fn enum_end(s: Seq<u8>) -> (Result<(), ErrorView>, Seq<u8>) {
    match expect_byte(s, '}') {
        (Ok(_), rest) => (Ok(()), rest),
        (Err(_), rest) => (Err(ErrorView::Unclosed('{')), rest),
    }
}

/// One pull on an aggregate that `close` closes: the closing delimiter is
/// read and ends the aggregate; anything else is an item, behind a comma
/// unless it is the first.
pub open spec fn element_step(s: Seq<u8>, first: bool, close: u8) -> (
    Result<bool, ErrorView>,
    Seq<u8>,
) {
    let t = skip_whitespace(s);
    if t.len() == 0 {
        (Err(eof()), t)
    } else if t[0] == close {
        (Ok(false), t.drop_first())
    } else if first {
        (Ok(true), t)
    } else if t[0] == 0x2c {
        (Ok(true), t.drop_first())
    } else {
        (Err(unexpected_byte(t[0], ',')), t.drop_first())
    }
}

/// Whitespace in front of a stream does not change what is left once it is
/// skipped.
pub proof fn lemma_skip_whitespace_prefix(ws: Seq<u8>, s: Seq<u8>)
    requires
        all_whitespace(ws),
    ensures
        skip_whitespace(ws + s) == skip_whitespace(s),
    decreases ws.len(),
{
    if ws.len() == 0 {
        assert(ws + s =~= s);
    } else {
        assert((ws + s)[0] == ws[0]);
        assert((ws + s).drop_first() =~= ws.drop_first() + s);
        assert forall|i: int| 0 <= i < ws.drop_first().len() implies is_whitespace(
            #[trigger] ws.drop_first()[i],
        ) by {
            assert(ws.drop_first()[i] == ws[i + 1]);
        }
        lemma_skip_whitespace_prefix(ws.drop_first(), s);
    }
}

/// What is left after skipping is a suffix of the stream and opens with a
/// byte that is not whitespace; skipping it again changes nothing.
pub proof fn lemma_skip_whitespace(s: Seq<u8>)
    ensures
        skip_whitespace(s).len() <= s.len(),
        skip_whitespace(s) == s.subrange(s.len() - skip_whitespace(s).len(), s.len() as int),
        skip_whitespace(s).len() > 0 ==> !is_whitespace(skip_whitespace(s)[0]),
        skip_whitespace(skip_whitespace(s)) == skip_whitespace(s),
    decreases s.len(),
{
    if s.len() > 0 && is_whitespace(s[0]) {
        lemma_skip_whitespace(s.drop_first());
        let t = skip_whitespace(s);
        assert(t =~= s.subrange(s.len() - t.len(), s.len() as int));
    } else {
        assert(s =~= s.subrange(0, s.len() as int));
    }
}

/// A closing quote lies inside the body, and no quote before it closes.
pub proof fn lemma_closing_quote(s: Seq<u8>, from: int)
    requires
        0 <= from,
    ensures
        closing_quote(s, from) matches Some(end) ==> from <= end < s.len() && s[end] == 0x22 && (
        end == 0 || s[end - 1] != 0x5c),
    decreases s.len() - from,
{
    if from < s.len() && !(s[from] == 0x22 && (from == 0 || s[from - 1] != 0x5c)) {
        lemma_closing_quote(s, from + 1);
    }
}

/// Nothing that reads from a stream leaves more than it found.
pub proof fn lemma_rest_bounds(s: Seq<u8>)
    ensures
        peek_byte(s).1.len() <= s.len(),
        next_byte(s).1.len() <= s.len(),
        next_byte(s).0 is Ok ==> next_byte(s).1.len() < s.len(),
        forall|c: char| (#[trigger] expect_byte(s, c)).1.len() <= s.len(),
        forall|c: char| (#[trigger] expect_byte(s, c)).0 is Ok ==> expect_byte(s, c).1.len() < s.len(),
        null_literal(s).1.len() <= s.len(),
        bool_literal(s).1.len() <= s.len(),
        forall|min: int, max: int| (#[trigger] signed_integer(s, min, max)).1.len() <= s.len(),
        forall|max: int| (#[trigger] unsigned_integer(s, max)).1.len() <= s.len(),
        scan_number(s).1.len() <= s.len(),
        float_text(s).1.len() <= s.len(),
        classify_number(s).1.len() <= s.len(),
        string_literal(s).1.len() <= s.len(),
        char_literal(s).1.len() <= s.len(),
        option_head(s).1.len() <= s.len(),
        enum_head(s).1.len() <= s.len(),
        enum_end(s).1.len() <= s.len(),
        forall|first: bool, close: u8| (#[trigger] element_step(s, first, close)).1.len() <= s.len(),
        forall|first: bool, close: u8|
            (#[trigger] element_step(s, first, close)).0 is Ok && !first ==> element_step(
                s,
                first,
                close,
            ).1.len() < s.len(),
{
    lemma_skip_whitespace(s);
    let t = skip_whitespace(s);
    lemma_scan_digits(t);
    lemma_scan_digits(s);
    if t.len() > 0 {
        lemma_scan_digits(t.drop_first());
        lemma_string_rest(t);
        lemma_string_rest(t.drop_first());
        lemma_skip_whitespace(t);
    }
    lemma_string_rest(s);
    let after_digits = scan_digits(
        if t.len() > 0 && t[0] == 0x2d {
            t.drop_first()
        } else {
            t
        },
    ).1;
    lemma_fraction_exponent(after_digits);
    lemma_fraction_exponent(scan_fraction(after_digits).1);
}

/// A string that is read leaves less of the stream than there was.
proof fn lemma_string_rest(s: Seq<u8>)
    ensures
        string_literal(s).1.len() <= s.len(),
        string_literal(s).0 is Ok ==> string_literal(s).1.len() < s.len(),
{
    lemma_skip_whitespace(s);
    let t = skip_whitespace(s);
    if t.len() > 0 && t[0] == 0x22 {
        lemma_closing_quote(t.drop_first(), 0);
    }
}

/// A fraction and an exponent leave no more of the stream than there was.
proof fn lemma_fraction_exponent(s: Seq<u8>)
    ensures
        scan_fraction(s).1.len() <= s.len(),
        scan_exponent(s).1.len() <= s.len(),
{
    lemma_skip_whitespace(s);
    let t = skip_whitespace(s);
    if t.len() > 0 {
        lemma_scan_digits(t.drop_first());
    }
}

/// Nothing is left of a byte buffer that is longer than the stream it was
/// read from.
pub proof fn lemma_byte_items_rest(s: Seq<u8>)
    ensures
        byte_items(s).1.len() <= s.len(),
        byte_buffer(s).1.len() <= s.len(),
    decreases s.len(),
{
    lemma_scan_digits(s);
    let rest = scan_digits(s).1;
    lemma_skip_whitespace(rest);
    let t = skip_whitespace(rest);
    if t.len() > 0 && t[0] == 0x2c {
        lemma_byte_items_rest(t.drop_first());
    }
    lemma_skip_whitespace(s);
    let u = skip_whitespace(s);
    if u.len() > 0 {
        lemma_byte_items_rest(u.drop_first());
    }
}

} // verus!
