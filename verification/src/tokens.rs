//! Why a literal, a number or a byte buffer that was written is read back.

use vstd::prelude::*;
use vstd::utf8::encode_utf8;
use crate::error::ErrorView;
use crate::grammar::{
    bool_literal, classify_number, false_word, float_text, lemma_skip_whitespace, null_literal,
    null_word, NumberText, NumberView, scan_digits, scan_exponent, scan_fraction, scan_number,
    signed_integer, skip_whitespace, true_word, unsigned_integer,
};
use crate::number::{all_digits, decimal_digits, is_digit, lemma_decimal_digits, signed_decimal};
use crate::render::{bool_text, null_text};
use crate::strings::lemma_encode_ascii_text;
use crate::text::ascii_text;

verus! {

/// True when `tail` cannot be taken for more of a number that stands in
/// front of it: its first byte behind any whitespace, if it has one, is no
/// digit, no point and no exponent mark.
pub open spec fn ends_token(tail: Seq<u8>) -> bool {
    let t = skip_whitespace(tail);
    t.len() == 0 || !(is_digit(t[0]) || t[0] == 0x2e || t[0] == 0x65 || t[0] == 0x45)
}

/// The literal `null` is read back.
pub proof fn lemma_null_round_trip(tail: Seq<u8>)
    ensures
        null_literal(null_text() + tail) == (Ok::<(), ErrorView>(()), tail),
{
    let s = null_word() + tail;
    assert(s[0] == 0x6e);
    assert(skip_whitespace(s) == s);
    assert(s.subrange(0, 4) =~= null_word());
    assert(s.subrange(4, s.len() as int) =~= tail);
}

/// The literals `true` and `false` are read back.
pub proof fn lemma_bool_round_trip(v: bool, tail: Seq<u8>)
    ensures
        bool_literal(bool_text(v) + tail) == (Ok::<bool, ErrorView>(v), tail),
{
    let s = bool_text(v) + tail;
    if v {
        assert(s[0] == 0x74);
        assert(skip_whitespace(s) == s);
        assert(s.subrange(0, 4) =~= true_word());
        assert(s.subrange(4, s.len() as int) =~= tail);
    } else {
        assert(s[0] == 0x66);
        assert(skip_whitespace(s) == s);
        assert(s.subrange(0, 5) =~= false_word());
        assert(s.subrange(5, s.len() as int) =~= tail);
    }
}

/// A run of digits in front of something that is no digit is scanned
/// whole.
pub proof fn lemma_scan_digits_run(digits: Seq<u8>, tail: Seq<u8>)
    requires
        all_digits(digits),
        skip_whitespace(tail).len() == 0 || !is_digit(skip_whitespace(tail)[0]),
    ensures
        scan_digits(digits + tail) == (digits, skip_whitespace(tail)),
    decreases digits.len(),
{
    if digits.len() == 0 {
        assert(digits + tail =~= tail);
        assert(digits =~= Seq::<u8>::empty());
    } else {
        let s = digits + tail;
        assert(s[0] == digits[0]);
        assert(is_digit(digits[0]));
        assert(skip_whitespace(s) == s);
        assert(s.drop_first() =~= digits.drop_first() + tail);
        assert forall|i: int| 0 <= i < digits.drop_first().len() implies is_digit(
            #[trigger] digits.drop_first()[i],
        ) by {
            assert(digits.drop_first()[i] == digits[i + 1]);
        }
        lemma_scan_digits_run(digits.drop_first(), tail);
        assert(seq![digits[0]] + digits.drop_first() =~= digits);
    }
}

/// An unsigned integer that was written is read back, at any width that
/// holds it.
pub proof fn lemma_unsigned_round_trip(n: nat, max: int, tail: Seq<u8>)
    requires
        n <= max,
        ends_token(tail),
    ensures
        unsigned_integer(decimal_digits(n) + tail, max) == (
            Ok::<int, ErrorView>(n as int),
            skip_whitespace(tail),
        ),
{
    lemma_decimal_digits(n);
    lemma_scan_digits_run(decimal_digits(n), tail);
}

/// A signed integer that was written is read back, at any width that holds
/// it.
pub proof fn lemma_signed_round_trip(v: int, min: int, max: int, tail: Seq<u8>)
    requires
        min <= v <= max,
        ends_token(tail),
    ensures
        signed_integer(signed_decimal(v) + tail, min, max) == (
            Ok::<int, ErrorView>(v),
            skip_whitespace(tail),
        ),
{
    let s = signed_decimal(v) + tail;
    if v < 0 {
        let digits = decimal_digits((-v) as nat);
        lemma_decimal_digits((-v) as nat);
        assert(s[0] == 0x2d);
        assert(skip_whitespace(s) == s);
        assert(s.drop_first() =~= digits + tail);
        lemma_scan_digits_run(digits, tail);
    } else {
        let digits = decimal_digits(v as nat);
        lemma_decimal_digits(v as nat);
        assert(s[0] == digits[0]);
        assert(is_digit(digits[0]));
        assert(skip_whitespace(s) == s);
        lemma_scan_digits_run(digits, tail);
    }
}

/// An integer that was written is sorted as it was: a negative one as
/// signed, any other as unsigned.
pub proof fn lemma_number_round_trip(v: int, tail: Seq<u8>)
    requires
        i64::MIN <= v <= u64::MAX,
        ends_token(tail),
    ensures
        classify_number(signed_decimal(v) + tail) == (
            Ok::<NumberView, ErrorView>(
                if v < 0 {
                    NumberView::Signed(v as i64)
                } else {
                    NumberView::Unsigned(v as u64)
                },
            ),
            skip_whitespace(tail),
        ),
{
    let s = signed_decimal(v) + tail;
    let t = skip_whitespace(tail);
    lemma_skip_whitespace(tail);
    if v < 0 {
        let digits = decimal_digits((-v) as nat);
        lemma_decimal_digits((-v) as nat);
        assert(s[0] == 0x2d);
        assert(skip_whitespace(s) == s);
        assert(s.drop_first() =~= digits + tail);
        lemma_scan_digits_run(digits, tail);
    } else {
        let digits = decimal_digits(v as nat);
        lemma_decimal_digits(v as nat);
        assert(s[0] == digits[0]);
        assert(is_digit(digits[0]));
        assert(skip_whitespace(s) == s);
        lemma_scan_digits_run(digits, tail);
    }
    assert(scan_fraction(t) == (Seq::<u8>::empty(), t));
    assert(scan_exponent(t) == (Seq::<u8>::empty(), t));
}

/// True when the parts of a number are what a scan gives: digits where
/// digits belong, a point in front of the fraction, an exponent mark in
/// front of the exponent, and at least one byte in all.
pub open spec fn well_formed_number(number: NumberText) -> bool {
    &&& all_digits(number.digits)
    &&& number.fraction.len() > 0 ==> number.fraction[0] == 0x2e && all_digits(
        number.fraction.drop_first(),
    )
    &&& number.exponent.len() > 0 ==> (number.exponent[0] == 0x65 || number.exponent[0] == 0x45)
        && all_digits(number.exponent.drop_first())
    &&& number.bytes().len() > 0
}

/// True when `text` is the text of a number: an optional minus sign,
/// digits, then optionally a point with digits, then optionally an exponent
/// mark with digits. Digits may be missing anywhere, but the text is not
/// empty.
pub open spec fn is_number_text(text: Seq<char>) -> bool {
    exists|number: NumberText| #[trigger]
        well_formed_number(number) && text == ascii_text(number.bytes())
}

/// The bytes of a number are below 128, and they are the encoding of the
/// text of the number.
pub proof fn lemma_number_bytes(number: NumberText)
    requires
        well_formed_number(number),
    ensures
        encode_utf8(ascii_text(number.bytes())) == number.bytes(),
{
    let bytes = number.bytes();
    let text = ascii_text(bytes);
    assert forall|i: int| 0 <= i < bytes.len() implies (#[trigger] bytes[i]) < 0x80 by {
        let sign: int = if number.negative {
            1
        } else {
            0
        };
        if i < sign {
        } else if i < sign + number.digits.len() {
            assert(bytes[i] == number.digits[i - sign]);
        } else if i < sign + number.digits.len() + number.fraction.len() {
            let k = i - sign - number.digits.len();
            assert(bytes[i] == number.fraction[k]);
            if k > 0 {
                assert(number.fraction[k] == number.fraction.drop_first()[k - 1]);
            }
        } else {
            let k = i - sign - number.digits.len() - number.fraction.len();
            assert(bytes[i] == number.exponent[k]);
            if k > 0 {
                assert(number.exponent[k] == number.exponent.drop_first()[k - 1]);
            }
        }
    }
    assert forall|i: int| 0 <= i < text.len() implies ((#[trigger] text[i]) as u32) < 0x80 by {
        assert(text[i] == bytes[i] as char);
    }
    lemma_encode_ascii_text(text);
    assert(encode_utf8(text) =~= bytes);
}

/// A point or an exponent mark with its digits, in front of something that
/// continues no number, is scanned whole.
proof fn lemma_scan_part(part: Seq<u8>, tail: Seq<u8>)
    requires
        part.len() > 0,
        all_digits(part.drop_first()),
        skip_whitespace(tail).len() == 0 || !is_digit(skip_whitespace(tail)[0]),
    ensures
        part[0] == 0x2e ==> scan_fraction(part + tail) == (part, skip_whitespace(tail)),
        (part[0] == 0x65 || part[0] == 0x45) ==> scan_exponent(part + tail) == (
            part,
            skip_whitespace(tail),
        ),
{
    let s = part + tail;
    assert(s[0] == part[0]);
    if part[0] == 0x2e || part[0] == 0x65 || part[0] == 0x45 {
        assert(skip_whitespace(s) == s);
        assert(s.drop_first() =~= part.drop_first() + tail);
        lemma_scan_digits_run(part.drop_first(), tail);
        assert(seq![part[0]] + part.drop_first() =~= part);
    }
}

/// The number text that was written is scanned part by part as it was
/// written.
pub proof fn lemma_scan_number_round_trip(number: NumberText, tail: Seq<u8>)
    requires
        well_formed_number(number),
        ends_token(tail),
    ensures
        scan_number(number.bytes() + tail) == (
            Ok::<NumberText, ErrorView>(number),
            skip_whitespace(tail),
        ),
{
    let s = number.bytes() + tail;
    let t = skip_whitespace(tail);
    lemma_skip_whitespace(tail);
    // what stands behind each part
    let behind_fraction = number.exponent + tail;
    let behind_digits = number.fraction + behind_fraction;
    let at_digits = number.digits + behind_digits;
    assert(s =~= (if number.negative {
        seq![0x2du8]
    } else {
        Seq::<u8>::empty()
    }) + at_digits);
    // the exponent
    if number.exponent.len() > 0 {
        lemma_scan_part(number.exponent, tail);
    } else {
        assert(behind_fraction =~= tail);
        assert(number.exponent =~= Seq::<u8>::empty());
    }
    assert(scan_exponent(behind_fraction) == (number.exponent, t));
    assert(skip_whitespace(behind_fraction).len() == 0 || !is_digit(
        skip_whitespace(behind_fraction)[0],
    )) by {
        if number.exponent.len() > 0 {
            assert(behind_fraction[0] == number.exponent[0]);
            assert(skip_whitespace(behind_fraction) == behind_fraction);
        }
    }
    assert(skip_whitespace(behind_fraction).len() == 0 || skip_whitespace(behind_fraction)[0]
        != 0x2e) by {
        if number.exponent.len() > 0 {
            assert(behind_fraction[0] == number.exponent[0]);
            assert(skip_whitespace(behind_fraction) == behind_fraction);
        }
    }
    // the fraction
    if number.fraction.len() > 0 {
        lemma_scan_part(number.fraction, behind_fraction);
    } else {
        assert(behind_digits =~= behind_fraction);
        assert(number.fraction =~= Seq::<u8>::empty());
    }
    assert(scan_fraction(behind_digits) == (number.fraction, skip_whitespace(behind_fraction)));
    lemma_scan_exponent_skips(behind_fraction);
    // the digits
    assert(skip_whitespace(behind_digits).len() == 0 || !is_digit(
        skip_whitespace(behind_digits)[0],
    )) by {
        if number.fraction.len() > 0 {
            assert(behind_digits[0] == number.fraction[0]);
            assert(skip_whitespace(behind_digits) == behind_digits);
        }
    }
    lemma_scan_digits_run(number.digits, behind_digits);
    lemma_scan_fraction_skips(behind_digits);
    // the sign
    if number.negative {
        assert(s[0] == 0x2d);
        assert(skip_whitespace(s) == s);
        assert(s.drop_first() =~= at_digits);
    } else {
        assert(s =~= at_digits);
        assert(s.len() > 0);
        if number.digits.len() > 0 {
            assert(s[0] == number.digits[0]);
            assert(is_digit(s[0]));
        } else if number.fraction.len() > 0 {
            assert(s[0] == number.fraction[0]);
        } else {
            assert(s[0] == number.exponent[0]);
        }
        assert(skip_whitespace(s) == s);
    }
}

/// Scanning for a fraction does not depend on the whitespace in front.
proof fn lemma_scan_fraction_skips(s: Seq<u8>)
    ensures
        scan_fraction(skip_whitespace(s)) == scan_fraction(s),
{
    lemma_skip_whitespace(s);
}

/// Scanning for an exponent does not depend on the whitespace in front.
proof fn lemma_scan_exponent_skips(s: Seq<u8>)
    ensures
        scan_exponent(skip_whitespace(s)) == scan_exponent(s),
{
    lemma_skip_whitespace(s);
}

/// The text of a number that was written is read back.
pub proof fn lemma_float_round_trip(text: Seq<char>, tail: Seq<u8>)
    requires
        is_number_text(text),
        ends_token(tail),
    ensures
        float_text(encode_utf8(text) + tail) == (
            Ok::<Seq<char>, ErrorView>(text),
            skip_whitespace(tail),
        ),
{
    let number = choose|number: NumberText| #[trigger]
        well_formed_number(number) && text == ascii_text(number.bytes());
    lemma_number_bytes(number);
    lemma_scan_number_round_trip(number, tail);
}

/// True when `text` is the text of a number that is told from an integer
/// and from any other value by its bytes: it has a point or an exponent
/// mark, and it opens with a minus sign or a digit.
pub open spec fn is_float_text(text: Seq<char>) -> bool {
    exists|number: NumberText| #[trigger]
        well_formed_number(number) && number.is_float() && (number.negative || number.digits.len()
            > 0) && text == ascii_text(number.bytes())
}

/// The first byte of a number: a minus sign, a digit, a point or an
/// exponent mark; a minus sign or a digit where the number has one.
pub proof fn lemma_number_head(number: NumberText)
    requires
        well_formed_number(number),
    ensures
        ({
            let b = number.bytes()[0];
            &&& b == 0x2d || is_digit(b) || b == 0x2e || b == 0x65 || b == 0x45
            &&& number.negative || number.digits.len() > 0 ==> b == 0x2d || is_digit(b)
        }),
{
    let bytes = number.bytes();
    if number.negative {
        assert(bytes[0] == 0x2d);
    } else if number.digits.len() > 0 {
        assert(bytes[0] == number.digits[0]);
        assert(is_digit(number.digits[0]));
    } else if number.fraction.len() > 0 {
        assert(bytes[0] == number.fraction[0]);
    } else {
        assert(bytes[0] == number.exponent[0]);
    }
}

/// The text of a number with a point or an exponent mark is sorted as a
/// float where nothing is expected.
pub proof fn lemma_float_any_round_trip(text: Seq<char>, tail: Seq<u8>)
    requires
        is_float_text(text),
        ends_token(tail),
    ensures
        classify_number(encode_utf8(text) + tail) == (
            Ok::<NumberView, ErrorView>(NumberView::Float(text)),
            skip_whitespace(tail),
        ),
        (encode_utf8(text) + tail)[0] == 0x2d || is_digit((encode_utf8(text) + tail)[0]),
        encode_utf8(text).len() > 0,
{
    let number = choose|number: NumberText| #[trigger]
        well_formed_number(number) && number.is_float() && (number.negative || number.digits.len()
            > 0) && text == ascii_text(number.bytes());
    lemma_number_bytes(number);
    lemma_number_head(number);
    lemma_scan_number_round_trip(number, tail);
    assert((encode_utf8(text) + tail)[0] == number.bytes()[0]);
}

/// The text of a number that is told from other values opens with a minus
/// sign or a digit.
pub proof fn lemma_float_text_head(text: Seq<char>, tail: Seq<u8>)
    requires
        is_float_text(text),
    ensures
        encode_utf8(text).len() > 0,
        (encode_utf8(text) + tail)[0] == 0x2d || is_digit((encode_utf8(text) + tail)[0]),
{
    let number = choose|number: NumberText| #[trigger]
        well_formed_number(number) && number.is_float() && (number.negative || number.digits.len()
            > 0) && text == ascii_text(number.bytes());
    lemma_number_bytes(number);
    lemma_number_head(number);
    assert((encode_utf8(text) + tail)[0] == number.bytes()[0]);
}

/// The text of a number opens with a minus sign, a digit, a point or an
/// exponent mark.
pub proof fn lemma_number_text_head(text: Seq<char>, tail: Seq<u8>)
    requires
        is_number_text(text),
    ensures
        encode_utf8(text).len() > 0,
        ({
            let b = (encode_utf8(text) + tail)[0];
            b == 0x2d || is_digit(b) || b == 0x2e || b == 0x65 || b == 0x45
        }),
{
    let number = choose|number: NumberText| #[trigger]
        well_formed_number(number) && text == ascii_text(number.bytes());
    lemma_number_bytes(number);
    lemma_number_head(number);
    assert((encode_utf8(text) + tail)[0] == number.bytes()[0]);
}

} // verus!
