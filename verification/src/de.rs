//! The pull parser: a byte cursor with one byte of lookahead, and one entry
//! point for each shape of the data model.

use vstd::prelude::*;
use vstd::utf8::encode_utf8;
use crate::document::{
    find_field, find_variant, lemma_parse_value_rest, parse_entries, parse_fields, parse_items,
    parse_tuple, parse_value,
};
use crate::error::{Error, ErrorView, IoKind, view_result};
use crate::grammar::{
    any_token, bool_literal, byte_buffer, byte_items, char_literal, classify_number,
    closing_quote, element_step, enum_end, enum_head, EnumHeadView, expect_byte, false_word,
    float_text, integer_value, is_whitespace, lemma_rest_bounds, lemma_scan_digits,
    lemma_skip_whitespace, narrow, next_byte, null_literal, null_word, NumberText, NumberView,
    option_head, peek_byte, read_word, scan_digits, scan_exponent, scan_fraction, scan_number,
    signed_integer, skip_whitespace, string_literal, TokenView, true_word, unsigned_integer,
};
use crate::number::{all_digits, decimal, is_ascii_digit};
use crate::parse::unescape;
use crate::text::{ascii_string, chars_of, decode_text};
use crate::value::{
    entry_views, field_views, item_views, lemma_entry_views_push, lemma_field_views,
    lemma_item_views_push, lemma_shape_views, lemma_variant_views, Shape, shape_views,
    ShapeView, Value, ValueView, variant_views,
};

verus! {

/// A cursor over the bytes of one document. It owns a register that holds at
/// most one byte, looked at and not yet taken.
pub struct Deserializer<'a> {
    input: &'a [u8],
    pos: usize,
    hold: Option<u8>,
}

impl<'a> Deserializer<'a> {
    /// The cursor stands inside its input, and what it holds is no
    /// whitespace.
    #[verifier::type_invariant]
    spec fn well_formed(self) -> bool {
        &&& self.pos <= self.input@.len()
        &&& self.hold matches Some(b) ==> !is_whitespace(b)
    }

    /// The bytes not yet taken: the held byte, if there is one, and then the
    /// rest of the input.
    pub closed spec fn view(&self) -> Seq<u8> {
        let rest = self.input@.subrange(self.pos as int, self.input@.len() as int);
        match self.hold {
            Some(b) => seq![b] + rest,
            None => rest,
        }
    }

    /// A cursor at the start of `input`, holding nothing.
    pub fn new(input: &'a [u8]) -> (de: Self)
        ensures
            de@ == input@,
    {
        let de = Deserializer { input, pos: 0, hold: None };
        assert(de@ =~= input@);
        de
    }

    /// Takes the next byte as it stands, whitespace or not.
    fn read_byte(&mut self) -> (r: Option<u8>)
        ensures
            old(self)@.len() == 0 ==> r is None && final(self)@ == old(self)@,
            old(self)@.len() > 0 ==> r == Some(old(self)@[0]) && final(self)@ == old(
                self,
            )@.drop_first(),
    {
        proof {
            use_type_invariant(&*self);
        }
        let held = self.hold;
        match held {
            Some(b) => {
                self.hold = None;
                assert(self@ =~= old(self)@.drop_first());
                Some(b)
            },
            None => {
                if self.pos < self.input.len() {
                    let b = self.input[self.pos];
                    self.pos = self.pos + 1;
                    assert(self@ =~= old(self)@.drop_first());
                    Some(b)
                } else {
                    None
                }
            },
        }
    }

    /// Takes the next byte that is not whitespace: the held byte if there is
    /// one, else the first such byte of the input.
    pub fn next(&mut self) -> (r: Result<u8, Error>)
        ensures
            view_result(r) == next_byte(old(self)@).0,
            final(self)@ == next_byte(old(self)@).1,
    {
        loop
            invariant
                skip_whitespace(self@) == skip_whitespace(old(self)@),
            decreases self@.len(),
        {
            match self.read_byte() {
                None => {
                    return Err(Error::Io(IoKind::UnexpectedEof));
                },
                Some(b) => {
                    if !is_space(b) {
                        return Ok(b);
                    }
                },
            }
        }
    }

    /// Looks at the next byte that is not whitespace and holds it. Looking
    /// again gives the same byte.
    pub fn peek(&mut self) -> (r: Result<u8, Error>)
        ensures
            view_result(r) == peek_byte(old(self)@).0,
            final(self)@ == peek_byte(old(self)@).1,
    {
        proof {
            use_type_invariant(&*self);
        }
        if let Some(b) = self.hold {
            return Ok(b);
        }
        loop
            invariant
                self.hold is None,
                self.pos <= self.input@.len(),
                skip_whitespace(self@) == skip_whitespace(old(self)@),
            decreases self.input@.len() - self.pos,
        {
            if self.pos >= self.input.len() {
                return Err(Error::Io(IoKind::UnexpectedEof));
            }
            let b = self.input[self.pos];
            let ghost before = self@;
            self.pos = self.pos + 1;
            assert(self@ =~= before.drop_first());
            if !is_space(b) {
                self.hold = Some(b);
                assert(self@ =~= before);
                return Ok(b);
            }
        }
    }

    /// Takes the next byte that is not whitespace and fails unless it is `c`.
    pub fn expect_next(&mut self, c: char) -> (r: Result<(), Error>)
        ensures
            view_result(r) == expect_byte(old(self)@, c).0,
            final(self)@ == expect_byte(old(self)@, c).1,
    {
        let b = self.next()?;
        if b as char == c {
            Ok(())
        } else {
            Err(Error::Unexpected { found: char_text(b as char), expected: Some(char_text(c)) })
        }
    }

    /// Takes as many bytes as `word` has, whitespace among them, and fails
    /// unless they are the bytes of `word`.
    fn read_word(&mut self, word: &[u8], expected: &str) -> (r: Result<(), Error>)
        ensures
            view_result(r) == read_word(old(self)@, word@, expected@).0,
            final(self)@ == read_word(old(self)@, word@, expected@).1,
    {
        let mut got: Vec<u8> = Vec::new();
        let mut same = true;
        let mut i: usize = 0;
        assert(got@ =~= word@.subrange(0, 0));
        assert(got@ =~= old(self)@.subrange(0, 0));
        assert(self@ =~= old(self)@.subrange(0, old(self)@.len() as int));
        while i < word.len()
            invariant
                i <= word.len(),
                i <= old(self)@.len(),
                got@ == old(self)@.subrange(0, i as int),
                self@ == old(self)@.subrange(i as int, old(self)@.len() as int),
                same == (got@ == word@.subrange(0, i as int)),
            decreases word.len() - i,
        {
            match self.read_byte() {
                None => {
                    assert(self@ =~= Seq::<u8>::empty());
                    return Err(Error::Io(IoKind::UnexpectedEof));
                },
                Some(b) => {
                    let ghost before = got@;
                    if b != word[i] {
                        same = false;
                    }
                    got.push(b);
                    assert(got@ =~= old(self)@.subrange(0, i + 1));
                    assert(self@ =~= old(self)@.subrange(i + 1, old(self)@.len() as int));
                    assert(word@.subrange(0, i + 1) =~= word@.subrange(0, i as int).push(
                        word@[i as int],
                    ));
                    assert(before == word@.subrange(0, i as int) && b == word@[i as int] ==> got@
                        == word@.subrange(0, i + 1));
                    assert(got@ == word@.subrange(0, i + 1) ==> before =~= word@.subrange(
                        0,
                        i as int,
                    ) && b == word@[i as int]) by {
                        if got@ == word@.subrange(0, i + 1) {
                            assert(got@[i as int] == word@[i as int]);
                            assert(before =~= got@.subrange(0, i as int));
                        }
                    }
                },
            }
            i = i + 1;
        }
        assert(word@.subrange(0, i as int) =~= word@);
        if same {
            Ok(())
        } else {
            match decode_text(got) {
                Some(found) => Err(Error::Unexpected { found, expected: Some(expected.to_owned()) }),
                None => Err(Error::Utf8),
            }
        }
    }

    /// Reads the literal `null`. Whitespace before it is skipped; the four
    /// bytes must match exactly.
    pub fn parse_null(&mut self) -> (r: Result<(), Error>)
        ensures
            view_result(r) == null_literal(old(self)@).0,
            final(self)@ == null_literal(old(self)@).1,
    {
        self.peek()?;
        let word: Vec<u8> = vec![0x6eu8, 0x75u8, 0x6cu8, 0x6cu8];
        assert(word@ =~= null_word());
        self.read_word(word.as_slice(), "null")
    }

    /// Reads a unit value, which is written `null`.
    pub fn deserialize_unit(&mut self) -> (r: Result<(), Error>)
        ensures
            view_result(r) == null_literal(old(self)@).0,
            final(self)@ == null_literal(old(self)@).1,
    {
        self.parse_null()
    }

    /// Reads one of the literals `true` and `false`. Whitespace before it is
    /// skipped; the bytes must match exactly.
    pub fn deserialize_bool(&mut self) -> (r: Result<bool, Error>)
        ensures
            view_result(r) == bool_literal(old(self)@).0,
            final(self)@ == bool_literal(old(self)@).1,
    {
        let b = self.peek()?;
        if b == 0x74 {
            let word: Vec<u8> = vec![0x74u8, 0x72u8, 0x75u8, 0x65u8];
            assert(word@ =~= true_word());
            self.read_word(word.as_slice(), "true")?;
            Ok(true)
        } else if b == 0x66 {
            let word: Vec<u8> = vec![0x66u8, 0x61u8, 0x6cu8, 0x73u8, 0x65u8];
            assert(word@ =~= false_word());
            self.read_word(word.as_slice(), "false")?;
            Ok(false)
        } else {
            Err(
                Error::Unexpected {
                    found: char_text(b as char),
                    expected: Some("true or false".to_owned()),
                },
            )
        }
    }

    /// Collects the digits of an integer behind what `buf` holds. Reading
    /// stops at the first byte that is no digit, which stays held, or at the
    /// end of the input.
    pub fn get_integer(&mut self, buf: Vec<u8>) -> (r: Vec<u8>)
        ensures
            r@ == buf@ + scan_digits(old(self)@).0,
            final(self)@ == scan_digits(old(self)@).1,
    {
        let mut buf = buf;
        let ghost start = buf@;
        assert(buf@ =~= start + Seq::<u8>::empty());
        let ghost mut taken: Seq<u8> = Seq::empty();
        loop
            invariant
                buf@ == start + taken,
                scan_digits(old(self)@).0 == taken + scan_digits(self@).0,
                scan_digits(old(self)@).1 == scan_digits(self@).1,
            ensures
                buf@ == start + scan_digits(old(self)@).0,
                self@ == scan_digits(old(self)@).1,
            decreases self@.len(),
        {
            let ghost before = self@;
            proof {
                lemma_skip_whitespace(before);
                assert(taken + Seq::<u8>::empty() =~= taken);
            }
            match self.peek() {
                Err(_) => {
                    break ;
                },
                Ok(b) => {
                    if !is_ascii_digit(b) {
                        break ;
                    }
                },
            }
            match self.next() {
                Ok(b) => {
                    buf.push(b);
                    proof {
                        let t = skip_whitespace(before);
                        assert(taken.push(b) + scan_digits(t.drop_first()).0 =~= taken + (seq![t[0]]
                            + scan_digits(t.drop_first()).0));
                        assert(start + taken.push(b) =~= (start + taken).push(b));
                        taken = taken.push(b);
                    }
                },
                // a byte was looked at, so there is one to take
                Err(_) => {
                    break ;
                },
            }
        }
        buf
    }

    /// Reads a signed integer: an optional minus sign, then digits. The
    /// number must fit 64 bits.
    pub fn parse_int(&mut self) -> (r: Result<i64, Error>)
        ensures
            r matches Ok(v) ==> signed_integer(old(self)@, i64::MIN as int, i64::MAX as int).0
                == Ok::<int, ErrorView>(v as int),
            r matches Err(e) ==> signed_integer(old(self)@, i64::MIN as int, i64::MAX as int).0
                == Err::<int, ErrorView>(e@),
            final(self)@ == signed_integer(old(self)@, i64::MIN as int, i64::MAX as int).1,
    {
        let mut negative = false;
        if self.peek()? == 0x2d {
            negative = true;
            proof {
                lemma_skip_whitespace(old(self)@);
            }
            let _ = self.next();
        }
        assert(self@ == if negative {
            skip_whitespace(old(self)@).drop_first()
        } else {
            skip_whitespace(old(self)@)
        });
        let ghost at_digits = self@;
        let digits = self.get_integer(Vec::new());
        proof {
            lemma_scan_digits(at_digits);
            assert(digits@ =~= scan_digits(at_digits).0);
        }
        signed_value(negative, digits.as_slice())
    }

    /// Reads an unsigned integer: digits, and no sign. The number must fit
    /// 64 bits.
    pub fn parse_uint(&mut self) -> (r: Result<u64, Error>)
        ensures
            r matches Ok(v) ==> unsigned_integer(old(self)@, u64::MAX as int).0 == Ok::<
                int,
                ErrorView,
            >(v as int),
            r matches Err(e) ==> unsigned_integer(old(self)@, u64::MAX as int).0 == Err::<
                int,
                ErrorView,
            >(e@),
            final(self)@ == unsigned_integer(old(self)@, u64::MAX as int).1,
    {
        let digits = self.get_integer(Vec::new());
        proof {
            lemma_scan_digits(old(self)@);
            assert(digits@ =~= scan_digits(old(self)@).0);
        }
        match decimal(digits.as_slice(), u64::MAX) {
            Some(v) => Ok(v),
            None => Err(Error::ParseInt),
        }
    }

    /// Scans a number part by part: sign, digits, fraction, exponent.
    fn scan_number(&mut self) -> (r: Result<Scanned, Error>)
        ensures
            view_result(r) == scan_number(old(self)@).0,
            final(self)@ == scan_number(old(self)@).1,
            r matches Ok(number) ==> all_digits(number.digits@),
    {
        let mut negative = false;
        if self.peek()? == 0x2d {
            negative = true;
            proof {
                lemma_skip_whitespace(old(self)@);
            }
            let _ = self.next();
        }
        let ghost at_digits = self@;
        let digits = self.get_integer(Vec::new());
        proof {
            lemma_scan_digits(at_digits);
            assert(digits@ =~= scan_digits(at_digits).0);
        }
        let ghost at_fraction = self@;
        let mut fraction: Vec<u8> = Vec::new();
        match self.peek() {
            Ok(b) => {
                if b == 0x2e {
                    proof {
                        lemma_skip_whitespace(at_fraction);
                    }
                    let _ = self.next();
                    fraction.push(b);
                    fraction = self.get_integer(fraction);
                }
            },
            Err(_) => {},
        }
        assert(fraction@ =~= scan_fraction(at_fraction).0);
        assert(self@ == scan_fraction(at_fraction).1);
        let ghost at_exponent = self@;
        let mut exponent: Vec<u8> = Vec::new();
        match self.peek() {
            Ok(b) => {
                if b == 0x65 || b == 0x45 {
                    proof {
                        lemma_skip_whitespace(at_exponent);
                    }
                    let _ = self.next();
                    exponent.push(b);
                    exponent = self.get_integer(exponent);
                }
            },
            Err(_) => {},
        }
        assert(exponent@ =~= scan_exponent(at_exponent).0);
        assert(self@ == scan_exponent(at_exponent).1);
        Ok(Scanned { negative, digits, fraction, exponent })
    }

    /// Reads the text of a floating-point number: an optional minus sign,
    /// digits, then a point with digits and an exponent mark with digits,
    /// each where it is there.
    pub fn parse_float(&mut self) -> (r: Result<String, Error>)
        ensures
            view_result(r) == float_text(old(self)@).0,
            final(self)@ == float_text(old(self)@).1,
    {
        let number = self.scan_number()?;
        let bytes = number.bytes();
        Ok(ascii_string(bytes.as_slice()))
    }

    /// Reads a number of unknown type and sorts it: a float where a point or
    /// an exponent mark was read, else a signed integer where a minus sign
    /// was read, else an unsigned integer.
    pub fn parse_number(&mut self) -> (r: Result<Number, Error>)
        ensures
            view_result(r) == classify_number(old(self)@).0,
            final(self)@ == classify_number(old(self)@).1,
    {
        let number = self.scan_number()?;
        if number.fraction.len() > 0 || number.exponent.len() > 0 {
            let bytes = number.bytes();
            Ok(Number::Float(ascii_string(bytes.as_slice())))
        } else if number.negative {
            let v = signed_value(true, number.digits.as_slice())?;
            Ok(Number::Signed(v))
        } else {
            match decimal(number.digits.as_slice(), u64::MAX) {
                Some(v) => Ok(Number::Unsigned(v)),
                None => Err(Error::ParseInt),
            }
        }
    }

    /// Reads a signed integer of 8 bits.
    pub fn deserialize_i8(&mut self) -> (r: Result<i8, Error>)
        ensures
            r matches Ok(v) ==> signed_integer(old(self)@, i8::MIN as int, i8::MAX as int).0
                == Ok::<int, ErrorView>(v as int),
            r matches Err(e) ==> signed_integer(old(self)@, i8::MIN as int, i8::MAX as int).0
                == Err::<int, ErrorView>(e@),
            final(self)@ == signed_integer(old(self)@, i8::MIN as int, i8::MAX as int).1,
    {
        let v = self.parse_int()?;
        if -0x80 <= v && v <= 0x7f {
            Ok(v as i8)
        } else {
            Err(Error::ParseInt)
        }
    }

    /// Reads a signed integer of 16 bits.
    pub fn deserialize_i16(&mut self) -> (r: Result<i16, Error>)
        ensures
            r matches Ok(v) ==> signed_integer(old(self)@, i16::MIN as int, i16::MAX as int).0
                == Ok::<int, ErrorView>(v as int),
            r matches Err(e) ==> signed_integer(old(self)@, i16::MIN as int, i16::MAX as int).0
                == Err::<int, ErrorView>(e@),
            final(self)@ == signed_integer(old(self)@, i16::MIN as int, i16::MAX as int).1,
    {
        let v = self.parse_int()?;
        if -0x8000 <= v && v <= 0x7fff {
            Ok(v as i16)
        } else {
            Err(Error::ParseInt)
        }
    }

    /// Reads a signed integer of 32 bits.
    pub fn deserialize_i32(&mut self) -> (r: Result<i32, Error>)
        ensures
            r matches Ok(v) ==> signed_integer(old(self)@, i32::MIN as int, i32::MAX as int).0
                == Ok::<int, ErrorView>(v as int),
            r matches Err(e) ==> signed_integer(old(self)@, i32::MIN as int, i32::MAX as int).0
                == Err::<int, ErrorView>(e@),
            final(self)@ == signed_integer(old(self)@, i32::MIN as int, i32::MAX as int).1,
    {
        let v = self.parse_int()?;
        if -0x8000_0000 <= v && v <= 0x7fff_ffff {
            Ok(v as i32)
        } else {
            Err(Error::ParseInt)
        }
    }

    /// Reads a signed integer of 64 bits.
    pub fn deserialize_i64(&mut self) -> (r: Result<i64, Error>)
        ensures
            r matches Ok(v) ==> signed_integer(old(self)@, i64::MIN as int, i64::MAX as int).0
                == Ok::<int, ErrorView>(v as int),
            r matches Err(e) ==> signed_integer(old(self)@, i64::MIN as int, i64::MAX as int).0
                == Err::<int, ErrorView>(e@),
            final(self)@ == signed_integer(old(self)@, i64::MIN as int, i64::MAX as int).1,
    {
        self.parse_int()
    }

    /// Reads an unsigned integer of 8 bits.
    pub fn deserialize_u8(&mut self) -> (r: Result<u8, Error>)
        ensures
            r matches Ok(v) ==> unsigned_integer(old(self)@, u8::MAX as int).0 == Ok::<
                int,
                ErrorView,
            >(v as int),
            r matches Err(e) ==> unsigned_integer(old(self)@, u8::MAX as int).0 == Err::<
                int,
                ErrorView,
            >(e@),
            final(self)@ == unsigned_integer(old(self)@, u8::MAX as int).1,
    {
        let v = self.parse_uint()?;
        if v <= 0xff {
            Ok(v as u8)
        } else {
            Err(Error::ParseInt)
        }
    }

    /// Reads an unsigned integer of 16 bits.
    pub fn deserialize_u16(&mut self) -> (r: Result<u16, Error>)
        ensures
            r matches Ok(v) ==> unsigned_integer(old(self)@, u16::MAX as int).0 == Ok::<
                int,
                ErrorView,
            >(v as int),
            r matches Err(e) ==> unsigned_integer(old(self)@, u16::MAX as int).0 == Err::<
                int,
                ErrorView,
            >(e@),
            final(self)@ == unsigned_integer(old(self)@, u16::MAX as int).1,
    {
        let v = self.parse_uint()?;
        if v <= 0xffff {
            Ok(v as u16)
        } else {
            Err(Error::ParseInt)
        }
    }

    /// Reads an unsigned integer of 32 bits.
    pub fn deserialize_u32(&mut self) -> (r: Result<u32, Error>)
        ensures
            r matches Ok(v) ==> unsigned_integer(old(self)@, u32::MAX as int).0 == Ok::<
                int,
                ErrorView,
            >(v as int),
            r matches Err(e) ==> unsigned_integer(old(self)@, u32::MAX as int).0 == Err::<
                int,
                ErrorView,
            >(e@),
            final(self)@ == unsigned_integer(old(self)@, u32::MAX as int).1,
    {
        let v = self.parse_uint()?;
        if v <= 0xffff_ffff {
            Ok(v as u32)
        } else {
            Err(Error::ParseInt)
        }
    }

    /// Reads an unsigned integer of 64 bits.
    pub fn deserialize_u64(&mut self) -> (r: Result<u64, Error>)
        ensures
            r matches Ok(v) ==> unsigned_integer(old(self)@, u64::MAX as int).0 == Ok::<
                int,
                ErrorView,
            >(v as int),
            r matches Err(e) ==> unsigned_integer(old(self)@, u64::MAX as int).0 == Err::<
                int,
                ErrorView,
            >(e@),
            final(self)@ == unsigned_integer(old(self)@, u64::MAX as int).1,
    {
        self.parse_uint()
    }

    /// Reads a string and decodes its escapes.
    pub fn parse_string(&mut self) -> (r: Result<String, Error>)
        ensures
            view_result(r) == string_literal(old(self)@).0,
            final(self)@ == string_literal(old(self)@).1,
    {
        assert(0x22u8 as char == '"');
        self.expect_next('"')?;
        let ghost body = self@;
        let mut buf: Vec<u8> = Vec::new();
        assert(buf@ =~= body.subrange(0, 0));
        assert(self@ =~= body.subrange(0, body.len() as int));
        loop
            invariant_except_break
                self@ == body.subrange(buf@.len() as int, body.len() as int),
                closing_quote(body, 0) == closing_quote(body, buf@.len() as int),
            invariant
                skip_whitespace(old(self)@).len() > 0,
                skip_whitespace(old(self)@)[0] == 0x22,
                body == skip_whitespace(old(self)@).drop_first(),
                buf@.len() <= body.len(),
                buf@ == body.subrange(0, buf@.len() as int),
            ensures
                closing_quote(body, 0) == Some(buf@.len() as int),
                buf@ == body.subrange(0, buf@.len() as int),
                self@ == body.subrange(buf@.len() as int + 1, body.len() as int),
            decreases body.len() - buf@.len(),
        {
            let ghost i = buf@.len() as int;
            match self.read_byte() {
                None => {
                    assert(self@ =~= Seq::<u8>::empty());
                    assert(closing_quote(body, i) is None);
                    return Err(Error::Unclosed('"'));
                },
                Some(b) => {
                    assert(b == body[i]);
                    let escaped = buf.len() > 0 && buf[buf.len() - 1] == 0x5c;
                    assert(i > 0 ==> buf@[i - 1] == body[i - 1]);
                    if b == 0x22 && !escaped {
                        assert(closing_quote(body, i) == Some(i));
                        assert(self@ =~= body.subrange(i + 1, body.len() as int));
                        break ;
                    }
                    assert(closing_quote(body, i) == closing_quote(body, i + 1));
                    buf.push(b);
                    assert(buf@ =~= body.subrange(0, i + 1));
                    assert(self@ =~= body.subrange(i + 1, body.len() as int));
                },
            }
        }
        match decode_text(buf) {
            Some(text) => unescape(text.as_str()),
            None => Err(Error::Utf8),
        }
    }

    /// Reads a text, which is written as a string.
    pub fn deserialize_str(&mut self) -> (r: Result<String, Error>)
        ensures
            view_result(r) == string_literal(old(self)@).0,
            final(self)@ == string_literal(old(self)@).1,
    {
        self.parse_string()
    }

    /// Reads the text of a floating-point number of 32 bits.
    pub fn deserialize_f32(&mut self) -> (r: Result<String, Error>)
        ensures
            view_result(r) == float_text(old(self)@).0,
            final(self)@ == float_text(old(self)@).1,
    {
        self.parse_float()
    }

    /// Reads the text of a floating-point number of 64 bits.
    pub fn deserialize_f64(&mut self) -> (r: Result<String, Error>)
        ensures
            view_result(r) == float_text(old(self)@).0,
            final(self)@ == float_text(old(self)@).1,
    {
        self.parse_float()
    }

    /// Reads a unit struct, which is written `null`.
    pub fn deserialize_unit_struct(&mut self) -> (r: Result<(), Error>)
        ensures
            view_result(r) == null_literal(old(self)@).0,
            final(self)@ == null_literal(old(self)@).1,
    {
        self.deserialize_unit()
    }

    /// Reads a byte buffer into a vector.
    pub fn deserialize_byte_buf(&mut self) -> (r: Result<Vec<u8>, Error>)
        ensures
            view_result(r) == byte_buffer(old(self)@).0,
            final(self)@ == byte_buffer(old(self)@).1,
    {
        self.parse_byte_buf()
    }

    /// Reads a byte buffer.
    pub fn deserialize_bytes(&mut self) -> (r: Result<Vec<u8>, Error>)
        ensures
            view_result(r) == byte_buffer(old(self)@).0,
            final(self)@ == byte_buffer(old(self)@).1,
    {
        self.parse_byte_buf()
    }

    /// Reads a character: a string whose text is one character, whatever
    /// the number of its bytes.
    pub fn deserialize_char(&mut self) -> (r: Result<char, Error>)
        ensures
            view_result(r) == char_literal(old(self)@).0,
            final(self)@ == char_literal(old(self)@).1,
    {
        let text = self.parse_string()?;
        let chars = chars_of(text.as_str());
        if chars.len() != 1 {
            Err(Error::Unexpected { found: text, expected: Some("single character".to_owned()) })
        } else {
            Ok(chars[0])
        }
    }

    /// Reads a byte buffer: an array of unsigned integers of 8 bits, with at
    /// least one item.
    pub fn parse_byte_buf(&mut self) -> (r: Result<Vec<u8>, Error>)
        ensures
            view_result(r) == byte_buffer(old(self)@).0,
            final(self)@ == byte_buffer(old(self)@).1,
    {
        self.expect_next('[')?;
        let ghost items = self@;
        let mut buf: Vec<u8> = Vec::new();
        loop
            invariant_except_break
                byte_items(items).0 == prepend_bytes(buf@, byte_items(self@).0),
                byte_items(items).1 == byte_items(self@).1,
            invariant
                byte_buffer(old(self)@) == byte_items(items),
            ensures
                byte_buffer(old(self)@).0 == Ok::<Seq<u8>, ErrorView>(buf@),
                byte_buffer(old(self)@).1 == self@,
            decreases self@.len(),
        {
            let ghost before = self@;
            let ghost done = buf@;
            let ghost number = unsigned_integer(before, u8::MAX as int);
            proof {
                lemma_scan_digits(before);
                lemma_skip_whitespace(number.1);
            }
            let v = match self.deserialize_u8() {
                Ok(v) => v,
                Err(e) => {
                    assert(byte_items(before).0 == Err::<Seq<u8>, ErrorView>(e@));
                    return Err(e);
                },
            };
            assert(number.0 == Ok::<int, ErrorView>(v as int));
            let ghost t = skip_whitespace(number.1);
            buf.push(v);
            let b = match self.peek() {
                Ok(b) => b,
                Err(e) => {
                    assert(byte_items(before).0 == Err::<Seq<u8>, ErrorView>(e@));
                    return Err(e);
                },
            };
            assert(b == t[0] && self@ == t);
            if b == 0x5d {
                let _ = self.next();
                assert(byte_items(before).0 == Ok::<Seq<u8>, ErrorView>(seq![v]));
                assert(done + seq![v] =~= buf@);
                break ;
            }
            assert(0x2cu8 as char == ',');
            match self.expect_next(',') {
                Ok(_) => {},
                Err(e) => {
                    assert(byte_items(before).0 == Err::<Seq<u8>, ErrorView>(e@));
                    return Err(e);
                },
            }
            assert(self@ == t.drop_first());
            proof {
                match byte_items(t.drop_first()).0 {
                    Ok(more) => {
                        assert(byte_items(before).0 == Ok::<Seq<u8>, ErrorView>(seq![v] + more));
                        assert(done + (seq![v] + more) =~= buf@ + more);
                    },
                    Err(e) => {
                        assert(byte_items(before).0 == Err::<Seq<u8>, ErrorView>(e));
                    },
                }
            }
        }
        Ok(buf)
    }

    /// Says whether a value stands where an optional one may. The literal
    /// `null` is read and says no; anything else is left for the caller to
    /// read as the value.
    pub fn deserialize_option(&mut self) -> (r: Result<bool, Error>)
        ensures
            view_result(r) == option_head(old(self)@).0,
            final(self)@ == option_head(old(self)@).1,
    {
        if self.peek()? == 0x6e {
            let word: Vec<u8> = vec![0x6eu8, 0x75u8, 0x6cu8, 0x6cu8];
            assert(word@ =~= null_word());
            self.read_word(word.as_slice(), "null")?;
            Ok(false)
        } else {
            Ok(true)
        }
    }

    /// Reads the bracket that opens a sequence.
    pub fn deserialize_seq(&mut self) -> (r: Result<CommaSeparated, Error>)
        ensures
            r is Ok <==> expect_byte(old(self)@, '[').0 is Ok,
            r matches Ok(cursor) ==> cursor.is_first(),
            r matches Err(e) ==> expect_byte(old(self)@, '[').0 == Err::<(), ErrorView>(e@),
            final(self)@ == expect_byte(old(self)@, '[').1,
    {
        self.expect_next('[')?;
        Ok(CommaSeparated::new())
    }

    /// Reads the brace that opens a map.
    pub fn deserialize_map(&mut self) -> (r: Result<CommaSeparated, Error>)
        ensures
            r is Ok <==> expect_byte(old(self)@, '{').0 is Ok,
            r matches Ok(cursor) ==> cursor.is_first(),
            r matches Err(e) ==> expect_byte(old(self)@, '{').0 == Err::<(), ErrorView>(e@),
            final(self)@ == expect_byte(old(self)@, '{').1,
    {
        self.expect_next('{')?;
        Ok(CommaSeparated::new())
    }

    /// Reads the bracket that opens a tuple, which is written as a sequence.
    pub fn deserialize_tuple(&mut self) -> (r: Result<CommaSeparated, Error>)
        ensures
            r is Ok <==> expect_byte(old(self)@, '[').0 is Ok,
            r matches Ok(cursor) ==> cursor.is_first(),
            r matches Err(e) ==> expect_byte(old(self)@, '[').0 == Err::<(), ErrorView>(e@),
            final(self)@ == expect_byte(old(self)@, '[').1,
    {
        self.deserialize_seq()
    }

    /// Reads the bracket that opens a tuple struct, which is written as a
    /// sequence.
    pub fn deserialize_tuple_struct(&mut self) -> (r: Result<CommaSeparated, Error>)
        ensures
            r is Ok <==> expect_byte(old(self)@, '[').0 is Ok,
            r matches Ok(cursor) ==> cursor.is_first(),
            r matches Err(e) ==> expect_byte(old(self)@, '[').0 == Err::<(), ErrorView>(e@),
            final(self)@ == expect_byte(old(self)@, '[').1,
    {
        self.deserialize_seq()
    }

    /// Reads the brace that opens a struct, which is written as a map.
    pub fn deserialize_struct(&mut self) -> (r: Result<CommaSeparated, Error>)
        ensures
            r is Ok <==> expect_byte(old(self)@, '{').0 is Ok,
            r matches Ok(cursor) ==> cursor.is_first(),
            r matches Err(e) ==> expect_byte(old(self)@, '{').0 == Err::<(), ErrorView>(e@),
            final(self)@ == expect_byte(old(self)@, '{').1,
    {
        self.deserialize_map()
    }

    /// Decides from the next byte what the value is, and reads it: a string,
    /// a literal or a number to its end, a sequence or a map up to and with
    /// its opening delimiter.
    pub fn deserialize_any(&mut self) -> (r: Result<Token, Error>)
        ensures
            view_result(r) == any_token(old(self)@).0,
            final(self)@ == any_token(old(self)@).1,
    {
        let b = self.peek()?;
        proof {
            lemma_skip_whitespace(old(self)@);
        }
        if b == 0x22 {
            Ok(Token::Str(self.parse_string()?))
        } else if b == 0x5b {
            let _ = self.next();
            Ok(Token::Sequence)
        } else if b == 0x7b {
            let _ = self.next();
            Ok(Token::Mapping)
        } else if b == 0x6e {
            self.parse_null()?;
            Ok(Token::Unit)
        } else if b == 0x74 || b == 0x66 {
            Ok(Token::Bool(self.deserialize_bool()?))
        } else if b == 0x2d || is_ascii_digit(b) {
            Ok(Token::Number(self.parse_number()?))
        } else {
            Err(Error::Unexpected { found: char_text(b as char), expected: None })
        }
    }

    /// Reads an owned text, of which nothing more is known than of any
    /// value.
    pub fn deserialize_string(&mut self) -> (r: Result<Token, Error>)
        ensures
            view_result(r) == any_token(old(self)@).0,
            final(self)@ == any_token(old(self)@).1,
    {
        self.deserialize_any()
    }

    /// Reads the name of a field or of a variant, of which nothing more is
    /// known than of any value.
    pub fn deserialize_identifier(&mut self) -> (r: Result<Token, Error>)
        ensures
            view_result(r) == any_token(old(self)@).0,
            final(self)@ == any_token(old(self)@).1,
    {
        self.deserialize_any()
    }

    /// Reads a value that the caller has no use for.
    pub fn deserialize_ignored_any(&mut self) -> (r: Result<Token, Error>)
        ensures
            view_result(r) == any_token(old(self)@).0,
            final(self)@ == any_token(old(self)@).1,
    {
        self.deserialize_any()
    }

    /// Reads the start of a variant: a bare string, which names a variant
    /// without payload, or a brace and the string that names the variant.
    pub fn deserialize_enum(&mut self) -> (r: Result<EnumHead, Error>)
        ensures
            view_result(r) == enum_head(old(self)@).0,
            final(self)@ == enum_head(old(self)@).1,
    {
        let b = self.peek()?;
        proof {
            lemma_skip_whitespace(old(self)@);
        }
        if b == 0x22 {
            Ok(EnumHead::Unit(self.parse_string()?))
        } else if b == 0x7b {
            let _ = self.next();
            Ok(EnumHead::Tagged(self.parse_string()?))
        } else {
            Err(
                Error::Unexpected {
                    found: char_text(b as char),
                    expected: Some("string or object".to_owned()),
                },
            )
        }
    }

    /// Reads the brace that closes a variant written as an object.
    pub fn end_enum(&mut self) -> (r: Result<(), Error>)
        ensures
            view_result(r) == enum_end(old(self)@).0,
            final(self)@ == enum_end(old(self)@).1,
    {
        match self.expect_next('}') {
            Ok(_) => Ok(()),
            Err(_) => Err(Error::Unclosed('{')),
        }
    }
}

/// The cursor over the items of one sequence or the entries of one map. All
/// it holds is whether the next item is the first: the first item follows the
/// opening delimiter, every other item follows a comma.
pub struct CommaSeparated {
    start: bool,
}

impl CommaSeparated {
    /// Whether the next item is the first of its aggregate.
    pub closed spec fn is_first(&self) -> bool {
        self.start
    }

    /// A cursor that stands behind the opening delimiter.
    pub fn new() -> (cursor: Self)
        ensures
            cursor.is_first(),
    {
        CommaSeparated { start: true }
    }

    /// One pull on an aggregate that the byte `close` closes.
    fn step(&mut self, de: &mut Deserializer, close: u8) -> (r: Result<bool, Error>)
        ensures
            view_result(r) == element_step(old(de)@, old(self).is_first(), close).0,
            final(de)@ == element_step(old(de)@, old(self).is_first(), close).1,
            final(self).is_first() == (old(self).is_first() && r != Ok::<bool, Error>(true)),
    {
        proof {
            lemma_skip_whitespace(old(de)@);
        }
        if de.peek()? == close {
            let _ = de.next();
            return Ok(false);
        }
        if !self.start {
            de.expect_next(',')?;
        } else {
            self.start = false;
        }
        Ok(true)
    }

    /// Pulls on a sequence: reads the closing bracket and says that the
    /// sequence is over, or reads the comma that an item other than the first
    /// needs and says that an item follows.
    pub fn next_element_seed(&mut self, de: &mut Deserializer) -> (r: Result<bool, Error>)
        ensures
            view_result(r) == element_step(old(de)@, old(self).is_first(), 0x5d).0,
            final(de)@ == element_step(old(de)@, old(self).is_first(), 0x5d).1,
            final(self).is_first() == (old(self).is_first() && r != Ok::<bool, Error>(true)),
    {
        self.step(de, 0x5d)
    }

    /// Pulls on a map: reads the closing brace and says that the map is
    /// over, or reads the comma that an entry other than the first needs and
    /// says that a key follows.
    pub fn next_key_seed(&mut self, de: &mut Deserializer) -> (r: Result<bool, Error>)
        ensures
            view_result(r) == element_step(old(de)@, old(self).is_first(), 0x7d).0,
            final(de)@ == element_step(old(de)@, old(self).is_first(), 0x7d).1,
            final(self).is_first() == (old(self).is_first() && r != Ok::<bool, Error>(true)),
    {
        self.step(de, 0x7d)
    }

    /// Reads the colon that stands between a key and its value.
    pub fn next_value_seed(&mut self, de: &mut Deserializer) -> (r: Result<(), Error>)
        ensures
            view_result(r) == expect_byte(old(de)@, ':').0,
            final(de)@ == expect_byte(old(de)@, ':').1,
            final(self).is_first() == old(self).is_first(),
    {
        de.expect_next(':')
    }
}

impl<'a> Deserializer<'a> {
    /// Reads the value that `shape` expects.
    pub fn deserialize(&mut self, shape: &Shape) -> (r: Result<Value, Error>)
        ensures
            view_result(r) == parse_value(shape@, old(self)@).0,
            final(self)@ == parse_value(shape@, old(self)@).1,
        decreases shape, old(self)@.len(), 1int,
    {
        match shape {
            Shape::Any => self.deserialize_untyped(shape),
            Shape::Unit => {
                self.deserialize_unit()?;
                Ok(Value::Unit)
            },
            Shape::Bool => Ok(Value::Bool(self.deserialize_bool()?)),
            Shape::I8 => Ok(Value::Signed(self.deserialize_i8()? as i64)),
            Shape::I16 => Ok(Value::Signed(self.deserialize_i16()? as i64)),
            Shape::I32 => Ok(Value::Signed(self.deserialize_i32()? as i64)),
            Shape::I64 => Ok(Value::Signed(self.deserialize_i64()?)),
            Shape::U8 => Ok(Value::Unsigned(self.deserialize_u8()? as u64)),
            Shape::U16 => Ok(Value::Unsigned(self.deserialize_u16()? as u64)),
            Shape::U32 => Ok(Value::Unsigned(self.deserialize_u32()? as u64)),
            Shape::U64 => Ok(Value::Unsigned(self.deserialize_u64()?)),
            Shape::Float => Ok(Value::Float(self.parse_float()?)),
            Shape::Char => Ok(Value::Char(self.deserialize_char()?)),
            Shape::Str => Ok(Value::Str(self.parse_string()?)),
            Shape::Bytes => Ok(Value::Bytes(self.parse_byte_buf()?)),
            Shape::Optional(inner) => {
                if self.deserialize_option()? {
                    let value = self.deserialize(inner)?;
                    Ok(Value::Optional(Some(Box::new(value))))
                } else {
                    Ok(Value::Optional(None))
                }
            },
            Shape::Sequence(_) => {
                proof {
                    lemma_skip_whitespace(old(self)@);
                }
                self.expect_next('[')?;
                let items = self.deserialize_items(shape)?;
                Ok(Value::Sequence(items))
            },
            Shape::Mapping(_, _) => {
                proof {
                    lemma_skip_whitespace(old(self)@);
                }
                self.expect_next('{')?;
                let entries = self.deserialize_entries(shape)?;
                Ok(Value::Mapping(entries))
            },
            Shape::Tuple(_) => {
                proof {
                    lemma_skip_whitespace(old(self)@);
                }
                self.expect_next('[')?;
                let items = self.deserialize_tuple_items(shape)?;
                Ok(Value::Sequence(items))
            },
            Shape::Struct(_) => {
                proof {
                    lemma_skip_whitespace(old(self)@);
                }
                self.expect_next('{')?;
                let entries = self.deserialize_fields(shape)?;
                Ok(Value::Mapping(entries))
            },
            Shape::Enum(variants) => self.deserialize_variant(shape),
        }
    }

    /// Reads a value of which nothing is expected: what is found says what
    /// it is.
    fn deserialize_untyped(&mut self, shape: &Shape) -> (r: Result<Value, Error>)
        requires
            shape is Any,
        ensures
            view_result(r) == parse_value(shape@, old(self)@).0,
            final(self)@ == parse_value(shape@, old(self)@).1,
        decreases shape, old(self)@.len(), 0int,
    {
        proof {
            lemma_skip_whitespace(old(self)@);
        }
        match self.deserialize_any()? {
            Token::Str(text) => Ok(Value::Str(text)),
            Token::Unit => Ok(Value::Unit),
            Token::Bool(v) => Ok(Value::Bool(v)),
            Token::Number(Number::Float(text)) => Ok(Value::Float(text)),
            Token::Number(Number::Signed(v)) => Ok(Value::Signed(v)),
            Token::Number(Number::Unsigned(v)) => Ok(Value::Unsigned(v)),
            Token::Sequence => {
                let items = self.deserialize_items(shape)?;
                Ok(Value::Sequence(items))
            },
            Token::Mapping => {
                let entries = self.deserialize_entries(shape)?;
                Ok(Value::Mapping(entries))
            },
        }
    }

    /// Reads one case of a tagged union: a bare string for a variant
    /// without payload, an object of one entry for a variant with one.
    fn deserialize_variant(&mut self, shape: &Shape) -> (r: Result<Value, Error>)
        requires
            shape is Enum,
        ensures
            view_result(r) == parse_value(shape@, old(self)@).0,
            final(self)@ == parse_value(shape@, old(self)@).1,
        decreases shape, old(self)@.len(), 0int,
    {
        let variants = match shape {
            Shape::Enum(variants) => variants,
            _ => {
                return Err(Error::custom("unknown variant"));
            },
        };
        proof {
            lemma_variant_views(variants@);
        }
        match self.deserialize_enum()? {
            EnumHead::Unit(name) => match variant_index(variants, &name) {
                None => Err(Error::custom("unknown variant")),
                Some(i) => match &variants[i].1 {
                    None => Ok(Value::Variant(name, None)),
                    Some(_) => Err(Error::custom("invalid type: unit variant")),
                },
            },
            EnumHead::Tagged(name) => match variant_index(variants, &name) {
                None => Err(Error::custom("unknown variant")),
                Some(i) => {
                    self.expect_next(':')?;
                    match &variants[i].1 {
                        None => Err(
                            Error::custom("Unit variant case should be handled by deserialize_enum"),
                        ),
                        Some(payload) => {
                            assert(decreases_to!(shape => variants));
                            assert(decreases_to!(variants => variants@));
                            assert(decreases_to!(variants@ => variants@[i as int]));
                            assert(decreases_to!(variants@[i as int] => variants@[i as int].1));
                            assert(decreases_to!(variants@[i as int].1 => variants@[i as int].1->0));
                            let value = self.deserialize(payload)?;
                            self.end_enum()?;
                            Ok(Value::Variant(name, Some(Box::new(value))))
                        },
                    }
                },
            },
        }
    }

    /// Reads the items of a sequence behind its opening bracket, up to and
    /// with the closing bracket.
    fn deserialize_items(&mut self, shape: &Shape) -> (r: Result<Vec<Value>, Error>)
        requires
            shape is Sequence || shape is Any,
        ensures
            r matches Ok(items) ==> parse_items(shape@, old(self)@, true).0 == Ok::<
                Seq<ValueView>,
                ErrorView,
            >(item_views(items@)),
            r matches Err(e) ==> parse_items(shape@, old(self)@, true).0 == Err::<
                Seq<ValueView>,
                ErrorView,
            >(e@),
            final(self)@ == parse_items(shape@, old(self)@, true).1,
        decreases shape, old(self)@.len(), 2int,
    {
        let mut cursor = CommaSeparated::new();
        let mut items: Vec<Value> = Vec::new();
        assert(item_views(items@) + Seq::<ValueView>::empty() =~= item_views(items@));
        loop
            invariant_except_break
                parse_items(shape@, old(self)@, true) == prepend_items(
                    item_views(items@),
                    parse_items(shape@, self@, cursor.is_first()),
                ),
            invariant
                shape is Sequence || shape is Any,
                self@.len() <= old(self)@.len(),
            ensures
                parse_items(shape@, old(self)@, true).0 == Ok::<Seq<ValueView>, ErrorView>(
                    item_views(items@),
                ),
                parse_items(shape@, old(self)@, true).1 == self@,
            decreases
                    self@.len(),
                    (if cursor.is_first() {
                        1int
                    } else {
                        0int
                    }),
        {
            let ghost before = self@;
            let ghost done = item_views(items@);
            let ghost first = cursor.is_first();
            proof {
                lemma_rest_bounds(before);
                lemma_skip_whitespace(before);
            }
            match cursor.next_element_seed(self) {
                Err(e) => {
                    return Err(e);
                },
                Ok(false) => {
                    assert(done + Seq::<ValueView>::empty() =~= done);
                    break ;
                },
                Ok(true) => {},
            }
            let ghost at_item = self@;
            let item_shape: &Shape = match shape {
                Shape::Sequence(item) => item,
                _ => shape,
            };
            proof {
                lemma_parse_value_rest(item_shape@, at_item);
            }
            let value = match self.deserialize(item_shape) {
                Ok(value) => value,
                Err(e) => {
                    return Err(e);
                },
            };
            proof {
                lemma_item_views_push(items@, value);
                match parse_items(shape@, self@, false).0 {
                    Ok(more) => {
                        assert(done + (seq![value@] + more) =~= done.push(value@) + more);
                    },
                    Err(_) => {},
                }
            }
            items.push(value);
        }
        Ok(items)
    }

    /// Reads the items of a tuple behind its opening bracket, up to and with
    /// the closing bracket.
    fn deserialize_tuple_items(&mut self, shape: &Shape) -> (r: Result<Vec<Value>, Error>)
        requires
            shape is Tuple,
        ensures
            r matches Ok(items) ==> parse_tuple(shape@, 0, old(self)@).0 == Ok::<
                Seq<ValueView>,
                ErrorView,
            >(item_views(items@)),
            r matches Err(e) ==> parse_tuple(shape@, 0, old(self)@).0 == Err::<
                Seq<ValueView>,
                ErrorView,
            >(e@),
            final(self)@ == parse_tuple(shape@, 0, old(self)@).1,
        decreases shape, old(self)@.len(), 2int,
    {
        let shapes = match shape {
            Shape::Tuple(shapes) => shapes,
            _ => {
                return Err(Error::custom("invalid length"));
            },
        };
        proof {
            lemma_shape_views(shapes@);
        }
        let mut cursor = CommaSeparated::new();
        let mut items: Vec<Value> = Vec::new();
        let mut i: usize = 0;
        assert(item_views(items@) + Seq::<ValueView>::empty() =~= item_views(items@));
        loop
            invariant_except_break
                parse_tuple(shape@, 0, old(self)@) == prepend_items(
                    item_views(items@),
                    parse_tuple(shape@, i as int, self@),
                ),
            invariant
                shape == Shape::Tuple(*shapes),
                shape@ == ShapeView::Tuple(shape_views(shapes@)),
                shape_views(shapes@).len() == shapes@.len(),
                forall|j: int|
                    0 <= j < shapes@.len() ==> (#[trigger] shape_views(shapes@)[j]) == shapes@[j]@,
                i <= shapes.len(),
                cursor.is_first() == (i == 0),
                self@.len() <= old(self)@.len(),
            ensures
                parse_tuple(shape@, 0, old(self)@).0 == Ok::<Seq<ValueView>, ErrorView>(
                    item_views(items@),
                ),
                parse_tuple(shape@, 0, old(self)@).1 == self@,
            decreases shapes.len() - i,
        {
            let ghost before = self@;
            let ghost done = item_views(items@);
            proof {
                lemma_rest_bounds(before);
                lemma_skip_whitespace(before);
            }
            let more = match cursor.next_element_seed(self) {
                Ok(more) => more,
                Err(e) => {
                    return Err(e);
                },
            };
            if i >= shapes.len() {
                if more {
                    return Err(Error::custom("invalid length"));
                }
                assert(done + Seq::<ValueView>::empty() =~= done);
                break ;
            }
            if !more {
                return Err(Error::custom("invalid length"));
            }
            let ghost at_item = self@;
            proof {
                lemma_parse_value_rest(shapes@[i as int]@, at_item);
                assert(decreases_to!(shape => shapes));
                assert(decreases_to!(shapes => shapes@));
                assert(decreases_to!(shapes@ => shapes@[i as int]));
            }
            let value = match self.deserialize(&shapes[i]) {
                Ok(value) => value,
                Err(e) => {
                    return Err(e);
                },
            };
            proof {
                lemma_item_views_push(items@, value);
                match parse_tuple(shape@, i + 1, self@).0 {
                    Ok(more) => {
                        assert(done + (seq![value@] + more) =~= done.push(value@) + more);
                    },
                    Err(_) => {},
                }
            }
            items.push(value);
            i = i + 1;
        }
        Ok(items)
    }

    /// Reads the entries of a struct behind its opening brace, up to and
    /// with the closing brace.
    fn deserialize_fields(&mut self, shape: &Shape) -> (r: Result<Vec<(Value, Value)>, Error>)
        requires
            shape is Struct,
        ensures
            r matches Ok(entries) ==> parse_fields(shape@, old(self)@, true).0 == Ok::<
                Seq<(ValueView, ValueView)>,
                ErrorView,
            >(entry_views(entries@)),
            r matches Err(e) ==> parse_fields(shape@, old(self)@, true).0 == Err::<
                Seq<(ValueView, ValueView)>,
                ErrorView,
            >(e@),
            final(self)@ == parse_fields(shape@, old(self)@, true).1,
        decreases shape, old(self)@.len(), 2int,
    {
        let fields = match shape {
            Shape::Struct(fields) => fields,
            _ => {
                return Err(Error::custom("unknown field"));
            },
        };
        proof {
            lemma_field_views(fields@);
        }
        let mut cursor = CommaSeparated::new();
        let mut entries: Vec<(Value, Value)> = Vec::new();
        assert(entry_views(entries@) + Seq::<(ValueView, ValueView)>::empty() =~= entry_views(
            entries@,
        ));
        loop
            invariant_except_break
                parse_fields(shape@, old(self)@, true) == prepend_entries(
                    entry_views(entries@),
                    parse_fields(shape@, self@, cursor.is_first()),
                ),
            invariant
                shape == Shape::Struct(*fields),
                shape@ == ShapeView::Struct(field_views(fields@)),
                field_views(fields@).len() == fields@.len(),
                forall|j: int|
                    0 <= j < fields@.len() ==> (#[trigger] field_views(fields@)[j]) == (
                        fields@[j].0@,
                        fields@[j].1@,
                    ),
                self@.len() <= old(self)@.len(),
            ensures
                parse_fields(shape@, old(self)@, true).0 == Ok::<
                    Seq<(ValueView, ValueView)>,
                    ErrorView,
                >(entry_views(entries@)),
                parse_fields(shape@, old(self)@, true).1 == self@,
            decreases self@.len(),
        {
            let ghost before = self@;
            let ghost done = entry_views(entries@);
            proof {
                lemma_rest_bounds(before);
                lemma_skip_whitespace(before);
            }
            match cursor.next_key_seed(self) {
                Err(e) => {
                    return Err(e);
                },
                Ok(false) => {
                    assert(done + Seq::<(ValueView, ValueView)>::empty() =~= done);
                    break ;
                },
                Ok(true) => {},
            }
            let ghost at_key = self@;
            proof {
                lemma_rest_bounds(at_key);
            }
            let name = match self.parse_string() {
                Ok(name) => name,
                Err(e) => {
                    return Err(e);
                },
            };
            let ghost after_key = self@;
            let j = match field_index(fields, &name) {
                Some(j) => j,
                None => {
                    return Err(Error::custom("unknown field"));
                },
            };
            proof {
                lemma_rest_bounds(after_key);
                lemma_skip_whitespace(after_key);
            }
            match cursor.next_value_seed(self) {
                Ok(_) => {},
                Err(e) => {
                    return Err(e);
                },
            }
            let ghost at_value = self@;
            proof {
                lemma_parse_value_rest(fields@[j as int].1@, at_value);
                assert(decreases_to!(shape => fields));
                assert(decreases_to!(fields => fields@));
                assert(decreases_to!(fields@ => fields@[j as int]));
                assert(decreases_to!(fields@[j as int] => fields@[j as int].1));
            }
            let value = match self.deserialize(&fields[j].1) {
                Ok(value) => value,
                Err(e) => {
                    return Err(e);
                },
            };
            let key = Value::Str(name);
            proof {
                lemma_entry_views_push(entries@, key, value);
                match parse_fields(shape@, self@, false).0 {
                    Ok(more) => {
                        assert(done + (seq![(key@, value@)] + more) =~= done.push((key@, value@))
                            + more);
                    },
                    Err(_) => {},
                }
            }
            entries.push((key, value));
        }
        Ok(entries)
    }

    /// Reads the entries of a map behind its opening brace, up to and with
    /// the closing brace.
    fn deserialize_entries(&mut self, shape: &Shape) -> (r: Result<Vec<(Value, Value)>, Error>)
        requires
            shape is Mapping || shape is Any,
        ensures
            r matches Ok(entries) ==> parse_entries(shape@, old(self)@, true).0 == Ok::<
                Seq<(ValueView, ValueView)>,
                ErrorView,
            >(entry_views(entries@)),
            r matches Err(e) ==> parse_entries(shape@, old(self)@, true).0 == Err::<
                Seq<(ValueView, ValueView)>,
                ErrorView,
            >(e@),
            final(self)@ == parse_entries(shape@, old(self)@, true).1,
        decreases shape, old(self)@.len(), 2int,
    {
        let mut cursor = CommaSeparated::new();
        let mut entries: Vec<(Value, Value)> = Vec::new();
        assert(entry_views(entries@) + Seq::<(ValueView, ValueView)>::empty() =~= entry_views(
            entries@,
        ));
        loop
            invariant_except_break
                parse_entries(shape@, old(self)@, true) == prepend_entries(
                    entry_views(entries@),
                    parse_entries(shape@, self@, cursor.is_first()),
                ),
            invariant
                shape is Mapping || shape is Any,
                self@.len() <= old(self)@.len(),
            ensures
                parse_entries(shape@, old(self)@, true).0 == Ok::<
                    Seq<(ValueView, ValueView)>,
                    ErrorView,
                >(entry_views(entries@)),
                parse_entries(shape@, old(self)@, true).1 == self@,
            decreases
                    self@.len(),
                    (if cursor.is_first() {
                        1int
                    } else {
                        0int
                    }),
        {
            let ghost before = self@;
            let ghost done = entry_views(entries@);
            proof {
                lemma_rest_bounds(before);
                lemma_skip_whitespace(before);
            }
            match cursor.next_key_seed(self) {
                Err(e) => {
                    return Err(e);
                },
                Ok(false) => {
                    assert(done + Seq::<(ValueView, ValueView)>::empty() =~= done);
                    break ;
                },
                Ok(true) => {},
            }
            let ghost at_key = self@;
            let key_shape: &Shape = match shape {
                Shape::Mapping(key, _) => key,
                _ => shape,
            };
            proof {
                lemma_parse_value_rest(key_shape@, at_key);
            }
            let key = match self.deserialize(key_shape) {
                Ok(key) => key,
                Err(e) => {
                    return Err(e);
                },
            };
            let ghost after_key = self@;
            proof {
                lemma_rest_bounds(after_key);
                lemma_skip_whitespace(after_key);
            }
            match cursor.next_value_seed(self) {
                Ok(_) => {},
                Err(e) => {
                    return Err(e);
                },
            }
            let ghost at_value = self@;
            let value_shape: &Shape = match shape {
                Shape::Mapping(_, value) => value,
                _ => shape,
            };
            proof {
                lemma_parse_value_rest(value_shape@, at_value);
            }
            let value = match self.deserialize(value_shape) {
                Ok(value) => value,
                Err(e) => {
                    return Err(e);
                },
            };
            proof {
                lemma_entry_views_push(entries@, key, value);
                match parse_entries(shape@, self@, false).0 {
                    Ok(more) => {
                        assert(done + (seq![(key@, value@)] + more) =~= done.push((key@, value@))
                            + more);
                    },
                    Err(_) => {},
                }
            }
            entries.push((key, value));
        }
        Ok(entries)
    }
}

/// Reads from `bytes` the value that `shape` expects. What stands behind the
/// value is not looked at.
pub fn from_bytes(bytes: &[u8], shape: &Shape) -> (r: Result<Value, Error>)
    ensures
        view_result(r) == parse_value(shape@, bytes@).0,
{
    let mut de = Deserializer::new(bytes);
    de.deserialize(shape)
}

/// Reads from the text `s` the value that `shape` expects. What stands
/// behind the value is not looked at.
pub fn from_str(s: &str, shape: &Shape) -> (r: Result<Value, Error>)
    ensures
        view_result(r) == parse_value(shape@, encode_utf8(s@)).0,
{
    from_bytes(s.as_bytes(), shape)
}

/// A number read without knowing its type.
#[derive(Debug, PartialEq, Eq)]
pub enum Number {
    /// A point or an exponent mark was read: the text of the number.
    Float(String),
    /// A minus sign was read, and no point or exponent mark.
    Signed(i64),
    /// Digits only.
    Unsigned(u64),
}

impl View for Number {
    type V = NumberView;

    open spec fn view(&self) -> NumberView {
        match *self {
            Number::Float(text) => NumberView::Float(text@),
            Number::Signed(v) => NumberView::Signed(v),
            Number::Unsigned(v) => NumberView::Unsigned(v),
        }
    }
}

/// What is found where nothing is known of the value to come.
#[derive(Debug, PartialEq, Eq)]
pub enum Token {
    /// A string, read to its end.
    Str(String),
    /// The bracket that opens a sequence, and nothing behind it.
    Sequence,
    /// The brace that opens a map, and nothing behind it.
    Mapping,
    /// The literal `null`.
    Unit,
    /// One of the literals `true` and `false`.
    Bool(bool),
    /// A number, read to its end.
    Number(Number),
}

impl View for Token {
    type V = TokenView;

    open spec fn view(&self) -> TokenView {
        match *self {
            Token::Str(text) => TokenView::Str(text@),
            Token::Sequence => TokenView::Sequence,
            Token::Mapping => TokenView::Mapping,
            Token::Unit => TokenView::Unit,
            Token::Bool(b) => TokenView::Bool(b),
            Token::Number(n) => TokenView::Number(n@),
        }
    }
}

/// How a variant is written.
#[derive(Debug, PartialEq, Eq)]
pub enum EnumHead {
    /// A bare string: the name of a variant without payload.
    Unit(String),
    /// An object of one entry: the name of the variant is its key, read with
    /// the brace before it; the colon and the payload are still to come.
    Tagged(String),
}

impl View for EnumHead {
    type V = EnumHeadView;

    open spec fn view(&self) -> EnumHeadView {
        match *self {
            EnumHead::Unit(name) => EnumHeadView::Unit(name@),
            EnumHead::Tagged(name) => EnumHeadView::Tagged(name@),
        }
    }
}

/// The parts of a number as the cursor scanned them.
struct Scanned {
    negative: bool,
    digits: Vec<u8>,
    fraction: Vec<u8>,
    exponent: Vec<u8>,
}

impl View for Scanned {
    type V = NumberText;

    closed spec fn view(&self) -> NumberText {
        NumberText {
            negative: self.negative,
            digits: self.digits@,
            fraction: self.fraction@,
            exponent: self.exponent@,
        }
    }
}

impl Scanned {
    /// The bytes of the number, in the order they were read.
    fn bytes(&self) -> (out: Vec<u8>)
        ensures
            out@ == self@.bytes(),
    {
        let mut out: Vec<u8> = Vec::new();
        if self.negative {
            out.push(0x2d);
        }
        out.extend_from_slice(self.digits.as_slice());
        out.extend_from_slice(self.fraction.as_slice());
        out.extend_from_slice(self.exponent.as_slice());
        assert(out@ =~= self@.bytes());
        out
    }
}

/// The integer that a sign and a magnitude in digits stand for, where it
/// fits 64 bits.
fn signed_value(negative: bool, digits: &[u8]) -> (r: Result<i64, Error>)
    requires
        all_digits(digits@),
    ensures
        r matches Ok(v) ==> narrow(integer_value(negative, digits@), i64::MIN as int, i64::MAX as int)
            == Ok::<int, ErrorView>(v as int),
        r matches Err(e) ==> narrow(
            integer_value(negative, digits@),
            i64::MIN as int,
            i64::MAX as int,
        ) == Err::<int, ErrorView>(e@),
{
    if negative {
        match decimal(digits, 0x8000_0000_0000_0000u64) {
            Some(m) => if m == 0x8000_0000_0000_0000u64 {
                Ok(i64::MIN)
            } else {
                Ok(-(m as i64))
            },
            None => Err(Error::ParseInt),
        }
    } else {
        match decimal(digits, 0x7fff_ffff_ffff_ffffu64) {
            Some(m) => Ok(m as i64),
            None => Err(Error::ParseInt),
        }
    }
}

/// The place of the first field that is named `name`.
fn field_index(fields: &Vec<(String, Shape)>, name: &String) -> (r: Option<usize>)
    ensures
        r matches Some(i) ==> find_field(field_views(fields@), name@, 0) == Some(
            i as int,
        ) && i < fields@.len(),
        r is None ==> find_field(field_views(fields@), name@, 0) is None,
{
    let ghost views = field_views(fields@);
    proof {
        lemma_field_views(fields@);
    }
    let mut i: usize = 0;
    while i < fields.len()
        invariant
            i <= fields.len(),
            views == field_views(fields@),
            views.len() == fields@.len(),
            forall|j: int| 0 <= j < fields@.len() ==> (#[trigger] views[j]).0 == fields@[j].0@,
            find_field(views, name@, 0) == find_field(
                views,
                name@,
                i as int,
            ),
        decreases fields.len() - i,
    {
        if fields[i].0 == *name {
            return Some(i);
        }
        i = i + 1;
    }
    None
}

/// The place of the first variant that is named `name`.
fn variant_index(variants: &Vec<(String, Option<Shape>)>, name: &String) -> (r: Option<usize>)
    ensures
        r matches Some(i) ==> find_variant(variant_views(variants@), name@, 0) == Some(i as int)
            && i < variants@.len(),
        r is None ==> find_variant(variant_views(variants@), name@, 0) is None,
{
    let ghost views = variant_views(variants@);
    proof {
        lemma_variant_views(variants@);
    }
    let mut i: usize = 0;
    while i < variants.len()
        invariant
            i <= variants.len(),
            views == variant_views(variants@),
            views.len() == variants@.len(),
            forall|j: int| 0 <= j < variants@.len() ==> (#[trigger] views[j]).0 == variants@[j].0@,
            find_variant(views, name@, 0) == find_variant(views, name@, i as int),
        decreases variants.len() - i,
    {
        if variants[i].0 == *name {
            return Some(i);
        }
        i = i + 1;
    }
    None
}

/// Whether `b` is one of the four whitespace bytes.
fn is_space(b: u8) -> (r: bool)
    ensures
        r == is_whitespace(b),
{
    b == 0x20 || b == 0x09 || b == 0x0a || b == 0x0d
}

/// The text made of the one character `c`.
fn char_text(c: char) -> (s: String)
    ensures
        s@ == seq![c],
{
    let mut s = String::new();
    s.push(c);
    s
}

/// The items read so far put in front of those that a scan gives.
spec fn prepend_bytes(done: Seq<u8>, rest: Result<Seq<u8>, ErrorView>) -> Result<
    Seq<u8>,
    ErrorView,
> {
    match rest {
        Ok(more) => Ok(done + more),
        Err(e) => Err(e),
    }
}

/// The items read so far put in front of those still to be read.
spec fn prepend_items(
    done: Seq<ValueView>,
    rest: (Result<Seq<ValueView>, ErrorView>, Seq<u8>),
) -> (Result<Seq<ValueView>, ErrorView>, Seq<u8>) {
    match rest {
        (Ok(more), end) => (Ok(done + more), end),
        (Err(e), end) => (Err(e), end),
    }
}

/// The entries read so far put in front of those still to be read.
spec fn prepend_entries(
    done: Seq<(ValueView, ValueView)>,
    rest: (Result<Seq<(ValueView, ValueView)>, ErrorView>, Seq<u8>),
) -> (Result<Seq<(ValueView, ValueView)>, ErrorView>, Seq<u8>) {
    match rest {
        (Ok(more), end) => (Ok(done + more), end),
        (Err(e), end) => (Err(e), end),
    }
}

} // verus!
