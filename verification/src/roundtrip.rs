//! Why a value that was written is read back, whatever whitespace stands
//! between its tokens.

use vstd::prelude::*;
use crate::document::{
    find_field, find_variant, key_text, lemma_find_variant, lemma_parse_value_rest,
    parse_entries, parse_fields, parse_items, parse_tuple, parse_value, render, render_entries,
    render_entry, render_items, renderable, renderable_entries, renderable_items,
};
use crate::error::ErrorView;
use crate::grammar::{
    all_whitespace, any_token, element_step, enum_end, enum_head, expect_byte, is_whitespace,
    lemma_skip_whitespace, lemma_skip_whitespace_prefix, option_head, skip_whitespace,
};
use crate::laws::{
    conforms, conforms_entries, conforms_fields, conforms_items, conforms_tuple, is_null,
};
use crate::number::{decimal_digits, is_digit, lemma_decimal_digits, signed_decimal};
use crate::render::{bool_text, byte_buffer_text, byte_items_text, null_text, quoted};
use crate::strings::{lemma_char_round_trip, lemma_string_round_trip, reads_back};
use crate::tokens::{
    ends_token, lemma_bool_round_trip, lemma_float_any_round_trip, lemma_float_round_trip,
    lemma_float_text_head, lemma_null_round_trip, lemma_number_round_trip,
    lemma_number_text_head, lemma_signed_round_trip, lemma_unsigned_round_trip,
};
use crate::value::{ShapeView, ValueView};

verus! {

/// A choice of the whitespace that stands in front of each token: the run
/// in front of a token is chosen by what stands from the token on, so each
/// place in a document has a run of its own.
pub type Padding = spec_fn(Seq<u8>) -> Seq<u8>;

/// True when `pad` puts nothing but whitespace in front of a token.
pub open spec fn pads_whitespace(pad: Padding) -> bool {
    forall|body: Seq<u8>| all_whitespace(#[trigger] pad(body))
}

/// The padding that puts nothing anywhere.
pub open spec fn no_padding() -> Padding {
    |body: Seq<u8>| Seq::<u8>::empty()
}

/// `body` with the whitespace that `pad` chooses in front of it.
pub open spec fn padded(pad: Padding, body: Seq<u8>) -> Seq<u8> {
    pad(body) + body
}

/// The bytes of `value` and, behind them, `tail`, with the whitespace that
/// `pad` chooses in front of every token of `value`; the whitespace in
/// front of the first token is left out.
pub open spec fn spell(value: ValueView, pad: Padding, tail: Seq<u8>) -> Seq<u8>
    decreases value, 0int,
{
    match value {
        ValueView::Optional(Some(inner)) => spell(*inner, pad, tail),
        ValueView::Bytes(bytes) => seq![0x5bu8] + spell_bytes(
            bytes,
            0,
            pad,
            padded(pad, seq![0x5du8] + tail),
        ),
        ValueView::Sequence(items) => seq![0x5bu8] + spell_items(
            items,
            0,
            pad,
            padded(pad, seq![0x5du8] + tail),
        ),
        ValueView::Mapping(entries) => seq![0x7bu8] + spell_entries(
            entries,
            0,
            pad,
            padded(pad, seq![0x7du8] + tail),
        ),
        ValueView::Variant(name, Some(payload)) => seq![0x7bu8] + padded(
            pad,
            quoted(name) + padded(
                pad,
                seq![0x3au8] + padded(pad, spell(*payload, pad, padded(pad, seq![0x7du8] + tail))),
            ),
        ),
        _ => render(value) + tail,
    }
}

/// The items of a byte buffer from the `i`-th on, spelled with padding, and
/// `tail` behind them.
pub open spec fn spell_bytes(bytes: Seq<u8>, i: int, pad: Padding, tail: Seq<u8>) -> Seq<u8>
    decreases bytes.len() - i,
{
    if i < 0 || i >= bytes.len() {
        tail
    } else {
        let item = padded(
            pad,
            decimal_digits(bytes[i] as nat) + spell_bytes(bytes, i + 1, pad, tail),
        );
        if i == 0 {
            item
        } else {
            padded(pad, seq![0x2cu8] + item)
        }
    }
}

/// The items of a sequence from the `i`-th on, spelled with padding, and
/// `tail` behind them.
pub open spec fn spell_items(items: Seq<ValueView>, i: int, pad: Padding, tail: Seq<u8>) -> Seq<u8>
    decreases items, items.len() - i,
{
    if i < 0 || i >= items.len() {
        tail
    } else {
        let item = padded(pad, spell(items[i], pad, spell_items(items, i + 1, pad, tail)));
        if i == 0 {
            item
        } else {
            padded(pad, seq![0x2cu8] + item)
        }
    }
}

/// The entries of a map from the `i`-th on, spelled with padding, and
/// `tail` behind them.
pub open spec fn spell_entries(
    entries: Seq<(ValueView, ValueView)>,
    i: int,
    pad: Padding,
    tail: Seq<u8>,
) -> Seq<u8>
    decreases entries, entries.len() - i,
{
    if i < 0 || i >= entries.len() {
        tail
    } else {
        let entry = spell_entry(entries[i], pad, spell_entries(entries, i + 1, pad, tail));
        if i == 0 {
            entry
        } else {
            padded(pad, seq![0x2cu8] + entry)
        }
    }
}

/// One entry of a map, spelled with padding, and `tail` behind it.
pub open spec fn spell_entry(entry: (ValueView, ValueView), pad: Padding, tail: Seq<u8>) -> Seq<u8>
    decreases entry, 0int,
{
    padded(
        pad,
        (match key_text(entry.0) {
            Some(text) => text,
            None => Seq::empty(),
        }) + padded(pad, seq![0x3au8] + padded(pad, spell(entry.1, pad, tail))),
    )
}

/// The bytes that a value can open with.
pub open spec fn opens_value(b: u8) -> bool {
    b == 0x6e || b == 0x74 || b == 0x66 || b == 0x22 || b == 0x5b || b == 0x7b || b == 0x2d
        || is_digit(b) || b == 0x2e || b == 0x65 || b == 0x45
}

/// Padding in front of a stream is skipped with the whitespace of the
/// stream.
pub proof fn lemma_skip_padded(pad: Padding, body: Seq<u8>)
    requires
        pads_whitespace(pad),
    ensures
        skip_whitespace(padded(pad, body)) == skip_whitespace(body),
        body.len() > 0 && !is_whitespace(body[0]) ==> skip_whitespace(padded(pad, body)) == body,
{
    assert(all_whitespace(pad(body)));
    lemma_skip_whitespace_prefix(pad(body), body);
}

/// A key is written as a string.
pub proof fn lemma_key_text_head(key: ValueView)
    ensures
        key_text(key) matches Some(text) ==> text.len() > 0 && text[0] == 0x22,
    decreases key,
{
    match key {
        ValueView::Optional(Some(inner)) => {
            lemma_key_text_head(*inner);
        },
        _ => {},
    }
}

/// The first byte of a value that is read back: it is no whitespace, it
/// opens a value, and it is `n` only for a value that is written `null`.
pub proof fn lemma_spell_head(value: ValueView, shape: ShapeView, pad: Padding, tail: Seq<u8>)
    requires
        conforms(value, shape),
    ensures
        spell(value, pad, tail).len() > 0,
        opens_value(spell(value, pad, tail)[0]),
        !is_whitespace(spell(value, pad, tail)[0]),
        !is_null(value) ==> spell(value, pad, tail)[0] != 0x6e,
    decreases value,
{
    match value {
        ValueView::Optional(Some(inner)) => {
            match shape {
                ShapeView::Optional(expected) => {
                    lemma_spell_head(*inner, *expected, pad, tail);
                },
                _ => {},
            }
        },
        ValueView::Signed(v) => {
            if v < 0 {
                assert(signed_decimal(v as int)[0] == 0x2d);
            } else {
                lemma_decimal_digits(v as nat);
                assert(is_digit(decimal_digits(v as nat)[0]));
            }
        },
        ValueView::Unsigned(v) => {
            lemma_decimal_digits(v as nat);
            assert(is_digit(decimal_digits(v as nat)[0]));
        },
        ValueView::Float(text) => {
            if shape is Any {
                lemma_float_text_head(text, tail);
            } else {
                lemma_number_text_head(text, tail);
            }
        },
        ValueView::Bool(v) => {
            assert(bool_text(v)[0] == 0x74 || bool_text(v)[0] == 0x66);
        },
        ValueView::Unit => {
            assert(null_text()[0] == 0x6e);
        },
        ValueView::Optional(None) => {
            assert(null_text()[0] == 0x6e);
        },
        ValueView::Char(c) => {
            assert(quoted(seq![c])[0] == 0x22);
        },
        ValueView::Str(text) => {
            assert(quoted(text)[0] == 0x22);
        },
        ValueView::Variant(name, None) => {
            assert(quoted(name)[0] == 0x22);
        },
        _ => {},
    }
}

/// Reading a value does not depend on the whitespace in front of it.
pub proof fn lemma_parse_value_skips(shape: ShapeView, s: Seq<u8>)
    ensures
        parse_value(shape, s) == parse_value(shape, skip_whitespace(s)),
{
    lemma_skip_whitespace(s);
    lemma_tokens_skip(s);
}

/// No token depends on the whitespace in front of it.
pub proof fn lemma_tokens_skip(s: Seq<u8>)
    ensures
        forall|c: char| #[trigger] expect_byte(s, c) == expect_byte(skip_whitespace(s), c),
        enum_end(s) == enum_end(skip_whitespace(s)),
        forall|first: bool, close: u8| #[trigger]
            element_step(s, first, close) == element_step(skip_whitespace(s), first, close),
        crate::grammar::null_literal(s) == crate::grammar::null_literal(skip_whitespace(s)),
        crate::grammar::bool_literal(s) == crate::grammar::bool_literal(skip_whitespace(s)),
        forall|min: int, max: int| #[trigger]
            crate::grammar::signed_integer(s, min, max) == crate::grammar::signed_integer(
                skip_whitespace(s),
                min,
                max,
            ),
        crate::grammar::scan_digits(s) == crate::grammar::scan_digits(skip_whitespace(s)),
        forall|max: int| #[trigger]
            crate::grammar::unsigned_integer(s, max) == crate::grammar::unsigned_integer(
                skip_whitespace(s),
                max,
            ),
        crate::grammar::scan_number(s) == crate::grammar::scan_number(skip_whitespace(s)),
        crate::grammar::float_text(s) == crate::grammar::float_text(skip_whitespace(s)),
        crate::grammar::classify_number(s) == crate::grammar::classify_number(skip_whitespace(s)),
        crate::grammar::string_literal(s) == crate::grammar::string_literal(skip_whitespace(s)),
        crate::grammar::char_literal(s) == crate::grammar::char_literal(skip_whitespace(s)),
        crate::grammar::byte_buffer(s) == crate::grammar::byte_buffer(skip_whitespace(s)),
        option_head(s) == option_head(skip_whitespace(s)),
        any_token(s) == any_token(skip_whitespace(s)),
        enum_head(s) == enum_head(skip_whitespace(s)),
{
    lemma_skip_whitespace(s);
}

/// A key that was written is read back as the key.
pub proof fn lemma_reads_key(key: ValueView, shape: ShapeView, tail: Seq<u8>, input: Seq<u8>)
    requires
        conforms(key, shape),
        key_text(key) is Some,
        skip_whitespace(input) == key_text(key)->0 + tail,
    ensures
        parse_value(shape, input) == (Ok::<ValueView, ErrorView>(key), tail),
    decreases key,
{
    let body = key_text(key)->0 + tail;
    lemma_parse_value_skips(shape, input);
    lemma_key_text_head(key);
    assert(body[0] == 0x22);
    assert(skip_whitespace(body) == body);
    match key {
        ValueView::Str(text) => {
            lemma_string_round_trip(text, tail);
        },
        ValueView::Char(c) => {
            lemma_char_round_trip(c, tail);
        },
        ValueView::Optional(Some(inner)) => {
            match shape {
                ShapeView::Optional(expected) => {
                    assert(option_head(body) == (Ok::<bool, ErrorView>(true), body));
                    lemma_reads_key(*inner, *expected, tail, body);
                },
                _ => {},
            }
        },
        _ => {},
    }
}

/// The shape of the items of a sequence of shape `shape`.
pub open spec fn item_shape(shape: ShapeView) -> ShapeView {
    match shape {
        ShapeView::Sequence(item) => *item,
        _ => shape,
    }
}

/// The shape of the keys of a map of shape `shape`.
pub open spec fn key_shape(shape: ShapeView) -> ShapeView {
    match shape {
        ShapeView::Mapping(key, _) => *key,
        _ => shape,
    }
}

/// The shape of the values of a map of shape `shape`.
pub open spec fn entry_shape(shape: ShapeView) -> ShapeView {
    match shape {
        ShapeView::Mapping(_, value) => *value,
        _ => shape,
    }
}

/// What closes an aggregate or separates its items does not continue a
/// number.
proof fn lemma_delimiter_ends_token(pad: Padding, b: u8, rest: Seq<u8>)
    requires
        pads_whitespace(pad),
        b == 0x5d || b == 0x7d || b == 0x2c || b == 0x3a,
    ensures
        ends_token(padded(pad, seq![b] + rest)),
        skip_whitespace(padded(pad, seq![b] + rest)) == seq![b] + rest,
{
    let body = seq![b] + rest;
    assert(body[0] == b);
    lemma_skip_padded(pad, body);
}

/// What stands behind an item of a sequence does not continue a number.
proof fn lemma_spell_items_ends_token(items: Seq<ValueView>, i: int, pad: Padding, tail: Seq<u8>)
    requires
        pads_whitespace(pad),
        0 < i <= items.len(),
    ensures
        ends_token(spell_items(items, i, pad, padded(pad, seq![0x5du8] + tail))),
{
    if i < items.len() {
        let close = padded(pad, seq![0x5du8] + tail);
        let item = padded(pad, spell(items[i], pad, spell_items(items, i + 1, pad, close)));
        lemma_delimiter_ends_token(pad, 0x2c, item);
    } else {
        lemma_delimiter_ends_token(pad, 0x5d, tail);
    }
}

/// What stands behind an entry of a map does not continue a number.
proof fn lemma_spell_entries_ends_token(
    entries: Seq<(ValueView, ValueView)>,
    i: int,
    pad: Padding,
    tail: Seq<u8>,
)
    requires
        pads_whitespace(pad),
        0 < i <= entries.len(),
    ensures
        ends_token(spell_entries(entries, i, pad, padded(pad, seq![0x7du8] + tail))),
{
    if i < entries.len() {
        let close = padded(pad, seq![0x7du8] + tail);
        let entry = spell_entry(entries[i], pad, spell_entries(entries, i + 1, pad, close));
        lemma_delimiter_ends_token(pad, 0x2c, entry);
    } else {
        lemma_delimiter_ends_token(pad, 0x7d, tail);
    }
}

/// An integer that was written is read back.
proof fn lemma_reads_integer(value: ValueView, shape: ShapeView, tail: Seq<u8>)
    requires
        value is Signed || value is Unsigned,
        conforms(value, shape),
        ends_token(tail),
    ensures
        parse_value(shape, render(value) + tail) == (
            Ok::<ValueView, ErrorView>(value),
            skip_whitespace(tail),
        ),
{
    let body = render(value) + tail;
    match value {
        ValueView::Signed(v) => {
            match shape {
                ShapeView::I8 => {
                    lemma_signed_round_trip(v as int, i8::MIN as int, i8::MAX as int, tail);
                },
                ShapeView::I16 => {
                    lemma_signed_round_trip(v as int, i16::MIN as int, i16::MAX as int, tail);
                },
                ShapeView::I32 => {
                    lemma_signed_round_trip(v as int, i32::MIN as int, i32::MAX as int, tail);
                },
                ShapeView::I64 => {
                    lemma_signed_round_trip(v as int, i64::MIN as int, i64::MAX as int, tail);
                },
                ShapeView::Any => {
                    lemma_number_round_trip(v as int, tail);
                    assert(body[0] == 0x2d);
                    assert(skip_whitespace(body) == body);
                },
                _ => {},
            }
        },
        ValueView::Unsigned(v) => {
            match shape {
                ShapeView::U8 => {
                    lemma_unsigned_round_trip(v as nat, u8::MAX as int, tail);
                },
                ShapeView::U16 => {
                    lemma_unsigned_round_trip(v as nat, u16::MAX as int, tail);
                },
                ShapeView::U32 => {
                    lemma_unsigned_round_trip(v as nat, u32::MAX as int, tail);
                },
                ShapeView::U64 => {
                    lemma_unsigned_round_trip(v as nat, u64::MAX as int, tail);
                },
                ShapeView::Any => {
                    lemma_number_round_trip(v as int, tail);
                    lemma_decimal_digits(v as nat);
                    assert(body[0] == decimal_digits(v as nat)[0]);
                    assert(is_digit(body[0]));
                    assert(skip_whitespace(body) == body);
                },
                _ => {},
            }
        },
        _ => {},
    }
}

/// A literal or a string that was written is read back.
proof fn lemma_reads_word(value: ValueView, shape: ShapeView, tail: Seq<u8>)
    requires
        value is Unit || value is Bool || value is Char || value is Str || value
            == ValueView::Optional(None) || (value matches ValueView::Variant(_, payload)
            && payload is None),
        conforms(value, shape),
    ensures
        parse_value(shape, render(value) + tail) == (Ok::<ValueView, ErrorView>(value), tail),
{
    let body = render(value) + tail;
    match value {
        ValueView::Unit => {
            lemma_null_round_trip(tail);
            assert(body[0] == 0x6e);
            assert(skip_whitespace(body) == body);
        },
        ValueView::Bool(v) => {
            lemma_bool_round_trip(v, tail);
            assert(body[0] == 0x74 || body[0] == 0x66);
            assert(skip_whitespace(body) == body);
        },
        ValueView::Char(c) => {
            lemma_char_round_trip(c, tail);
        },
        ValueView::Str(text) => {
            lemma_string_round_trip(text, tail);
            assert(body[0] == 0x22);
            assert(skip_whitespace(body) == body);
        },
        ValueView::Optional(None) => {
            lemma_null_round_trip(tail);
            assert(body[0] == 0x6e);
            assert(skip_whitespace(body) == body);
            assert(body.subrange(0, 4) =~= null_text());
            assert(body.subrange(4, body.len() as int) =~= tail);
        },
        ValueView::Variant(name, None) => {
            lemma_string_round_trip(name, tail);
            assert(body[0] == 0x22);
            assert(skip_whitespace(body) == body);
            match shape {
                ShapeView::Enum(variants) => {
                    lemma_find_variant(variants, name, 0);
                },
                _ => {},
            }
        },
        _ => {},
    }
}

/// A variant with a payload is read back, where its payload is.
proof fn lemma_reads_variant(
    name: Seq<char>,
    payload: ValueView,
    variants: Seq<(Seq<char>, Option<ShapeView>)>,
    pad: Padding,
    tail: Seq<u8>,
    after: Seq<u8>,
)
    requires
        reads_back(name),
        find_variant(variants, name, 0) matches Some(i) && variants[i].1 is Some,
        pads_whitespace(pad),
        ({
            let expected = variants[find_variant(variants, name, 0)->0].1->0;
            let close = padded(pad, seq![0x7du8] + tail);
            let at_payload = padded(pad, spell(payload, pad, close));
            &&& parse_value(expected, at_payload).0 == Ok::<ValueView, ErrorView>(payload)
            &&& parse_value(expected, at_payload).1 == after
            &&& skip_whitespace(after) == skip_whitespace(close)
        }),
    ensures
        parse_value(
            ShapeView::Enum(variants),
            spell(ValueView::Variant(name, Some(Box::new(payload))), pad, tail),
        ) == (
            Ok::<ValueView, ErrorView>(ValueView::Variant(name, Some(Box::new(payload)))),
            tail,
        ),
{
    let value = ValueView::Variant(name, Some(Box::new(payload)));
    let body = spell(value, pad, tail);
    lemma_find_variant(variants, name, 0);
    let i = find_variant(variants, name, 0)->0;
    let expected = variants[i].1->0;
    let close = padded(pad, seq![0x7du8] + tail);
    let at_payload = padded(pad, spell(payload, pad, close));
    let at_colon = padded(pad, seq![0x3au8] + at_payload);
    let at_name = padded(pad, quoted(name) + at_colon);
    assert(body[0] == 0x7b);
    assert(skip_whitespace(body) == body);
    assert(body.drop_first() =~= at_name);
    // the name
    assert((quoted(name) + at_colon)[0] == 0x22);
    lemma_skip_padded(pad, quoted(name) + at_colon);
    lemma_tokens_skip(at_name);
    lemma_string_round_trip(name, at_colon);
    assert(crate::grammar::string_literal(at_name) == (
        Ok::<Seq<char>, ErrorView>(name),
        at_colon,
    ));
    assert(enum_head(body) == (
        Ok::<crate::grammar::EnumHeadView, ErrorView>(crate::grammar::EnumHeadView::Tagged(name)),
        at_colon,
    ));
    // the colon
    lemma_delimiter_ends_token(pad, 0x3a, at_payload);
    lemma_tokens_skip(at_colon);
    assert(0x3au8 as char == ':');
    assert((seq![0x3au8] + at_payload).drop_first() =~= at_payload);
    assert(expect_byte(at_colon, ':') == (Ok::<(), ErrorView>(()), at_payload));
    // the closing brace
    lemma_delimiter_ends_token(pad, 0x7d, tail);
    lemma_tokens_skip(after);
    assert(0x7du8 as char == '}');
    assert((seq![0x7du8] + tail).drop_first() =~= tail);
    assert(enum_end(after) == (Ok::<(), ErrorView>(()), tail));
}

/// A value that is spelled with any whitespace between its tokens is read
/// as that value, and reading stops where the value ends.
pub proof fn lemma_reads(
    value: ValueView,
    shape: ShapeView,
    pad: Padding,
    tail: Seq<u8>,
    input: Seq<u8>,
)
    requires
        conforms(value, shape),
        pads_whitespace(pad),
        ends_token(tail),
        skip_whitespace(input) == skip_whitespace(spell(value, pad, tail)),
    ensures
        parse_value(shape, input).0 == Ok::<ValueView, ErrorView>(value),
        skip_whitespace(parse_value(shape, input).1) == skip_whitespace(tail),
    decreases value, 1int,
{
    let body = spell(value, pad, tail);
    lemma_spell_head(value, shape, pad, tail);
    assert(skip_whitespace(body) == body);
    lemma_parse_value_skips(shape, input);
    assert(parse_value(shape, input) == parse_value(shape, body));
    lemma_skip_whitespace(tail);
    match value {
        ValueView::Signed(_) => {
            lemma_reads_integer(value, shape, tail);
        },
        ValueView::Unsigned(_) => {
            lemma_reads_integer(value, shape, tail);
        },
        ValueView::Float(text) => {
            if shape is Any {
                lemma_float_any_round_trip(text, tail);
            } else {
                lemma_float_round_trip(text, tail);
            }
        },
        ValueView::Bytes(bytes) => {
            let close = padded(pad, seq![0x5du8] + tail);
            let items = padded(
                pad,
                decimal_digits(bytes[0] as nat) + spell_bytes(bytes, 1, pad, close),
            );
            assert(body.drop_first() =~= items);
            lemma_reads_bytes(bytes, 0, pad, tail, items);
            assert(0x5bu8 as char == '[');
            assert(body[0] == 0x5b);
            assert(bytes.skip(0) =~= bytes);
        },
        ValueView::Optional(Some(inner)) => {
            match shape {
                ShapeView::Optional(expected) => {
                    assert(option_head(body) == (Ok::<bool, ErrorView>(true), body));
                    lemma_reads(*inner, *expected, pad, tail, body);
                },
                _ => {},
            }
        },
        ValueView::Sequence(items) => {
            let close = padded(pad, seq![0x5du8] + tail);
            assert(0x5bu8 as char == '[');
            assert(body[0] == 0x5b);
            assert(body.drop_first() =~= spell_items(items, 0, pad, close));
            if shape is Tuple {
                lemma_reads_tuple(items, 0, shape, pad, tail, body.drop_first());
            } else {
                lemma_reads_items(items, 0, shape, pad, tail, body.drop_first());
            }
            assert(items.skip(0) =~= items);
        },
        ValueView::Mapping(entries) => {
            let close = padded(pad, seq![0x7du8] + tail);
            assert(0x7bu8 as char == '{');
            assert(body[0] == 0x7b);
            assert(body.drop_first() =~= spell_entries(entries, 0, pad, close));
            if shape is Struct {
                lemma_reads_fields(entries, 0, shape, pad, tail, body.drop_first());
            } else {
                lemma_reads_entries(entries, 0, shape, pad, tail, body.drop_first());
            }
            assert(entries.skip(0) =~= entries);
        },
        ValueView::Variant(name, Some(payload)) => {
            match shape {
                ShapeView::Enum(variants) => {
                    lemma_find_variant(variants, name, 0);
                    let i = find_variant(variants, name, 0)->0;
                    let expected = variants[i].1->0;
                    let close = padded(pad, seq![0x7du8] + tail);
                    let at_payload = padded(pad, spell(*payload, pad, close));
                    lemma_delimiter_ends_token(pad, 0x7d, tail);
                    lemma_skip_padded(pad, spell(*payload, pad, close));
                    lemma_reads(*payload, expected, pad, close, at_payload);
                    lemma_reads_variant(
                        name,
                        *payload,
                        variants,
                        pad,
                        tail,
                        parse_value(expected, at_payload).1,
                    );
                },
                _ => {},
            }
        },
        _ => {
            lemma_reads_word(value, shape, tail);
        },
    }
}

/// The items of a byte buffer, spelled with any whitespace between the
/// tokens, are read as those items.
pub proof fn lemma_reads_bytes(bytes: Seq<u8>, i: int, pad: Padding, tail: Seq<u8>, input: Seq<u8>)
    requires
        0 <= i < bytes.len(),
        pads_whitespace(pad),
        skip_whitespace(input) == skip_whitespace(
            padded(
                pad,
                decimal_digits(bytes[i] as nat) + spell_bytes(
                    bytes,
                    i + 1,
                    pad,
                    padded(pad, seq![0x5du8] + tail),
                ),
            ),
        ),
    ensures
        crate::grammar::byte_items(input) == (Ok::<Seq<u8>, ErrorView>(bytes.skip(i)), tail),
    decreases bytes.len() - i,
{
    let close = padded(pad, seq![0x5du8] + tail);
    let behind = spell_bytes(bytes, i + 1, pad, close);
    let digits = decimal_digits(bytes[i] as nat);
    lemma_decimal_digits(bytes[i] as nat);
    assert((digits + behind)[0] == digits[0]);
    assert(is_digit(digits[0]));
    lemma_skip_padded(pad, digits + behind);
    lemma_tokens_skip(input);
    assert(crate::grammar::unsigned_integer(input, u8::MAX as int)
        == crate::grammar::unsigned_integer(digits + behind, u8::MAX as int));
    if i + 1 < bytes.len() {
        let next = padded(
            pad,
            decimal_digits(bytes[i + 1] as nat) + spell_bytes(bytes, i + 2, pad, close),
        );
        assert(behind == padded(pad, seq![0x2cu8] + next));
        lemma_delimiter_ends_token(pad, 0x2c, next);
        lemma_unsigned_round_trip(bytes[i] as nat, u8::MAX as int, behind);
        assert((seq![0x2cu8] + next).drop_first() =~= next);
        lemma_reads_bytes(bytes, i + 1, pad, tail, next);
        assert(seq![bytes[i]] + bytes.skip(i + 1) =~= bytes.skip(i));
        lemma_skip_whitespace(seq![0x2cu8] + next);
    } else {
        assert(behind == close);
        lemma_delimiter_ends_token(pad, 0x5d, tail);
        lemma_unsigned_round_trip(bytes[i] as nat, u8::MAX as int, behind);
        assert((seq![0x5du8] + tail).drop_first() =~= tail);
        assert(seq![bytes[i]] =~= bytes.skip(i));
        lemma_skip_whitespace(seq![0x5du8] + tail);
    }
}

/// A pull on an aggregate in front of an item says that an item follows,
/// and stops in front of the item.
proof fn lemma_pull_item(pad: Padding, body: Seq<u8>, first: bool, close: u8, input: Seq<u8>)
    requires
        pads_whitespace(pad),
        body.len() > 0,
        opens_value(body[0]),
        close == 0x5d || close == 0x7d,
        skip_whitespace(input) == skip_whitespace(
            if first {
                padded(pad, body)
            } else {
                padded(pad, seq![0x2cu8] + padded(pad, body))
            },
        ),
    ensures
        element_step(input, first, close).0 == Ok::<bool, ErrorView>(true),
        skip_whitespace(element_step(input, first, close).1) == body,
{
    lemma_skip_whitespace(input);
    lemma_skip_padded(pad, body);
    if !first {
        let behind = padded(pad, body);
        lemma_delimiter_ends_token(pad, 0x2c, behind);
        assert((seq![0x2cu8] + behind).drop_first() =~= behind);
    }
}

/// A pull on an aggregate in front of its closing delimiter says that the
/// aggregate is over, and stops behind the delimiter.
proof fn lemma_pull_end(pad: Padding, first: bool, close: u8, tail: Seq<u8>, input: Seq<u8>)
    requires
        pads_whitespace(pad),
        close == 0x5d || close == 0x7d,
        skip_whitespace(input) == skip_whitespace(padded(pad, seq![close] + tail)),
    ensures
        element_step(input, first, close) == (Ok::<bool, ErrorView>(false), tail),
{
    lemma_skip_whitespace(input);
    lemma_delimiter_ends_token(pad, close, tail);
    assert((seq![close] + tail).drop_first() =~= tail);
}

/// A colon behind padding is read, and reading stops behind it.
proof fn lemma_colon(pad: Padding, rest: Seq<u8>, input: Seq<u8>)
    requires
        pads_whitespace(pad),
        skip_whitespace(input) == skip_whitespace(padded(pad, seq![0x3au8] + rest)),
    ensures
        expect_byte(input, ':') == (Ok::<(), ErrorView>(()), rest),
{
    lemma_skip_whitespace(input);
    lemma_delimiter_ends_token(pad, 0x3a, rest);
    assert(0x3au8 as char == ':');
    assert((seq![0x3au8] + rest).drop_first() =~= rest);
}

/// The items of a sequence, spelled with any whitespace between the
/// tokens, are read as those items.
pub proof fn lemma_reads_items(
    items: Seq<ValueView>,
    i: int,
    shape: ShapeView,
    pad: Padding,
    tail: Seq<u8>,
    input: Seq<u8>,
)
    requires
        shape is Sequence || shape is Any,
        0 <= i <= items.len(),
        conforms_items(items, item_shape(shape), i),
        pads_whitespace(pad),
        skip_whitespace(input) == skip_whitespace(
            spell_items(items, i, pad, padded(pad, seq![0x5du8] + tail)),
        ),
    ensures
        parse_items(shape, input, i == 0) == (
            Ok::<Seq<ValueView>, ErrorView>(items.skip(i)),
            tail,
        ),
    decreases items, items.len() - i,
{
    let close = padded(pad, seq![0x5du8] + tail);
    if i == items.len() {
        lemma_pull_end(pad, i == 0, 0x5d, tail, input);
        assert(items.skip(i) =~= Seq::<ValueView>::empty());
    } else {
        let behind = spell_items(items, i + 1, pad, close);
        let item = spell(items[i], pad, behind);
        lemma_spell_head(items[i], item_shape(shape), pad, behind);
        lemma_pull_item(pad, item, i == 0, 0x5d, input);
        let at_item = element_step(input, i == 0, 0x5d).1;
        lemma_skip_whitespace(item);
        lemma_spell_items_ends_token(items, i + 1, pad, tail);
        lemma_reads(items[i], item_shape(shape), pad, behind, at_item);
        let after = parse_value(item_shape(shape), at_item).1;
        lemma_parse_value_rest(item_shape(shape), at_item);
        lemma_reads_items(items, i + 1, shape, pad, tail, after);
        assert(seq![items[i]] + items.skip(i + 1) =~= items.skip(i));
    }
}

/// The items of a tuple, spelled with any whitespace between the tokens,
/// are read as those items.
pub proof fn lemma_reads_tuple(
    items: Seq<ValueView>,
    i: int,
    shape: ShapeView,
    pad: Padding,
    tail: Seq<u8>,
    input: Seq<u8>,
)
    requires
        shape is Tuple,
        items.len() == shape->Tuple_0.len(),
        0 <= i <= items.len(),
        conforms_tuple(items, shape->Tuple_0, i),
        pads_whitespace(pad),
        skip_whitespace(input) == skip_whitespace(
            spell_items(items, i, pad, padded(pad, seq![0x5du8] + tail)),
        ),
    ensures
        parse_tuple(shape, i, input) == (Ok::<Seq<ValueView>, ErrorView>(items.skip(i)), tail),
    decreases items, items.len() - i,
{
    let shapes = shape->Tuple_0;
    let close = padded(pad, seq![0x5du8] + tail);
    if i == items.len() {
        lemma_pull_end(pad, i == 0, 0x5d, tail, input);
        assert(items.skip(i) =~= Seq::<ValueView>::empty());
    } else {
        let behind = spell_items(items, i + 1, pad, close);
        let item = spell(items[i], pad, behind);
        lemma_spell_head(items[i], shapes[i], pad, behind);
        lemma_pull_item(pad, item, i == 0, 0x5d, input);
        let at_item = element_step(input, i == 0, 0x5d).1;
        lemma_skip_whitespace(item);
        lemma_spell_items_ends_token(items, i + 1, pad, tail);
        lemma_reads(items[i], shapes[i], pad, behind, at_item);
        let after = parse_value(shapes[i], at_item).1;
        lemma_parse_value_rest(shapes[i], at_item);
        lemma_reads_tuple(items, i + 1, shape, pad, tail, after);
        assert(seq![items[i]] + items.skip(i + 1) =~= items.skip(i));
    }
}

/// The entries of a struct, spelled with any whitespace between the
/// tokens, are read as those entries.
pub proof fn lemma_reads_fields(
    entries: Seq<(ValueView, ValueView)>,
    i: int,
    shape: ShapeView,
    pad: Padding,
    tail: Seq<u8>,
    input: Seq<u8>,
)
    requires
        shape is Struct,
        0 <= i <= entries.len(),
        conforms_fields(entries, shape->Struct_0, i),
        pads_whitespace(pad),
        skip_whitespace(input) == skip_whitespace(
            spell_entries(entries, i, pad, padded(pad, seq![0x7du8] + tail)),
        ),
    ensures
        parse_fields(shape, input, i == 0) == (
            Ok::<Seq<(ValueView, ValueView)>, ErrorView>(entries.skip(i)),
            tail,
        ),
    decreases entries, entries.len() - i,
{
    let fields = shape->Struct_0;
    let close = padded(pad, seq![0x7du8] + tail);
    if i == entries.len() {
        lemma_pull_end(pad, i == 0, 0x7d, tail, input);
        assert(entries.skip(i) =~= Seq::<(ValueView, ValueView)>::empty());
    } else {
        let name = entries[i].0->Str_0;
        let j = find_field(fields, name, 0)->0;
        let behind = spell_entries(entries, i + 1, pad, close);
        let value = spell(entries[i].1, pad, behind);
        let at_value = padded(pad, value);
        let at_colon = padded(pad, seq![0x3au8] + at_value);
        let entry = quoted(name) + at_colon;
        assert(spell_entry(entries[i], pad, behind) == padded(pad, entry));
        // the pull
        assert(entry[0] == 0x22);
        lemma_pull_item(pad, entry, i == 0, 0x7d, input);
        let at_key = element_step(input, i == 0, 0x7d).1;
        // the key
        lemma_tokens_skip(at_key);
        lemma_string_round_trip(name, at_colon);
        assert(crate::grammar::string_literal(at_key) == (
            Ok::<Seq<char>, ErrorView>(name),
            at_colon,
        ));
        // the colon
        lemma_colon(pad, at_value, at_colon);
        // the value
        lemma_spell_entries_ends_token(entries, i + 1, pad, tail);
        lemma_skip_padded(pad, value);
        lemma_reads(entries[i].1, fields[j].1, pad, behind, at_value);
        let after = parse_value(fields[j].1, at_value).1;
        lemma_parse_value_rest(fields[j].1, at_value);
        // the entries behind
        lemma_reads_fields(entries, i + 1, shape, pad, tail, after);
        assert(seq![entries[i]] + entries.skip(i + 1) =~= entries.skip(i));
    }
}

/// The entries of a map, spelled with any whitespace between the tokens,
/// are read as those entries.
pub proof fn lemma_reads_entries(
    entries: Seq<(ValueView, ValueView)>,
    i: int,
    shape: ShapeView,
    pad: Padding,
    tail: Seq<u8>,
    input: Seq<u8>,
)
    requires
        shape is Mapping || shape is Any,
        0 <= i <= entries.len(),
        conforms_entries(entries, key_shape(shape), entry_shape(shape), i),
        pads_whitespace(pad),
        skip_whitespace(input) == skip_whitespace(
            spell_entries(entries, i, pad, padded(pad, seq![0x7du8] + tail)),
        ),
    ensures
        parse_entries(shape, input, i == 0) == (
            Ok::<Seq<(ValueView, ValueView)>, ErrorView>(entries.skip(i)),
            tail,
        ),
    decreases entries, entries.len() - i,
{
    let close = padded(pad, seq![0x7du8] + tail);
    if i == entries.len() {
        lemma_pull_end(pad, i == 0, 0x7d, tail, input);
        assert(entries.skip(i) =~= Seq::<(ValueView, ValueView)>::empty());
    } else {
        let behind = spell_entries(entries, i + 1, pad, close);
        let key = key_text(entries[i].0)->0;
        let value = spell(entries[i].1, pad, behind);
        let at_value = padded(pad, value);
        let at_colon = padded(pad, seq![0x3au8] + at_value);
        let entry = key + at_colon;
        assert(spell_entry(entries[i], pad, behind) == padded(pad, entry));
        // the pull
        lemma_key_text_head(entries[i].0);
        assert(entry[0] == 0x22);
        lemma_pull_item(pad, entry, i == 0, 0x7d, input);
        let at_key = element_step(input, i == 0, 0x7d).1;
        // the key
        lemma_reads_key(entries[i].0, key_shape(shape), at_colon, at_key);
        lemma_parse_value_rest(key_shape(shape), at_key);
        // the colon
        lemma_colon(pad, at_value, at_colon);
        // the value
        lemma_spell_entries_ends_token(entries, i + 1, pad, tail);
        lemma_skip_padded(pad, value);
        lemma_reads(entries[i].1, entry_shape(shape), pad, behind, at_value);
        let after = parse_value(entry_shape(shape), at_value).1;
        lemma_parse_value_rest(entry_shape(shape), at_value);
        // the entries behind
        lemma_reads_entries(entries, i + 1, shape, pad, tail, after);
        assert(seq![entries[i]] + entries.skip(i + 1) =~= entries.skip(i));
    }
}

/// Nothing is put in front of a body where there is no padding.
proof fn lemma_no_padding(body: Seq<u8>)
    ensures
        padded(no_padding(), body) == body,
{
    assert(no_padding()(body) + body =~= body);
}

/// Without padding a spelling is the bytes that are written.
#[verifier::rlimit(30)]
pub proof fn lemma_spell_plain(value: ValueView, tail: Seq<u8>)
    ensures
        spell(value, no_padding(), tail) == render(value) + tail,
    decreases value, 1int,
{
    let pad = no_padding();
    match value {
        ValueView::Optional(Some(inner)) => {
            lemma_spell_plain(*inner, tail);
        },
        ValueView::Bytes(bytes) => {
            let close = seq![0x5du8] + tail;
            lemma_no_padding(close);
            lemma_spell_bytes_plain(bytes, 0, close);
            assert(seq![0x5bu8] + (byte_items_text(bytes, 0) + close) =~= byte_buffer_text(bytes)
                + tail);
        },
        ValueView::Sequence(items) => {
            let close = seq![0x5du8] + tail;
            lemma_no_padding(close);
            lemma_spell_items_plain(items, 0, close);
            assert(seq![0x5bu8] + (render_items(items, 0) + close) =~= render(value) + tail);
        },
        ValueView::Mapping(entries) => {
            let close = seq![0x7du8] + tail;
            lemma_no_padding(close);
            lemma_spell_entries_plain(entries, 0, close);
            assert(seq![0x7bu8] + (render_entries(entries, 0) + close) =~= render(value) + tail);
        },
        ValueView::Variant(name, Some(payload)) => {
            let close = seq![0x7du8] + tail;
            lemma_no_padding(close);
            lemma_spell_plain(*payload, close);
            let at_payload = render(*payload) + close;
            lemma_no_padding(at_payload);
            let at_colon = seq![0x3au8] + at_payload;
            lemma_no_padding(at_colon);
            let at_name = quoted(name) + at_colon;
            lemma_no_padding(at_name);
            assert(spell(value, pad, tail) == seq![0x7bu8] + at_name);
            assert(seq![0x7bu8] + at_name =~= render(value) + tail);
        },
        _ => {},
    }
}

/// Without padding the items of a byte buffer are spelled as they are
/// written.
proof fn lemma_spell_bytes_plain(bytes: Seq<u8>, i: int, tail: Seq<u8>)
    requires
        0 <= i,
    ensures
        spell_bytes(bytes, i, no_padding(), tail) == byte_items_text(bytes, i) + tail,
    decreases bytes.len() - i,
{
    let pad = no_padding();
    if i < bytes.len() {
        lemma_spell_bytes_plain(bytes, i + 1, tail);
        let behind = byte_items_text(bytes, i + 1) + tail;
        let item = decimal_digits(bytes[i] as nat) + behind;
        lemma_no_padding(item);
        lemma_no_padding(seq![0x2cu8] + item);
        if i == 0 {
            assert(item =~= byte_items_text(bytes, i) + tail);
        } else {
            assert(seq![0x2cu8] + item =~= byte_items_text(bytes, i) + tail);
        }
    } else {
        assert(tail =~= byte_items_text(bytes, i) + tail);
    }
}

/// Without padding the items of a sequence are spelled as they are
/// written.
proof fn lemma_spell_items_plain(items: Seq<ValueView>, i: int, tail: Seq<u8>)
    requires
        0 <= i,
    ensures
        spell_items(items, i, no_padding(), tail) == render_items(items, i) + tail,
    decreases items, items.len() - i,
{
    let pad = no_padding();
    if i < items.len() {
        lemma_spell_items_plain(items, i + 1, tail);
        let behind = render_items(items, i + 1) + tail;
        lemma_spell_plain(items[i], behind);
        let item = render(items[i]) + behind;
        lemma_no_padding(item);
        lemma_no_padding(seq![0x2cu8] + item);
        if i == 0 {
            assert(item =~= render_items(items, i) + tail);
        } else {
            assert(seq![0x2cu8] + item =~= render_items(items, i) + tail);
        }
    } else {
        assert(tail =~= render_items(items, i) + tail);
    }
}

/// Without padding the entries of a map are spelled as they are written.
#[verifier::rlimit(30)]
proof fn lemma_spell_entries_plain(entries: Seq<(ValueView, ValueView)>, i: int, tail: Seq<u8>)
    requires
        0 <= i,
    ensures
        spell_entries(entries, i, no_padding(), tail) == render_entries(entries, i) + tail,
    decreases entries, entries.len() - i,
{
    let pad = no_padding();
    if i < entries.len() {
        let behind = render_entries(entries, i + 1) + tail;
        lemma_spell_entries_plain(entries, i + 1, tail);
        lemma_spell_plain(entries[i].1, behind);
        let key = match key_text(entries[i].0) {
            Some(text) => text,
            None => Seq::empty(),
        };
        let at_value = render(entries[i].1) + behind;
        lemma_no_padding(at_value);
        let at_colon = seq![0x3au8] + at_value;
        lemma_no_padding(at_colon);
        let entry = key + at_colon;
        lemma_no_padding(entry);
        assert(spell_entry(entries[i], pad, behind) == entry);
        assert(entry =~= render_entry(entries[i]) + behind);
        lemma_no_padding(seq![0x2cu8] + entry);
        if i == 0 {
            assert(entry =~= render_entries(entries, i) + tail);
        } else {
            assert(seq![0x2cu8] + entry =~= render_entries(entries, i) + tail);
        }
    } else {
        assert(tail =~= render_entries(entries, i) + tail);
    }
}

/// A value that is read back can be written.
pub proof fn lemma_conforms_renderable(value: ValueView, shape: ShapeView)
    requires
        conforms(value, shape),
    ensures
        renderable(value),
    decreases value, 1int,
{
    match value {
        ValueView::Optional(Some(inner)) => {
            match shape {
                ShapeView::Optional(expected) => {
                    lemma_conforms_renderable(*inner, *expected);
                },
                _ => {},
            }
        },
        ValueView::Sequence(items) => {
            match shape {
                ShapeView::Sequence(item) => {
                    lemma_conforms_renderable_items(items, *item, 0);
                },
                ShapeView::Any => {
                    lemma_conforms_renderable_items(items, shape, 0);
                },
                ShapeView::Tuple(shapes) => {
                    lemma_conforms_renderable_tuple(items, shapes, 0);
                },
                _ => {},
            }
        },
        ValueView::Mapping(entries) => {
            match shape {
                ShapeView::Mapping(key, entry) => {
                    lemma_conforms_renderable_entries(entries, *key, *entry, 0);
                },
                ShapeView::Any => {
                    lemma_conforms_renderable_entries(entries, shape, shape, 0);
                },
                ShapeView::Struct(fields) => {
                    lemma_conforms_renderable_fields(entries, fields, 0);
                },
                _ => {},
            }
        },
        ValueView::Variant(name, Some(payload)) => {
            match shape {
                ShapeView::Enum(variants) => {
                    lemma_find_variant(variants, name, 0);
                    let i = find_variant(variants, name, 0)->0;
                    lemma_conforms_renderable(*payload, variants[i].1->0);
                },
                _ => {},
            }
        },
        _ => {},
    }
}

/// Items that are read back can be written.
proof fn lemma_conforms_renderable_items(items: Seq<ValueView>, shape: ShapeView, i: int)
    requires
        0 <= i,
        conforms_items(items, shape, i),
    ensures
        renderable_items(items, i),
    decreases items, items.len() - i,
{
    if i < items.len() {
        lemma_conforms_renderable(items[i], shape);
        lemma_conforms_renderable_items(items, shape, i + 1);
    }
}

/// The items of a tuple that are read back can be written.
proof fn lemma_conforms_renderable_tuple(items: Seq<ValueView>, shapes: Seq<ShapeView>, i: int)
    requires
        0 <= i,
        conforms_tuple(items, shapes, i),
    ensures
        renderable_items(items, i),
    decreases items, items.len() - i,
{
    if i < items.len() {
        lemma_conforms_renderable(items[i], shapes[i]);
        lemma_conforms_renderable_tuple(items, shapes, i + 1);
    }
}

/// The entries of a struct that are read back can be written.
proof fn lemma_conforms_renderable_fields(
    entries: Seq<(ValueView, ValueView)>,
    fields: Seq<(Seq<char>, ShapeView)>,
    i: int,
)
    requires
        0 <= i,
        conforms_fields(entries, fields, i),
    ensures
        renderable_entries(entries, i),
    decreases entries, entries.len() - i,
{
    if i < entries.len() {
        let name = entries[i].0->Str_0;
        let j = find_field(fields, name, 0)->0;
        lemma_conforms_renderable(entries[i].1, fields[j].1);
        lemma_conforms_renderable_fields(entries, fields, i + 1);
    }
}

/// Entries that are read back can be written.
proof fn lemma_conforms_renderable_entries(
    entries: Seq<(ValueView, ValueView)>,
    key: ShapeView,
    value: ShapeView,
    i: int,
)
    requires
        0 <= i,
        conforms_entries(entries, key, value, i),
    ensures
        renderable_entries(entries, i),
    decreases entries, entries.len() - i,
{
    if i < entries.len() {
        lemma_conforms_renderable(entries[i].1, value);
        lemma_conforms_renderable_entries(entries, key, value, i + 1);
    }
}

} // verus!
