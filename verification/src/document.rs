//! Whole documents: the bytes that a value is written as, and the value that
//! a shape reads from bytes.

use vstd::prelude::*;
use vstd::utf8::{encode_utf8, encode_utf8_valid_utf8, valid_utf8, valid_utf8_concat};
use crate::error::{eof, ErrorView};
use crate::grammar::{
    any_token, bool_literal, byte_buffer, char_literal, element_step, enum_end, enum_head,
    EnumHeadView, expect_byte, float_text, lemma_byte_items_rest, lemma_rest_bounds,
    lemma_skip_whitespace, null_literal, NumberView, option_head, signed_integer,
    skip_whitespace, string_literal, TokenView, unsigned_integer,
};
use crate::number::{decimal_digits, lemma_decimal_digits, signed_decimal};
use crate::parse::escape_text;
use crate::render::{
    bool_text, byte_buffer_text, byte_items_text, null_text, quoted, separator, variant_head,
};
use crate::text::{is_ascii_bytes, lemma_ascii_valid_utf8, lemma_valid_utf8_concat3};
use crate::value::{ShapeView, ValueView};

verus! {

/// How a key is written: a text or a character as a string, and a present
/// optional as what it holds. No other value can be a key.
pub open spec fn key_text(key: ValueView) -> Option<Seq<u8>>
    decreases key,
{
    match key {
        ValueView::Str(text) => Some(quoted(text)),
        ValueView::Char(c) => Some(quoted(seq![c])),
        ValueView::Optional(Some(inner)) => key_text(*inner),
        _ => None,
    }
}

/// True when every key of every map in `value` can be written as a key.
pub open spec fn renderable(value: ValueView) -> bool
    decreases value, 0int,
{
    match value {
        ValueView::Optional(Some(inner)) => renderable(*inner),
        ValueView::Sequence(items) => renderable_items(items, 0),
        ValueView::Mapping(entries) => renderable_entries(entries, 0),
        ValueView::Variant(_, Some(payload)) => renderable(*payload),
        _ => true,
    }
}

/// True when the items from the `i`-th on can be written.
pub open spec fn renderable_items(items: Seq<ValueView>, i: int) -> bool
    decreases items, items.len() - i,
{
    if i < 0 || i >= items.len() {
        true
    } else {
        renderable(items[i]) && renderable_items(items, i + 1)
    }
}

/// True when the entries from the `i`-th on can be written: each key as a
/// key, each value as a value.
pub open spec fn renderable_entries(entries: Seq<(ValueView, ValueView)>, i: int) -> bool
    decreases entries, entries.len() - i,
{
    if i < 0 || i >= entries.len() {
        true
    } else {
        key_text(entries[i].0) is Some && renderable(entries[i].1) && renderable_entries(
            entries,
            i + 1,
        )
    }
}

/// The bytes that `value` is written as. No whitespace is put between
/// tokens.
pub open spec fn render(value: ValueView) -> Seq<u8>
    decreases value, 0int,
{
    match value {
        ValueView::Unit => null_text(),
        ValueView::Bool(v) => bool_text(v),
        ValueView::Signed(v) => signed_decimal(v as int),
        ValueView::Unsigned(v) => decimal_digits(v as nat),
        ValueView::Float(text) => encode_utf8(text),
        ValueView::Char(c) => quoted(seq![c]),
        ValueView::Str(text) => quoted(text),
        ValueView::Bytes(bytes) => byte_buffer_text(bytes),
        ValueView::Optional(None) => null_text(),
        ValueView::Optional(Some(inner)) => render(*inner),
        ValueView::Sequence(items) => seq![0x5bu8] + render_items(items, 0) + seq![0x5du8],
        ValueView::Mapping(entries) => seq![0x7bu8] + render_entries(entries, 0) + seq![0x7du8],
        ValueView::Variant(name, None) => quoted(name),
        ValueView::Variant(name, Some(payload)) => variant_head(name) + render(*payload) + seq![
            0x7du8,
        ],
    }
}

/// The items of a sequence from the `i`-th on, with a comma before every
/// item but the one that comes first of all.
pub open spec fn render_items(items: Seq<ValueView>, i: int) -> Seq<u8>
    decreases items, items.len() - i,
{
    if i < 0 || i >= items.len() {
        Seq::empty()
    } else {
        separator(i == 0) + render(items[i]) + render_items(items, i + 1)
    }
}

/// The entries of a map from the `i`-th on, each a key, a colon and a
/// value, with a comma before every entry but the one that comes first of
/// all.
pub open spec fn render_entries(entries: Seq<(ValueView, ValueView)>, i: int) -> Seq<u8>
    decreases entries, entries.len() - i,
{
    if i < 0 || i >= entries.len() {
        Seq::empty()
    } else {
        separator(i == 0) + render_entry(entries[i]) + render_entries(entries, i + 1)
    }
}

/// One entry of a map: the key, a colon, the value.
pub open spec fn render_entry(entry: (ValueView, ValueView)) -> Seq<u8>
    decreases entry, 0int,
{
    (match key_text(entry.0) {
        Some(text) => text,
        None => Seq::empty(),
    }) + seq![0x3au8] + render(entry.1)
}

/// The place of the first variant from `from` on that is named `name`.
pub open spec fn find_variant(
    variants: Seq<(Seq<char>, Option<ShapeView>)>,
    name: Seq<char>,
    from: int,
) -> Option<int>
    decreases variants.len() - from,
{
    if from < 0 || from >= variants.len() {
        None
    } else if variants[from].0 == name {
        Some(from)
    } else {
        find_variant(variants, name, from + 1)
    }
}

/// A variant that is found lies among the variants and has the name asked
/// for.
pub proof fn lemma_find_variant(
    variants: Seq<(Seq<char>, Option<ShapeView>)>,
    name: Seq<char>,
    from: int,
)
    requires
        0 <= from,
    ensures
        find_variant(variants, name, from) matches Some(i) ==> from <= i < variants.len()
            && variants[i].0 == name,
    decreases variants.len() - from,
{
    if from < variants.len() && variants[from].0 != name {
        lemma_find_variant(variants, name, from + 1);
    }
}

/// The place of the first field from `from` on that is named `name`.
pub open spec fn find_field(fields: Seq<(Seq<char>, ShapeView)>, name: Seq<char>, from: int) -> Option<
    int,
>
    decreases fields.len() - from,
{
    if from < 0 || from >= fields.len() {
        None
    } else if fields[from].0 == name {
        Some(from)
    } else {
        find_field(fields, name, from + 1)
    }
}

/// A field that is found lies among the fields and has the name asked for.
pub proof fn lemma_find_field(fields: Seq<(Seq<char>, ShapeView)>, name: Seq<char>, from: int)
    requires
        0 <= from,
    ensures
        find_field(fields, name, from) matches Some(i) ==> from <= i < fields.len() && fields[i].0
            == name,
    decreases fields.len() - from,
{
    if from < fields.len() && fields[from].0 != name {
        lemma_find_field(fields, name, from + 1);
    }
}

/// The failure of a tuple that has more items than shapes, or fewer.
pub open spec fn invalid_length() -> ErrorView {
    ErrorView::Message("invalid length"@)
}

/// The failure of a key that no field of the struct is named by.
pub open spec fn unknown_field() -> ErrorView {
    ErrorView::Message("unknown field"@)
}

/// The failure of a name that no variant of the union has.
pub open spec fn unknown_variant() -> ErrorView {
    ErrorView::Message("unknown variant"@)
}

/// The failure of a bare string that names a variant with a payload.
pub open spec fn missing_payload() -> ErrorView {
    ErrorView::Message("invalid type: unit variant"@)
}

/// The failure of an object that names a variant without payload: such a
/// variant is written as a bare string.
pub open spec fn unit_variant_as_object() -> ErrorView {
    ErrorView::Message("Unit variant case should be handled by deserialize_enum"@)
}

/// A signed integer of the given width.
pub open spec fn signed_value(s: Seq<u8>, min: int, max: int) -> (
    Result<ValueView, ErrorView>,
    Seq<u8>,
) {
    match signed_integer(s, min, max) {
        (Ok(v), rest) => (Ok(ValueView::Signed(v as i64)), rest),
        (Err(e), rest) => (Err(e), rest),
    }
}

/// An unsigned integer of the given width.
pub open spec fn unsigned_value(s: Seq<u8>, max: int) -> (Result<ValueView, ErrorView>, Seq<u8>) {
    match unsigned_integer(s, max) {
        (Ok(v), rest) => (Ok(ValueView::Unsigned(v as u64)), rest),
        (Err(e), rest) => (Err(e), rest),
    }
}

/// The value that a scalar token stands for where nothing was expected;
/// none for the delimiter that opens an aggregate.
pub open spec fn token_value(token: TokenView) -> Option<ValueView> {
    match token {
        TokenView::Str(text) => Some(ValueView::Str(text)),
        TokenView::Unit => Some(ValueView::Unit),
        TokenView::Bool(v) => Some(ValueView::Bool(v)),
        TokenView::Number(NumberView::Float(text)) => Some(ValueView::Float(text)),
        TokenView::Number(NumberView::Signed(v)) => Some(ValueView::Signed(v)),
        TokenView::Number(NumberView::Unsigned(v)) => Some(ValueView::Unsigned(v)),
        TokenView::Sequence => None,
        TokenView::Mapping => None,
    }
}

/// The items of a sequence, made a sequence.
pub open spec fn as_sequence(items: (Result<Seq<ValueView>, ErrorView>, Seq<u8>)) -> (
    Result<ValueView, ErrorView>,
    Seq<u8>,
) {
    match items {
        (Ok(items), rest) => (Ok(ValueView::Sequence(items)), rest),
        (Err(e), rest) => (Err(e), rest),
    }
}

/// The entries of a map, made a map.
pub open spec fn as_mapping(
    entries: (Result<Seq<(ValueView, ValueView)>, ErrorView>, Seq<u8>),
) -> (Result<ValueView, ErrorView>, Seq<u8>) {
    match entries {
        (Ok(entries), rest) => (Ok(ValueView::Mapping(entries)), rest),
        (Err(e), rest) => (Err(e), rest),
    }
}

/// The value that `shape` reads from the stream `s`, and what is left of the
/// stream.
///
/// Every failure ends the read: the first one met is the result.
pub open spec fn parse_value(shape: ShapeView, s: Seq<u8>) -> (Result<ValueView, ErrorView>, Seq<u8>)
    decreases shape, s.len(), 0int,
{
    match shape {
        ShapeView::Any => match any_token(s) {
            (Err(e), rest) => (Err(e), rest),
            (Ok(TokenView::Sequence), rest) => {
                proof {
                    lemma_skip_whitespace(s);
                }
                as_sequence(parse_items(shape, rest, true))
            },
            (Ok(TokenView::Mapping), rest) => {
                proof {
                    lemma_skip_whitespace(s);
                }
                as_mapping(parse_entries(shape, rest, true))
            },
            (Ok(token), rest) => (Ok(token_value(token)->0), rest),
        },
        ShapeView::Unit => match null_literal(s) {
            (Ok(_), rest) => (Ok(ValueView::Unit), rest),
            (Err(e), rest) => (Err(e), rest),
        },
        ShapeView::Bool => match bool_literal(s) {
            (Ok(v), rest) => (Ok(ValueView::Bool(v)), rest),
            (Err(e), rest) => (Err(e), rest),
        },
        ShapeView::I8 => signed_value(s, i8::MIN as int, i8::MAX as int),
        ShapeView::I16 => signed_value(s, i16::MIN as int, i16::MAX as int),
        ShapeView::I32 => signed_value(s, i32::MIN as int, i32::MAX as int),
        ShapeView::I64 => signed_value(s, i64::MIN as int, i64::MAX as int),
        ShapeView::U8 => unsigned_value(s, u8::MAX as int),
        ShapeView::U16 => unsigned_value(s, u16::MAX as int),
        ShapeView::U32 => unsigned_value(s, u32::MAX as int),
        ShapeView::U64 => unsigned_value(s, u64::MAX as int),
        ShapeView::Float => match float_text(s) {
            (Ok(text), rest) => (Ok(ValueView::Float(text)), rest),
            (Err(e), rest) => (Err(e), rest),
        },
        ShapeView::Char => match char_literal(s) {
            (Ok(c), rest) => (Ok(ValueView::Char(c)), rest),
            (Err(e), rest) => (Err(e), rest),
        },
        ShapeView::Str => match string_literal(s) {
            (Ok(text), rest) => (Ok(ValueView::Str(text)), rest),
            (Err(e), rest) => (Err(e), rest),
        },
        ShapeView::Bytes => match byte_buffer(s) {
            (Ok(bytes), rest) => (Ok(ValueView::Bytes(bytes)), rest),
            (Err(e), rest) => (Err(e), rest),
        },
        ShapeView::Optional(inner) => match option_head(s) {
            (Err(e), rest) => (Err(e), rest),
            (Ok(false), rest) => (Ok(ValueView::Optional(None)), rest),
            (Ok(true), rest) => match parse_value(*inner, rest) {
                (Ok(v), after) => (Ok(ValueView::Optional(Some(Box::new(v)))), after),
                (Err(e), after) => (Err(e), after),
            },
        },
        ShapeView::Sequence(_) => match expect_byte(s, '[') {
            (Err(e), rest) => (Err(e), rest),
            (Ok(_), rest) => {
                proof {
                    lemma_skip_whitespace(s);
                }
                as_sequence(parse_items(shape, rest, true))
            },
        },
        ShapeView::Mapping(_, _) => match expect_byte(s, '{') {
            (Err(e), rest) => (Err(e), rest),
            (Ok(_), rest) => {
                proof {
                    lemma_skip_whitespace(s);
                }
                as_mapping(parse_entries(shape, rest, true))
            },
        },
        ShapeView::Tuple(_) => match expect_byte(s, '[') {
            (Err(e), rest) => (Err(e), rest),
            (Ok(_), rest) => {
                proof {
                    lemma_skip_whitespace(s);
                }
                as_sequence(parse_tuple(shape, 0, rest))
            },
        },
        ShapeView::Struct(_) => match expect_byte(s, '{') {
            (Err(e), rest) => (Err(e), rest),
            (Ok(_), rest) => {
                proof {
                    lemma_skip_whitespace(s);
                }
                as_mapping(parse_fields(shape, rest, true))
            },
        },
        ShapeView::Enum(variants) => match enum_head(s) {
            (Err(e), rest) => (Err(e), rest),
            (Ok(EnumHeadView::Unit(name)), rest) => match find_variant(variants, name, 0) {
                None => (Err(unknown_variant()), rest),
                Some(i) => match variants[i].1 {
                    None => (Ok(ValueView::Variant(name, None)), rest),
                    Some(_) => (Err(missing_payload()), rest),
                },
            },
            (Ok(EnumHeadView::Tagged(name)), rest) => match find_variant(variants, name, 0) {
                None => (Err(unknown_variant()), rest),
                Some(i) => match expect_byte(rest, ':') {
                    (Err(e), at_payload) => (Err(e), at_payload),
                    (Ok(_), at_payload) => match variants[i].1 {
                        None => (Err(unit_variant_as_object()), at_payload),
                        Some(payload) => {
                            proof {
                                lemma_find_variant(variants, name, 0);
                            }
                            match parse_value(payload, at_payload) {
                                (Err(e), after) => (Err(e), after),
                                (Ok(v), after) => match enum_end(after) {
                                    (Err(e), end) => (Err(e), end),
                                    (Ok(_), end) => (
                                        Ok(ValueView::Variant(name, Some(Box::new(v)))),
                                        end,
                                    ),
                                },
                            }
                        },
                    },
                },
            },
        },
    }
}

/// The items of a sequence of shape `shape`, behind its opening bracket:
/// pulled one by one until the closing bracket comes.
pub open spec fn parse_items(shape: ShapeView, s: Seq<u8>, first: bool) -> (
    Result<Seq<ValueView>, ErrorView>,
    Seq<u8>,
)
    decreases shape, s.len(), (if first {
        2int
    } else {
        1int
    }),
{
    match element_step(s, first, 0x5d) {
        (Err(e), rest) => (Err(e), rest),
        (Ok(false), rest) => (Ok(Seq::empty()), rest),
        (Ok(true), rest) => {
            proof {
                lemma_skip_whitespace(s);
            }
            let item = match shape {
                ShapeView::Sequence(item) => parse_value(*item, rest),
                ShapeView::Any => parse_value(shape, rest),
                _ => (Err(eof()), rest),
            };
            match item {
                (Err(e), after) => (Err(e), after),
                (Ok(v), after) => if after.len() <= rest.len() {
                    match parse_items(shape, after, false) {
                        (Ok(more), end) => (Ok(seq![v] + more), end),
                        (Err(e), end) => (Err(e), end),
                    }
                } else {
                    (Err(eof()), after)
                },
            }
        },
    }
}

/// The items of a tuple of shape `shape` from the `i`-th on: as many as
/// there are shapes left, each of its shape, and then the closing bracket.
/// A bracket that comes early, and an item too many, are `invalid length`.
pub open spec fn parse_tuple(shape: ShapeView, i: int, s: Seq<u8>) -> (
    Result<Seq<ValueView>, ErrorView>,
    Seq<u8>,
)
    decreases shape, s.len(), (match shape {
        ShapeView::Tuple(shapes) => if 0 <= i <= shapes.len() {
            shapes.len() - i + 1
        } else {
            0
        },
        _ => 0,
    }),
{
    match shape {
        ShapeView::Tuple(shapes) => match element_step(s, i == 0, 0x5d) {
            (Err(e), rest) => (Err(e), rest),
            (Ok(more), rest) => if i < 0 || i >= shapes.len() {
                if more {
                    (Err(invalid_length()), rest)
                } else {
                    (Ok(Seq::empty()), rest)
                }
            } else if !more {
                (Err(invalid_length()), rest)
            } else {
                proof {
                    lemma_skip_whitespace(s);
                }
                match parse_value(shapes[i], rest) {
                    (Err(e), after) => (Err(e), after),
                    (Ok(v), after) => if after.len() <= rest.len() {
                        match parse_tuple(shape, i + 1, after) {
                            (Ok(more), end) => (Ok(seq![v] + more), end),
                            (Err(e), end) => (Err(e), end),
                        }
                    } else {
                        (Err(eof()), after)
                    },
                }
            },
        },
        _ => (Err(eof()), s),
    }
}

/// The entries of a struct of shape `shape`, behind its opening brace:
/// pulled one by one until the closing brace comes, each the name of a
/// field as a string, a colon, and a value of the shape of that field. A
/// key that names no field is `unknown field`.
pub open spec fn parse_fields(shape: ShapeView, s: Seq<u8>, first: bool) -> (
    Result<Seq<(ValueView, ValueView)>, ErrorView>,
    Seq<u8>,
)
    decreases shape, s.len(), (if first {
        2int
    } else {
        1int
    }),
{
    match shape {
        ShapeView::Struct(fields) => match element_step(s, first, 0x7d) {
            (Err(e), rest) => (Err(e), rest),
            (Ok(false), rest) => (Ok(Seq::empty()), rest),
            (Ok(true), rest) => match string_literal(rest) {
                (Err(e), after_key) => (Err(e), after_key),
                (Ok(name), after_key) => match find_field(fields, name, 0) {
                    None => (Err(unknown_field()), after_key),
                    Some(j) => match expect_byte(after_key, ':') {
                        (Err(e), at_value) => (Err(e), at_value),
                        (Ok(_), at_value) => {
                            proof {
                                lemma_find_field(fields, name, 0);
                                lemma_skip_whitespace(s);
                                lemma_rest_bounds(rest);
                                lemma_skip_whitespace(after_key);
                            }
                            match parse_value(fields[j].1, at_value) {
                                (Err(e), after) => (Err(e), after),
                                (Ok(v), after) => if after.len() <= at_value.len() {
                                    match parse_fields(shape, after, false) {
                                        (Ok(more), end) => (
                                            Ok(seq![(ValueView::Str(name), v)] + more),
                                            end,
                                        ),
                                        (Err(e), end) => (Err(e), end),
                                    }
                                } else {
                                    (Err(eof()), after)
                                },
                            }
                        },
                    },
                },
            },
        },
        _ => (Err(eof()), s),
    }
}

/// The entries of a map of shape `shape`, behind its opening brace: pulled
/// one by one until the closing brace comes, each a key, a colon and a
/// value.
pub open spec fn parse_entries(shape: ShapeView, s: Seq<u8>, first: bool) -> (
    Result<Seq<(ValueView, ValueView)>, ErrorView>,
    Seq<u8>,
)
    decreases shape, s.len(), (if first {
        2int
    } else {
        1int
    }),
{
    match element_step(s, first, 0x7d) {
        (Err(e), rest) => (Err(e), rest),
        (Ok(false), rest) => (Ok(Seq::empty()), rest),
        (Ok(true), rest) => {
            proof {
                lemma_skip_whitespace(s);
            }
            let key = match shape {
                ShapeView::Mapping(key, _) => parse_value(*key, rest),
                ShapeView::Any => parse_value(shape, rest),
                _ => (Err(eof()), rest),
            };
            match key {
                (Err(e), after_key) => (Err(e), after_key),
                (Ok(k), after_key) => match expect_byte(after_key, ':') {
                    (Err(e), at_value) => (Err(e), at_value),
                    (Ok(_), at_value) => if after_key.len() <= rest.len() {
                        proof {
                            lemma_skip_whitespace(after_key);
                        }
                        let value = match shape {
                            ShapeView::Mapping(_, value) => parse_value(*value, at_value),
                            ShapeView::Any => parse_value(shape, at_value),
                            _ => (Err(eof()), at_value),
                        };
                        match value {
                            (Err(e), after) => (Err(e), after),
                            (Ok(v), after) => if after.len() <= at_value.len() {
                                match parse_entries(shape, after, false) {
                                    (Ok(more), end) => (Ok(seq![(k, v)] + more), end),
                                    (Err(e), end) => (Err(e), end),
                                }
                            } else {
                                (Err(eof()), after)
                            },
                        }
                    } else {
                        (Err(eof()), at_value)
                    },
                },
            }
        },
    }
}

/// A string is written in valid UTF-8.
pub proof fn lemma_quoted_valid_utf8(text: Seq<char>)
    ensures
        valid_utf8(quoted(text)),
{
    encode_utf8_valid_utf8(escape_text(text));
    lemma_ascii_valid_utf8(seq![0x22u8]);
    lemma_valid_utf8_concat3(seq![0x22u8], encode_utf8(escape_text(text)), seq![0x22u8]);
}

/// The digits of a number are below 128.
pub proof fn lemma_decimal_digits_ascii(n: nat)
    ensures
        is_ascii_bytes(decimal_digits(n)),
        valid_utf8(decimal_digits(n)),
{
    lemma_decimal_digits(n);
    lemma_ascii_valid_utf8(decimal_digits(n));
}

/// The items of a byte buffer are written in valid UTF-8.
pub proof fn lemma_byte_items_valid_utf8(bytes: Seq<u8>, i: int)
    ensures
        valid_utf8(byte_items_text(bytes, i)),
    decreases bytes.len() - i,
{
    if 0 <= i < bytes.len() {
        lemma_byte_items_valid_utf8(bytes, i + 1);
        lemma_decimal_digits_ascii(bytes[i] as nat);
        lemma_ascii_valid_utf8(separator(i == 0));
        lemma_valid_utf8_concat3(
            separator(i == 0),
            decimal_digits(bytes[i] as nat),
            byte_items_text(bytes, i + 1),
        );
    }
}

/// A key is written in valid UTF-8.
pub proof fn lemma_key_text_valid_utf8(key: ValueView)
    ensures
        key_text(key) matches Some(text) ==> valid_utf8(text),
    decreases key,
{
    match key {
        ValueView::Str(text) => {
            lemma_quoted_valid_utf8(text);
        },
        ValueView::Char(c) => {
            lemma_quoted_valid_utf8(seq![c]);
        },
        ValueView::Optional(Some(inner)) => {
            lemma_key_text_valid_utf8(*inner);
        },
        _ => {},
    }
}

/// Every value is written in valid UTF-8.
pub proof fn lemma_render_valid_utf8(value: ValueView)
    ensures
        valid_utf8(render(value)),
    decreases value, 0int,
{
    lemma_ascii_valid_utf8(null_text());
    lemma_ascii_valid_utf8(seq![0x5bu8]);
    lemma_ascii_valid_utf8(seq![0x5du8]);
    lemma_ascii_valid_utf8(seq![0x7bu8]);
    lemma_ascii_valid_utf8(seq![0x7du8]);
    lemma_ascii_valid_utf8(seq![0x3au8]);
    match value {
        ValueView::Bool(v) => {
            lemma_ascii_valid_utf8(bool_text(v));
        },
        ValueView::Signed(v) => {
            if v < 0 {
                lemma_decimal_digits_ascii((-v) as nat);
                lemma_ascii_valid_utf8(seq![0x2du8]);
                valid_utf8_concat(seq![0x2du8], decimal_digits((-v) as nat));
            } else {
                lemma_decimal_digits_ascii(v as nat);
            }
        },
        ValueView::Unsigned(v) => {
            lemma_decimal_digits_ascii(v as nat);
        },
        ValueView::Float(text) => {
            encode_utf8_valid_utf8(text);
        },
        ValueView::Char(c) => {
            lemma_quoted_valid_utf8(seq![c]);
        },
        ValueView::Str(text) => {
            lemma_quoted_valid_utf8(text);
        },
        ValueView::Bytes(bytes) => {
            lemma_byte_items_valid_utf8(bytes, 0);
            lemma_valid_utf8_concat3(seq![0x5bu8], byte_items_text(bytes, 0), seq![0x5du8]);
        },
        ValueView::Optional(Some(inner)) => {
            lemma_render_valid_utf8(*inner);
        },
        ValueView::Sequence(items) => {
            lemma_render_items_valid_utf8(items, 0);
            lemma_valid_utf8_concat3(seq![0x5bu8], render_items(items, 0), seq![0x5du8]);
        },
        ValueView::Mapping(entries) => {
            lemma_render_entries_valid_utf8(entries, 0);
            lemma_valid_utf8_concat3(seq![0x7bu8], render_entries(entries, 0), seq![0x7du8]);
        },
        ValueView::Variant(name, None) => {
            lemma_quoted_valid_utf8(name);
        },
        ValueView::Variant(name, Some(payload)) => {
            lemma_quoted_valid_utf8(name);
            lemma_valid_utf8_concat3(seq![0x7bu8], quoted(name), seq![0x3au8]);
            lemma_render_valid_utf8(*payload);
            lemma_valid_utf8_concat3(variant_head(name), render(*payload), seq![0x7du8]);
        },
        _ => {},
    }
}

/// The items of a sequence are written in valid UTF-8.
pub proof fn lemma_render_items_valid_utf8(items: Seq<ValueView>, i: int)
    ensures
        valid_utf8(render_items(items, i)),
    decreases items, items.len() - i,
{
    if 0 <= i < items.len() {
        lemma_render_valid_utf8(items[i]);
        lemma_render_items_valid_utf8(items, i + 1);
        lemma_ascii_valid_utf8(separator(i == 0));
        lemma_valid_utf8_concat3(separator(i == 0), render(items[i]), render_items(items, i + 1));
    }
}

/// The entries of a map are written in valid UTF-8.
pub proof fn lemma_render_entries_valid_utf8(entries: Seq<(ValueView, ValueView)>, i: int)
    ensures
        valid_utf8(render_entries(entries, i)),
    decreases entries, entries.len() - i,
{
    if 0 <= i < entries.len() {
        lemma_key_text_valid_utf8(entries[i].0);
        lemma_render_valid_utf8(entries[i].1);
        lemma_ascii_valid_utf8(seq![0x3au8]);
        let key = match key_text(entries[i].0) {
            Some(text) => text,
            None => Seq::empty(),
        };
        lemma_valid_utf8_concat3(key, seq![0x3au8], render(entries[i].1));
        lemma_render_entries_valid_utf8(entries, i + 1);
        lemma_ascii_valid_utf8(separator(i == 0));
        lemma_valid_utf8_concat3(
            separator(i == 0),
            render_entry(entries[i]),
            render_entries(entries, i + 1),
        );
    }
}

/// Reading a value leaves no more of the stream than there was.
#[verifier::rlimit(30)]
pub proof fn lemma_parse_value_rest(shape: ShapeView, s: Seq<u8>)
    ensures
        parse_value(shape, s).1.len() <= s.len(),
    decreases shape, s.len(), 0int,
{
    lemma_rest_bounds(s);
    lemma_byte_items_rest(s);
    lemma_skip_whitespace(s);
    let t = skip_whitespace(s);
    lemma_rest_bounds(t);
    match shape {
        ShapeView::Any => {
            match any_token(s) {
                (Ok(TokenView::Sequence), rest) => {
                    lemma_parse_items_rest(shape, rest, true);
                },
                (Ok(TokenView::Mapping), rest) => {
                    lemma_parse_entries_rest(shape, rest, true);
                },
                _ => {},
            }
        },
        ShapeView::Optional(inner) => {
            match option_head(s) {
                (Ok(true), rest) => {
                    lemma_parse_value_rest(*inner, rest);
                },
                _ => {},
            }
        },
        ShapeView::Sequence(_) => {
            match expect_byte(s, '[') {
                (Ok(_), rest) => {
                    lemma_parse_items_rest(shape, rest, true);
                },
                _ => {},
            }
        },
        ShapeView::Mapping(_, _) => {
            match expect_byte(s, '{') {
                (Ok(_), rest) => {
                    lemma_parse_entries_rest(shape, rest, true);
                },
                _ => {},
            }
        },
        ShapeView::Tuple(_) => {
            match expect_byte(s, '[') {
                (Ok(_), rest) => {
                    lemma_parse_tuple_rest(shape, 0, rest);
                },
                _ => {},
            }
        },
        ShapeView::Struct(_) => {
            match expect_byte(s, '{') {
                (Ok(_), rest) => {
                    lemma_parse_fields_rest(shape, rest, true);
                },
                _ => {},
            }
        },
        ShapeView::Enum(variants) => {
            match enum_head(s) {
                (Ok(EnumHeadView::Tagged(name)), rest) => {
                    match find_variant(variants, name, 0) {
                        Some(i) => {
                            lemma_find_variant(variants, name, 0);
                            lemma_rest_bounds(rest);
                            match (expect_byte(rest, ':'), variants[i].1) {
                                ((Ok(_), at_payload), Some(payload)) => {
                                    lemma_parse_value_rest(payload, at_payload);
                                    lemma_rest_bounds(parse_value(payload, at_payload).1);
                                },
                                _ => {},
                            }
                        },
                        None => {},
                    }
                },
                _ => {},
            }
        },
        _ => {},
    }
}

/// Reading the items of a sequence leaves no more of the stream than there
/// was.
pub proof fn lemma_parse_items_rest(shape: ShapeView, s: Seq<u8>, first: bool)
    ensures
        parse_items(shape, s, first).1.len() <= s.len(),
    decreases shape, s.len(), (if first {
        2int
    } else {
        1int
    }),
{
    lemma_rest_bounds(s);
    lemma_skip_whitespace(s);
    match element_step(s, first, 0x5d) {
        (Ok(true), rest) => {
            match shape {
                ShapeView::Sequence(item) => {
                    lemma_parse_value_rest(*item, rest);
                },
                ShapeView::Any => {
                    lemma_parse_value_rest(shape, rest);
                },
                _ => {},
            }
            let item = match shape {
                ShapeView::Sequence(item) => parse_value(*item, rest),
                ShapeView::Any => parse_value(shape, rest),
                _ => (Err(eof()), rest),
            };
            match item {
                (Ok(_), after) => {
                    lemma_parse_items_rest(shape, after, false);
                },
                _ => {},
            }
        },
        _ => {},
    }
}

/// Reading the items of a tuple leaves no more of the stream than there
/// was.
pub proof fn lemma_parse_tuple_rest(shape: ShapeView, i: int, s: Seq<u8>)
    ensures
        parse_tuple(shape, i, s).1.len() <= s.len(),
    decreases shape, s.len(), (match shape {
        ShapeView::Tuple(shapes) => if 0 <= i <= shapes.len() {
            shapes.len() - i + 1
        } else {
            0
        },
        _ => 0,
    }),
{
    lemma_rest_bounds(s);
    lemma_skip_whitespace(s);
    match shape {
        ShapeView::Tuple(shapes) => {
            match element_step(s, i == 0, 0x5d) {
                (Ok(true), rest) => {
                    if 0 <= i < shapes.len() {
                        lemma_parse_value_rest(shapes[i], rest);
                        match parse_value(shapes[i], rest) {
                            (Ok(_), after) => {
                                lemma_parse_tuple_rest(shape, i + 1, after);
                            },
                            _ => {},
                        }
                    }
                },
                _ => {},
            }
        },
        _ => {},
    }
}

/// Reading the entries of a struct leaves no more of the stream than there
/// was.
pub proof fn lemma_parse_fields_rest(shape: ShapeView, s: Seq<u8>, first: bool)
    ensures
        parse_fields(shape, s, first).1.len() <= s.len(),
    decreases shape, s.len(), (if first {
        2int
    } else {
        1int
    }),
{
    lemma_rest_bounds(s);
    lemma_skip_whitespace(s);
    match shape {
        ShapeView::Struct(fields) => {
            match element_step(s, first, 0x7d) {
                (Ok(true), rest) => {
                    lemma_rest_bounds(rest);
                    match string_literal(rest) {
                        (Ok(name), after_key) => {
                            lemma_rest_bounds(after_key);
                            lemma_skip_whitespace(after_key);
                            match (find_field(fields, name, 0), expect_byte(after_key, ':')) {
                                (Some(j), (Ok(_), at_value)) => {
                                    lemma_find_field(fields, name, 0);
                                    lemma_parse_value_rest(fields[j].1, at_value);
                                    match parse_value(fields[j].1, at_value) {
                                        (Ok(_), after) => {
                                            lemma_parse_fields_rest(shape, after, false);
                                        },
                                        _ => {},
                                    }
                                },
                                _ => {},
                            }
                        },
                        _ => {},
                    }
                },
                _ => {},
            }
        },
        _ => {},
    }
}

/// Reading the entries of a map leaves no more of the stream than there
/// was.
pub proof fn lemma_parse_entries_rest(shape: ShapeView, s: Seq<u8>, first: bool)
    ensures
        parse_entries(shape, s, first).1.len() <= s.len(),
    decreases shape, s.len(), (if first {
        2int
    } else {
        1int
    }),
{
    lemma_rest_bounds(s);
    lemma_skip_whitespace(s);
    match element_step(s, first, 0x7d) {
        (Ok(true), rest) => {
            match shape {
                ShapeView::Mapping(key, _) => {
                    lemma_parse_value_rest(*key, rest);
                },
                ShapeView::Any => {
                    lemma_parse_value_rest(shape, rest);
                },
                _ => {},
            }
            let key = match shape {
                ShapeView::Mapping(key, _) => parse_value(*key, rest),
                ShapeView::Any => parse_value(shape, rest),
                _ => (Err(eof()), rest),
            };
            match key {
                (Ok(_), after_key) => {
                    lemma_rest_bounds(after_key);
                    lemma_skip_whitespace(after_key);
                    match expect_byte(after_key, ':') {
                        (Ok(_), at_value) => {
                            match shape {
                                ShapeView::Mapping(_, value) => {
                                    lemma_parse_value_rest(*value, at_value);
                                },
                                ShapeView::Any => {
                                    lemma_parse_value_rest(shape, at_value);
                                },
                                _ => {},
                            }
                            let value = match shape {
                                ShapeView::Mapping(_, value) => parse_value(*value, at_value),
                                ShapeView::Any => parse_value(shape, at_value),
                                _ => (Err(eof()), at_value),
                            };
                            match value {
                                (Ok(_), after) => {
                                    lemma_parse_entries_rest(shape, after, false);
                                },
                                _ => {},
                            }
                        },
                        _ => {},
                    }
                },
                _ => {},
            }
        },
        _ => {},
    }
}

} // verus!
