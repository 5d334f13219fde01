//! What holds of writing and reading together: a value that is written is
//! read back, and whitespace between tokens changes nothing.

use vstd::prelude::*;
use crate::document::{find_field, find_variant, key_text, parse_value, render, renderable};
use crate::error::ErrorView;
use crate::grammar::{all_whitespace, lemma_skip_whitespace_prefix};
use crate::roundtrip::{
    lemma_conforms_renderable, lemma_parse_value_skips, lemma_reads, lemma_skip_padded,
    lemma_spell_plain, no_padding, padded, Padding, pads_whitespace, spell,
};
use crate::strings::reads_back;
use crate::tokens::{is_float_text, is_number_text};
use crate::value::{ShapeView, ValueView};
use crate::whitespace::{
    lemma_parse_value_squeezed, lemma_squeeze_append, lemma_squeeze_whitespace, squeeze,
    whole_tokens,
};

verus! {

/// True when `value` is written `null`: the unit, an absent value, and a
/// present value that is itself written `null`.
pub open spec fn is_null(value: ValueView) -> bool
    decreases value,
{
    match value {
        ValueView::Unit => true,
        ValueView::Optional(None) => true,
        ValueView::Optional(Some(inner)) => is_null(*inner),
        _ => false,
    }
}

/// True when `value` is a value of shape `shape` that is read back as it
/// was written.
///
/// A tuple is a sequence with an item for each shape, a struct a map whose
/// keys are texts that name fields. Of the values of a shape, these are not
/// read back: a text that ends in a backslash, as a value, a key or the name
/// of a variant; the character that is the backslash; an empty byte buffer;
/// a present value that is written `null`; a floating-point number whose
/// text is not the text of a number. Where nothing is expected, a value is read back if
/// reading can tell what it was from the bytes alone: the unit, a boolean, a
/// text, an unsigned integer, a negative integer, a floating-point number
/// with a point or an exponent mark behind a sign or a digit, and sequences
/// and maps of such values, with texts for keys.
pub open spec fn conforms(value: ValueView, shape: ShapeView) -> bool
    decreases value, 0int,
{
    match shape {
        ShapeView::Any => match value {
            ValueView::Unit => true,
            ValueView::Bool(_) => true,
            ValueView::Str(text) => reads_back(text),
            ValueView::Unsigned(_) => true,
            ValueView::Signed(v) => v < 0,
            ValueView::Float(text) => is_float_text(text),
            ValueView::Sequence(items) => conforms_items(items, shape, 0),
            ValueView::Mapping(entries) => conforms_entries(entries, shape, shape, 0),
            _ => false,
        },
        ShapeView::Unit => value is Unit,
        ShapeView::Bool => value is Bool,
        ShapeView::I8 => value matches ValueView::Signed(v) && i8::MIN <= v <= i8::MAX,
        ShapeView::I16 => value matches ValueView::Signed(v) && i16::MIN <= v <= i16::MAX,
        ShapeView::I32 => value matches ValueView::Signed(v) && i32::MIN <= v <= i32::MAX,
        ShapeView::I64 => value is Signed,
        ShapeView::U8 => value matches ValueView::Unsigned(v) && v <= u8::MAX,
        ShapeView::U16 => value matches ValueView::Unsigned(v) && v <= u16::MAX,
        ShapeView::U32 => value matches ValueView::Unsigned(v) && v <= u32::MAX,
        ShapeView::U64 => value is Unsigned,
        ShapeView::Float => value matches ValueView::Float(text) && is_number_text(text),
        ShapeView::Char => value matches ValueView::Char(c) && c != '\\',
        ShapeView::Str => value matches ValueView::Str(text) && reads_back(text),
        ShapeView::Bytes => value matches ValueView::Bytes(bytes) && bytes.len() > 0,
        ShapeView::Optional(inner) => match value {
            ValueView::Optional(None) => true,
            ValueView::Optional(Some(present)) => conforms(*present, *inner) && !is_null(*present),
            _ => false,
        },
        ShapeView::Sequence(item) => match value {
            ValueView::Sequence(items) => conforms_items(items, *item, 0),
            _ => false,
        },
        ShapeView::Mapping(key, entry) => match value {
            ValueView::Mapping(entries) => conforms_entries(entries, *key, *entry, 0),
            _ => false,
        },
        ShapeView::Tuple(shapes) => match value {
            ValueView::Sequence(items) => items.len() == shapes.len() && conforms_tuple(
                items,
                shapes,
                0,
            ),
            _ => false,
        },
        ShapeView::Struct(fields) => match value {
            ValueView::Mapping(entries) => conforms_fields(entries, fields, 0),
            _ => false,
        },
        ShapeView::Enum(variants) => match value {
            ValueView::Variant(name, payload) => reads_back(name) && match find_variant(
                variants,
                name,
                0,
            ) {
                Some(i) => match (payload, variants[i].1) {
                    (None, None) => true,
                    (Some(present), Some(expected)) => conforms(*present, expected),
                    _ => false,
                },
                None => false,
            },
            _ => false,
        },
    }
}

/// True when the items from the `i`-th on are of shape `shape` and are read
/// back.
pub open spec fn conforms_items(items: Seq<ValueView>, shape: ShapeView, i: int) -> bool
    decreases items, items.len() - i,
{
    if i < 0 || i >= items.len() {
        true
    } else {
        conforms(items[i], shape) && conforms_items(items, shape, i + 1)
    }
}

/// True when the items of a tuple from the `i`-th on are read back: each
/// is of the shape that stands in its place.
pub open spec fn conforms_tuple(items: Seq<ValueView>, shapes: Seq<ShapeView>, i: int) -> bool
    decreases items, items.len() - i,
{
    if i < 0 || i >= items.len() {
        true
    } else {
        i < shapes.len() && conforms(items[i], shapes[i]) && conforms_tuple(items, shapes, i + 1)
    }
}

/// True when the entries of a struct from the `i`-th on are read back: each
/// key is a text that names a field, each value is of the shape of the
/// field that its key names.
pub open spec fn conforms_fields(
    entries: Seq<(ValueView, ValueView)>,
    fields: Seq<(Seq<char>, ShapeView)>,
    i: int,
) -> bool
    decreases entries, entries.len() - i,
{
    if i < 0 || i >= entries.len() {
        true
    } else {
        (match entries[i].0 {
            ValueView::Str(name) => reads_back(name) && match find_field(fields, name, 0) {
                Some(j) => 0 <= j < fields.len() && conforms(entries[i].1, fields[j].1),
                None => false,
            },
            _ => false,
        }) && conforms_fields(entries, fields, i + 1)
    }
}

/// True when the entries from the `i`-th on are read back: each key can be
/// a key and is of shape `key`, each value is of shape `value`.
pub open spec fn conforms_entries(
    entries: Seq<(ValueView, ValueView)>,
    key: ShapeView,
    value: ShapeView,
    i: int,
) -> bool
    decreases entries, entries.len() - i,
{
    if i < 0 || i >= entries.len() {
        true
    } else {
        key_text(entries[i].0) is Some && conforms(entries[i].0, key) && conforms(
            entries[i].1,
            value,
        ) && conforms_entries(entries, key, value, i + 1)
    }
}

/// Round trip: a value that `conforms` to a shape can be written, and
/// reading what was written, with that shape, gives the value back.
pub proof fn law_round_trip(value: ValueView, shape: ShapeView)
    requires
        conforms(value, shape),
    ensures
        renderable(value),
        parse_value(shape, render(value)).0 == Ok::<ValueView, ErrorView>(value),
{
    lemma_conforms_renderable(value, shape);
    lemma_spell_plain(value, Seq::empty());
    assert(render(value) + Seq::<u8>::empty() =~= render(value));
    assert forall|body: Seq<u8>| all_whitespace(#[trigger] no_padding()(body)) by {}
    lemma_reads(value, shape, no_padding(), Seq::empty(), render(value));
}

/// Whitespace before a value: whatever the bytes are, whitespace in front
/// of them does not change what is read from them, nor what is left of
/// them.
pub proof fn law_leading_whitespace(shape: ShapeView, whitespace: Seq<u8>, input: Seq<u8>)
    requires
        all_whitespace(whitespace),
    ensures
        parse_value(shape, whitespace + input) == parse_value(shape, input),
{
    lemma_skip_whitespace_prefix(whitespace, input);
    lemma_parse_value_skips(shape, whitespace + input);
    lemma_parse_value_skips(shape, input);
}

/// Whitespace between tokens: two documents that are the same once the
/// whitespace between their tokens is taken out are read alike. One gives a
/// value exactly when the other does, and then both give the same value.
/// Where they fail they need not fail alike: a failure may say what was
/// found, whitespace and all.
pub proof fn law_whitespace(shape: ShapeView, a: Seq<u8>, b: Seq<u8>)
    requires
        squeeze(a) == squeeze(b),
    ensures
        parse_value(shape, a).0 is Ok <==> parse_value(shape, b).0 is Ok,
        parse_value(shape, a).0 is Ok ==> parse_value(shape, b).0 == parse_value(shape, a).0,
{
    lemma_parse_value_squeezed(shape, a);
    lemma_parse_value_squeezed(shape, b);
}

/// Whitespace between two tokens: where whitespace is put into a document
/// behind any of its tokens, reading gives a value exactly when it gives one
/// without the whitespace, and then the same value.
pub proof fn law_whitespace_between_tokens(
    shape: ShapeView,
    front: Seq<u8>,
    whitespace: Seq<u8>,
    back: Seq<u8>,
)
    requires
        whole_tokens(front),
        all_whitespace(whitespace),
    ensures
        parse_value(shape, front + whitespace + back).0 is Ok <==> parse_value(
            shape,
            front + back,
        ).0 is Ok,
        parse_value(shape, front + back).0 is Ok ==> parse_value(
            shape,
            front + whitespace + back,
        ).0 == parse_value(shape, front + back).0,
{
    lemma_squeeze_append(front, back);
    lemma_squeeze_append(front, whitespace + back);
    lemma_squeeze_whitespace(whitespace, back);
    assert(front + whitespace + back =~= front + (whitespace + back));
    law_whitespace(shape, front + back, front + whitespace + back);
}

/// Whitespace in a written value: where any run of whitespace is put in
/// front of any token of a written value, and any run of whitespace behind
/// the value, reading gives what it gives for the value as it was written.
pub proof fn law_whitespace_in_written_value(
    value: ValueView,
    shape: ShapeView,
    pad: Padding,
    trailing: Seq<u8>,
)
    requires
        conforms(value, shape),
        pads_whitespace(pad),
        all_whitespace(trailing),
    ensures
        parse_value(shape, padded(pad, spell(value, pad, trailing))).0 == parse_value(
            shape,
            render(value),
        ).0,
        spell(value, no_padding(), Seq::empty()) == render(value),
{
    law_round_trip(value, shape);
    lemma_spell_plain(value, Seq::empty());
    assert(render(value) + Seq::<u8>::empty() =~= render(value));
    lemma_skip_whitespace_prefix(trailing, Seq::empty());
    assert(trailing + Seq::<u8>::empty() =~= trailing);
    lemma_skip_padded(pad, spell(value, pad, trailing));
    lemma_reads(value, shape, pad, trailing, padded(pad, spell(value, pad, trailing)));
}

} // verus!
