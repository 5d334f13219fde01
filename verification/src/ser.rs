//! The streaming writer: one entry point for each shape of the data model,
//! and the flag that says whether the next item of the open aggregate is its
//! first.

use vstd::prelude::*;
use vstd::utf8::{decode_utf8_encode_utf8, encode_utf8};
use crate::document::{
    key_text, lemma_render_valid_utf8, render, render_entries, render_entry, render_items,
    renderable, renderable_entries, renderable_items,
};
use crate::error::{Error, ErrorView};
use crate::number::{decimal_digits, format_i64, format_u64, signed_decimal};
use crate::parse::{escape_spec, escape_text};
use crate::render::{
    bool_text, byte_buffer_text, byte_items_text, null_text, quoted, separator, variant_head,
};
use crate::text::{chars_of, lemma_encode_utf8_concat};
use crate::value::{
    entry_views, item_views, lemma_entry_views, lemma_item_views, Value, value_view, ValueView,
};
pub use crate::parse::escape;

verus! {

/// A writer that appends to a buffer of bytes as it is driven. It never
/// looks back at what it wrote.
pub struct Serializer {
    output: Vec<u8>,
    start: bool,
}

impl Serializer {
    /// The bytes written so far.
    pub closed spec fn view(&self) -> Seq<u8> {
        self.output@
    }

    /// Whether the aggregate that is open has no item yet.
    pub closed spec fn is_first(&self) -> bool {
        self.start
    }

    /// A writer that appends to `output`, with no aggregate open.
    pub fn new(output: Vec<u8>) -> (ser: Self)
        ensures
            ser@ == output@,
            !ser.is_first(),
    {
        Serializer { output, start: false }
    }

    /// Gives the buffer back, with all that was written.
    pub fn into_inner(self) -> (output: Vec<u8>)
        ensures
            output@ == self@,
    {
        self.output
    }

    /// Hands out what was written so far, for a sink to take, and goes on
    /// with an empty buffer. The open aggregate stays open.
    pub fn take(&mut self) -> (written: Vec<u8>)
        ensures
            written@ == old(self)@,
            final(self)@ == Seq::<u8>::empty(),
            final(self).is_first() == old(self).is_first(),
    {
        let mut written: Vec<u8> = Vec::new();
        core::mem::swap(&mut self.output, &mut written);
        written
    }

    /// Appends one byte.
    fn put(&mut self, b: u8)
        ensures
            final(self)@ == old(self)@.push(b),
            final(self).is_first() == old(self).is_first(),
    {
        self.output.push(b);
    }

    /// Appends bytes.
    fn put_all(&mut self, bytes: &[u8])
        ensures
            final(self)@ == old(self)@ + bytes@,
            final(self).is_first() == old(self).is_first(),
    {
        self.output.extend_from_slice(bytes);
    }

    /// Writes `true` or `false`.
    pub fn serialize_bool(&mut self, v: bool)
        ensures
            final(self)@ == old(self)@ + bool_text(v),
            final(self).is_first() == old(self).is_first(),
    {
        if v {
            self.put(0x74);
            self.put(0x72);
            self.put(0x75);
            self.put(0x65);
        } else {
            self.put(0x66);
            self.put(0x61);
            self.put(0x6c);
            self.put(0x73);
            self.put(0x65);
        }
        assert(self@ =~= old(self)@ + bool_text(v));
    }

    /// Writes a signed integer of 8 bits in decimal digits.
    pub fn serialize_i8(&mut self, v: i8)
        ensures
            final(self)@ == old(self)@ + signed_decimal(v as int),
            final(self).is_first() == old(self).is_first(),
    {
        self.serialize_i64(v as i64)
    }

    /// Writes a signed integer of 16 bits in decimal digits.
    pub fn serialize_i16(&mut self, v: i16)
        ensures
            final(self)@ == old(self)@ + signed_decimal(v as int),
            final(self).is_first() == old(self).is_first(),
    {
        self.serialize_i64(v as i64)
    }

    /// Writes a signed integer of 32 bits in decimal digits.
    pub fn serialize_i32(&mut self, v: i32)
        ensures
            final(self)@ == old(self)@ + signed_decimal(v as int),
            final(self).is_first() == old(self).is_first(),
    {
        self.serialize_i64(v as i64)
    }

    /// Writes a signed integer of 64 bits in decimal digits: a minus sign
    /// for a negative number, no leading zero.
    pub fn serialize_i64(&mut self, v: i64)
        ensures
            final(self)@ == old(self)@ + signed_decimal(v as int),
            final(self).is_first() == old(self).is_first(),
    {
        let digits = format_i64(v);
        self.put_all(digits.as_slice());
    }

    /// Writes an unsigned integer of 8 bits in decimal digits.
    pub fn serialize_u8(&mut self, v: u8)
        ensures
            final(self)@ == old(self)@ + decimal_digits(v as nat),
            final(self).is_first() == old(self).is_first(),
    {
        self.serialize_u64(v as u64)
    }

    /// Writes an unsigned integer of 16 bits in decimal digits.
    pub fn serialize_u16(&mut self, v: u16)
        ensures
            final(self)@ == old(self)@ + decimal_digits(v as nat),
            final(self).is_first() == old(self).is_first(),
    {
        self.serialize_u64(v as u64)
    }

    /// Writes an unsigned integer of 32 bits in decimal digits.
    pub fn serialize_u32(&mut self, v: u32)
        ensures
            final(self)@ == old(self)@ + decimal_digits(v as nat),
            final(self).is_first() == old(self).is_first(),
    {
        self.serialize_u64(v as u64)
    }

    /// Writes an unsigned integer of 64 bits in decimal digits, without a
    /// leading zero.
    pub fn serialize_u64(&mut self, v: u64)
        ensures
            final(self)@ == old(self)@ + decimal_digits(v as nat),
            final(self).is_first() == old(self).is_first(),
    {
        let digits = format_u64(v);
        self.put_all(digits.as_slice());
    }

    /// Writes a floating-point number, given as its decimal text.
    pub fn serialize_float(&mut self, text: &str)
        ensures
            final(self)@ == old(self)@ + encode_utf8(text@),
            final(self).is_first() == old(self).is_first(),
    {
        self.put_all(text.as_bytes());
    }

    /// Writes a character as a string of that one character.
    pub fn serialize_char(&mut self, v: char)
        ensures
            final(self)@ == old(self)@ + quoted(seq![v]),
            final(self).is_first() == old(self).is_first(),
    {
        let mut text = String::new();
        text.push(v);
        assert(text@ =~= seq![v]);
        self.serialize_str(text.as_str())
    }

    /// Writes a string: the text between two quotes, each character escaped.
    pub fn serialize_str(&mut self, v: &str)
        ensures
            final(self)@ == old(self)@ + quoted(v@),
            final(self).is_first() == old(self).is_first(),
    {
        self.put(0x22);
        let chars = chars_of(v);
        let ghost opened = self@;
        let mut i: usize = 0;
        assert(chars@.subrange(0, 0) =~= Seq::<char>::empty());
        assert(self@ =~= opened + encode_utf8(escape_text(chars@.subrange(0, 0))));
        while i < chars.len()
            invariant
                i <= chars.len(),
                self@ == opened + encode_utf8(escape_text(chars@.subrange(0, i as int))),
                self.is_first() == old(self).is_first(),
            decreases chars.len() - i,
        {
            let escaped = escape(chars[i]);
            let ghost before = self@;
            self.put_all(escaped.as_str().as_bytes());
            proof {
                let done = chars@.subrange(0, i as int);
                let more = chars@.subrange(0, i + 1);
                assert(more =~= done.push(chars@[i as int]));
                lemma_escape_text_push(done, chars@[i as int]);
                lemma_encode_utf8_concat(escape_text(done), escaped@);
                assert(self@ =~= opened + encode_utf8(escape_text(more)));
            }
            i = i + 1;
        }
        assert(chars@.subrange(0, i as int) =~= v@);
        self.put(0x22);
        assert(self@ =~= old(self)@ + quoted(v@));
    }

    /// Writes a byte buffer as an array of numbers.
    pub fn serialize_bytes(&mut self, v: &[u8])
        ensures
            final(self)@ == old(self)@ + byte_buffer_text(v@),
            !final(self).is_first(),
    {
        self.serialize_seq();
        let ghost opened = self@;
        let mut i: usize = 0;
        while i < v.len()
            invariant
                i <= v.len(),
                self.is_first() == (i == 0),
                self@ + byte_items_text(v@, i as int) == opened + byte_items_text(v@, 0),
            decreases v.len() - i,
        {
            let ghost before = self@;
            self.begin_element();
            self.serialize_u8(v[i]);
            assert(self@ + byte_items_text(v@, i + 1) =~= before + byte_items_text(v@, i as int));
            i = i + 1;
        }
        assert(self@ + byte_items_text(v@, i as int) =~= self@);
        self.end_seq();
        assert(self@ =~= old(self)@ + byte_buffer_text(v@));
    }

    /// Writes an absent value as `null`.
    pub fn serialize_none(&mut self)
        ensures
            final(self)@ == old(self)@ + null_text(),
            final(self).is_first() == old(self).is_first(),
    {
        self.serialize_unit()
    }

    /// Writes a unit as `null`.
    pub fn serialize_unit(&mut self)
        ensures
            final(self)@ == old(self)@ + null_text(),
            final(self).is_first() == old(self).is_first(),
    {
        self.put(0x6e);
        self.put(0x75);
        self.put(0x6c);
        self.put(0x6c);
        assert(self@ =~= old(self)@ + null_text());
    }

    /// Writes a unit struct as `null`.
    pub fn serialize_unit_struct(&mut self)
        ensures
            final(self)@ == old(self)@ + null_text(),
            final(self).is_first() == old(self).is_first(),
    {
        self.serialize_unit()
    }

    /// Writes a variant without payload as the string of its name.
    pub fn serialize_unit_variant(&mut self, variant: &str)
        ensures
            final(self)@ == old(self)@ + quoted(variant@),
            final(self).is_first() == old(self).is_first(),
    {
        self.serialize_str(variant)
    }

    /// Opens a variant with a payload: a brace, the name as a string, a
    /// colon. The payload comes next.
    pub fn begin_variant(&mut self, variant: &str)
        ensures
            final(self)@ == old(self)@ + variant_head(variant@),
            final(self).is_first() == old(self).is_first(),
    {
        self.put(0x7b);
        self.serialize_str(variant);
        self.put(0x3a);
        assert(self@ =~= old(self)@ + variant_head(variant@));
    }

    /// Closes a variant whose payload was one value.
    pub fn end_variant(&mut self)
        ensures
            final(self)@ == old(self)@.push(0x7d),
            !final(self).is_first(),
    {
        self.put(0x7d);
        self.start = false;
    }

    /// Opens a sequence: the next item is its first.
    pub fn serialize_seq(&mut self)
        ensures
            final(self)@ == old(self)@.push(0x5b),
            final(self).is_first(),
    {
        self.start = true;
        self.put(0x5b);
    }

    /// Opens a tuple, which is written as a sequence.
    pub fn serialize_tuple(&mut self)
        ensures
            final(self)@ == old(self)@.push(0x5b),
            final(self).is_first(),
    {
        self.serialize_seq()
    }

    /// Opens a tuple struct, which is written as a sequence.
    pub fn serialize_tuple_struct(&mut self)
        ensures
            final(self)@ == old(self)@.push(0x5b),
            final(self).is_first(),
    {
        self.serialize_seq()
    }

    /// Opens a variant whose payload is a tuple: the head of the variant,
    /// then the bracket that opens a sequence.
    pub fn serialize_tuple_variant(&mut self, variant: &str)
        ensures
            final(self)@ == (old(self)@ + variant_head(variant@)).push(0x5b),
            final(self).is_first(),
    {
        self.begin_variant(variant);
        self.serialize_seq()
    }

    /// Opens a map: the next entry is its first.
    pub fn serialize_map(&mut self)
        ensures
            final(self)@ == old(self)@.push(0x7b),
            final(self).is_first(),
    {
        self.start = true;
        self.put(0x7b);
    }

    /// Opens a struct, which is written as a map.
    pub fn serialize_struct(&mut self)
        ensures
            final(self)@ == old(self)@.push(0x7b),
            final(self).is_first(),
    {
        self.serialize_map()
    }

    /// Opens a variant whose payload is a struct: the head of the variant,
    /// then the brace that opens a map.
    pub fn serialize_struct_variant(&mut self, variant: &str)
        ensures
            final(self)@ == (old(self)@ + variant_head(variant@)).push(0x7b),
            final(self).is_first(),
    {
        self.begin_variant(variant);
        self.serialize_map()
    }

    /// Writes what an item needs in front of it: a comma, unless the item is
    /// the first of its aggregate.
    pub fn begin_element(&mut self)
        ensures
            final(self)@ == old(self)@ + separator(old(self).is_first()),
            !final(self).is_first(),
    {
        if !self.start {
            self.put(0x2c);
        } else {
            self.start = false;
        }
        assert(self@ =~= old(self)@ + separator(old(self).is_first()));
    }

    /// Writes the colon that stands between a key and its value.
    pub fn end_key(&mut self)
        ensures
            final(self)@ == old(self)@.push(0x3a),
            final(self).is_first() == old(self).is_first(),
    {
        self.put(0x3a);
    }

    /// Closes a sequence. The sequence was an item of the aggregate around
    /// it, if there is one, so that aggregate is past its first item.
    pub fn end_seq(&mut self)
        ensures
            final(self)@ == old(self)@.push(0x5d),
            !final(self).is_first(),
    {
        self.put(0x5d);
        self.start = false;
    }

    /// Closes a map.
    pub fn end_map(&mut self)
        ensures
            final(self)@ == old(self)@.push(0x7d),
            !final(self).is_first(),
    {
        self.put(0x7d);
        self.start = false;
    }

    /// Closes a variant whose payload is a tuple: the bracket of the
    /// sequence, then the brace of the variant.
    pub fn end_tuple_variant(&mut self)
        ensures
            final(self)@ == old(self)@.push(0x5d).push(0x7d),
            !final(self).is_first(),
    {
        self.put(0x5d);
        self.put(0x7d);
        self.start = false;
    }

    /// Closes a variant whose payload is a struct: the brace of the map,
    /// then the brace of the variant.
    pub fn end_struct_variant(&mut self)
        ensures
            final(self)@ == old(self)@.push(0x7d).push(0x7d),
            !final(self).is_first(),
    {
        self.put(0x7d);
        self.put(0x7d);
        self.start = false;
    }
}

/// True when writing `value` ends with the closing of an aggregate, which
/// clears the flag of the writer.
pub open spec fn closes_aggregate(value: ValueView) -> bool
    decreases value,
{
    match value {
        ValueView::Bytes(_) => true,
        ValueView::Sequence(_) => true,
        ValueView::Mapping(_) => true,
        ValueView::Variant(_, Some(_)) => true,
        ValueView::Optional(Some(inner)) => closes_aggregate(*inner),
        _ => false,
    }
}

impl Serializer {
    /// Writes `value`, whatever it is. The write fails, with `KeyNotString`,
    /// exactly when some map in `value` has a key that is no text and no
    /// character; what was written before the key stays written.
    pub fn serialize(&mut self, value: &Value) -> (r: Result<(), Error>)
        ensures
            r is Ok <==> renderable(value@),
            r is Ok ==> final(self)@ == old(self)@ + render(value@),
            r is Ok ==> final(self).is_first() == (old(self).is_first() && !closes_aggregate(
                value@,
            )),
            r matches Err(e) ==> e@ == ErrorView::KeyNotString && old(self)@.is_prefix_of(
                final(self)@,
            ),
        decreases value, 0int,
    {
        match value {
            Value::Unit => {
                self.serialize_unit();
                Ok(())
            },
            Value::Bool(v) => {
                self.serialize_bool(*v);
                Ok(())
            },
            Value::Signed(v) => {
                self.serialize_i64(*v);
                Ok(())
            },
            Value::Unsigned(v) => {
                self.serialize_u64(*v);
                Ok(())
            },
            Value::Float(text) => {
                self.serialize_float(text.as_str());
                Ok(())
            },
            Value::Char(c) => {
                self.serialize_char(*c);
                Ok(())
            },
            Value::Str(text) => {
                self.serialize_str(text.as_str());
                Ok(())
            },
            Value::Bytes(bytes) => {
                self.serialize_bytes(bytes.as_slice());
                Ok(())
            },
            Value::Optional(None) => {
                self.serialize_none();
                Ok(())
            },
            Value::Optional(Some(inner)) => self.serialize_some(inner),
            Value::Sequence(items) => self.serialize_items(items),
            Value::Mapping(entries) => self.serialize_entries(entries),
            Value::Variant(name, None) => {
                self.serialize_unit_variant(name.as_str());
                Ok(())
            },
            Value::Variant(name, Some(payload)) => self.serialize_newtype_variant(
                name.as_str(),
                payload,
            ),
        }
    }

    /// Writes a sequence: a bracket, the items with commas between them, a
    /// bracket.
    fn serialize_items(&mut self, items: &Vec<Value>) -> (r: Result<(), Error>)
        ensures
            r is Ok <==> renderable(ValueView::Sequence(item_views(items@))),
            r is Ok ==> final(self)@ == old(self)@ + render(
                ValueView::Sequence(item_views(items@)),
            ),
            r is Ok ==> !final(self).is_first(),
            r matches Err(e) ==> e@ == ErrorView::KeyNotString && old(self)@.is_prefix_of(
                final(self)@,
            ),
        decreases items, 0int,
    {
        self.serialize_seq();
        let ghost opened = self@;
        let ghost views = item_views(items@);
        proof {
            lemma_item_views(items@);
            lemma_prefix_push(old(self)@, 0x5b);
        }
        let mut i: usize = 0;
        while i < items.len()
            invariant
                i <= items.len(),
                views == item_views(items@),
                views.len() == items@.len(),
                forall|j: int| 0 <= j < items@.len() ==> (#[trigger] views[j]) == value_view(items@[j]),
                self.is_first() == (i == 0),
                old(self)@.is_prefix_of(self@),
                self@ + render_items(views, i as int) == opened + render_items(views, 0),
                renderable_items(views, 0) == renderable_items(views, i as int),
            decreases items.len() - i,
        {
            let ghost before = self@;
            assert(decreases_to!(items => items@));
            assert(decreases_to!(items@ => items@[i as int]));
            match self.serialize_element(&items[i]) {
                Ok(_) => {},
                Err(e) => {
                    assert(!renderable(views[i as int]));
                    proof {
                        lemma_prefix_transitive(old(self)@, before, self@);
                    }
                    return Err(e);
                },
            }
            proof {
                assert(views[i as int] == value_view(items@[i as int]));
                assert(self@ + render_items(views, i + 1) =~= before + render_items(views, i as int));
                lemma_prefix_append(before, separator(i == 0) + render(views[i as int]));
                assert(before + (separator(i == 0) + render(views[i as int])) =~= self@);
                lemma_prefix_transitive(old(self)@, before, self@);
            }
            i = i + 1;
        }
        assert(self@ + render_items(views, i as int) =~= self@);
        self.end_seq();
        assert(self@ =~= old(self)@ + render(ValueView::Sequence(views)));
        Ok(())
    }

    /// Writes a map: a brace, the entries with commas between them, a
    /// brace.
    fn serialize_entries(&mut self, entries: &Vec<(Value, Value)>) -> (r: Result<(), Error>)
        ensures
            r is Ok <==> renderable(ValueView::Mapping(entry_views(entries@))),
            r is Ok ==> final(self)@ == old(self)@ + render(
                ValueView::Mapping(entry_views(entries@)),
            ),
            r is Ok ==> !final(self).is_first(),
            r matches Err(e) ==> e@ == ErrorView::KeyNotString && old(self)@.is_prefix_of(
                final(self)@,
            ),
        decreases entries, 0int,
    {
        self.serialize_map();
        let ghost opened = self@;
        let ghost views = entry_views(entries@);
        proof {
            lemma_entry_views(entries@);
            lemma_prefix_push(old(self)@, 0x7b);
        }
        let mut i: usize = 0;
        while i < entries.len()
            invariant
                i <= entries.len(),
                views == entry_views(entries@),
                views.len() == entries@.len(),
                forall|j: int|
                    0 <= j < entries@.len() ==> (#[trigger] views[j]) == (
                        value_view(entries@[j].0),
                        value_view(entries@[j].1),
                    ),
                self.is_first() == (i == 0),
                old(self)@.is_prefix_of(self@),
                self@ + render_entries(views, i as int) == opened + render_entries(views, 0),
                renderable_entries(views, 0) == renderable_entries(views, i as int),
            decreases entries.len() - i,
        {
            let ghost before = self@;
            assert(views[i as int] == (value_view(entries@[i as int].0), value_view(entries@[i as int].1)));
            match self.serialize_key(&entries[i].0) {
                Ok(_) => {},
                Err(e) => {
                    assert(key_text(views[i as int].0) is None);
                    proof {
                        lemma_prefix_append(before, separator(i == 0));
                        lemma_prefix_transitive(old(self)@, before, self@);
                    }
                    return Err(e);
                },
            }
            let ghost at_value = self@;
            proof {
                lemma_prefix_append(
                    before,
                    separator(i == 0) + key_text(views[i as int].0)->0 + seq![0x3au8],
                );
                assert(before + (separator(i == 0) + key_text(views[i as int].0)->0 + seq![0x3au8])
                    =~= at_value);
                lemma_prefix_transitive(old(self)@, before, at_value);
            }
            assert(decreases_to!(entries => entries@));
            assert(decreases_to!(entries@ => entries@[i as int]));
            assert(decreases_to!(entries@[i as int] => entries@[i as int].1));
            match self.serialize_value(&entries[i].1) {
                Ok(_) => {},
                Err(e) => {
                    assert(!renderable(views[i as int].1));
                    proof {
                        lemma_prefix_transitive(old(self)@, at_value, self@);
                    }
                    return Err(e);
                },
            }
            proof {
                assert(self@ =~= before + (separator(i == 0) + render_entry(views[i as int])));
                assert(self@ + render_entries(views, i + 1) =~= before + render_entries(
                    views,
                    i as int,
                ));
                lemma_prefix_append(at_value, render(views[i as int].1));
                lemma_prefix_transitive(old(self)@, at_value, self@);
            }
            i = i + 1;
        }
        assert(self@ + render_entries(views, i as int) =~= self@);
        self.end_map();
        assert(self@ =~= old(self)@ + render(ValueView::Mapping(views)));
        Ok(())
    }

    /// Writes a present value as the value itself.
    pub fn serialize_some(&mut self, value: &Value) -> (r: Result<(), Error>)
        ensures
            r is Ok <==> renderable(value@),
            r is Ok ==> final(self)@ == old(self)@ + render(value@),
            r is Ok ==> final(self).is_first() == (old(self).is_first() && !closes_aggregate(
                value@,
            )),
            r matches Err(e) ==> e@ == ErrorView::KeyNotString && old(self)@.is_prefix_of(
                final(self)@,
            ),
        decreases value, 1int,
    {
        self.serialize(value)
    }

    /// Writes a variant with a payload as an object of one entry: the name
    /// of the variant is the key, the payload the value.
    pub fn serialize_newtype_variant(&mut self, variant: &str, value: &Value) -> (r: Result<
        (),
        Error,
    >)
        ensures
            r is Ok <==> renderable(value@),
            r is Ok ==> final(self)@ == old(self)@ + variant_head(variant@) + render(value@) + seq![
                0x7du8,
            ],
            r is Ok ==> !final(self).is_first(),
            r matches Err(e) ==> e@ == ErrorView::KeyNotString && old(self)@.is_prefix_of(
                final(self)@,
            ),
        decreases value, 1int,
    {
        self.begin_variant(variant);
        self.serialize(value)?;
        self.end_variant();
        assert(self@ =~= old(self)@ + variant_head(variant@) + render(value@) + seq![0x7du8]);
        Ok(())
    }

    /// Writes one item of the open sequence: a comma unless the item is the
    /// first, then the item.
    pub fn serialize_element(&mut self, value: &Value) -> (r: Result<(), Error>)
        ensures
            r is Ok <==> renderable(value@),
            r is Ok ==> final(self)@ == old(self)@ + separator(old(self).is_first()) + render(
                value@,
            ),
            r is Ok ==> !final(self).is_first(),
            r matches Err(e) ==> e@ == ErrorView::KeyNotString && old(self)@.is_prefix_of(
                final(self)@,
            ),
        decreases value, 1int,
    {
        self.begin_element();
        self.serialize(value)
    }

    /// Writes the key of one entry of the open map: a comma unless the entry
    /// is the first, the key, a colon. A key that is no text and no character
    /// fails with `KeyNotString`, and then only the comma was written.
    pub fn serialize_key(&mut self, key: &Value) -> (r: Result<(), Error>)
        ensures
            r is Ok <==> key_text(key@) is Some,
            r is Ok ==> final(self)@ == old(self)@ + separator(old(self).is_first()) + key_text(
                key@,
            )->0 + seq![0x3au8],
            !final(self).is_first(),
            r matches Err(e) ==> e@ == ErrorView::KeyNotString && final(self)@ == old(self)@
                + separator(old(self).is_first()),
    {
        self.begin_element();
        KeySerializer::serialize(self, key)?;
        self.end_key();
        assert(self@ =~= old(self)@ + separator(old(self).is_first()) + key_text(key@)->0 + seq![
            0x3au8,
        ]);
        Ok(())
    }

    /// Writes the value of one entry of the open map.
    pub fn serialize_value(&mut self, value: &Value) -> (r: Result<(), Error>)
        ensures
            r is Ok <==> renderable(value@),
            r is Ok ==> final(self)@ == old(self)@ + render(value@),
            r is Ok ==> final(self).is_first() == (old(self).is_first() && !closes_aggregate(
                value@,
            )),
            r matches Err(e) ==> e@ == ErrorView::KeyNotString && old(self)@.is_prefix_of(
                final(self)@,
            ),
        decreases value, 1int,
    {
        self.serialize(value)
    }

    /// Writes one field of the open struct: an entry whose key is the name of
    /// the field.
    pub fn serialize_field(&mut self, key: &str, value: &Value) -> (r: Result<(), Error>)
        ensures
            r is Ok <==> renderable(value@),
            r is Ok ==> final(self)@ == old(self)@ + separator(old(self).is_first()) + quoted(key@)
                + seq![0x3au8] + render(value@),
            r is Ok ==> !final(self).is_first(),
            r matches Err(e) ==> e@ == ErrorView::KeyNotString && old(self)@.is_prefix_of(
                final(self)@,
            ),
    {
        self.begin_element();
        let _ = KeySerializer::serialize_str(self, key);
        self.end_key();
        let ghost at_value = self@;
        assert(at_value =~= old(self)@ + separator(old(self).is_first()) + quoted(key@) + seq![
            0x3au8,
        ]);
        self.serialize(value)
    }
}

/// The writer of keys: it writes texts and characters as the writer of
/// values does, looks through a present optional, and refuses everything
/// else with `KeyNotString`, writing nothing.
pub struct KeySerializer;

impl KeySerializer {
    /// Writes `key` as a key, if it can be one.
    pub fn serialize(ser: &mut Serializer, key: &Value) -> (r: Result<(), Error>)
        ensures
            r is Ok <==> key_text(key@) is Some,
            r is Ok ==> final(ser)@ == old(ser)@ + key_text(key@)->0,
            r matches Err(e) ==> e@ == ErrorView::KeyNotString && final(ser)@ == old(ser)@,
            final(ser).is_first() == old(ser).is_first(),
        decreases key,
    {
        match key {
            Value::Unit => Self::serialize_unit(ser),
            Value::Bool(v) => Self::serialize_bool(ser, *v),
            Value::Signed(v) => Self::serialize_i64(ser, *v),
            Value::Unsigned(v) => Self::serialize_u64(ser, *v),
            Value::Float(text) => Self::serialize_float(ser, text.as_str()),
            Value::Char(c) => Self::serialize_char(ser, *c),
            Value::Str(text) => Self::serialize_str(ser, text.as_str()),
            Value::Bytes(bytes) => Self::serialize_bytes(ser, bytes.as_slice()),
            Value::Optional(None) => Self::serialize_none(ser),
            Value::Optional(Some(inner)) => Self::serialize(ser, inner),
            Value::Sequence(_) => Self::serialize_seq(ser),
            Value::Mapping(_) => Self::serialize_map(ser),
            Value::Variant(name, None) => Self::serialize_unit_variant(ser, name.as_str()),
            Value::Variant(name, Some(_)) => Self::serialize_newtype_variant(ser, name.as_str()),
        }
    }

    /// A boolean is no key.
    pub fn serialize_bool(ser: &mut Serializer, v: bool) -> (r: Result<(), Error>)
        ensures
            r matches Err(e) && e@ == ErrorView::KeyNotString,
            *final(ser) == *old(ser),
    {
        Err(Error::KeyNotString)
    }

    /// A signed integer of 8 bits is no key.
    pub fn serialize_i8(ser: &mut Serializer, v: i8) -> (r: Result<(), Error>)
        ensures
            r matches Err(e) && e@ == ErrorView::KeyNotString,
            *final(ser) == *old(ser),
    {
        Err(Error::KeyNotString)
    }

    /// A signed integer of 16 bits is no key.
    pub fn serialize_i16(ser: &mut Serializer, v: i16) -> (r: Result<(), Error>)
        ensures
            r matches Err(e) && e@ == ErrorView::KeyNotString,
            *final(ser) == *old(ser),
    {
        Err(Error::KeyNotString)
    }

    /// A signed integer of 32 bits is no key.
    pub fn serialize_i32(ser: &mut Serializer, v: i32) -> (r: Result<(), Error>)
        ensures
            r matches Err(e) && e@ == ErrorView::KeyNotString,
            *final(ser) == *old(ser),
    {
        Err(Error::KeyNotString)
    }

    /// A signed integer of 64 bits is no key.
    pub fn serialize_i64(ser: &mut Serializer, v: i64) -> (r: Result<(), Error>)
        ensures
            r matches Err(e) && e@ == ErrorView::KeyNotString,
            *final(ser) == *old(ser),
    {
        Err(Error::KeyNotString)
    }

    /// An unsigned integer of 8 bits is no key.
    pub fn serialize_u8(ser: &mut Serializer, v: u8) -> (r: Result<(), Error>)
        ensures
            r matches Err(e) && e@ == ErrorView::KeyNotString,
            *final(ser) == *old(ser),
    {
        Err(Error::KeyNotString)
    }

    /// An unsigned integer of 16 bits is no key.
    pub fn serialize_u16(ser: &mut Serializer, v: u16) -> (r: Result<(), Error>)
        ensures
            r matches Err(e) && e@ == ErrorView::KeyNotString,
            *final(ser) == *old(ser),
    {
        Err(Error::KeyNotString)
    }

    /// An unsigned integer of 32 bits is no key.
    pub fn serialize_u32(ser: &mut Serializer, v: u32) -> (r: Result<(), Error>)
        ensures
            r matches Err(e) && e@ == ErrorView::KeyNotString,
            *final(ser) == *old(ser),
    {
        Err(Error::KeyNotString)
    }

    /// An unsigned integer of 64 bits is no key.
    pub fn serialize_u64(ser: &mut Serializer, v: u64) -> (r: Result<(), Error>)
        ensures
            r matches Err(e) && e@ == ErrorView::KeyNotString,
            *final(ser) == *old(ser),
    {
        Err(Error::KeyNotString)
    }

    /// A floating-point number is no key.
    pub fn serialize_float(ser: &mut Serializer, text: &str) -> (r: Result<(), Error>)
        ensures
            r matches Err(e) && e@ == ErrorView::KeyNotString,
            *final(ser) == *old(ser),
    {
        Err(Error::KeyNotString)
    }

    /// A character is a key: the string of that one character.
    pub fn serialize_char(ser: &mut Serializer, v: char) -> (r: Result<(), Error>)
        ensures
            r is Ok,
            final(ser)@ == old(ser)@ + quoted(seq![v]),
            final(ser).is_first() == old(ser).is_first(),
    {
        ser.serialize_char(v);
        Ok(())
    }

    /// A text is a key, written as any string is.
    pub fn serialize_str(ser: &mut Serializer, v: &str) -> (r: Result<(), Error>)
        ensures
            r is Ok,
            final(ser)@ == old(ser)@ + quoted(v@),
            final(ser).is_first() == old(ser).is_first(),
    {
        ser.serialize_str(v);
        Ok(())
    }

    /// A byte buffer is no key.
    pub fn serialize_bytes(ser: &mut Serializer, v: &[u8]) -> (r: Result<(), Error>)
        ensures
            r matches Err(e) && e@ == ErrorView::KeyNotString,
            *final(ser) == *old(ser),
    {
        Err(Error::KeyNotString)
    }

    /// An absent value is no key.
    pub fn serialize_none(ser: &mut Serializer) -> (r: Result<(), Error>)
        ensures
            r matches Err(e) && e@ == ErrorView::KeyNotString,
            *final(ser) == *old(ser),
    {
        Err(Error::KeyNotString)
    }

    /// A present value is a key where the value itself is one.
    pub fn serialize_some(ser: &mut Serializer, key: &Value) -> (r: Result<(), Error>)
        ensures
            r is Ok <==> key_text(key@) is Some,
            r is Ok ==> final(ser)@ == old(ser)@ + key_text(key@)->0,
            r matches Err(e) ==> e@ == ErrorView::KeyNotString && final(ser)@ == old(ser)@,
            final(ser).is_first() == old(ser).is_first(),
    {
        Self::serialize(ser, key)
    }

    /// The unit is no key.
    pub fn serialize_unit(ser: &mut Serializer) -> (r: Result<(), Error>)
        ensures
            r matches Err(e) && e@ == ErrorView::KeyNotString,
            *final(ser) == *old(ser),
    {
        Err(Error::KeyNotString)
    }

    /// A unit struct is no key.
    pub fn serialize_unit_struct(ser: &mut Serializer) -> (r: Result<(), Error>)
        ensures
            r matches Err(e) && e@ == ErrorView::KeyNotString,
            *final(ser) == *old(ser),
    {
        Err(Error::KeyNotString)
    }

    /// A variant without payload is no key.
    pub fn serialize_unit_variant(ser: &mut Serializer, variant: &str) -> (r: Result<(), Error>)
        ensures
            r matches Err(e) && e@ == ErrorView::KeyNotString,
            *final(ser) == *old(ser),
    {
        Err(Error::KeyNotString)
    }

    /// A variant with a payload is no key.
    pub fn serialize_newtype_variant(ser: &mut Serializer, variant: &str) -> (r: Result<(), Error>)
        ensures
            r matches Err(e) && e@ == ErrorView::KeyNotString,
            *final(ser) == *old(ser),
    {
        Err(Error::KeyNotString)
    }

    /// A sequence is no key.
    pub fn serialize_seq(ser: &mut Serializer) -> (r: Result<(), Error>)
        ensures
            r matches Err(e) && e@ == ErrorView::KeyNotString,
            *final(ser) == *old(ser),
    {
        Err(Error::KeyNotString)
    }

    /// A tuple is no key.
    pub fn serialize_tuple(ser: &mut Serializer) -> (r: Result<(), Error>)
        ensures
            r matches Err(e) && e@ == ErrorView::KeyNotString,
            *final(ser) == *old(ser),
    {
        Err(Error::KeyNotString)
    }

    /// A tuple struct is no key.
    pub fn serialize_tuple_struct(ser: &mut Serializer) -> (r: Result<(), Error>)
        ensures
            r matches Err(e) && e@ == ErrorView::KeyNotString,
            *final(ser) == *old(ser),
    {
        Err(Error::KeyNotString)
    }

    /// A variant whose payload is a tuple is no key.
    pub fn serialize_tuple_variant(ser: &mut Serializer, variant: &str) -> (r: Result<(), Error>)
        ensures
            r matches Err(e) && e@ == ErrorView::KeyNotString,
            *final(ser) == *old(ser),
    {
        Err(Error::KeyNotString)
    }

    /// A map is no key.
    pub fn serialize_map(ser: &mut Serializer) -> (r: Result<(), Error>)
        ensures
            r matches Err(e) && e@ == ErrorView::KeyNotString,
            *final(ser) == *old(ser),
    {
        Err(Error::KeyNotString)
    }

    /// A struct is no key.
    pub fn serialize_struct(ser: &mut Serializer) -> (r: Result<(), Error>)
        ensures
            r matches Err(e) && e@ == ErrorView::KeyNotString,
            *final(ser) == *old(ser),
    {
        Err(Error::KeyNotString)
    }

    /// A variant whose payload is a struct is no key.
    pub fn serialize_struct_variant(ser: &mut Serializer, variant: &str) -> (r: Result<(), Error>)
        ensures
            r matches Err(e) && e@ == ErrorView::KeyNotString,
            *final(ser) == *old(ser),
    {
        Err(Error::KeyNotString)
    }
}

/// Writes `value` to a fresh buffer and gives its bytes.
pub fn to_bytes(value: &Value) -> (r: Result<Vec<u8>, Error>)
    ensures
        r is Ok <==> renderable(value@),
        r matches Ok(bytes) ==> bytes@ == render(value@),
        r matches Err(e) ==> e@ == ErrorView::KeyNotString,
{
    let mut serializer = Serializer::new(Vec::new());
    serializer.serialize(value)?;
    let out = serializer.into_inner();
    assert(out@ =~= render(value@));
    Ok(out)
}

/// Writes `value` and gives the text. The text is there whenever the bytes
/// are: what the writer puts out is valid UTF-8.
pub fn to_string(value: &Value) -> (r: Result<String, Error>)
    ensures
        r is Ok <==> renderable(value@),
        r matches Ok(text) ==> encode_utf8(text@) == render(value@),
        r matches Err(e) ==> e@ == ErrorView::KeyNotString,
{
    let bytes = to_bytes(value)?;
    proof {
        lemma_render_valid_utf8(value@);
        decode_utf8_encode_utf8(bytes@);
    }
    match String::from_utf8(bytes) {
        Ok(text) => Ok(text),
        Err(_) => Err(Error::Utf8),
    }
}

/// A sequence begins what it is extended to.
pub proof fn lemma_prefix_append(a: Seq<u8>, b: Seq<u8>)
    ensures
        a.is_prefix_of(a + b),
{
    assert(a =~= (a + b).subrange(0, a.len() as int));
}

/// A sequence begins what it is extended to by one byte.
pub proof fn lemma_prefix_push(a: Seq<u8>, b: u8)
    ensures
        a.is_prefix_of(a.push(b)),
{
    assert(a =~= a.push(b).subrange(0, a.len() as int));
}

/// What begins a beginning of a sequence begins the sequence.
pub proof fn lemma_prefix_transitive(a: Seq<u8>, b: Seq<u8>, c: Seq<u8>)
    requires
        a.is_prefix_of(b),
        b.is_prefix_of(c),
    ensures
        a.is_prefix_of(c),
{
    assert(a =~= c.subrange(0, a.len() as int));
}

/// Escaping a text with one more character at its end appends the escape of
/// that character.
pub proof fn lemma_escape_text_push(text: Seq<char>, c: char)
    ensures
        escape_text(text.push(c)) == escape_text(text) + escape_spec(c),
    decreases text.len(),
{
    if text.len() == 0 {
        assert(text.push(c).drop_first() =~= Seq::<char>::empty());
        assert(escape_text(text.push(c).drop_first()) =~= Seq::<char>::empty());
        assert(escape_text(text.push(c)) =~= escape_spec(c));
        assert(escape_text(text) + escape_spec(c) =~= escape_spec(c));
    } else {
        assert(text.push(c).drop_first() =~= text.drop_first().push(c));
        lemma_escape_text_push(text.drop_first(), c);
        assert(escape_text(text.push(c)) =~= escape_text(text) + escape_spec(c));
    }
}

} // verus!
