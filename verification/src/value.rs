//! The data model: the values that are written and read, and the shapes that
//! direct a read.

use vstd::prelude::*;

verus! {

/// A value of the data model.
#[derive(Debug, PartialEq, Eq)]
pub enum Value {
    /// The unit, written `null`.
    Unit,
    /// A boolean.
    Bool(bool),
    /// A signed integer of up to 64 bits.
    Signed(i64),
    /// An unsigned integer of up to 64 bits.
    Unsigned(u64),
    /// A floating-point number, carried as its decimal text.
    Float(String),
    /// A character.
    Char(char),
    /// A text.
    Str(String),
    /// A byte buffer.
    Bytes(Vec<u8>),
    /// A value that may be absent.
    Optional(Option<Box<Value>>),
    /// A sequence, a tuple or a tuple struct: items in order.
    Sequence(Vec<Value>),
    /// A map or a struct: entries in order, each a key and a value.
    Mapping(Vec<(Value, Value)>),
    /// One case of a tagged union: its name, and its payload if it has one.
    /// A payload of one value stands for itself, a tuple payload is a
    /// sequence, named fields are a map.
    Variant(String, Option<Box<Value>>),
}

/// A value of the data model as a mathematical term.
pub enum ValueView {
    Unit,
    Bool(bool),
    Signed(i64),
    Unsigned(u64),
    Float(Seq<char>),
    Char(char),
    Str(Seq<char>),
    Bytes(Seq<u8>),
    Optional(Option<Box<ValueView>>),
    Sequence(Seq<ValueView>),
    Mapping(Seq<(ValueView, ValueView)>),
    Variant(Seq<char>, Option<Box<ValueView>>),
}

/// The term that `value` stands for.
pub open spec fn value_view(value: Value) -> ValueView
    decreases value,
{
    match value {
        Value::Unit => ValueView::Unit,
        Value::Bool(v) => ValueView::Bool(v),
        Value::Signed(v) => ValueView::Signed(v),
        Value::Unsigned(v) => ValueView::Unsigned(v),
        Value::Float(text) => ValueView::Float(text@),
        Value::Char(c) => ValueView::Char(c),
        Value::Str(text) => ValueView::Str(text@),
        Value::Bytes(bytes) => ValueView::Bytes(bytes@),
        Value::Optional(None) => ValueView::Optional(None),
        Value::Optional(Some(inner)) => ValueView::Optional(Some(Box::new(value_view(*inner)))),
        Value::Sequence(items) => ValueView::Sequence(item_views(items@)),
        Value::Mapping(entries) => ValueView::Mapping(entry_views(entries@)),
        Value::Variant(name, None) => ValueView::Variant(name@, None),
        Value::Variant(name, Some(payload)) => ValueView::Variant(
            name@,
            Some(Box::new(value_view(*payload))),
        ),
    }
}

/// The terms that `items` stand for, in order.
pub open spec fn item_views(items: Seq<Value>) -> Seq<ValueView>
    decreases items,
{
    if items.len() == 0 {
        Seq::empty()
    } else {
        item_views(items.drop_last()).push(value_view(items.last()))
    }
}

/// The terms that `entries` stand for, in order.
pub open spec fn entry_views(entries: Seq<(Value, Value)>) -> Seq<(ValueView, ValueView)>
    decreases entries,
{
    if entries.len() == 0 {
        Seq::empty()
    } else {
        entry_views(entries.drop_last()).push(
            (value_view(entries.last().0), value_view(entries.last().1)),
        )
    }
}

impl View for Value {
    type V = ValueView;

    open spec fn view(&self) -> ValueView {
        value_view(*self)
    }
}

/// What a read expects to find.
#[derive(Debug, PartialEq, Eq)]
pub enum Shape {
    /// Nothing is expected: the bytes themselves say what the value is.
    Any,
    /// The unit.
    Unit,
    /// A boolean.
    Bool,
    /// A signed integer of 8 bits.
    I8,
    /// A signed integer of 16 bits.
    I16,
    /// A signed integer of 32 bits.
    I32,
    /// A signed integer of 64 bits.
    I64,
    /// An unsigned integer of 8 bits.
    U8,
    /// An unsigned integer of 16 bits.
    U16,
    /// An unsigned integer of 32 bits.
    U32,
    /// An unsigned integer of 64 bits.
    U64,
    /// A floating-point number.
    Float,
    /// A character.
    Char,
    /// A text.
    Str,
    /// A byte buffer.
    Bytes,
    /// A value of the given shape, or none.
    Optional(Box<Shape>),
    /// Any number of items of one shape.
    Sequence(Box<Shape>),
    /// Any number of entries, with keys of one shape and values of another.
    Mapping(Box<Shape>, Box<Shape>),
    /// A tuple: as many items as there are shapes, each of its own shape.
    Tuple(Vec<Shape>),
    /// A struct: entries whose keys are names of fields, each value of the
    /// shape of its field. The entries may come in any order.
    Struct(Vec<(String, Shape)>),
    /// A tagged union: the names of its variants, each with the shape of its
    /// payload if it has one.
    Enum(Vec<(String, Option<Shape>)>),
}

/// A shape as a mathematical term.
pub enum ShapeView {
    Any,
    Unit,
    Bool,
    I8,
    I16,
    I32,
    I64,
    U8,
    U16,
    U32,
    U64,
    Float,
    Char,
    Str,
    Bytes,
    Optional(Box<ShapeView>),
    Sequence(Box<ShapeView>),
    Mapping(Box<ShapeView>, Box<ShapeView>),
    Tuple(Seq<ShapeView>),
    Struct(Seq<(Seq<char>, ShapeView)>),
    Enum(Seq<(Seq<char>, Option<ShapeView>)>),
}

/// The term that `shape` stands for.
pub open spec fn shape_view(shape: Shape) -> ShapeView
    decreases shape,
{
    match shape {
        Shape::Any => ShapeView::Any,
        Shape::Unit => ShapeView::Unit,
        Shape::Bool => ShapeView::Bool,
        Shape::I8 => ShapeView::I8,
        Shape::I16 => ShapeView::I16,
        Shape::I32 => ShapeView::I32,
        Shape::I64 => ShapeView::I64,
        Shape::U8 => ShapeView::U8,
        Shape::U16 => ShapeView::U16,
        Shape::U32 => ShapeView::U32,
        Shape::U64 => ShapeView::U64,
        Shape::Float => ShapeView::Float,
        Shape::Char => ShapeView::Char,
        Shape::Str => ShapeView::Str,
        Shape::Bytes => ShapeView::Bytes,
        Shape::Optional(inner) => ShapeView::Optional(Box::new(shape_view(*inner))),
        Shape::Sequence(item) => ShapeView::Sequence(Box::new(shape_view(*item))),
        Shape::Mapping(key, value) => ShapeView::Mapping(
            Box::new(shape_view(*key)),
            Box::new(shape_view(*value)),
        ),
        Shape::Tuple(items) => ShapeView::Tuple(shape_views(items@)),
        Shape::Struct(fields) => ShapeView::Struct(field_views(fields@)),
        Shape::Enum(variants) => ShapeView::Enum(variant_views(variants@)),
    }
}

/// The terms that the shapes of the items of a tuple stand for, in order.
pub open spec fn shape_views(items: Seq<Shape>) -> Seq<ShapeView>
    decreases items,
{
    if items.len() == 0 {
        Seq::empty()
    } else {
        shape_views(items.drop_last()).push(shape_view(items.last()))
    }
}

/// The terms that the fields of a struct stand for, in order.
pub open spec fn field_views(fields: Seq<(String, Shape)>) -> Seq<(Seq<char>, ShapeView)>
    decreases fields,
{
    if fields.len() == 0 {
        Seq::empty()
    } else {
        field_views(fields.drop_last()).push((fields.last().0@, shape_view(fields.last().1)))
    }
}

/// The terms that the variants of a tagged union stand for, in order.
pub open spec fn variant_views(variants: Seq<(String, Option<Shape>)>) -> Seq<
    (Seq<char>, Option<ShapeView>),
>
    decreases variants,
{
    if variants.len() == 0 {
        Seq::empty()
    } else {
        variant_views(variants.drop_last()).push(
            (
                variants.last().0@,
                match variants.last().1 {
                    Some(payload) => Some(shape_view(payload)),
                    None => None,
                },
            ),
        )
    }
}

impl View for Shape {
    type V = ShapeView;

    open spec fn view(&self) -> ShapeView {
        shape_view(*self)
    }
}

/// The terms of a sequence of values stand where the values stand.
pub proof fn lemma_item_views(items: Seq<Value>)
    ensures
        item_views(items).len() == items.len(),
        forall|i: int| 0 <= i < items.len() ==> (#[trigger] item_views(items)[i]) == value_view(items[i]),
    decreases items.len(),
{
    if items.len() > 0 {
        lemma_item_views(items.drop_last());
    }
}

/// The terms of a sequence with one more value at its end.
pub proof fn lemma_item_views_push(items: Seq<Value>, value: Value)
    ensures
        item_views(items.push(value)) == item_views(items).push(value_view(value)),
{
    assert(items.push(value).drop_last() =~= items);
}

/// The terms of a sequence of entries stand where the entries stand.
pub proof fn lemma_entry_views(entries: Seq<(Value, Value)>)
    ensures
        entry_views(entries).len() == entries.len(),
        forall|i: int|
            0 <= i < entries.len() ==> (#[trigger] entry_views(entries)[i]) == (
                value_view(entries[i].0),
                value_view(entries[i].1),
            ),
    decreases entries.len(),
{
    if entries.len() > 0 {
        lemma_entry_views(entries.drop_last());
    }
}

/// The terms of a sequence of entries with one more entry at its end.
pub proof fn lemma_entry_views_push(entries: Seq<(Value, Value)>, key: Value, value: Value)
    ensures
        entry_views(entries.push((key, value))) == entry_views(entries).push(
            (value_view(key), value_view(value)),
        ),
{
    assert(entries.push((key, value)).drop_last() =~= entries);
}

/// The terms of the shapes of a tuple stand where the shapes stand.
pub proof fn lemma_shape_views(items: Seq<Shape>)
    ensures
        shape_views(items).len() == items.len(),
        forall|i: int| 0 <= i < items.len() ==> (#[trigger] shape_views(items)[i]) == shape_view(items[i]),
    decreases items.len(),
{
    if items.len() > 0 {
        lemma_shape_views(items.drop_last());
    }
}

/// The terms of the fields of a struct stand where the fields stand.
pub proof fn lemma_field_views(fields: Seq<(String, Shape)>)
    ensures
        field_views(fields).len() == fields.len(),
        forall|i: int|
            0 <= i < fields.len() ==> (#[trigger] field_views(fields)[i]) == (
                fields[i].0@,
                shape_view(fields[i].1),
            ),
    decreases fields.len(),
{
    if fields.len() > 0 {
        lemma_field_views(fields.drop_last());
    }
}

/// The terms of the variants of a union stand where the variants stand.
pub proof fn lemma_variant_views(variants: Seq<(String, Option<Shape>)>)
    ensures
        variant_views(variants).len() == variants.len(),
        forall|i: int|
            0 <= i < variants.len() ==> (#[trigger] variant_views(variants)[i]) == (
                variants[i].0@,
                match variants[i].1 {
                    Some(payload) => Some(shape_view(payload)),
                    None => None,
                },
            ),
    decreases variants.len(),
{
    if variants.len() > 0 {
        lemma_variant_views(variants.drop_last());
    }
}

} // verus!
