use vstd::prelude::*;

use crate::value::Value;

verus! {

/// What the reader of a value expects: the deserializing side of the value
/// model, which tells the parser which category comes next.
#[derive(Debug, PartialEq, Eq)]
pub enum Shape {
    Bool,
    Int,
    UInt,
    Char,
    Str,
    Unit,
    /// `/` for an absent value, else the inner value.
    Optional(Box<Shape>),
    Sequence(Box<Shape>),
    Tuple(Vec<Shape>),
    /// Keys of the first shape, values of the second.
    Mapping(Box<Shape>, Box<Shape>),
    /// Fixed field names, each with the shape of its value.
    Struct(Vec<(String, Shape)>),
    /// The admissible variant tags, each with the shape of its payload.
    Enum(Vec<(String, VariantShape)>),
}

/// The payload of one variant of an `Enum` shape.
#[derive(Debug, PartialEq, Eq)]
pub enum VariantShape {
    Unit,
    Newtype(Shape),
    Tuple(Vec<Shape>),
    Struct(Vec<(String, Shape)>),
}

/// `v` is a value of shape `s`.
pub open spec fn conforms(v: Value, s: Shape) -> bool
    decreases s,
{
    match s {
        Shape::Bool => v is Bool,
        Shape::Int => v is Int,
        Shape::UInt => v is UInt,
        Shape::Char => v is Char,
        Shape::Str => v is Str,
        Shape::Unit => v is Unit,
        Shape::Optional(inner) => v is Unit || conforms(v, *inner),
        Shape::Sequence(inner) => match v {
            Value::Sequence(items) => forall|i: int|
                0 <= i < items@.len() ==> conforms(#[trigger] items@[i], *inner),
            _ => false,
        },
        Shape::Tuple(shapes) => match v {
            Value::Tuple(items) => conforms_all(items@, shapes@),
            _ => false,
        },
        Shape::Mapping(k, w) => match v {
            Value::Mapping(pairs) => forall|i: int|
                0 <= i < pairs@.len() ==> conforms(#[trigger] pairs@[i].0, *k) && conforms(
                    pairs@[i].1,
                    *w,
                ),
            _ => false,
        },
        Shape::Struct(fields) => match v {
            Value::Mapping(pairs) => conforms_fields(pairs@, fields@),
            _ => false,
        },
        Shape::Enum(variants) => match v {
            Value::UnitVariant(tag) => exists|i: int|
                0 <= i < variants@.len() && #[trigger] variants@[i].0@ == tag@
                    && variants@[i].1 is Unit,
            Value::NewtypeVariant(tag, inner) => exists|i: int|
                0 <= i < variants@.len() && #[trigger] variants@[i].0@ == tag@ && match variants@[i].1 {
                    VariantShape::Newtype(p) => conforms(*inner, p),
                    _ => false,
                },
            Value::TupleVariant(tag, items) => exists|i: int|
                0 <= i < variants@.len() && #[trigger] variants@[i].0@ == tag@ && match variants@[i].1 {
                    VariantShape::Tuple(ps) => conforms_all(items@, ps@),
                    _ => false,
                },
            Value::StructVariant(tag, pairs) => exists|i: int|
                0 <= i < variants@.len() && #[trigger] variants@[i].0@ == tag@ && match variants@[i].1 {
                    VariantShape::Struct(fs) => conforms_fields(pairs@, fs@),
                    _ => false,
                },
            _ => false,
        },
    }
}

/// Each of `items` is of the shape at the same index, and there are as many.
pub open spec fn conforms_all(items: Seq<Value>, shapes: Seq<Shape>) -> bool
    decreases shapes,
{
    if shapes.len() == 0 {
        items.len() == 0
    } else {
        &&& items.len() == shapes.len()
        &&& conforms_all(items.drop_last(), shapes.drop_last())
        &&& conforms(items.last(), shapes.last())
    }
}

/// The pairs name the fields in order, each as a bare string key, and each
/// value is of its field's shape.
pub open spec fn conforms_fields(pairs: Seq<(Value, Value)>, fields: Seq<(String, Shape)>) -> bool
    decreases fields,
{
    if fields.len() == 0 {
        pairs.len() == 0
    } else {
        &&& pairs.len() == fields.len()
        &&& conforms_fields(pairs.drop_last(), fields.drop_last())
        &&& field_pair(pairs.last(), fields.last())
    }
}

/// A pair names a field as a bare string key, and its value is of the field's shape.
pub open spec fn field_pair(pair: (Value, Value), field: (String, Shape)) -> bool
    decreases field,
{
    &&& pair.0 matches Value::Str(k) && k@ == field.0@
    &&& conforms(pair.1, field.1)
}

} // verus!
