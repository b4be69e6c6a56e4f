//! The values and shapes the codec understands.
//!
//! A `Value` is the in-memory form of anything the wire format can carry:
//! primitives, strings, optionals, sequences, tuples, maps and tagged sums.
//! A `Shape` describes the layout a decoder expects; the stream itself is not
//! self-describing, so decoding is always driven by a shape.
//!
//! Floating-point payloads are carried as their IEEE-754 bit patterns
//! (`F32Bits`, `F64Bits`); the wire format only ever sees those bits.

use vstd::prelude::*;

verus! {

/// A structured value of a supported shape.
#[derive(Debug, PartialEq)]
pub enum Value {
    Bool(bool),
    U8(u8),
    U16(u16),
    U32(u32),
    U64(u64),
    U128(u128),
    I8(i8),
    I16(i16),
    I32(i32),
    I64(i64),
    I128(i128),
    /// A 32-bit float, by its bit pattern.
    F32Bits(u32),
    /// A 64-bit float, by its bit pattern.
    F64Bits(u64),
    Char(char),
    Bytes(Vec<u8>),
    Text(String),
    Optional(Option<Box<Value>>),
    Unit,
    Newtype(Box<Value>),
    Sequence(Vec<Value>),
    Tuple(Vec<Value>),
    Dict(Vec<MapEntry>),
    /// A tagged-sum value: the variant's declaration ordinal and its fields.
    Variant(u32, Vec<Value>),
}

/// One key/value pair of a map value.
#[derive(Debug, PartialEq)]
pub struct MapEntry {
    pub key: Value,
    pub value: Value,
}

/// The mathematical form of a `Value`, used by all contracts.
pub enum ValueModel {
    Bool(bool),
    U8(u8),
    U16(u16),
    U32(u32),
    U64(u64),
    U128(u128),
    I8(i8),
    I16(i16),
    I32(i32),
    I64(i64),
    I128(i128),
    F32Bits(u32),
    F64Bits(u64),
    Char(char),
    Bytes(Seq<u8>),
    Text(Seq<char>),
    Optional(Option<Box<ValueModel>>),
    Unit,
    Newtype(Box<ValueModel>),
    Sequence(Seq<ValueModel>),
    Tuple(Seq<ValueModel>),
    Dict(Seq<(ValueModel, ValueModel)>),
    Variant(u32, Seq<ValueModel>),
}

/// The model of a sequence of values, element by element.
pub open spec fn view_list(s: Seq<Value>) -> Seq<ValueModel>
    decreases s,
{
    Seq::new(
        s.len(),
        |i: int| if 0 <= i < s.len() {
            vm(s[i])
        } else {
            vstd::pervasive::arbitrary()
        },
    )
}

/// The model of a sequence of map entries, entry by entry.
pub open spec fn view_entries(s: Seq<MapEntry>) -> Seq<(ValueModel, ValueModel)>
    decreases s,
{
    Seq::new(
        s.len(),
        |i: int| if 0 <= i < s.len() {
            (vm(s[i].key), vm(s[i].value))
        } else {
            vstd::pervasive::arbitrary()
        },
    )
}

/// The mathematical form of the given value.
pub open spec fn vm(v: Value) -> ValueModel
    decreases v,
{
    match v {
        Value::Bool(b) => ValueModel::Bool(b),
        Value::U8(x) => ValueModel::U8(x),
        Value::U16(x) => ValueModel::U16(x),
        Value::U32(x) => ValueModel::U32(x),
        Value::U64(x) => ValueModel::U64(x),
        Value::U128(x) => ValueModel::U128(x),
        Value::I8(x) => ValueModel::I8(x),
        Value::I16(x) => ValueModel::I16(x),
        Value::I32(x) => ValueModel::I32(x),
        Value::I64(x) => ValueModel::I64(x),
        Value::I128(x) => ValueModel::I128(x),
        Value::F32Bits(x) => ValueModel::F32Bits(x),
        Value::F64Bits(x) => ValueModel::F64Bits(x),
        Value::Char(c) => ValueModel::Char(c),
        Value::Bytes(b) => ValueModel::Bytes(b@),
        Value::Text(t) => ValueModel::Text(t@),
        Value::Optional(o) => match o {
            Option::None => ValueModel::Optional(Option::None),
            Option::Some(inner) => ValueModel::Optional(
                Option::Some(Box::new(vm(*inner))),
            ),
        },
        Value::Unit => ValueModel::Unit,
        Value::Newtype(inner) => ValueModel::Newtype(Box::new(vm(*inner))),
        Value::Sequence(elems) => ValueModel::Sequence(view_list(elems@)),
        Value::Tuple(fields) => ValueModel::Tuple(view_list(fields@)),
        Value::Dict(entries) => ValueModel::Dict(view_entries(entries@)),
        Value::Variant(tag, fields) => ValueModel::Variant(
            tag,
            view_list(fields@),
        ),
    }
}

impl View for Value {
    type V = ValueModel;

    open spec fn view(&self) -> ValueModel {
        vm(*self)
    }
}

/// The layout a decoder expects next on the wire.
#[derive(Debug, PartialEq)]
pub enum Shape {
    Bool,
    U8,
    U16,
    U32,
    U64,
    U128,
    I8,
    I16,
    I32,
    I64,
    I128,
    F32,
    F64,
    Char,
    Bytes,
    Text,
    Unit,
    Optional(Box<Shape>),
    Newtype(Box<Shape>),
    Sequence(Box<Shape>),
    Tuple(Vec<Shape>),
    Dict(Box<Shape>, Box<Shape>),
    Sum(Vec<Arm>),
}

/// One variant of a tagged sum: the shapes of its fields, in order.
#[derive(Debug, PartialEq)]
pub struct Arm {
    pub fields: Vec<Shape>,
}

/// The mathematical form of a `Shape`.
pub enum ShapeModel {
    Bool,
    U8,
    U16,
    U32,
    U64,
    U128,
    I8,
    I16,
    I32,
    I64,
    I128,
    F32,
    F64,
    Char,
    Bytes,
    Text,
    Unit,
    Optional(Box<ShapeModel>),
    Newtype(Box<ShapeModel>),
    Sequence(Box<ShapeModel>),
    Tuple(Seq<ShapeModel>),
    Dict(Box<ShapeModel>, Box<ShapeModel>),
    Sum(Seq<Seq<ShapeModel>>),
}

/// The model of a list of shapes, element by element.
pub open spec fn view_shapes(s: Seq<Shape>) -> Seq<ShapeModel>
    decreases s,
{
    Seq::new(
        s.len(),
        |i: int| if 0 <= i < s.len() {
            sm(s[i])
        } else {
            vstd::pervasive::arbitrary()
        },
    )
}

/// The model of a list of sum arms, arm by arm.
pub open spec fn view_arms(s: Seq<Arm>) -> Seq<Seq<ShapeModel>>
    decreases s,
{
    Seq::new(
        s.len(),
        |i: int| if 0 <= i < s.len() {
            view_shapes(s[i].fields@)
        } else {
            vstd::pervasive::arbitrary()
        },
    )
}

/// The mathematical form of the given shape.
pub open spec fn sm(s: Shape) -> ShapeModel
    decreases s,
{
    match s {
        Shape::Bool => ShapeModel::Bool,
        Shape::U8 => ShapeModel::U8,
        Shape::U16 => ShapeModel::U16,
        Shape::U32 => ShapeModel::U32,
        Shape::U64 => ShapeModel::U64,
        Shape::U128 => ShapeModel::U128,
        Shape::I8 => ShapeModel::I8,
        Shape::I16 => ShapeModel::I16,
        Shape::I32 => ShapeModel::I32,
        Shape::I64 => ShapeModel::I64,
        Shape::I128 => ShapeModel::I128,
        Shape::F32 => ShapeModel::F32,
        Shape::F64 => ShapeModel::F64,
        Shape::Char => ShapeModel::Char,
        Shape::Bytes => ShapeModel::Bytes,
        Shape::Text => ShapeModel::Text,
        Shape::Unit => ShapeModel::Unit,
        Shape::Optional(inner) => ShapeModel::Optional(Box::new(sm(*inner))),
        Shape::Newtype(inner) => ShapeModel::Newtype(Box::new(sm(*inner))),
        Shape::Sequence(inner) => ShapeModel::Sequence(Box::new(sm(*inner))),
        Shape::Tuple(fields) => ShapeModel::Tuple(view_shapes(fields@)),
        Shape::Dict(k, v) => ShapeModel::Dict(Box::new(sm(*k)), Box::new(sm(*v))),
        Shape::Sum(arms) => ShapeModel::Sum(view_arms(arms@)),
    }
}

impl View for Shape {
    type V = ShapeModel;

    open spec fn view(&self) -> ShapeModel {
        sm(*self)
    }
}

} // verus!
