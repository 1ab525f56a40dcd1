use vstd::prelude::*;

verus! {

/// A decoded value, materialized from the byte grammar.
///
/// Floats travel as their IEEE-754 bit patterns (`F32Bits`, `F64Bits`):
/// decoding must not normalize NaN payloads, and the raw bits carry every
/// pattern faithfully. A caller that wants a float reinterprets the bits.
#[derive(Debug, PartialEq, Eq)]
pub enum Value {
    /// The anonymous value carrying no data.
    Unit,
    Bool(bool),
    U8(u8),
    U16(u16),
    U32(u32),
    U64(u64),
    I8(i8),
    I16(i16),
    I32(i32),
    I64(i64),
    /// Bit pattern of a 32-bit IEEE-754 float.
    F32Bits(u32),
    /// Bit pattern of a 64-bit IEEE-754 float.
    F64Bits(u64),
    Text(String),
    /// The absent case of an optional value.
    Null,
    Sequence(Vec<Value>),
    Mapping(Vec<(Value, Value)>),
    /// An externally tagged enum variant: its name and its payload
    /// (`Unit` for a unit variant, a `Sequence` for a tuple variant,
    /// a `Mapping` for a struct variant).
    Variant(String, Box<Value>),
}

/// The mathematical shadow of [`Value`]: strings become character
/// sequences, vectors become sequences. Contracts speak of this model.
pub enum ValueModel {
    Unit,
    Bool(bool),
    U8(u8),
    U16(u16),
    U32(u32),
    U64(u64),
    I8(i8),
    I16(i16),
    I32(i32),
    I64(i64),
    F32Bits(u32),
    F64Bits(u64),
    Text(Seq<char>),
    Null,
    Sequence(Seq<ValueModel>),
    Mapping(Seq<(ValueModel, ValueModel)>),
    Variant(Seq<char>, Box<ValueModel>),
}

/// The model of a decoded value.
pub open spec fn value_model(v: Value) -> ValueModel
    decreases v,
{
    match v {
        Value::Unit => ValueModel::Unit,
        Value::Bool(b) => ValueModel::Bool(b),
        Value::U8(x) => ValueModel::U8(x),
        Value::U16(x) => ValueModel::U16(x),
        Value::U32(x) => ValueModel::U32(x),
        Value::U64(x) => ValueModel::U64(x),
        Value::I8(x) => ValueModel::I8(x),
        Value::I16(x) => ValueModel::I16(x),
        Value::I32(x) => ValueModel::I32(x),
        Value::I64(x) => ValueModel::I64(x),
        Value::F32Bits(x) => ValueModel::F32Bits(x),
        Value::F64Bits(x) => ValueModel::F64Bits(x),
        Value::Text(s) => ValueModel::Text(s@),
        Value::Null => ValueModel::Null,
        Value::Sequence(els) => ValueModel::Sequence(seq_model(els@)),
        Value::Mapping(entries) => ValueModel::Mapping(entries_model(entries@)),
        Value::Variant(name, payload) => ValueModel::Variant(name@, Box::new(value_model(*payload))),
    }
}

/// The models of a sequence of decoded values.
pub open spec fn seq_model(els: Seq<Value>) -> Seq<ValueModel>
    decreases els,
{
    if els.len() == 0 {
        Seq::empty()
    } else {
        seq_model(els.drop_last()).push(value_model(els.last()))
    }
}

/// The models of a sequence of decoded key-value entries.
pub open spec fn entries_model(entries: Seq<(Value, Value)>) -> Seq<(ValueModel, ValueModel)>
    decreases entries,
{
    if entries.len() == 0 {
        Seq::empty()
    } else {
        entries_model(entries.drop_last()).push(
            (value_model(entries.last().0), value_model(entries.last().1)),
        )
    }
}

/// What kind of value the caller expects at the head of the input: the
/// target shape description that drives a decode.
#[derive(Debug, PartialEq, Eq)]
pub enum Shape {
    Bool,
    U8,
    U16,
    U32,
    U64,
    I8,
    I16,
    I32,
    I64,
    /// A 32-bit float, decoded to its bit pattern.
    F32,
    /// A 64-bit float, decoded to its bit pattern.
    F64,
    Text,
    Unit,
    /// An optional value wrapping the given shape.
    Optional(Box<Shape>),
    /// A homogeneous sequence of elements of the given shape.
    Sequence(Box<Shape>),
    /// A fixed-arity sequence with one shape per position.
    Tuple(Vec<Shape>),
    /// A map with the given key and value shapes.
    Mapping(Box<Shape>, Box<Shape>),
    /// An externally tagged enum with the given named variants.
    Enum(Vec<(String, VariantShape)>),
}

/// The payload form of one enum variant.
#[derive(Debug, PartialEq, Eq)]
pub enum VariantShape {
    /// No payload: encoded as a bare variant-name string.
    Unit,
    /// A single value of the given shape.
    Newtype(Box<Shape>),
    /// A sequence payload with one shape per position.
    Tuple(Vec<Shape>),
    /// A map payload with the given key and value shapes.
    Struct(Box<Shape>, Box<Shape>),
}

/// The payload shape declared for a variant name, if the name is among the
/// declared variants. The first declaration of a name wins.
pub open spec fn find_variant(variants: Seq<(String, VariantShape)>, name: Seq<char>) -> Option<
    VariantShape,
>
    decreases variants.len(),
{
    if variants.len() == 0 {
        None
    } else if variants[0].0@ == name {
        Some(variants[0].1)
    } else {
        find_variant(variants.drop_first(), name)
    }
}

} // verus!
