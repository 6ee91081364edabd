use vstd::prelude::*;

verus! {

/// The vocabulary of the format: every value the codec writes or reads
/// reduces to one of these. A named structure is a `Mapping` whose keys are
/// `Str` values; an absent optional is `Unit`, a present one its inner value.
#[derive(Debug, PartialEq, Eq)]
pub enum Value {
    Bool(bool),
    Int(i64),
    UInt(u64),
    Char(char),
    Str(String),
    Unit,
    Sequence(Vec<Value>),
    Tuple(Vec<Value>),
    UnitVariant(String),
    NewtypeVariant(String, Box<Value>),
    TupleVariant(String, Vec<Value>),
    Mapping(Vec<(Value, Value)>),
    StructVariant(String, Vec<(Value, Value)>),
}

} // verus!
