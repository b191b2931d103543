//! Scalar values and their types.

use vstd::prelude::*;

verus! {

/// The type of a scalar value. A scalar field keeps its type for life: a
/// replacement value must have the type of the value it replaces.
#[derive(Clone, Copy, PartialEq, Eq, Structural, Debug, Hash)]
pub enum ValueType {
    Bool,
    Int,
    UInt,
    Text,
    Bytes,
}

/// A scalar value, tagged with its type.
#[derive(PartialEq, Eq, Debug)]
pub enum Value {
    Bool(bool),
    Int(i64),
    UInt(u64),
    Text(String),
    Bytes(Vec<u8>),
}

/// The mathematical content of a [`Value`].
pub enum ValueView {
    Bool(bool),
    Int(i64),
    UInt(u64),
    Text(Seq<char>),
    Bytes(Seq<u8>),
}

impl ValueView {
    pub open spec fn value_type(self) -> ValueType {
        match self {
            ValueView::Bool(_) => ValueType::Bool,
            ValueView::Int(_) => ValueType::Int,
            ValueView::UInt(_) => ValueType::UInt,
            ValueView::Text(_) => ValueType::Text,
            ValueView::Bytes(_) => ValueType::Bytes,
        }
    }
}

impl View for Value {
    type V = ValueView;

    open spec fn view(&self) -> ValueView {
        match self {
            Value::Bool(b) => ValueView::Bool(*b),
            Value::Int(i) => ValueView::Int(*i),
            Value::UInt(u) => ValueView::UInt(*u),
            Value::Text(s) => ValueView::Text(s@),
            Value::Bytes(b) => ValueView::Bytes(b@),
        }
    }
}

impl Value {
    /// The type tag of this value.
    pub fn value_type(&self) -> (t: ValueType)
        ensures
            t == self@.value_type(),
    {
        match self {
            Value::Bool(_) => ValueType::Bool,
            Value::Int(_) => ValueType::Int,
            Value::UInt(_) => ValueType::UInt,
            Value::Text(_) => ValueType::Text,
            Value::Bytes(_) => ValueType::Bytes,
        }
    }
}

impl Clone for Value {
    fn clone(&self) -> (copy: Self)
        ensures
            copy@ == self@,
    {
        match self {
            Value::Bool(b) => Value::Bool(*b),
            Value::Int(i) => Value::Int(*i),
            Value::UInt(u) => Value::UInt(*u),
            Value::Text(s) => Value::Text(s.clone()),
            Value::Bytes(b) => Value::Bytes(b.clone()),
        }
    }
}

} // verus!
