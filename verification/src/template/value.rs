//! The bind values that a fragment can carry.

use vstd::prelude::*;

use crate::template::mapping::ColumnType;

verus! {

/// An instant in UTC: whole seconds since the epoch, and nanoseconds past them.
#[derive(Debug, Clone, Copy, PartialEq, Eq, Structural)]
pub struct Timestamp {
    pub seconds: i64,
    pub nanos: u32,
}

/// A value produced while rendering a fragment.
///
/// There is no null: a bound null makes a comparison unknown, so nothing that means what a
/// caller intends would ever carry one. A floating-point number is held as its bits.
#[derive(Debug, PartialEq, Eq)]
pub enum Value {
    Bool(bool),
    Int(i64),
    Float(u64),
    Text(String),
    Bytes(Vec<u8>),
    Timestamp(Timestamp),
}

/// A value, as contracts speak of it.
pub enum ValueView {
    Bool(bool),
    Int(i64),
    Float(u64),
    Text(Seq<char>),
    Bytes(Seq<u8>),
    Timestamp(Timestamp),
}

impl ValueView {
    /// The column type that this value can be compared against.
    pub open spec fn ty(self) -> ColumnType {
        match self {
            ValueView::Bool(_) => ColumnType::Bool,
            ValueView::Int(_) => ColumnType::Int,
            ValueView::Float(_) => ColumnType::Float,
            ValueView::Text(_) => ColumnType::Text,
            ValueView::Bytes(_) => ColumnType::Bytes,
            ValueView::Timestamp(_) => ColumnType::Timestamp,
        }
    }
}

impl View for Value {
    type V = ValueView;

    open spec fn view(&self) -> ValueView {
        match self {
            Value::Bool(b) => ValueView::Bool(*b),
            Value::Int(n) => ValueView::Int(*n),
            Value::Float(bits) => ValueView::Float(*bits),
            Value::Text(text) => ValueView::Text(text@),
            Value::Bytes(bytes) => ValueView::Bytes(bytes@),
            Value::Timestamp(at) => ValueView::Timestamp(*at),
        }
    }
}

/// What a list of values holds.
pub open spec fn value_views(values: Seq<Value>) -> Seq<ValueView> {
    values.map_values(|value: Value| value@)
}

impl Clone for Value {
    fn clone(&self) -> (r: Value)
        ensures
            r@ == self@,
    {
        match self {
            Value::Bool(b) => Value::Bool(*b),
            Value::Int(n) => Value::Int(*n),
            Value::Float(bits) => Value::Float(*bits),
            Value::Text(text) => Value::Text(text.clone()),
            Value::Bytes(bytes) => Value::Bytes(bytes.clone()),
            Value::Timestamp(at) => Value::Timestamp(*at),
        }
    }
}

impl Value {
    /// The column type that this value can be compared against.
    pub fn ty(&self) -> (r: ColumnType)
        ensures
            r == self@.ty(),
    {
        match self {
            Value::Bool(_) => ColumnType::Bool,
            Value::Int(_) => ColumnType::Int,
            Value::Float(_) => ColumnType::Float,
            Value::Text(_) => ColumnType::Text,
            Value::Bytes(_) => ColumnType::Bytes,
            Value::Timestamp(_) => ColumnType::Timestamp,
        }
    }
}

/// Each kind of value is compared with the columns of its own type, and with no other.
pub proof fn law_a_value_has_one_type(value: ValueView)
    ensures
        value.ty() == ColumnType::Bool <==> value is Bool,
        value.ty() == ColumnType::Int <==> value is Int,
        value.ty() == ColumnType::Float <==> value is Float,
        value.ty() == ColumnType::Text <==> value is Text,
        value.ty() == ColumnType::Bytes <==> value is Bytes,
        value.ty() == ColumnType::Timestamp <==> value is Timestamp,
{
}

} // verus!
