//! The bind values that a clause can carry.

use vstd::prelude::*;

use crate::bytes::copy_bytes;
use crate::text::copy_of;

verus! {

/// A bind value that every dialect can take. A floating-point number is held as its bits, a
/// timestamp as microseconds since the epoch.
#[derive(Debug, PartialEq, Eq)]
pub enum Value {
    Null,
    Bool(bool),
    Int(i64),
    Float(u64),
    String(String),
    Timestamp(i64),
    Bytes(Vec<u8>),
    Uuid([u8; 16]),
}

/// A bind value, as contracts speak of it.
pub enum ValueView {
    Null,
    Bool(bool),
    Int(i64),
    Float(u64),
    Text(Seq<char>),
    Timestamp(i64),
    Bytes(Seq<u8>),
    Uuid(Seq<u8>),
}

impl View for Value {
    type V = ValueView;

    open spec fn view(&self) -> ValueView {
        match self {
            Value::Null => ValueView::Null,
            Value::Bool(b) => ValueView::Bool(*b),
            Value::Int(n) => ValueView::Int(*n),
            Value::Float(bits) => ValueView::Float(*bits),
            Value::String(text) => ValueView::Text(text@),
            Value::Timestamp(micros) => ValueView::Timestamp(*micros),
            Value::Bytes(bytes) => ValueView::Bytes(bytes@),
            Value::Uuid(bytes) => ValueView::Uuid(bytes@),
        }
    }
}

impl Clone for Value {
    fn clone(&self) -> (r: Value)
        ensures
            r@ == self@,
    {
        match self {
            Value::Null => Value::Null,
            Value::Bool(b) => Value::Bool(*b),
            Value::Int(n) => Value::Int(*n),
            Value::Float(bits) => Value::Float(*bits),
            Value::String(text) => Value::String(text.clone()),
            Value::Timestamp(micros) => Value::Timestamp(*micros),
            Value::Bytes(bytes) => Value::Bytes(copy_bytes(bytes.as_slice())),
            Value::Uuid(bytes) => Value::Uuid(*bytes),
        }
    }
}

/// What a list of values holds.
pub open spec fn value_views(values: Seq<Value>) -> Seq<ValueView> {
    values.map_values(|value: Value| value@)
}

/// Copies a list of values.
pub fn copy_values(values: &[Value]) -> (r: Vec<Value>)
    ensures
        value_views(r@) == value_views(values@),
{
    let mut r: Vec<Value> = Vec::new();
    let mut i: usize = 0;
    while i < values.len()
        invariant
            i <= values.len(),
            r.len() == i,
            forall|j: int| 0 <= j < i ==> (#[trigger] r@[j])@ == values@[j]@,
        decreases values.len() - i,
    {
        r.push(values[i].clone());
        i += 1;
    }
    assert(value_views(r@) =~= value_views(values@));
    r
}

impl Value {
    /// Text.
    pub fn text(text: &str) -> (r: Value)
        ensures
            r@ == ValueView::Text(text@),
    {
        Value::String(copy_of(text))
    }

    /// Bytes.
    pub fn bytes(bytes: &[u8]) -> (r: Value)
        ensures
            r@ == ValueView::Bytes(bytes@),
    {
        Value::Bytes(copy_bytes(bytes))
    }

    /// A value that may be missing.
    pub fn optional(value: Option<Value>) -> (r: Value)
        ensures
            r@ == match value {
                Some(value) => value@,
                None => ValueView::Null,
            },
    {
        match value {
            Some(value) => value,
            None => Value::Null,
        }
    }
}

impl From<bool> for Value {
    fn from(value: bool) -> (r: Value) {
        Value::Bool(value)
    }
}

impl vstd::std_specs::convert::FromSpecImpl<bool> for Value {
    open spec fn obeys_from_spec() -> bool {
        true
    }

    open spec fn from_spec(value: bool) -> Value {
        Value::Bool(value)
    }
}

impl From<i64> for Value {
    fn from(value: i64) -> (r: Value) {
        Value::Int(value)
    }
}

impl vstd::std_specs::convert::FromSpecImpl<i64> for Value {
    open spec fn obeys_from_spec() -> bool {
        true
    }

    open spec fn from_spec(value: i64) -> Value {
        Value::Int(value)
    }
}

impl From<i32> for Value {
    fn from(value: i32) -> (r: Value) {
        Value::Int(value as i64)
    }
}

impl vstd::std_specs::convert::FromSpecImpl<i32> for Value {
    open spec fn obeys_from_spec() -> bool {
        true
    }

    open spec fn from_spec(value: i32) -> Value {
        Value::Int(value as i64)
    }
}

impl From<i16> for Value {
    fn from(value: i16) -> (r: Value) {
        Value::Int(value as i64)
    }
}

impl vstd::std_specs::convert::FromSpecImpl<i16> for Value {
    open spec fn obeys_from_spec() -> bool {
        true
    }

    open spec fn from_spec(value: i16) -> Value {
        Value::Int(value as i64)
    }
}

impl From<i8> for Value {
    fn from(value: i8) -> (r: Value) {
        Value::Int(value as i64)
    }
}

impl vstd::std_specs::convert::FromSpecImpl<i8> for Value {
    open spec fn obeys_from_spec() -> bool {
        true
    }

    open spec fn from_spec(value: i8) -> Value {
        Value::Int(value as i64)
    }
}

impl From<u32> for Value {
    fn from(value: u32) -> (r: Value) {
        Value::Int(value as i64)
    }
}

impl vstd::std_specs::convert::FromSpecImpl<u32> for Value {
    open spec fn obeys_from_spec() -> bool {
        true
    }

    open spec fn from_spec(value: u32) -> Value {
        Value::Int(value as i64)
    }
}

impl From<u16> for Value {
    fn from(value: u16) -> (r: Value) {
        Value::Int(value as i64)
    }
}

impl vstd::std_specs::convert::FromSpecImpl<u16> for Value {
    open spec fn obeys_from_spec() -> bool {
        true
    }

    open spec fn from_spec(value: u16) -> Value {
        Value::Int(value as i64)
    }
}

impl From<u8> for Value {
    fn from(value: u8) -> (r: Value) {
        Value::Int(value as i64)
    }
}

impl vstd::std_specs::convert::FromSpecImpl<u8> for Value {
    open spec fn obeys_from_spec() -> bool {
        true
    }

    open spec fn from_spec(value: u8) -> Value {
        Value::Int(value as i64)
    }
}

impl From<String> for Value {
    fn from(value: String) -> (r: Value) {
        Value::String(value)
    }
}

impl vstd::std_specs::convert::FromSpecImpl<String> for Value {
    open spec fn obeys_from_spec() -> bool {
        true
    }

    open spec fn from_spec(value: String) -> Value {
        Value::String(value)
    }
}

impl From<Vec<u8>> for Value {
    fn from(value: Vec<u8>) -> (r: Value) {
        Value::Bytes(value)
    }
}

impl vstd::std_specs::convert::FromSpecImpl<Vec<u8>> for Value {
    open spec fn obeys_from_spec() -> bool {
        true
    }

    open spec fn from_spec(value: Vec<u8>) -> Value {
        Value::Bytes(value)
    }
}

// ---------------------------------------------------------------------------
// Values off a row
// ---------------------------------------------------------------------------

/// What a column of a row was found to hold, one candidate type at a time. A type that the
/// driver does not decode the column as is `None`.
#[derive(Debug, PartialEq, Eq)]
pub struct Probe {
    pub null: bool,
    pub int64: Option<i64>,
    pub int32: Option<i32>,
    pub int16: Option<i16>,
    pub float64: Option<u64>,
    pub float32: Option<u64>,
    pub boolean: Option<bool>,
    pub timestamp: Option<i64>,
    /// Only of a column that the driver declares as an identifier: text and bytes of that
    /// length decode as one too.
    pub uuid: Option<[u8; 16]>,
    pub text: Option<String>,
    pub bytes: Option<Vec<u8>>,
}

/// The value of a column: null, or the first candidate that the driver decodes. Bytes come
/// last, since some drivers decode text as bytes too.
pub open spec fn probed(probe: Probe) -> Option<ValueView> {
    if probe.null {
        Some(ValueView::Null)
    } else if probe.int64 is Some {
        Some(ValueView::Int(probe.int64->0))
    } else if probe.int32 is Some {
        Some(ValueView::Int(probe.int32->0 as i64))
    } else if probe.int16 is Some {
        Some(ValueView::Int(probe.int16->0 as i64))
    } else if probe.float64 is Some {
        Some(ValueView::Float(probe.float64->0))
    } else if probe.float32 is Some {
        Some(ValueView::Float(probe.float32->0))
    } else if probe.boolean is Some {
        Some(ValueView::Bool(probe.boolean->0))
    } else if probe.timestamp is Some {
        Some(ValueView::Timestamp(probe.timestamp->0))
    } else if probe.uuid is Some {
        Some(ValueView::Uuid(probe.uuid->0@))
    } else if probe.text is Some {
        Some(ValueView::Text(probe.text->0@))
    } else if probe.bytes is Some {
        Some(ValueView::Bytes(probe.bytes->0@))
    } else {
        None
    }
}

impl Probe {
    /// The value of the column, if a value can hold it.
    pub fn value(&self) -> (r: Option<Value>)
        ensures
            match (r, probed(*self)) {
                (Some(value), Some(found)) => value@ == found,
                (None, None) => true,
                _ => false,
            },
    {
        if self.null {
            return Some(Value::Null);
        }
        if let Some(n) = self.int64 {
            return Some(Value::Int(n));
        }
        if let Some(n) = self.int32 {
            return Some(Value::Int(n as i64));
        }
        if let Some(n) = self.int16 {
            return Some(Value::Int(n as i64));
        }
        if let Some(bits) = self.float64 {
            return Some(Value::Float(bits));
        }
        if let Some(bits) = self.float32 {
            return Some(Value::Float(bits));
        }
        if let Some(b) = self.boolean {
            return Some(Value::Bool(b));
        }
        if let Some(micros) = self.timestamp {
            return Some(Value::Timestamp(micros));
        }
        if let Some(bytes) = self.uuid {
            return Some(Value::Uuid(bytes));
        }
        if let Some(text) = &self.text {
            return Some(Value::String(copy_of(text.as_str())));
        }
        if let Some(bytes) = &self.bytes {
            return Some(Value::Bytes(copy_bytes(bytes.as_slice())));
        }
        None
    }
}

/// What a value of the language becomes holds it: a whole number of any width is the same number,
/// and text and bytes are the same text and bytes.
pub proof fn law_a_value_holds_what_it_was_made_from(
    flag: bool,
    long: i64,
    mid: i32,
    short: i16,
    tiny: i8,
    word: u32,
    half: u16,
    byte: u8,
    text: String,
    bytes: Vec<u8>,
)
    ensures
        <Value as vstd::std_specs::convert::FromSpec<bool>>::from_spec(flag)@ == ValueView::Bool(
            flag,
        ),
        <Value as vstd::std_specs::convert::FromSpec<i64>>::from_spec(long)@ matches ValueView::Int(
            n,
        ) && n == long,
        <Value as vstd::std_specs::convert::FromSpec<i32>>::from_spec(mid)@ matches ValueView::Int(
            n,
        ) && n == mid,
        <Value as vstd::std_specs::convert::FromSpec<i16>>::from_spec(
            short,
        )@ matches ValueView::Int(n) && n == short,
        <Value as vstd::std_specs::convert::FromSpec<i8>>::from_spec(tiny)@ matches ValueView::Int(
            n,
        ) && n == tiny,
        <Value as vstd::std_specs::convert::FromSpec<u32>>::from_spec(word)@ matches ValueView::Int(
            n,
        ) && n == word,
        <Value as vstd::std_specs::convert::FromSpec<u16>>::from_spec(half)@ matches ValueView::Int(
            n,
        ) && n == half,
        <Value as vstd::std_specs::convert::FromSpec<u8>>::from_spec(byte)@ matches ValueView::Int(
            n,
        ) && n == byte,
        <Value as vstd::std_specs::convert::FromSpec<String>>::from_spec(text)@ == ValueView::Text(
            text@,
        ),
        <Value as vstd::std_specs::convert::FromSpec<Vec<u8>>>::from_spec(
            bytes,
        )@ == ValueView::Bytes(bytes@),
{
}

} // verus!
