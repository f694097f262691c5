//! The decoded value model and its mathematical view.

use vstd::prelude::*;

verus! {

/// A decoded value. This is the closed model the codec moves between wire
/// bytes and callers: no floats and no maps, which the wire format does not
/// support.
#[derive(Debug, PartialEq, Eq)]
pub enum Value {
    /// A boolean, encoded as one of two closed bulk-string literals.
    Bool(bool),
    /// An unsigned integer, encoded as a bulk string of decimal digits.
    Unsigned(u64),
    /// A signed integer, encoded with an optional leading `-`.
    Signed(i64),
    /// A single character, encoded as the UTF-8 bytes of one scalar.
    Char(char),
    /// An uninterpreted byte string.
    Bytes(Vec<u8>),
    /// Absence, encoded as the null bulk string.
    Absent,
    /// An ordered sequence, encoded as an array header plus the elements.
    List(Vec<Value>),
    /// A named product value: array of the name plus one frame per field.
    Record { name: Vec<u8>, fields: Vec<Value> },
    /// A named sum case: array of the tag plus one frame per payload element.
    Variant { tag: Vec<u8>, payload: Vec<Value> },
}

/// The mathematical counterpart of [`Value`], over `Seq` instead of `Vec`.
pub enum SpecValue {
    Bool(bool),
    Unsigned(u64),
    Signed(i64),
    Char(char),
    Bytes(Seq<u8>),
    Absent,
    List(Seq<SpecValue>),
    Record { name: Seq<u8>, fields: Seq<SpecValue> },
    Variant { tag: Seq<u8>, payload: Seq<SpecValue> },
}

/// The views of every element of a sequence of values.
pub open spec fn views_of(vs: Seq<Value>) -> Seq<SpecValue>
    decreases vs,
{
    Seq::new(
        vs.len(),
        |i: int|
            (if 0 <= i < vs.len() {
                value_view(vs[i])
            } else {
                SpecValue::Absent
            }),
    )
}

/// The mathematical value a [`Value`] stands for.
pub open spec fn value_view(v: Value) -> SpecValue
    decreases v,
{
    match v {
        Value::Bool(b) => SpecValue::Bool(b),
        Value::Unsigned(n) => SpecValue::Unsigned(n),
        Value::Signed(i) => SpecValue::Signed(i),
        Value::Char(c) => SpecValue::Char(c),
        Value::Bytes(b) => SpecValue::Bytes(b@),
        Value::Absent => SpecValue::Absent,
        Value::List(vs) => SpecValue::List(views_of(vs@)),
        Value::Record { name, fields } => SpecValue::Record {
            name: name@,
            fields: views_of(fields@),
        },
        Value::Variant { tag, payload } => SpecValue::Variant {
            tag: tag@,
            payload: views_of(payload@),
        },
    }
}

/// Appending a value to a sequence appends its view to the views.
pub proof fn lemma_views_of_push(vs: Seq<Value>, v: Value)
    ensures
        views_of(vs.push(v)) == views_of(vs).push(value_view(v)),
{
    assert(views_of(vs.push(v)) =~= views_of(vs).push(value_view(v)));
}

impl View for Value {
    type V = SpecValue;

    open spec fn view(&self) -> SpecValue {
        value_view(*self)
    }
}

} // verus!
