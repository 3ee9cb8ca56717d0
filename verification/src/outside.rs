//! What the library takes from `serde_json`: reading a JSON text, looking
//! into the value that was read, and writing a string as a JSON string.
//!
//! Nothing in this file is proved. Each function makes one kind of call into
//! `serde_json`, and its contract says, over the names below, what the call
//! returns.

use crate::float::{FloatModel, FloatNumber};
use vstd::prelude::*;

verus! {

/// A JSON value as `serde_json` holds it. The library sees nothing inside
/// it: it looks at one through [`open_value`], [`value_as_i64`] and
/// [`value_as_float`].
#[verifier::external_type_specification]
#[verifier::external_body]
pub struct ExValue(serde_json::Value);

/// What a `serde_json::Value` holds, as plain data. A number is held as its
/// two readings: as a 64-bit signed integer, and as a floating-point number.
pub enum Raw {
    Null,
    Bool(bool),
    Number(Option<i64>, Option<FloatModel>),
    String(Seq<char>),
    Array(Seq<Raw>),
    Object(Seq<(Seq<char>, Raw)>),
}

/// What the value `v` holds. The members of an object stand in the order in
/// which the map of the object hands them out.
pub uninterp spec fn value_raw(v: serde_json::Value) -> Raw;

/// What `serde_json::from_str` reads from `text`: the value, or nothing where
/// it reports an error.
pub uninterp spec fn parsed(text: Seq<char>) -> Option<Raw>;

/// The JSON string that `serde_json` writes for the text `s`, with its quotes
/// and escapes.
pub uninterp spec fn quoted(s: Seq<char>) -> Seq<char>;

/// One level of a value: its kind, what a scalar holds, and the values
/// directly inside an array or an object.
pub enum Opened<'a> {
    Null,
    Bool(bool),
    Number,
    Text(&'a String),
    Array(&'a Vec<serde_json::Value>),
    Object(Vec<(&'a String, &'a serde_json::Value)>),
}

/// The values of an array, as plain data.
pub open spec fn array_raw(items: Seq<serde_json::Value>) -> Seq<Raw> {
    Seq::new(items.len(), |i: int| value_raw(items[i]))
}

/// The members of an object, as plain data.
pub open spec fn object_raw(members: Seq<(&String, &serde_json::Value)>) -> Seq<
    (Seq<char>, Raw),
> {
    Seq::new(members.len(), |i: int| (members[i].0@, value_raw(*members[i].1)))
}

/// The opened level `o` shows what `raw` holds.
pub open spec fn opens_to(o: Opened, raw: Raw) -> bool {
    match o {
        Opened::Null => raw == Raw::Null,
        Opened::Bool(b) => raw == Raw::Bool(b),
        Opened::Number => raw is Number,
        Opened::Text(s) => raw == Raw::String(s@),
        Opened::Array(items) => raw == Raw::Array(array_raw(items@)),
        Opened::Object(members) => raw == Raw::Object(object_raw(members@)),
    }
}

/// The reading of a number as a 64-bit signed integer; nothing for what is no
/// number.
pub open spec fn raw_int(raw: Raw) -> Option<i64> {
    match raw {
        Raw::Number(i, _) => i,
        _ => None,
    }
}

/// The reading of a number as a floating-point number; nothing for what is no
/// number.
pub open spec fn raw_float(raw: Raw) -> Option<FloatModel> {
    match raw {
        Raw::Number(_, f) => f,
        _ => None,
    }
}

/// Calls `serde_json::from_str` for a `serde_json::Value`. The contract gives
/// the result its name: the value read holds `parsed(line@)`, and there is no
/// value exactly where `from_str` reports an error.
#[verifier::external_body]
pub(crate) fn parse_value(line: &str) -> (r: Option<serde_json::Value>)
    ensures
        match r {
            Some(v) => parsed(line@) == Some(value_raw(v)),
            None => parsed(line@) is None,
        },
{
    serde_json::from_str::<serde_json::Value>(line).ok()
}

/// Tells the six variants of `serde_json::Value` apart. The contract says
/// that the variant and what it holds are those of `value_raw(*v)`; the
/// members of an object come from `serde_json::Map::iter`, in its order.
#[verifier::external_body]
pub(crate) fn open_value<'a>(v: &'a serde_json::Value) -> (r: Opened<'a>)
    ensures
        opens_to(r, value_raw(*v)),
{
    match v {
        serde_json::Value::Null => Opened::Null,
        serde_json::Value::Bool(b) => Opened::Bool(*b),
        serde_json::Value::Number(_) => Opened::Number,
        serde_json::Value::String(s) => Opened::Text(s),
        serde_json::Value::Array(a) => Opened::Array(a),
        serde_json::Value::Object(m) => Opened::Object(m.iter().collect()),
    }
}

/// Calls `serde_json::Value::as_i64`, which gives a number that is an integer
/// between `i64::MIN` and `i64::MAX`, and nothing otherwise. The contract
/// names that result as the first reading of the number.
#[verifier::external_body]
pub(crate) fn value_as_i64(v: &serde_json::Value) -> (r: Option<i64>)
    ensures
        r == raw_int(value_raw(*v)),
{
    v.as_i64()
}

/// Calls `serde_json::Value::as_f64`, takes the bit pattern of the result,
/// and has `serde_json::Number::from_f64` and its `Display` give the text of
/// that same number. The contract names the pair as the second reading of
/// the number.
#[verifier::external_body]
pub(crate) fn value_as_float(v: &serde_json::Value) -> (r: Option<FloatNumber>)
    ensures
        match r {
            Some(f) => raw_float(value_raw(*v)) == Some(f@),
            None => raw_float(value_raw(*v)) is None,
        },
{
    let x = v.as_f64()?;
    let n = serde_json::Number::from_f64(x)?;
    Some(FloatNumber { bits: x.to_bits(), text: n.to_string() })
}

/// Has `serde_json` write `s` as a JSON string: makes a
/// `serde_json::Value::String` and calls its `Display`. The contract gives the
/// result its name.
#[verifier::external_body]
pub(crate) fn quote(s: &str) -> (r: String)
    ensures
        r@ == quoted(s@),
{
    serde_json::Value::String(s.to_string()).to_string()
}

} // verus!
