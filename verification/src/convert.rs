//! From what `serde_json` has read to the documents of this library.

use crate::json::{items_view, lemma_view_parts, members_view, Json, JsonNumber, JsonValue};
use crate::outside::{
    array_raw, object_raw, open_value, parse_value, parsed, value_as_float, value_as_i64,
    value_raw, Opened, Raw,
};
use vstd::prelude::*;

verus! {

broadcast use vstd::seq::axiom_seq_index_decreases;

/// The document that stands for `raw`. A number is its reading as an integer
/// where it has one, and else its reading as a floating-point number. Where a
/// number has neither reading, nothing stands for the value that holds it.
pub open spec fn refine(raw: Raw) -> Option<Json>
    decreases raw, 0nat, 0nat,
{
    match raw {
        Raw::Null => Some(Json::Null),
        Raw::Bool(b) => Some(Json::Bool(b)),
        Raw::Number(i, f) => match i {
            Some(x) => Some(Json::Int(x)),
            None => match f {
                Some(y) => Some(Json::Float(y)),
                None => None,
            },
        },
        Raw::String(s) => Some(Json::String(s)),
        Raw::Array(items) => match refine_items(items, items.len()) {
            Some(out) => Some(Json::Array(out)),
            None => None,
        },
        Raw::Object(members) => match refine_members(members, members.len()) {
            Some(out) => Some(Json::Object(out)),
            None => None,
        },
    }
}

/// The documents that stand for the first `n` values of an array, if each of
/// them has one.
pub open spec fn refine_items(items: Seq<Raw>, n: nat) -> Option<Seq<Json>>
    decreases items, 1nat, n,
{
    if n == 0 || n > items.len() {
        Some(Seq::empty())
    } else {
        match (refine_items(items, (n - 1) as nat), refine(items[n - 1])) {
            (Some(front), Some(j)) => Some(front.push(j)),
            _ => None,
        }
    }
}

/// The members that stand for the first `n` members of an object, if each of
/// them has one.
pub open spec fn refine_members(members: Seq<(Seq<char>, Raw)>, n: nat) -> Option<
    Seq<(Seq<char>, Json)>,
>
    decreases members, 1nat, n,
{
    if n == 0 || n > members.len() {
        Some(Seq::empty())
    } else {
        match (refine_members(members, (n - 1) as nat), refine(members[n - 1].1)) {
            (Some(front), Some(j)) => Some(front.push((members[n - 1].0, j))),
            _ => None,
        }
    }
}

/// Once a value of an array has no document, none of the longer beginnings of
/// the array has one.
proof fn lemma_items_fail(items: Seq<Raw>, n: nat, m: nat)
    requires
        refine_items(items, n) is None,
        n <= m <= items.len(),
    ensures
        refine_items(items, m) is None,
    decreases m,
{
    if n < m {
        lemma_items_fail(items, n, (m - 1) as nat);
    }
}

/// Once a member of an object has no document, none of the longer beginnings
/// of the object has one.
proof fn lemma_members_fail(members: Seq<(Seq<char>, Raw)>, n: nat, m: nat)
    requires
        refine_members(members, n) is None,
        n <= m <= members.len(),
    ensures
        refine_members(members, m) is None,
    decreases m,
{
    if n < m {
        lemma_members_fail(members, n, (m - 1) as nat);
    }
}

/// The document that a JSON text stands for: nothing where the text cannot be
/// read, or holds a number without a reading.
pub open spec fn document(text: Seq<char>) -> Option<Json> {
    match parsed(text) {
        Some(raw) => refine(raw),
        None => None,
    }
}

/// The document that stands for a value of `serde_json`, if every number in
/// it has a reading.
pub fn from_value(v: &serde_json::Value) -> (r: Option<JsonValue>)
    ensures
        match r {
            Some(j) => refine(value_raw(*v)) == Some(j@),
            None => refine(value_raw(*v)) is None,
        },
    decreases value_raw(*v),
{
    let ghost raw = value_raw(*v);
    match open_value(v) {
        Opened::Null => Some(JsonValue::Null),
        Opened::Bool(b) => Some(JsonValue::Bool(b)),
        Opened::Number => {
            match value_as_i64(v) {
                Some(i) => Some(JsonValue::Number(JsonNumber::Int(i))),
                None => match value_as_float(v) {
                    Some(f) => Some(JsonValue::Number(JsonNumber::Float(f))),
                    None => None,
                },
            }
        },
        Opened::Text(s) => Some(JsonValue::String(s.clone())),
        Opened::Array(items) => {
            let ghost raws = array_raw(items@);
            let mut out: Vec<JsonValue> = Vec::new();
            let mut i: usize = 0;
            while i < items.len()
                invariant
                    i <= items.len(),
                    out.len() == i,
                    raw == Raw::Array(raws),
                    raw == value_raw(*v),
                    raws == array_raw(items@),
                    refine_items(raws, i as nat) == Some(items_view(out@)),
                decreases items.len() - i,
            {
                assert(raws[i as int] == value_raw(items@[i as int]));
                assert(decreases_to!(raw => raws[i as int]));
                let ghost before = items_view(out@);
                match from_value(&items[i]) {
                    Some(j) => {
                        out.push(j);
                        assert(items_view(out@) =~= before.push(j@));
                    },
                    None => {
                        proof {
                            lemma_items_fail(raws, (i + 1) as nat, raws.len());
                        }
                        return None;
                    },
                }
                i = i + 1;
            }
            let r = JsonValue::Array(out);
            proof {
                lemma_view_parts(r);
            }
            Some(r)
        },
        Opened::Object(members) => {
            let ghost raws = object_raw(members@);
            let mut out: Vec<(String, JsonValue)> = Vec::new();
            let mut i: usize = 0;
            while i < members.len()
                invariant
                    i <= members.len(),
                    out.len() == i,
                    raw == Raw::Object(raws),
                    raw == value_raw(*v),
                    raws == object_raw(members@),
                    refine_members(raws, i as nat) == Some(members_view(out@)),
                decreases members.len() - i,
            {
                assert(raws[i as int] == (
                    members@[i as int].0@,
                    value_raw(*members@[i as int].1),
                ));
                assert(decreases_to!(raw => raws[i as int].1)) by {
                    assert(decreases_to!(raws[i as int] => raws[i as int].1));
                }
                let ghost before = members_view(out@);
                match from_value(members[i].1) {
                    Some(j) => {
                        out.push((members[i].0.clone(), j));
                        assert(members_view(out@) =~= before.push((raws[i as int].0, j@)));
                    },
                    None => {
                        proof {
                            lemma_members_fail(raws, (i + 1) as nat, raws.len());
                        }
                        return None;
                    },
                }
                i = i + 1;
            }
            let r = JsonValue::Object(out);
            proof {
                lemma_view_parts(r);
            }
            Some(r)
        },
    }
}

/// Reads a JSON text with `serde_json`.
pub fn parse_document(line: &str) -> (r: Option<JsonValue>)
    ensures
        match r {
            Some(j) => document(line@) == Some(j@),
            None => document(line@) is None,
        },
{
    match parse_value(line) {
        Some(v) => from_value(&v),
        None => None,
    }
}

} // verus!
