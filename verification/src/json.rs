//! JSON documents as plain data.

use crate::float::{FloatModel, FloatNumber};
use crate::scalar::Scalar;
use vstd::prelude::*;

verus! {

broadcast use {vstd::seq::axiom_seq_index_decreases, vstd::std_specs::vec::group_vec_axioms};

/// A JSON number: a 64-bit signed integer, or a floating-point number for
/// everything else.
#[derive(Clone, Debug)]
pub enum JsonNumber {
    Int(i64),
    Float(FloatNumber),
}

/// A JSON value. An object holds its members in the order in which they are
/// visited.
#[derive(Debug)]
pub enum JsonValue {
    Null,
    Bool(bool),
    Number(JsonNumber),
    String(String),
    Array(Vec<JsonValue>),
    Object(Vec<(String, JsonValue)>),
}

/// The model of a [`JsonValue`].
pub enum Json {
    Null,
    Bool(bool),
    Int(i64),
    Float(FloatModel),
    String(Seq<char>),
    Array(Seq<Json>),
    Object(Seq<(Seq<char>, Json)>),
}

impl View for JsonNumber {
    type V = Json;

    open spec fn view(&self) -> Json {
        match self {
            JsonNumber::Int(i) => Json::Int(*i),
            JsonNumber::Float(f) => Json::Float(f@),
        }
    }
}

/// The model of a value.
pub open spec fn json_of(v: JsonValue) -> Json
    decreases v,
{
    match v {
        JsonValue::Null => Json::Null,
        JsonValue::Bool(b) => Json::Bool(b),
        JsonValue::Number(n) => n@,
        JsonValue::String(s) => Json::String(s@),
        JsonValue::Array(items) => Json::Array(
            Seq::new(
                items@.len(),
                |i: int|
                    if 0 <= i < items@.len() {
                        json_of(items@[i])
                    } else {
                        Json::Null
                    },
            ),
        ),
        JsonValue::Object(members) => Json::Object(
            Seq::new(
                members@.len(),
                |i: int|
                    if 0 <= i < members@.len() {
                        (members@[i].0@, json_of(members@[i].1))
                    } else {
                        (Seq::empty(), Json::Null)
                    },
            ),
        ),
    }
}

impl View for JsonValue {
    type V = Json;

    open spec fn view(&self) -> Json {
        json_of(*self)
    }
}

/// The models of the first `n` items of `items`.
pub open spec fn items_view(items: Seq<JsonValue>) -> Seq<Json> {
    Seq::new(items.len(), |i: int| items[i]@)
}

/// The models of the members of an object.
pub open spec fn members_view(members: Seq<(String, JsonValue)>) -> Seq<(Seq<char>, Json)> {
    Seq::new(members.len(), |i: int| (members[i].0@, members[i].1@))
}

/// The view of an array or an object is made of the views of its parts.
pub proof fn lemma_view_parts(v: JsonValue)
    ensures
        v matches JsonValue::Array(items) ==> v@ == Json::Array(items_view(items@)),
        v matches JsonValue::Object(members) ==> v@ == Json::Object(members_view(members@)),
{
    match v {
        JsonValue::Array(items) => {
            assert(v@->Array_0.len() == items@.len());
            assert forall|i: int| 0 <= i < items@.len() implies v@->Array_0[i] == items_view(
                items@,
            )[i] by {}
            assert(v@->Array_0 =~= items_view(items@));
        },
        JsonValue::Object(members) => {
            assert(v@->Object_0.len() == members@.len());
            assert forall|i: int| 0 <= i < members@.len() implies v@->Object_0[i] == members_view(
                members@,
            )[i] by {}
            assert(v@->Object_0 =~= members_view(members@));
        },
        _ => {},
    }
}

/// The number of values in a document: itself, and all that it holds.
pub open spec fn json_size(j: Json) -> nat
    decreases j, 0nat, 0nat,
{
    match j {
        Json::Array(items) => 1 + items_size(items, items.len()),
        Json::Object(members) => 1 + members_size(members, members.len()),
        _ => 1,
    }
}

/// The number of values in the first `n` items of an array.
pub open spec fn items_size(items: Seq<Json>, n: nat) -> nat
    decreases items, 1nat, n,
{
    if n == 0 || n > items.len() {
        0
    } else {
        items_size(items, (n - 1) as nat) + json_size(items[n - 1])
    }
}

/// The number of values in the first `n` members of an object.
pub open spec fn members_size(members: Seq<(Seq<char>, Json)>, n: nat) -> nat
    decreases members, 1nat, n,
{
    if n == 0 || n > members.len() {
        0
    } else {
        members_size(members, (n - 1) as nat) + json_size(members[n - 1].1)
    }
}

impl Clone for JsonValue {
    /// A copy of the value and of all that it holds.
    fn clone(&self) -> (r: Self)
        ensures
            r@ == self@,
    {
        self.duplicate()
    }
}

impl JsonNumber {
    /// A copy of the number.
    pub fn duplicate(&self) -> (r: Self)
        ensures
            r@ == self@,
    {
        match self {
            JsonNumber::Int(i) => JsonNumber::Int(*i),
            JsonNumber::Float(f) => JsonNumber::Float(f.duplicate()),
        }
    }
}

impl JsonValue {
    /// A copy of the value and of all that it holds.
    pub fn duplicate(&self) -> (r: Self)
        ensures
            r@ == self@,
        decreases self,
    {
        proof {
            lemma_view_parts(*self);
        }
        match self {
            JsonValue::Null => JsonValue::Null,
            JsonValue::Bool(b) => JsonValue::Bool(*b),
            JsonValue::Number(n) => JsonValue::Number(n.duplicate()),
            JsonValue::String(s) => JsonValue::String(s.clone()),
            JsonValue::Array(items) => {
                let mut copy: Vec<JsonValue> = Vec::new();
                let mut i: usize = 0;
                while i < items.len()
                    invariant
                        i <= items.len(),
                        copy.len() == i,
                        forall|k: int| 0 <= k < i ==> copy@[k]@ == #[trigger] items@[k]@,
                        *self == JsonValue::Array(*items),
                    decreases items.len() - i,
                {
                    assert(decreases_to!(*self => self->Array_0));
                    assert(decreases_to!(*self => items[i as int]));
                    copy.push(items[i].duplicate());
                    i = i + 1;
                }
                let r = JsonValue::Array(copy);
                proof {
                    lemma_view_parts(r);
                    assert(items_view(copy@) =~= items_view(items@));
                }
                r
            },
            JsonValue::Object(members) => {
                let mut copy: Vec<(String, JsonValue)> = Vec::new();
                let mut i: usize = 0;
                while i < members.len()
                    invariant
                        i <= members.len(),
                        copy.len() == i,
                        forall|k: int|
                            0 <= k < i ==> copy@[k].0@ == (#[trigger] members@[k]).0@ && copy@[k].1@
                                == members@[k].1@,
                        *self == JsonValue::Object(*members),
                    decreases members.len() - i,
                {
                    assert(decreases_to!(*self => self->Object_0));
                    assert(decreases_to!(members[i as int] => members[i as int].1));
                    assert(decreases_to!(*self => members[i as int].1));
                    copy.push((members[i].0.clone(), members[i].1.duplicate()));
                    i = i + 1;
                }
                let r = JsonValue::Object(copy);
                proof {
                    lemma_view_parts(r);
                    assert(members_view(copy@) =~= members_view(members@));
                }
                r
            },
        }
    }

    /// The number of values in the document, if `usize` can hold it.
    pub fn size(&self) -> (r: Option<usize>)
        ensures
            match r {
                Some(n) => n == json_size(self@),
                None => json_size(self@) > usize::MAX,
            },
        decreases self,
    {
        proof {
            lemma_view_parts(*self);
        }
        match self {
            JsonValue::Array(items) => {
                let mut sum: usize = 1;
                let mut i: usize = 0;
                let ghost views = items_view(items@);
                while i < items.len()
                    invariant
                        i <= items.len(),
                        views == items_view(items@),
                        *self == JsonValue::Array(*items),
                        self@ == Json::Array(views),
                        sum == 1 + items_size(views, i as nat),
                    decreases items.len() - i,
                {
                    assert(decreases_to!(*self => self->Array_0));
                    assert(decreases_to!(*self => items[i as int]));
                    proof {
                        lemma_items_size_grows(views, (i + 1) as nat, views.len());
                        assert(views[i as int] == items@[i as int]@);
                        assert(items_size(views, (i + 1) as nat) == items_size(views, i as nat)
                            + json_size(views[i as int]));
                    }
                    let part = match items[i].size() {
                        Some(n) => n,
                        None => {
                            return None;
                        },
                    };
                    sum = match sum.checked_add(part) {
                        Some(n) => n,
                        None => {
                            return None;
                        },
                    };
                    i = i + 1;
                }
                Some(sum)
            },
            JsonValue::Object(members) => {
                let mut sum: usize = 1;
                let mut i: usize = 0;
                let ghost views = members_view(members@);
                while i < members.len()
                    invariant
                        i <= members.len(),
                        views == members_view(members@),
                        *self == JsonValue::Object(*members),
                        self@ == Json::Object(views),
                        sum == 1 + members_size(views, i as nat),
                    decreases members.len() - i,
                {
                    assert(decreases_to!(*self => self->Object_0));
                    assert(decreases_to!(members[i as int] => members[i as int].1));
                    assert(decreases_to!(*self => members[i as int].1));
                    proof {
                        lemma_members_size_grows(views, (i + 1) as nat, views.len());
                        assert(views[i as int].1 == members@[i as int].1@);
                        assert(members_size(views, (i + 1) as nat) == members_size(
                            views,
                            i as nat,
                        ) + json_size(views[i as int].1));
                    }
                    let part = match members[i].1.size() {
                        Some(n) => n,
                        None => {
                            return None;
                        },
                    };
                    sum = match sum.checked_add(part) {
                        Some(n) => n,
                        None => {
                            return None;
                        },
                    };
                    i = i + 1;
                }
                Some(sum)
            },
            _ => Some(1),
        }
    }
}

/// More items of an array hold no fewer values.
proof fn lemma_items_size_grows(items: Seq<Json>, n: nat, m: nat)
    requires
        n <= m <= items.len(),
    ensures
        items_size(items, n) <= items_size(items, m),
    decreases m,
{
    if n < m {
        lemma_items_size_grows(items, n, (m - 1) as nat);
    }
}

/// More members of an object hold no fewer values.
proof fn lemma_members_size_grows(members: Seq<(Seq<char>, Json)>, n: nat, m: nat)
    requires
        n <= m <= members.len(),
    ensures
        members_size(members, n) <= members_size(members, m),
    decreases m,
{
    if n < m {
        lemma_members_size_grows(members, n, (m - 1) as nat);
    }
}

} // verus!
