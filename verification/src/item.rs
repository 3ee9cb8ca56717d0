//! The statistics kept for one key path: one aggregate for each kind of JSON
//! value.

use crate::aggregate::{
    count_json, lemma_tally_merge_associative, lemma_tally_merge_commutative,
    lemma_tally_merge_empty, lemma_tally_merge_swap, lemma_tally_wf, tally_empty, tally_json,
    tally_merge, tally_single, tally_summary, tally_wf, Count, MaxMinCount, Tally,
};
use crate::float::{float_as_integer, float_integer, FloatModel, FloatNumber};
use crate::json::{lemma_view_parts, members_view, Json, JsonNumber, JsonValue};
use crate::scalar::Scalar;
use crate::text::{nat_text, push_nat};
use vstd::prelude::*;
use vstd::string::StringExecFns;
use vstd::utf8::encode_utf8;

verus! {

/// The model of a [`JsonStatItem`].
pub struct ItemModel {
    pub string: Tally<usize>,
    pub int: Tally<i64>,
    pub float: Tally<FloatModel>,
    pub bool: nat,
    pub null: nat,
    pub object: nat,
    pub array: Tally<usize>,
}

/// The item that has seen nothing.
pub open spec fn item_empty() -> ItemModel {
    ItemModel {
        string: tally_empty::<usize>(),
        int: tally_empty::<i64>(),
        float: tally_empty::<FloatNumber>(),
        bool: 0,
        null: 0,
        object: 0,
        array: tally_empty::<usize>(),
    }
}

/// The item of everything that `a` and `b` have seen.
#[verifier::opaque]
pub open spec fn item_merge(a: ItemModel, b: ItemModel) -> ItemModel {
    ItemModel {
        string: tally_merge::<usize>(a.string, b.string),
        int: tally_merge::<i64>(a.int, b.int),
        float: tally_merge::<FloatNumber>(a.float, b.float),
        bool: a.bool + b.bool,
        null: a.null + b.null,
        object: a.object + b.object,
        array: tally_merge::<usize>(a.array, b.array),
    }
}

/// Every aggregate of the item is well formed.
#[verifier::opaque]
pub open spec fn item_wf(a: ItemModel) -> bool {
    &&& tally_wf::<usize>(a.string)
    &&& tally_wf::<i64>(a.int)
    &&& tally_wf::<FloatNumber>(a.float)
    &&& tally_wf::<usize>(a.array)
}

/// The number of values that the item has seen, of all kinds together.
#[verifier::opaque]
pub open spec fn item_total(a: ItemModel) -> nat {
    a.string.count + a.int.count + a.float.count + a.bool + a.null + a.object + a.array.count
}

/// The length of a string value: the number of bytes of its UTF-8 encoding.
pub open spec fn text_length(s: Seq<char>) -> usize {
    encode_utf8(s).len() as usize
}

/// The item that has seen the value `j` alone, not what `j` holds.
///
/// A floating-point number that is whole and fits a 64-bit signed integer
/// counts as that integer.
#[verifier::opaque]
pub open spec fn item_of(j: Json) -> ItemModel {
    match j {
        Json::Null => ItemModel { null: 1, ..item_empty() },
        Json::Bool(_) => ItemModel { bool: 1, ..item_empty() },
        Json::Int(i) => ItemModel { int: tally_single::<i64>(i), ..item_empty() },
        Json::Float(f) => match float_integer(f.bits) {
            Some(i) => ItemModel { int: tally_single::<i64>(i), ..item_empty() },
            None => ItemModel { float: tally_single::<FloatNumber>(f), ..item_empty() },
        },
        Json::String(s) => ItemModel {
            string: tally_single::<usize>(text_length(s)),
            ..item_empty()
        },
        Json::Array(items) => ItemModel {
            array: tally_single::<usize>(items.len() as usize),
            ..item_empty()
        },
        Json::Object(_) => ItemModel { object: 1, ..item_empty() },
    }
}

/// What is appended to a path on the way into an array.
pub open spec fn array_marker() -> Seq<char> {
    seq!['[', ']']
}

/// What is appended to a path on the way into the member `name` of an object.
pub open spec fn member_marker(name: Seq<char>) -> Seq<char> {
    seq!['.'] + name
}

/// The values directly inside `j`, each with its path, where `j` itself is at
/// `path`: the items of an array in order, all under one path, and the members
/// of an object in order.
pub open spec fn children(path: Seq<char>, j: Json) -> Seq<(Seq<char>, Json)> {
    match j {
        Json::Array(items) => Seq::new(items.len(), |i: int| (path + array_marker(), items[i])),
        Json::Object(members) => Seq::new(
            members.len(),
            |i: int| (path + member_marker(members[i].0), members[i].1),
        ),
        _ => Seq::empty(),
    }
}

/// No count of the merge of `a` and `b` exceeds what `usize` holds.
pub open spec fn merge_fits(a: ItemModel, b: ItemModel) -> bool {
    &&& a.string.count + b.string.count <= usize::MAX
    &&& a.int.count + b.int.count <= usize::MAX
    &&& a.float.count + b.float.count <= usize::MAX
    &&& a.bool + b.bool <= usize::MAX
    &&& a.null + b.null <= usize::MAX
    &&& a.object + b.object <= usize::MAX
    &&& a.array.count + b.array.count <= usize::MAX
}

/// Merging keeps items well formed, and the item of a single value is well
/// formed and has seen exactly one value.
pub proof fn lemma_item_wf(a: ItemModel, b: ItemModel, j: Json)
    ensures
        item_wf(item_empty()),
        item_wf(item_of(j)),
        item_total(item_of(j)) == 1,
        item_total(item_empty()) == 0,
        item_wf(a) && item_wf(b) ==> item_wf(item_merge(a, b)),
        item_total(item_merge(a, b)) == item_total(a) + item_total(b),
{
    reveal(item_merge);
    reveal(item_wf);
    reveal(item_total);
    reveal(item_of);
    if item_wf(a) && item_wf(b) {
        lemma_tally_wf::<usize>(a.string, b.string, 0);
        lemma_tally_wf::<i64>(a.int, b.int, 0);
        lemma_tally_wf::<FloatNumber>(a.float, b.float, FloatModel { bits: 0, text: Seq::empty() });
        lemma_tally_wf::<usize>(a.array, b.array, 0);
    }
    let e = tally_empty::<FloatNumber>();
    match j {
        Json::Float(f) => {
            lemma_tally_wf::<FloatNumber>(e, e, f);
        },
        _ => {},
    }
}

/// Where the totals of two items fit together, so does each count.
pub proof fn lemma_merge_fits(a: ItemModel, b: ItemModel)
    requires
        item_total(a) + item_total(b) <= usize::MAX,
    ensures
        merge_fits(a, b),
{
    reveal(item_total);
}

/// The empty item is well formed, has seen nothing, and merged with itself is
/// the empty item.
pub proof fn lemma_item_empty()
    ensures
        item_wf(item_empty()),
        item_total(item_empty()) == 0,
        item_merge(item_empty(), item_empty()) == item_empty(),
{
    reveal(item_merge);
    reveal(item_wf);
    reveal(item_total);
}

/// A well-formed item that has seen nothing is the empty item.
pub proof fn lemma_item_zero(a: ItemModel)
    requires
        item_wf(a),
        item_total(a) == 0,
    ensures
        a == item_empty(),
{
    reveal(item_wf);
    reveal(item_total);
}

/// Merging with the empty item changes nothing.
pub proof fn lemma_item_merge_empty(a: ItemModel)
    requires
        item_wf(a),
    ensures
        item_merge(a, item_empty()) == a,
        item_merge(item_empty(), a) == a,
{
    reveal(item_merge);
    reveal(item_wf);
    lemma_tally_merge_empty::<usize>(a.string);
    lemma_tally_merge_empty::<i64>(a.int);
    lemma_tally_merge_empty::<FloatNumber>(a.float);
    lemma_tally_merge_empty::<usize>(a.array);
}

/// Merging items does not depend on the order of its two arguments.
pub proof fn lemma_item_merge_commutative(a: ItemModel, b: ItemModel)
    requires
        item_wf(a),
        item_wf(b),
    ensures
        item_merge(a, b) == item_merge(b, a),
{
    reveal(item_merge);
    reveal(item_wf);
    lemma_tally_merge_commutative::<usize>(a.string, b.string);
    lemma_tally_merge_commutative::<i64>(a.int, b.int);
    lemma_tally_merge_commutative::<FloatNumber>(a.float, b.float);
    lemma_tally_merge_commutative::<usize>(a.array, b.array);
}

/// Merging three items gives the same result however they are grouped.
pub proof fn lemma_item_merge_associative(a: ItemModel, b: ItemModel, c: ItemModel)
    ensures
        item_merge(item_merge(a, b), c) == item_merge(a, item_merge(b, c)),
{
    reveal(item_merge);
    lemma_tally_merge_associative::<usize>(a.string, b.string, c.string);
    lemma_tally_merge_associative::<i64>(a.int, b.int, c.int);
    lemma_tally_merge_associative::<FloatNumber>(a.float, b.float, c.float);
    lemma_tally_merge_associative::<usize>(a.array, b.array, c.array);
}

/// Merging two items into a third gives the same result in either order.
pub proof fn lemma_item_merge_swap(v: ItemModel, x: ItemModel, y: ItemModel)
    requires
        item_wf(x),
        item_wf(y),
    ensures
        item_merge(item_merge(v, x), y) == item_merge(item_merge(v, y), x),
{
    reveal(item_merge);
    reveal(item_wf);
    lemma_tally_merge_swap::<usize>(v.string, x.string, y.string);
    lemma_tally_merge_swap::<i64>(v.int, x.int, y.int);
    lemma_tally_merge_swap::<FloatNumber>(v.float, x.float, y.float);
    lemma_tally_merge_swap::<usize>(v.array, x.array, y.array);
}

/// The texts `parts` with a comma between each two.
pub open spec fn joined(parts: Seq<Seq<char>>) -> Seq<char>
    decreases parts.len(),
{
    if parts.len() == 0 {
        Seq::empty()
    } else if parts.len() == 1 {
        parts[0]
    } else {
        joined(parts.drop_last()) + ","@ + parts.last()
    }
}

/// `parts` with `part` at its end, if `present`.
pub open spec fn with_part(parts: Seq<Seq<char>>, present: bool, part: Seq<char>) -> Seq<
    Seq<char>,
> {
    if present {
        parts.push(part)
    } else {
        parts
    }
}

/// The members of the compact report of an item: one for each kind of which
/// the item has seen a value, in the order of the names of the kinds.
pub open spec fn compact_parts(a: ItemModel) -> Seq<Seq<char>> {
    let p0 = Seq::<Seq<char>>::empty();
    let p1 = with_part(p0, a.array.count > 0, "\"array\":"@ + tally_json::<usize>(a.array));
    let p2 = with_part(p1, a.bool > 0, "\"bool\":"@ + count_json(a.bool));
    let p3 = with_part(p2, a.float.count > 0, "\"float\":"@ + tally_json::<FloatNumber>(a.float));
    let p4 = with_part(p3, a.int.count > 0, "\"int\":"@ + tally_json::<i64>(a.int));
    let p5 = with_part(p4, a.null > 0, "\"null\":"@ + count_json(a.null));
    let p6 = with_part(p5, a.object > 0, "\"object\":"@ + count_json(a.object));
    with_part(p6, a.string.count > 0, "\"string\":"@ + tally_json::<usize>(a.string))
}

/// The compact report of an item: a JSON object with a member for each kind
/// of which the item has seen a value.
#[verifier::opaque]
pub open spec fn item_compact_json(a: ItemModel) -> Seq<char> {
    "{"@ + joined(compact_parts(a)) + "}"@
}

/// The full report of an item: a JSON object with a member for each of the
/// seven kinds.
#[verifier::opaque]
pub open spec fn item_full_json(a: ItemModel) -> Seq<char> {
    "{\"string\":"@ + tally_json::<usize>(a.string) + ",\"int\":"@ + tally_json::<i64>(a.int)
        + ",\"float\":"@ + tally_json::<FloatNumber>(a.float) + ",\"bool\":"@ + count_json(a.bool)
        + ",\"null\":"@ + count_json(a.null) + ",\"object\":"@ + count_json(a.object)
        + ",\"array\":"@ + tally_json::<usize>(a.array) + "}"@
}

/// `text` if `present`, and nothing otherwise.
pub open spec fn only_if(present: bool, text: Seq<char>) -> Seq<char> {
    if present {
        text
    } else {
        Seq::empty()
    }
}

/// An item in a line of the summary: the kinds of which it has seen a value,
/// in a fixed order.
#[verifier::opaque]
pub open spec fn item_summary(a: ItemModel) -> Seq<char> {
    only_if(a.null > 0, "null:"@ + nat_text(a.null) + ";"@) + only_if(
        a.bool > 0,
        "bool:"@ + nat_text(a.bool) + ";"@,
    ) + only_if(a.int.count > 0, "int:"@ + tally_summary::<i64>(a.int) + ";"@) + only_if(
        a.float.count > 0,
        "float:"@ + tally_summary::<FloatNumber>(a.float) + ";"@,
    ) + only_if(a.string.count > 0, "string:"@ + tally_summary::<usize>(a.string) + ";"@) + only_if(
        a.array.count > 0,
        "array:"@ + tally_summary::<usize>(a.array) + ";"@,
    ) + only_if(a.object > 0, "object:"@ + nat_text(a.object))
}

/// Joining one more text.
pub proof fn lemma_joined_push(parts: Seq<Seq<char>>, part: Seq<char>)
    ensures
        joined(parts.push(part)) == if parts.len() == 0 {
            part
        } else {
            joined(parts) + ","@ + part
        },
{
    assert(parts.push(part).drop_last() =~= parts);
}

/// What one more member adds to the text of a report that has `parts` so
/// far.
pub open spec fn part_text(first: bool, present: bool, part: Seq<char>) -> Seq<char> {
    only_if(present, only_if(!first, ","@) + part)
}

/// The text of a report, one member more.
pub proof fn lemma_part(acc: Seq<char>, parts: Seq<Seq<char>>, present: bool, part: Seq<char>)
    requires
        acc == "{"@ + joined(parts),
    ensures
        acc + part_text(parts.len() == 0, present, part) == "{"@ + joined(
            with_part(parts, present, part),
        ),
        with_part(parts, present, part).len() == 0 <==> parts.len() == 0 && !present,
{
    lemma_joined_push(parts, part);
    if present {
        if parts.len() == 0 {
            assert(acc + (Seq::<char>::empty() + part) =~= "{"@ + part);
        } else {
            assert(acc + (","@ + part) =~= "{"@ + (joined(parts) + ","@ + part));
        }
    } else {
        assert(acc + Seq::<char>::empty() =~= acc);
    }
}

/// Appends the member `name` that reports the aggregate `t` to `out`, if `t`
/// has seen a value; `first` says that `out` has no member yet.
fn push_tally_part<T: Scalar>(out: &mut String, first: bool, name: &str, t: &MaxMinCount<T>) -> (r:
    bool)
    ensures
        final(out)@ == old(out)@ + part_text(first, t.count > 0, name@ + tally_json::<T>(t@)),
        r == (first && t.count == 0),
{
    if t.count > 0 {
        if !first {
            out.append(",");
        }
        out.append(name);
        t.write_json(out);
        assert(final(out)@ =~= old(out)@ + part_text(
            first,
            t.count > 0,
            name@ + tally_json::<T>(t@),
        ));
        false
    } else {
        assert(final(out)@ =~= old(out)@ + Seq::<char>::empty());
        first
    }
}

/// Appends the member `name` that reports the counter `c` to `out`, if `c`
/// has counted a value; `first` says that `out` has no member yet.
fn push_count_part(out: &mut String, first: bool, name: &str, c: &Count) -> (r: bool)
    ensures
        final(out)@ == old(out)@ + part_text(first, c.count > 0, name@ + count_json(c@)),
        r == (first && c.count == 0),
{
    if c.count > 0 {
        if !first {
            out.append(",");
        }
        out.append(name);
        c.write_json(out);
        assert(final(out)@ =~= old(out)@ + part_text(first, c.count > 0, name@ + count_json(c@)));
        false
    } else {
        assert(final(out)@ =~= old(out)@ + Seq::<char>::empty());
        first
    }
}

/// Appends the aggregate `t` to a line of the summary, if `t` has seen a
/// value.
fn push_tally_summary<T: Scalar>(out: &mut String, label: &str, t: &MaxMinCount<T>)
    ensures
        final(out)@ == old(out)@ + only_if(t.count > 0, label@ + tally_summary::<T>(t@) + ";"@),
{
    if t.count > 0 {
        out.append(label);
        t.write_summary(out);
        out.append(";");
        assert(final(out)@ =~= old(out)@ + (label@ + tally_summary::<T>(t@) + ";"@));
    } else {
        assert(final(out)@ =~= old(out)@ + Seq::<char>::empty());
    }
}

/// Appends the counter `c` to a line of the summary, if `c` has counted a
/// value.
fn push_count_summary(out: &mut String, label: &str, c: &Count, end: &str)
    ensures
        final(out)@ == old(out)@ + only_if(c.count > 0, label@ + nat_text(c@) + end@),
{
    if c.count > 0 {
        out.append(label);
        push_nat(out, c.count as u64);
        out.append(end);
        assert(final(out)@ =~= old(out)@ + (label@ + nat_text(c@) + end@));
    } else {
        assert(final(out)@ =~= old(out)@ + Seq::<char>::empty());
    }
}

/// The statistics of one key path.
#[derive(Clone, Debug)]
pub struct JsonStatItem {
    pub string: MaxMinCount<usize>,
    pub int: MaxMinCount<i64>,
    pub float: MaxMinCount<FloatNumber>,
    pub bool: Count,
    pub null: Count,
    pub object: Count,
    pub array: MaxMinCount<usize>,
}

impl View for JsonStatItem {
    type V = ItemModel;

    open spec fn view(&self) -> ItemModel {
        ItemModel {
            string: self.string@,
            int: self.int@,
            float: self.float@,
            bool: self.bool@,
            null: self.null@,
            object: self.object@,
            array: self.array@,
        }
    }
}

impl JsonStatItem {
    /// Every aggregate of the item is well formed.
    pub open spec fn wf(&self) -> bool {
        item_wf(self@)
    }

    /// An item that has seen nothing.
    pub fn new() -> (r: Self)
        ensures
            r@ == item_empty(),
            r.wf(),
    {
        proof {
            reveal(item_wf);
        }
        JsonStatItem {
            string: MaxMinCount::new(),
            int: MaxMinCount::new(),
            float: MaxMinCount::new(),
            bool: Count::new(),
            null: Count::new(),
            object: Count::new(),
            array: MaxMinCount::new(),
        }
    }

    /// Takes in everything that `other` has seen, kind by kind.
    pub fn merge(&mut self, other: &Self)
        requires
            merge_fits(old(self)@, other@),
        ensures
            final(self)@ == item_merge(old(self)@, other@),
            old(self).wf() && other.wf() ==> final(self).wf(),
    {
        proof {
            reveal(item_merge);
            reveal(item_wf);
        }
        self.string.merge(&other.string);
        self.int.merge(&other.int);
        self.float.merge(&other.float);
        self.bool.merge(&other.bool);
        self.null.merge(&other.null);
        self.object.merge(&other.object);
        self.array.merge(&other.array);
    }

    /// A copy of the item.
    pub fn duplicate(&self) -> (r: Self)
        ensures
            r@ == self@,
    {
        JsonStatItem {
            string: self.string.duplicate(),
            int: self.int.duplicate(),
            float: self.float.duplicate(),
            bool: self.bool.duplicate(),
            null: self.null.duplicate(),
            object: self.object.duplicate(),
            array: self.array.duplicate(),
        }
    }

    /// Records the value `data`, found at the path `key`, under its kind, and
    /// returns the values directly inside it, each with its own path.
    pub fn stat(&mut self, key: &str, data: &JsonValue) -> (r: Vec<(String, JsonValue)>)
        requires
            merge_fits(old(self)@, item_of(data@)),
        ensures
            final(self)@ == item_merge(old(self)@, item_of(data@)),
            old(self).wf() ==> final(self).wf(),
            members_view(r@) == children(key@, data@),
    {
        let mut ret: Vec<(String, JsonValue)> = Vec::new();
        proof {
            reveal(item_merge);
            reveal(item_of);
            lemma_view_parts(*data);
            lemma_item_wf(old(self)@, item_of(data@), data@);
        }
        match data {
            JsonValue::String(s) => {
                let n = s.as_str().len();
                self.string.add(&n);
            },
            JsonValue::Number(JsonNumber::Int(num)) => {
                self.int.add(num);
            },
            JsonValue::Number(JsonNumber::Float(f)) => {
                match float_as_integer(f.bits) {
                    Some(num) => {
                        self.int.add(&num);
                    },
                    None => {
                        self.float.add(f);
                    },
                }
            },
            JsonValue::Null => {
                self.null.add();
            },
            JsonValue::Bool(_) => {
                self.bool.add();
            },
            JsonValue::Array(arr) => {
                let n = arr.len();
                self.array.add(&n);
                let mut i: usize = 0;
                while i < arr.len()
                    invariant
                        i <= arr.len(),
                        ret.len() == i,
                        forall|k: int|
                            0 <= k < i ==> (#[trigger] ret@[k]).0@ == key@ + array_marker()
                                && ret@[k].1@ == arr@[k]@,
                    decreases arr.len() - i,
                {
                    let mut k = String::from_str(key);
                    k.append("[]");
                    proof {
                        reveal_strlit("[]");
                        assert("[]"@ =~= array_marker());
                    }
                    ret.push((k, arr[i].duplicate()));
                    i = i + 1;
                }
            },
            JsonValue::Object(obj) => {
                self.object.add();
                let mut i: usize = 0;
                while i < obj.len()
                    invariant
                        i <= obj.len(),
                        ret.len() == i,
                        forall|k: int|
                            0 <= k < i ==> (#[trigger] ret@[k]).0@ == key@ + member_marker(
                                obj@[k].0@,
                            ) && ret@[k].1@ == obj@[k].1@,
                    decreases obj.len() - i,
                {
                    let mut k = String::from_str(key);
                    k.append(".");
                    k.append(obj[i].0.as_str());
                    proof {
                        reveal_strlit(".");
                        assert("."@ =~= seq!['.']);
                        assert(key@ + "."@ + obj@[i as int].0@ =~= key@ + member_marker(
                            obj@[i as int].0@,
                        ));
                    }
                    ret.push((k, obj[i].1.duplicate()));
                    i = i + 1;
                }
            },
        }
        assert(members_view(ret@) =~= children(key@, data@));
        ret
    }

    /// The compact report of the item as JSON text: only the kinds of which
    /// the item has seen a value.
    pub fn to_json_value(&self) -> (r: String)
        ensures
            r@ == item_compact_json(self@),
    {
        let mut out = String::from_str("{");
        let ghost a = self@;
        proof {
            reveal(item_compact_json);
        }
        let ghost p0 = Seq::<Seq<char>>::empty();
        let ghost p1 = with_part(
            p0,
            a.array.count > 0,
            "\"array\":"@ + tally_json::<usize>(a.array),
        );
        let ghost p2 = with_part(p1, a.bool > 0, "\"bool\":"@ + count_json(a.bool));
        let ghost p3 = with_part(
            p2,
            a.float.count > 0,
            "\"float\":"@ + tally_json::<FloatNumber>(a.float),
        );
        let ghost p4 = with_part(p3, a.int.count > 0, "\"int\":"@ + tally_json::<i64>(a.int));
        let ghost p5 = with_part(p4, a.null > 0, "\"null\":"@ + count_json(a.null));
        let ghost p6 = with_part(p5, a.object > 0, "\"object\":"@ + count_json(a.object));
        let ghost p7 = with_part(
            p6,
            a.string.count > 0,
            "\"string\":"@ + tally_json::<usize>(a.string),
        );
        assert(out@ =~= "{"@ + joined(p0));
        let ghost t0 = out@;
        let first = push_tally_part(&mut out, true, "\"array\":", &self.array);
        assert(out@ == "{"@ + joined(p1) && first == (p1.len() == 0)) by {
            lemma_part(t0, p0, a.array.count > 0, "\"array\":"@ + tally_json::<usize>(a.array));
        }
        let ghost t1 = out@;
        let first = push_count_part(&mut out, first, "\"bool\":", &self.bool);
        assert(out@ == "{"@ + joined(p2) && first == (p2.len() == 0)) by {
            lemma_part(t1, p1, a.bool > 0, "\"bool\":"@ + count_json(a.bool));
        }
        let ghost t2 = out@;
        let first = push_tally_part(&mut out, first, "\"float\":", &self.float);
        assert(out@ == "{"@ + joined(p3) && first == (p3.len() == 0)) by {
            lemma_part(
                t2,
                p2,
                a.float.count > 0,
                "\"float\":"@ + tally_json::<FloatNumber>(a.float),
            );
        }
        let ghost t3 = out@;
        let first = push_tally_part(&mut out, first, "\"int\":", &self.int);
        assert(out@ == "{"@ + joined(p4) && first == (p4.len() == 0)) by {
            lemma_part(t3, p3, a.int.count > 0, "\"int\":"@ + tally_json::<i64>(a.int));
        }
        let ghost t4 = out@;
        let first = push_count_part(&mut out, first, "\"null\":", &self.null);
        assert(out@ == "{"@ + joined(p5) && first == (p5.len() == 0)) by {
            lemma_part(t4, p4, a.null > 0, "\"null\":"@ + count_json(a.null));
        }
        let ghost t5 = out@;
        let first = push_count_part(&mut out, first, "\"object\":", &self.object);
        assert(out@ == "{"@ + joined(p6) && first == (p6.len() == 0)) by {
            lemma_part(t5, p5, a.object > 0, "\"object\":"@ + count_json(a.object));
        }
        let ghost t6 = out@;
        let _ = push_tally_part(&mut out, first, "\"string\":", &self.string);
        assert(out@ == "{"@ + joined(p7)) by {
            lemma_part(t6, p6, a.string.count > 0, "\"string\":"@ + tally_json::<usize>(a.string));
        }
        out.append("}");
        out
    }

    /// The full report of the item as JSON text: all seven kinds, also those
    /// of which the item has seen nothing.
    pub fn to_json_full(&self) -> (r: String)
        ensures
            r@ == item_full_json(self@),
    {
        proof {
            reveal(item_full_json);
        }
        let mut out = String::from_str("{\"string\":");
        self.string.write_json(&mut out);
        out.append(",\"int\":");
        self.int.write_json(&mut out);
        out.append(",\"float\":");
        self.float.write_json(&mut out);
        out.append(",\"bool\":");
        self.bool.write_json(&mut out);
        out.append(",\"null\":");
        self.null.write_json(&mut out);
        out.append(",\"object\":");
        self.object.write_json(&mut out);
        out.append(",\"array\":");
        self.array.write_json(&mut out);
        out.append("}");
        out
    }

    /// The item as it stands in a line of the summary.
    pub fn to_string(&self) -> (r: String)
        ensures
            r@ == item_summary(self@),
    {
        proof {
            reveal(item_summary);
        }
        let mut out = String::new();
        push_count_summary(&mut out, "null:", &self.null, ";");
        assert(out@ =~= only_if(self@.null > 0, "null:"@ + nat_text(self@.null) + ";"@));
        push_count_summary(&mut out, "bool:", &self.bool, ";");
        push_tally_summary(&mut out, "int:", &self.int);
        push_tally_summary(&mut out, "float:", &self.float);
        push_tally_summary(&mut out, "string:", &self.string);
        push_tally_summary(&mut out, "array:", &self.array);
        push_count_summary(&mut out, "object:", &self.object, "");
        proof {
            reveal_strlit("");
            assert(""@ =~= Seq::<char>::empty());
            assert("object:"@ + nat_text(self@.object) + ""@ =~= "object:"@ + nat_text(
                self@.object,
            ));
        }
        out
    }

    /// The number of values that the item has seen, of all kinds together, if
    /// `usize` can hold it.
    pub fn total(&self) -> (r: Option<usize>)
        ensures
            match r {
                Some(n) => n == item_total(self@),
                None => item_total(self@) > usize::MAX,
            },
    {
        proof {
            reveal(item_total);
        }
        let sum = self.string.count;
        let sum = match sum.checked_add(self.int.count) {
            Some(n) => n,
            None => {
                return None;
            },
        };
        let sum = match sum.checked_add(self.float.count) {
            Some(n) => n,
            None => {
                return None;
            },
        };
        let sum = match sum.checked_add(self.bool.count) {
            Some(n) => n,
            None => {
                return None;
            },
        };
        let sum = match sum.checked_add(self.null.count) {
            Some(n) => n,
            None => {
                return None;
            },
        };
        let sum = match sum.checked_add(self.object.count) {
            Some(n) => n,
            None => {
                return None;
            },
        };
        sum.checked_add(self.array.count)
    }
}

} // verus!
