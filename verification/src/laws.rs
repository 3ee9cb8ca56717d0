//! What holds of accumulators whatever the documents: merging is associative
//! and commutative, splitting the input and merging the parts changes nothing,
//! every value is counted once, under its path, and the bounds kept for a
//! path are the least and the greatest of the values seen there.

use crate::aggregate::{lemma_observe_is_merge, lemma_tally_bounds, tally_of};
use crate::float::{float_integer, FloatModel, FloatNumber};
use crate::group::root_path;
use crate::item::{
    array_marker, item_empty, item_merge, item_of, item_total, item_wf, lemma_item_empty,
    lemma_item_merge_associative, lemma_item_merge_commutative, lemma_item_merge_empty,
    lemma_item_merge_swap, lemma_item_wf, lemma_item_zero, member_marker, text_length,
    ItemModel,
};
use crate::json::Json;
use crate::model::{
    here, ingest, lemma_lookup_pending, lemma_tally_wf, lemma_work_concat, lemma_work_wf, lookup,
    merged, pending, stat_wf, tally, tally_items, tally_members, work_tally,
};
use vstd::prelude::*;
use vstd::seq_lib::{commutative_foldl, lemma_fold_left_permutation};

verus! {

broadcast use vstd::seq::axiom_seq_index_decreases;

/// The accumulator `m` after the documents `docs` have been ingested in
/// order, under the grouping key `group`.
pub open spec fn ingest_all(
    m: Map<Seq<char>, ItemModel>,
    group: Option<Seq<char>>,
    docs: Seq<Json>,
) -> Map<Seq<char>, ItemModel>
    decreases docs.len(),
{
    if docs.len() == 0 {
        m
    } else {
        ingest(
            ingest_all(m, group, docs.drop_last()),
            root_path(group, docs.last()),
            docs.last(),
        )
    }
}

/// The documents, each with the path of its root.
pub open spec fn rooted(group: Option<Seq<char>>, docs: Seq<Json>) -> Seq<(Seq<char>, Json)> {
    Seq::new(docs.len(), |i: int| (root_path(group, docs[i]), docs[i]))
}

/// One list made of the lists `parts`, in order.
pub open spec fn concat_all(parts: Seq<Seq<Json>>) -> Seq<Json>
    decreases parts.len(),
{
    if parts.len() == 0 {
        Seq::empty()
    } else {
        concat_all(parts.drop_last()) + parts.last()
    }
}

/// The merge of the accumulators built from each of the lists `parts`, every
/// one from an empty accumulator.
pub open spec fn merge_all(group: Option<Seq<char>>, parts: Seq<Seq<Json>>) -> Map<
    Seq<char>,
    ItemModel,
>
    decreases parts.len(),
{
    if parts.len() == 0 {
        Map::empty()
    } else {
        merged(
            merge_all(group, parts.drop_last()),
            ingest_all(Map::empty(), group, parts.last()),
        )
    }
}

/// The item found for a path in a merge is the merge of the items found.
pub proof fn lemma_lookup_merged(
    a: Map<Seq<char>, ItemModel>,
    b: Map<Seq<char>, ItemModel>,
    q: Seq<char>,
)
    ensures
        lookup(merged(a, b), q) == item_merge(lookup(a, q), lookup(b, q)),
{
    lemma_item_empty();
}

/// Merging keeps accumulators well formed.
pub proof fn lemma_merged_wf(a: Map<Seq<char>, ItemModel>, b: Map<Seq<char>, ItemModel>)
    requires
        stat_wf(a),
        stat_wf(b),
    ensures
        stat_wf(merged(a, b)),
{
    assert forall|q: Seq<char>| #[trigger] merged(a, b).dom().contains(q) implies item_wf(
        merged(a, b)[q],
    ) && item_total(merged(a, b)[q]) > 0 by {
        lemma_item_wf(item_empty(), item_empty(), Json::Null);
        lemma_item_wf(lookup(a, q), lookup(b, q), Json::Null);
    }
}

/// Merging three accumulators gives the same map however they are grouped and
/// whichever comes first.
pub proof fn lemma_merge_order(
    a: Map<Seq<char>, ItemModel>,
    b: Map<Seq<char>, ItemModel>,
    c: Map<Seq<char>, ItemModel>,
)
    requires
        stat_wf(a),
        stat_wf(b),
        stat_wf(c),
    ensures
        merged(merged(a, b), c) == merged(a, merged(b, c)),
        merged(merged(a, b), c) == merged(b, merged(a, c)),
        merged(a, b) == merged(b, a),
{
    lemma_item_wf(item_empty(), item_empty(), Json::Null);
    assert forall|q: Seq<char>|
        item_merge(item_merge(lookup(a, q), lookup(b, q)), lookup(c, q)) == item_merge(
            lookup(a, q),
            item_merge(lookup(b, q), lookup(c, q)),
        ) && item_merge(item_merge(lookup(a, q), lookup(b, q)), lookup(c, q)) == item_merge(
            lookup(b, q),
            item_merge(lookup(a, q), lookup(c, q)),
        ) && item_merge(lookup(a, q), lookup(b, q)) == item_merge(lookup(b, q), lookup(a, q)) by {
        lemma_item_merge_associative(lookup(a, q), lookup(b, q), lookup(c, q));
        lemma_item_merge_associative(lookup(b, q), lookup(a, q), lookup(c, q));
        lemma_item_merge_commutative(lookup(a, q), lookup(b, q));
    }
    assert forall|q: Seq<char>|
        lookup(merged(a, b), q) == item_merge(lookup(a, q), lookup(b, q)) && lookup(
            merged(b, c),
            q,
        ) == item_merge(lookup(b, q), lookup(c, q)) && lookup(merged(a, c), q) == item_merge(
            lookup(a, q),
            lookup(c, q),
        ) by {
        lemma_lookup_merged(a, b, q);
        lemma_lookup_merged(b, c, q);
        lemma_lookup_merged(a, c, q);
    }
    assert(merged(merged(a, b), c) =~= merged(a, merged(b, c)));
    assert(merged(merged(a, b), c) =~= merged(b, merged(a, c)));
    assert(merged(a, b) =~= merged(b, a));
}

/// Merging an empty accumulator into an accumulator, or an accumulator into an
/// empty one, leaves its map unchanged.
pub proof fn lemma_merge_empty(a: Map<Seq<char>, ItemModel>)
    requires
        stat_wf(a),
    ensures
        merged(a, Map::empty()) == a,
        merged(Map::empty(), a) == a,
{
    assert forall|q: Seq<char>| a.dom().contains(q) implies item_merge(
        lookup(a, q),
        item_empty(),
    ) == a[q] && item_merge(item_empty(), lookup(a, q)) == a[q] by {
        lemma_item_merge_empty(a[q]);
    }
    assert(merged(a, Map::empty()) =~= a);
    assert(merged(Map::empty(), a) =~= a);
}

/// Ingesting one more document, after a list of them, is ingesting the list
/// with that document at its end.
proof fn lemma_ingest_pending(
    m: Map<Seq<char>, ItemModel>,
    w: Seq<(Seq<char>, Json)>,
    p: Seq<char>,
    j: Json,
)
    ensures
        ingest(pending(m, w), p, j) == pending(m, w.push((p, j))),
{
    let w1 = w.push((p, j));
    assert(w1.drop_last() =~= w);
    assert(w1.last() == (p, j));
    lemma_item_wf(item_empty(), item_empty(), j);
    assert forall|q: Seq<char>|
        item_merge(lookup(pending(m, w), q), tally(p, j, q)) == item_merge(
            lookup(m, q),
            work_tally(w1, q),
        ) && item_total(work_tally(w1, q)) == item_total(work_tally(w, q)) + item_total(
            tally(p, j, q),
        ) by {
        lemma_work_wf(w, q);
        lemma_tally_wf(p, j, q);
        lemma_item_wf(work_tally(w, q), tally(p, j, q), j);
        lemma_item_wf(lookup(m, q), work_tally(w, q), j);
        lemma_item_empty();
        if item_total(work_tally(w, q)) == 0 {
            lemma_item_zero(work_tally(w, q));
        }
        lemma_item_merge_associative(lookup(m, q), work_tally(w, q), tally(p, j, q));
    }
    assert(ingest(pending(m, w), p, j) =~= pending(m, w1));
}

/// Ingesting documents in order is ingesting the list of them, each at the
/// path of its root.
pub proof fn lemma_ingest_all(
    m: Map<Seq<char>, ItemModel>,
    group: Option<Seq<char>>,
    docs: Seq<Json>,
)
    requires
        stat_wf(m),
    ensures
        ingest_all(m, group, docs) == pending(m, rooted(group, docs)),
        stat_wf(ingest_all(m, group, docs)),
    decreases docs.len(),
{
    let w = rooted(group, docs);
    lemma_item_wf(item_empty(), item_empty(), Json::Null);
    if docs.len() == 0 {
        assert forall|q: Seq<char>| m.dom().contains(q) implies item_merge(
            lookup(m, q),
            item_empty(),
        ) == m[q] by {
            lemma_item_merge_empty(m[q]);
        }
        assert(pending(m, w) =~= m);
    } else {
        let front = docs.drop_last();
        lemma_ingest_all(m, group, front);
        assert(rooted(group, front).push((root_path(group, docs.last()), docs.last())) =~= w);
        lemma_ingest_pending(m, rooted(group, front), root_path(group, docs.last()), docs.last());
    }
    assert forall|q: Seq<char>| #[trigger] pending(m, w).dom().contains(q) implies item_wf(
        pending(m, w)[q],
    ) && item_total(pending(m, w)[q]) > 0 by {
        lemma_work_wf(w, q);
        lemma_item_wf(lookup(m, q), work_tally(w, q), Json::Null);
    }
}

/// Ingesting a list of documents into one accumulator gives the same map as
/// ingesting its first part into one accumulator, the rest into another, and
/// merging the two.
pub proof fn lemma_split(group: Option<Seq<char>>, xs: Seq<Json>, ys: Seq<Json>)
    ensures
        ingest_all(Map::empty(), group, xs + ys) == merged(
            ingest_all(Map::empty(), group, xs),
            ingest_all(Map::empty(), group, ys),
        ),
{
    let e = Map::<Seq<char>, ItemModel>::empty();
    lemma_ingest_all(e, group, xs);
    lemma_ingest_all(e, group, ys);
    lemma_ingest_all(e, group, xs + ys);
    let wx = rooted(group, xs);
    let wy = rooted(group, ys);
    assert(rooted(group, xs + ys) =~= wx + wy);
    lemma_item_wf(item_empty(), item_empty(), Json::Null);
    assert forall|q: Seq<char>|
        item_merge(item_empty(), work_tally(wx + wy, q)) == item_merge(
            lookup(pending(e, wx), q),
            lookup(pending(e, wy), q),
        ) && item_total(work_tally(wx + wy, q)) == item_total(work_tally(wx, q)) + item_total(
            work_tally(wy, q),
        ) by {
        lemma_work_concat(wx, wy, q);
        lemma_work_wf(wx, q);
        lemma_work_wf(wy, q);
        lemma_work_wf(wx + wy, q);
        lemma_lookup_pending(e, wx, q);
        lemma_lookup_pending(e, wy, q);
        lemma_item_merge_empty(work_tally(wx, q));
        lemma_item_merge_empty(work_tally(wy, q));
        lemma_item_merge_empty(work_tally(wx + wy, q));
        lemma_item_wf(work_tally(wx, q), work_tally(wy, q), Json::Null);
    }
    assert(pending(e, wx + wy) =~= merged(pending(e, wx), pending(e, wy)));
}

/// What a list of documents adds to a path, as a fold over the list.
proof fn lemma_tally_is_fold(group: Option<Seq<char>>, docs: Seq<Json>, q: Seq<char>)
    ensures
        work_tally(rooted(group, docs), q) == docs.fold_left(
            item_empty(),
            |acc: ItemModel, d: Json| item_merge(acc, tally(root_path(group, d), d, q)),
        ),
    decreases docs.len(),
{
    let f = |acc: ItemModel, d: Json| item_merge(acc, tally(root_path(group, d), d, q));
    if docs.len() > 0 {
        lemma_tally_is_fold(group, docs.drop_last(), q);
        assert(rooted(group, docs).drop_last() =~= rooted(group, docs.drop_last()));
    }
}

/// The order in which documents are ingested does not matter: two lists with
/// the same documents, each as often in one as in the other, give the same
/// map.
pub proof fn lemma_any_order(group: Option<Seq<char>>, xs: Seq<Json>, ys: Seq<Json>)
    requires
        xs.to_multiset() == ys.to_multiset(),
    ensures
        ingest_all(Map::empty(), group, xs) == ingest_all(Map::empty(), group, ys),
{
    let e = Map::<Seq<char>, ItemModel>::empty();
    lemma_ingest_all(e, group, xs);
    lemma_ingest_all(e, group, ys);
    assert forall|q: Seq<char>|
        work_tally(rooted(group, xs), q) == work_tally(rooted(group, ys), q) by {
        let f = |acc: ItemModel, d: Json| item_merge(acc, tally(root_path(group, d), d, q));
        assert forall|x: Json, y: Json, v: ItemModel| #[trigger] f(f(v, x), y) == f(f(v, y), x) by {
            lemma_tally_wf(root_path(group, x), x, q);
            lemma_tally_wf(root_path(group, y), y, q);
            lemma_item_merge_swap(
                v,
                tally(root_path(group, x), x, q),
                tally(root_path(group, y), y, q),
            );
        }
        assert(commutative_foldl(f));
        lemma_fold_left_permutation(xs, ys, f, item_empty());
        lemma_tally_is_fold(group, xs, q);
        lemma_tally_is_fold(group, ys, q);
    }
    assert(pending(e, rooted(group, xs)) =~= pending(e, rooted(group, ys)));
}

/// Merging the accumulators of the parts is ingesting the parts one after the
/// other.
proof fn lemma_merge_all(group: Option<Seq<char>>, parts: Seq<Seq<Json>>)
    ensures
        merge_all(group, parts) == ingest_all(Map::empty(), group, concat_all(parts)),
    decreases parts.len(),
{
    if parts.len() > 0 {
        lemma_merge_all(group, parts.drop_last());
        lemma_split(group, concat_all(parts.drop_last()), parts.last());
    }
}

/// Ingesting a list of documents into one accumulator gives the same map as
/// dealing the documents out to any number of lists, in any order, building
/// one accumulator from each list and merging them all.
pub proof fn lemma_split_and_merge(
    group: Option<Seq<char>>,
    docs: Seq<Json>,
    parts: Seq<Seq<Json>>,
)
    requires
        concat_all(parts).to_multiset() == docs.to_multiset(),
    ensures
        merge_all(group, parts) == ingest_all(Map::empty(), group, docs),
{
    lemma_merge_all(group, parts);
    lemma_any_order(group, concat_all(parts), docs);
}

/// The path `p` is the beginning of the path `t`.
pub open spec fn is_prefix(p: Seq<char>, t: Seq<char>) -> bool {
    p.len() <= t.len() && t.take(p.len() as int) == p
}

/// The name holds a dot, or an opening bracket directly followed by a closing
/// one: what the paths of values further inside are made with.
pub open spec fn has_marker(name: Seq<char>) -> bool {
    exists|i: int|
        0 <= i < name.len() && ((#[trigger] name[i]) == '.' || (name[i] == '[' && i + 1
            < name.len() && name[i + 1] == ']'))
}

/// How many of the first `n` members have the name `name`.
pub open spec fn members_named(members: Seq<(Seq<char>, Json)>, name: Seq<char>, n: nat) -> nat
    decreases n,
{
    if n == 0 || n > members.len() {
        0
    } else {
        members_named(members, name, (n - 1) as nat) + if members[n - 1].0 == name {
            1nat
        } else {
            0nat
        }
    }
}

/// How many times the documents, those that are objects, have a member with
/// the name `name`.
pub open spec fn times_present(docs: Seq<Json>, name: Seq<char>) -> nat
    decreases docs.len(),
{
    if docs.len() == 0 {
        0
    } else {
        times_present(docs.drop_last(), name) + match docs.last() {
            Json::Object(members) => members_named(members, name, members.len()),
            _ => 0,
        }
    }
}

/// A path that begins with something that `t` does not begin with is not the
/// beginning of `t` either.
proof fn lemma_prefix_grows(p: Seq<char>, s: Seq<char>, t: Seq<char>)
    requires
        !is_prefix(p, t),
    ensures
        !is_prefix(p + s, t),
{
    if is_prefix(p + s, t) {
        assert(t.take(p.len() as int) =~= (p + s).take(p.len() as int));
        assert((p + s).take(p.len() as int) =~= p);
    }
}

/// A document adds nothing to a path that does not begin with its own.
pub proof fn lemma_outside(p: Seq<char>, j: Json, t: Seq<char>)
    requires
        !is_prefix(p, t),
    ensures
        item_total(tally(p, j, t)) == 0,
    decreases j, 0nat, 0nat,
{
    lemma_item_empty();
    assert(p != t) by {
        if p == t {
            assert(t.take(p.len() as int) =~= p);
        }
    }
    match j {
        Json::Array(items) => {
            lemma_prefix_grows(p, array_marker(), t);
            lemma_outside_items(p + array_marker(), items, items.len(), t);
            lemma_item_wf(
                here(p, j, t),
                tally_items(p + array_marker(), items, items.len(), t),
                j,
            );
        },
        Json::Object(members) => {
            lemma_prefix_grows(p, seq!['.'], t);
            lemma_outside_members(p, members, members.len(), t);
            lemma_item_wf(here(p, j, t), tally_members(p, members, members.len(), t), j);
        },
        _ => {
            lemma_item_wf(here(p, j, t), item_empty(), j);
        },
    }
}

/// The items of an array add nothing to a path that does not begin with
/// theirs.
proof fn lemma_outside_items(p: Seq<char>, items: Seq<Json>, n: nat, t: Seq<char>)
    requires
        !is_prefix(p, t),
    ensures
        item_total(tally_items(p, items, n, t)) == 0,
    decreases items, 1nat, n,
{
    lemma_item_empty();
    if !(n == 0 || n > items.len()) {
        lemma_outside_items(p, items, (n - 1) as nat, t);
        lemma_outside(p, items[n - 1], t);
        lemma_item_wf(
            tally_items(p, items, (n - 1) as nat, t),
            tally(p, items[n - 1], t),
            Json::Null,
        );
    }
}

/// The members of an object add nothing to a path that does not begin with
/// the path of the object and a dot.
proof fn lemma_outside_members(
    p: Seq<char>,
    members: Seq<(Seq<char>, Json)>,
    n: nat,
    t: Seq<char>,
)
    requires
        !is_prefix(p + seq!['.'], t),
    ensures
        item_total(tally_members(p, members, n, t)) == 0,
    decreases members, 1nat, n,
{
    lemma_item_empty();
    if !(n == 0 || n > members.len()) {
        let name = members[n - 1].0;
        lemma_outside_members(p, members, (n - 1) as nat, t);
        lemma_prefix_grows(p + seq!['.'], name, t);
        assert(p + member_marker(name) =~= p + seq!['.'] + name);
        lemma_outside(p + member_marker(name), members[n - 1].1, t);
        lemma_item_wf(
            tally_members(p, members, (n - 1) as nat, t),
            tally(p + member_marker(name), members[n - 1].1, t),
            Json::Null,
        );
    }
}

/// A path that is longer than `t` is not the beginning of `t`.
proof fn lemma_longer(t: Seq<char>, s: Seq<char>)
    requires
        s.len() > 0,
    ensures
        !is_prefix(t + s, t),
{
}

/// To its own path a document adds itself and nothing else: all that it holds
/// has a longer path.
pub proof fn lemma_own_path(t: Seq<char>, j: Json)
    ensures
        item_total(tally(t, j, t)) == 1,
{
    lemma_item_empty();
    match j {
        Json::Array(items) => {
            lemma_longer(t, array_marker());
            lemma_outside_items(t + array_marker(), items, items.len(), t);
            lemma_item_wf(
                here(t, j, t),
                tally_items(t + array_marker(), items, items.len(), t),
                j,
            );
        },
        Json::Object(members) => {
            lemma_longer(t, seq!['.']);
            lemma_outside_members(t, members, members.len(), t);
            lemma_item_wf(here(t, j, t), tally_members(t, members, members.len(), t), j);
        },
        _ => {
            lemma_item_wf(here(t, j, t), item_empty(), j);
        },
    }
}

/// What the member `other` of a document at the root adds to the path of the
/// member `name`: one value if it has that name, and nothing otherwise.
proof fn lemma_member(other: Seq<char>, v: Json, name: Seq<char>)
    requires
        !has_marker(name),
    ensures
        item_total(tally(member_marker(other), v, member_marker(name))) == if other == name {
            1nat
        } else {
            0nat
        },
{
    let p = member_marker(other);
    let t = member_marker(name);
    lemma_item_empty();
    if other == name {
        lemma_own_path(t, v);
    } else if !is_prefix(p, t) {
        lemma_outside(p, v, t);
    } else {
        // `other` is the beginning of `name`, and shorter.
        assert(p != t) by {
            if p == t {
                assert(other =~= p.skip(1));
                assert(name =~= t.skip(1));
            }
        }
        assert(t.take(p.len() as int) == p);
        assert(p.len() < t.len()) by {
            if p.len() == t.len() {
                assert(t.take(p.len() as int) =~= t);
            }
        }
        let k = other.len() as int;
        assert(t[k + 1] == name[k]);
        match v {
            Json::Array(items) => {
                if is_prefix(p + array_marker(), t) {
                    let q = p + array_marker();
                    assert(t.take(q.len() as int)[k + 1] == q[k + 1]);
                    assert(t.take(q.len() as int)[k + 2] == q[k + 2]);
                    assert(name[k] == '[');
                    assert(t[k + 2] == name[k + 1]);
                    assert(name[k + 1] == ']');
                }
                lemma_outside_items(p + array_marker(), items, items.len(), t);
                lemma_item_wf(
                    here(p, v, t),
                    tally_items(p + array_marker(), items, items.len(), t),
                    v,
                );
            },
            Json::Object(members) => {
                if is_prefix(p + seq!['.'], t) {
                    let q = p + seq!['.'];
                    assert(t.take(q.len() as int)[k + 1] == q[k + 1]);
                    assert(name[k] == '.');
                }
                lemma_outside_members(p, members, members.len(), t);
                lemma_item_wf(here(p, v, t), tally_members(p, members, members.len(), t), v);
            },
            _ => {
                lemma_item_wf(here(p, v, t), item_empty(), v);
            },
        }
    }
}

/// What the first members of a document at the root add to the path of the
/// member `name`: one value for each of them that has that name.
proof fn lemma_members_present(members: Seq<(Seq<char>, Json)>, name: Seq<char>, n: nat)
    requires
        !has_marker(name),
    ensures
        item_total(tally_members(Seq::empty(), members, n, member_marker(name))) == members_named(
            members,
            name,
            n,
        ),
    decreases n,
{
    let t = member_marker(name);
    let root = Seq::<char>::empty();
    lemma_item_empty();
    if !(n == 0 || n > members.len()) {
        lemma_members_present(members, name, (n - 1) as nat);
        let other = members[n - 1].0;
        lemma_member(other, members[n - 1].1, name);
        assert(root + member_marker(other) =~= member_marker(other));
        lemma_item_wf(
            tally_members(root, members, (n - 1) as nat, t),
            tally(root + member_marker(other), members[n - 1].1, t),
            Json::Null,
        );
    }
}

/// Count conservation. After any list of documents has been ingested into an
/// empty accumulator without a grouping key, the item of the path of a
/// top-level member has seen as many values, of all kinds together, as there
/// are members of that name at the top of the documents. The name must hold
/// neither a dot nor `[]`: with one of them in it, a value further inside
/// another member can have the same path.
pub proof fn lemma_count_conservation(docs: Seq<Json>, name: Seq<char>)
    requires
        !has_marker(name),
    ensures
        item_total(lookup(ingest_all(Map::empty(), None, docs), member_marker(name)))
            == times_present(docs, name),
    decreases docs.len(),
{
    let e = Map::<Seq<char>, ItemModel>::empty();
    let t = member_marker(name);
    let w = rooted(None, docs);
    lemma_ingest_all(e, None, docs);
    lemma_lookup_pending(e, w, t);
    lemma_work_wf(w, t);
    lemma_item_merge_empty(work_tally(w, t));
    lemma_docs_present(docs, name);
}

/// What the documents add to the path of the member `name`: one value for
/// each member of that name at the top of a document.
proof fn lemma_docs_present(docs: Seq<Json>, name: Seq<char>)
    requires
        !has_marker(name),
    ensures
        item_total(work_tally(rooted(None, docs), member_marker(name))) == times_present(
            docs,
            name,
        ),
    decreases docs.len(),
{
    let t = member_marker(name);
    let w = rooted(None, docs);
    let root = Seq::<char>::empty();
    lemma_item_empty();
    if docs.len() > 0 {
        let d = docs.last();
        lemma_docs_present(docs.drop_last(), name);
        assert(w.drop_last() =~= rooted(None, docs.drop_last()));
        assert(w.last() == (root, d));
        lemma_item_wf(work_tally(w.drop_last(), t), tally(root, d, t), d);
        assert(t.len() > 0);
        assert(root != t);
        match d {
            Json::Array(items) => {
                assert(!is_prefix(root + array_marker(), t)) by {
                    if is_prefix(root + array_marker(), t) {
                        assert(t.take(2)[0] == (root + array_marker())[0]);
                    }
                }
                lemma_outside_items(root + array_marker(), items, items.len(), t);
                lemma_item_wf(
                    here(root, d, t),
                    tally_items(root + array_marker(), items, items.len(), t),
                    d,
                );
            },
            Json::Object(members) => {
                lemma_members_present(members, name, members.len());
                lemma_item_wf(here(root, d, t), tally_members(root, members, members.len(), t), d);
            },
            _ => {
                lemma_item_wf(here(root, d, t), item_empty(), d);
            },
        }
    }
}

/// The values of the document `j` whose path is `q`, where `j` itself is at
/// the path `p`: `j`, if `p` is `q`, and then those inside it, in order.
pub open spec fn values_at(p: Seq<char>, j: Json, q: Seq<char>) -> Seq<Json>
    decreases j, 0nat, 0nat,
{
    (if p == q {
        seq![j]
    } else {
        Seq::empty()
    }) + match j {
        Json::Array(items) => values_at_items(p + array_marker(), items, items.len(), q),
        Json::Object(members) => values_at_members(p, members, members.len(), q),
        _ => Seq::empty(),
    }
}

/// The values of the first `n` items of an array whose path is `q`, where
/// each item is at the path `p`.
pub open spec fn values_at_items(p: Seq<char>, items: Seq<Json>, n: nat, q: Seq<char>) -> Seq<
    Json,
>
    decreases items, 1nat, n,
{
    if n == 0 || n > items.len() {
        Seq::empty()
    } else {
        values_at_items(p, items, (n - 1) as nat, q) + values_at(p, items[n - 1], q)
    }
}

/// The values of the first `n` members of an object whose path is `q`, where
/// the object is at the path `p`.
pub open spec fn values_at_members(
    p: Seq<char>,
    members: Seq<(Seq<char>, Json)>,
    n: nat,
    q: Seq<char>,
) -> Seq<Json>
    decreases members, 1nat, n,
{
    if n == 0 || n > members.len() {
        Seq::empty()
    } else {
        values_at_members(p, members, (n - 1) as nat, q) + values_at(
            p + member_marker(members[n - 1].0),
            members[n - 1].1,
            q,
        )
    }
}

/// The values of a list of documents whose path is `q`.
pub open spec fn values_in(w: Seq<(Seq<char>, Json)>, q: Seq<char>) -> Seq<Json>
    decreases w.len(),
{
    if w.len() == 0 {
        Seq::empty()
    } else {
        values_in(w.drop_last(), q) + values_at(w.last().0, w.last().1, q)
    }
}

/// The item that has seen the values `s`, each by itself.
pub open spec fn item_of_all(s: Seq<Json>) -> ItemModel
    decreases s.len(),
{
    if s.len() == 0 {
        item_empty()
    } else {
        item_merge(item_of_all(s.drop_last()), item_of(s.last()))
    }
}

/// The integers among the values `s`: the integers, and the floating-point
/// numbers that are whole and fit a 64-bit signed integer.
pub open spec fn ints_of(s: Seq<Json>) -> Seq<i64>
    decreases s.len(),
{
    if s.len() == 0 {
        Seq::empty()
    } else {
        let front = ints_of(s.drop_last());
        match s.last() {
            Json::Int(i) => front.push(i),
            Json::Float(f) => match float_integer(f.bits) {
                Some(i) => front.push(i),
                None => front,
            },
            _ => front,
        }
    }
}

/// The floating-point numbers among the values `s` that do not count as
/// integers.
pub open spec fn floats_of(s: Seq<Json>) -> Seq<FloatModel>
    decreases s.len(),
{
    if s.len() == 0 {
        Seq::empty()
    } else {
        let front = floats_of(s.drop_last());
        match s.last() {
            Json::Float(f) => match float_integer(f.bits) {
                Some(_) => front,
                None => front.push(f),
            },
            _ => front,
        }
    }
}

/// The lengths of the strings among the values `s`.
pub open spec fn lengths_of(s: Seq<Json>) -> Seq<usize>
    decreases s.len(),
{
    if s.len() == 0 {
        Seq::empty()
    } else {
        let front = lengths_of(s.drop_last());
        match s.last() {
            Json::String(t) => front.push(text_length(t)),
            _ => front,
        }
    }
}

/// The lengths of the arrays among the values `s`.
pub open spec fn sizes_of(s: Seq<Json>) -> Seq<usize>
    decreases s.len(),
{
    if s.len() == 0 {
        Seq::empty()
    } else {
        let front = sizes_of(s.drop_last());
        match s.last() {
            Json::Array(items) => front.push(items.len() as usize),
            _ => front,
        }
    }
}

/// The item of a sequence of values is well formed.
proof fn lemma_item_of_all_wf(s: Seq<Json>)
    ensures
        item_wf(item_of_all(s)),
    decreases s.len(),
{
    lemma_item_empty();
    if s.len() > 0 {
        lemma_item_of_all_wf(s.drop_last());
        lemma_item_wf(item_of_all(s.drop_last()), item_of(s.last()), s.last());
    }
}

/// The item of two sequences of values, one after the other, is the merge of
/// their items.
pub proof fn lemma_item_of_all_concat(a: Seq<Json>, b: Seq<Json>)
    ensures
        item_of_all(a + b) == item_merge(item_of_all(a), item_of_all(b)),
    decreases b.len(),
{
    lemma_item_of_all_wf(a);
    if b.len() == 0 {
        assert(a + b =~= a);
        lemma_item_merge_empty(item_of_all(a));
    } else {
        assert((a + b).drop_last() =~= a + b.drop_last());
        assert((a + b).last() == b.last());
        lemma_item_of_all_concat(a, b.drop_last());
        lemma_item_merge_associative(
            item_of_all(a),
            item_of_all(b.drop_last()),
            item_of(b.last()),
        );
    }
}

/// What a document adds to a path is the item of its values at that path.
pub proof fn lemma_tally_of_values(p: Seq<char>, j: Json, q: Seq<char>)
    ensures
        tally(p, j, q) == item_of_all(values_at(p, j, q)),
    decreases j, 0nat, 0nat,
{
    let first = if p == q {
        seq![j]
    } else {
        Seq::<Json>::empty()
    };
    lemma_item_empty();
    assert(item_of_all(first) == here(p, j, q)) by {
        if p == q {
            assert(first.drop_last() =~= Seq::<Json>::empty());
            assert(item_of_all(first.drop_last()) == item_empty());
            lemma_item_wf(item_empty(), item_of(j), j);
            lemma_item_merge_empty(item_of(j));
        }
    }
    match j {
        Json::Array(items) => {
            lemma_tally_of_items(p + array_marker(), items, items.len(), q);
            lemma_item_of_all_concat(
                first,
                values_at_items(p + array_marker(), items, items.len(), q),
            );
        },
        Json::Object(members) => {
            lemma_tally_of_members(p, members, members.len(), q);
            lemma_item_of_all_concat(first, values_at_members(p, members, members.len(), q));
        },
        _ => {
            lemma_item_of_all_concat(first, Seq::empty());
        },
    }
}

/// What the first items of an array add to a path is the item of their values
/// at that path.
proof fn lemma_tally_of_items(p: Seq<char>, items: Seq<Json>, n: nat, q: Seq<char>)
    ensures
        tally_items(p, items, n, q) == item_of_all(values_at_items(p, items, n, q)),
    decreases items, 1nat, n,
{
    if !(n == 0 || n > items.len()) {
        lemma_tally_of_items(p, items, (n - 1) as nat, q);
        lemma_tally_of_values(p, items[n - 1], q);
        lemma_item_of_all_concat(
            values_at_items(p, items, (n - 1) as nat, q),
            values_at(p, items[n - 1], q),
        );
    }
}

/// What the first members of an object add to a path is the item of their
/// values at that path.
proof fn lemma_tally_of_members(
    p: Seq<char>,
    members: Seq<(Seq<char>, Json)>,
    n: nat,
    q: Seq<char>,
)
    ensures
        tally_members(p, members, n, q) == item_of_all(values_at_members(p, members, n, q)),
    decreases members, 1nat, n,
{
    if !(n == 0 || n > members.len()) {
        let cp = p + member_marker(members[n - 1].0);
        lemma_tally_of_members(p, members, (n - 1) as nat, q);
        lemma_tally_of_values(cp, members[n - 1].1, q);
        lemma_item_of_all_concat(
            values_at_members(p, members, (n - 1) as nat, q),
            values_at(cp, members[n - 1].1, q),
        );
    }
}

/// What a list of documents adds to a path is the item of their values at
/// that path.
pub proof fn lemma_work_of_values(w: Seq<(Seq<char>, Json)>, q: Seq<char>)
    ensures
        work_tally(w, q) == item_of_all(values_in(w, q)),
    decreases w.len(),
{
    if w.len() > 0 {
        lemma_work_of_values(w.drop_last(), q);
        lemma_tally_of_values(w.last().0, w.last().1, q);
        lemma_item_of_all_concat(
            values_in(w.drop_last(), q),
            values_at(w.last().0, w.last().1, q),
        );
    }
}

/// The aggregates of the item of a sequence of values are the aggregates of
/// the values of each kind, and its counters count the values of theirs.
pub proof fn lemma_item_of_all_kinds(s: Seq<Json>)
    ensures
        item_of_all(s).int == tally_of::<i64>(ints_of(s)),
        item_of_all(s).float == tally_of::<FloatNumber>(floats_of(s)),
        item_of_all(s).string == tally_of::<usize>(lengths_of(s)),
        item_of_all(s).array == tally_of::<usize>(sizes_of(s)),
        item_total(item_of_all(s)) == s.len(),
    decreases s.len(),
{
    reveal(item_merge);
    reveal(item_of);
    lemma_item_empty();
    if s.len() > 0 {
        let front = s.drop_last();
        lemma_item_of_all_kinds(front);
        lemma_item_wf(item_of_all(front), item_of(s.last()), s.last());
        lemma_tally_bounds::<i64>(ints_of(front));
        lemma_tally_bounds::<FloatNumber>(floats_of(front));
        lemma_tally_bounds::<usize>(lengths_of(front));
        lemma_tally_bounds::<usize>(sizes_of(front));
        match s.last() {
            Json::Int(i) => {
                lemma_observe_is_merge::<i64>(tally_of::<i64>(ints_of(front)), i);
                assert(ints_of(s).drop_last() =~= ints_of(front));
            },
            Json::Float(f) => {
                match float_integer(f.bits) {
                    Some(i) => {
                        lemma_observe_is_merge::<i64>(tally_of::<i64>(ints_of(front)), i);
                        assert(ints_of(s).drop_last() =~= ints_of(front));
                    },
                    None => {
                        lemma_observe_is_merge::<FloatNumber>(
                            tally_of::<FloatNumber>(floats_of(front)),
                            f,
                        );
                        assert(floats_of(s).drop_last() =~= floats_of(front));
                    },
                }
            },
            Json::String(t) => {
                lemma_observe_is_merge::<usize>(
                    tally_of::<usize>(lengths_of(front)),
                    text_length(t),
                );
                assert(lengths_of(s).drop_last() =~= lengths_of(front));
            },
            Json::Array(items) => {
                lemma_observe_is_merge::<usize>(
                    tally_of::<usize>(sizes_of(front)),
                    items.len() as usize,
                );
                assert(sizes_of(s).drop_last() =~= sizes_of(front));
            },
            _ => {},
        }
    }
}

/// Bounds at a path. After any list of documents has been ingested into an
/// empty accumulator, the item of a path is the item of all the values that
/// the documents have at that path. So each of its ordered aggregates has
/// seen exactly the values of its kind there, and by [`lemma_tally_bounds`]
/// its bounds are the least and the greatest of them.
pub proof fn lemma_bounds_at_path(group: Option<Seq<char>>, docs: Seq<Json>, q: Seq<char>)
    ensures
        ({
            let item = lookup(ingest_all(Map::empty(), group, docs), q);
            let seen = values_in(rooted(group, docs), q);
            &&& item == item_of_all(seen)
            &&& item.int == tally_of::<i64>(ints_of(seen))
            &&& item.float == tally_of::<FloatNumber>(floats_of(seen))
            &&& item.string == tally_of::<usize>(lengths_of(seen))
            &&& item.array == tally_of::<usize>(sizes_of(seen))
            &&& item_total(item) == seen.len()
        }),
{
    let e = Map::<Seq<char>, ItemModel>::empty();
    let w = rooted(group, docs);
    lemma_ingest_all(e, group, docs);
    lemma_lookup_pending(e, w, q);
    lemma_work_wf(w, q);
    lemma_item_merge_empty(work_tally(w, q));
    lemma_work_of_values(w, q);
    lemma_item_of_all_kinds(values_in(w, q));
}

} // verus!
