//! The mathematical model of an accumulator: a map from key paths to items,
//! and what ingesting a document and merging two accumulators do to it.

use crate::item::{
    array_marker, children, item_empty, item_merge, item_of, item_total, item_wf,
    lemma_item_merge_associative, lemma_item_merge_commutative, lemma_item_merge_empty,
    lemma_item_empty, lemma_item_wf, lemma_item_zero, member_marker, ItemModel,
};
use crate::json::{items_size, json_size, members_size, Json};
use vstd::prelude::*;

verus! {

broadcast use vstd::seq::axiom_seq_index_decreases;

/// The item kept for the path `q`; the empty item where the map has none.
pub open spec fn lookup(m: Map<Seq<char>, ItemModel>, q: Seq<char>) -> ItemModel {
    if m.dom().contains(q) {
        m[q]
    } else {
        item_empty()
    }
}

/// `m` after the item `it` has been merged into the entry of the path `p`.
pub open spec fn record(m: Map<Seq<char>, ItemModel>, p: Seq<char>, it: ItemModel) -> Map<
    Seq<char>,
    ItemModel,
> {
    m.insert(p, item_merge(lookup(m, p), it))
}

/// The accumulator that has seen what `a` and `b` have seen: path by path the
/// merge of their items.
pub open spec fn merged(a: Map<Seq<char>, ItemModel>, b: Map<Seq<char>, ItemModel>) -> Map<
    Seq<char>,
    ItemModel,
> {
    Map::new(
        |q: Seq<char>| a.dom().contains(q) || b.dom().contains(q),
        |q: Seq<char>| item_merge(lookup(a, q), lookup(b, q)),
    )
}

/// Every item of the map is well formed and has seen something.
pub open spec fn stat_wf(m: Map<Seq<char>, ItemModel>) -> bool {
    forall|q: Seq<char>| #[trigger]
        m.dom().contains(q) ==> item_wf(m[q]) && item_total(m[q]) > 0
}

/// No item of the map has seen more values than `usize` can count.
pub open spec fn fits(m: Map<Seq<char>, ItemModel>) -> bool {
    forall|q: Seq<char>| #[trigger] m.dom().contains(q) ==> item_total(m[q]) <= usize::MAX
}

/// What the value `j` itself adds to the path `q`, where `j` is at `p`.
pub open spec fn here(p: Seq<char>, j: Json, q: Seq<char>) -> ItemModel {
    if p == q {
        item_of(j)
    } else {
        item_empty()
    }
}

/// What the document `j` adds to the path `q`, where `j` is at the path `p`:
/// the merge of the items of `j` and of every value inside it whose path is
/// `q`.
pub open spec fn tally(p: Seq<char>, j: Json, q: Seq<char>) -> ItemModel
    decreases j, 0nat, 0nat,
{
    item_merge(
        here(p, j, q),
        match j {
            Json::Array(items) => tally_items(p + array_marker(), items, items.len(), q),
            Json::Object(members) => tally_members(p, members, members.len(), q),
            _ => item_empty(),
        },
    )
}

/// What the first `n` items of an array add to the path `q`, where each item
/// is at the path `p`.
pub open spec fn tally_items(p: Seq<char>, items: Seq<Json>, n: nat, q: Seq<char>) -> ItemModel
    decreases items, 1nat, n,
{
    if n == 0 || n > items.len() {
        item_empty()
    } else {
        item_merge(tally_items(p, items, (n - 1) as nat, q), tally(p, items[n - 1], q))
    }
}

/// What the first `n` members of an object add to the path `q`, where the
/// object is at the path `p`.
pub open spec fn tally_members(
    p: Seq<char>,
    members: Seq<(Seq<char>, Json)>,
    n: nat,
    q: Seq<char>,
) -> ItemModel
    decreases members, 1nat, n,
{
    if n == 0 || n > members.len() {
        item_empty()
    } else {
        item_merge(
            tally_members(p, members, (n - 1) as nat, q),
            tally(p + member_marker(members[n - 1].0), members[n - 1].1, q),
        )
    }
}

/// What a list of documents, each with its path, adds to the path `q`.
pub open spec fn work_tally(w: Seq<(Seq<char>, Json)>, q: Seq<char>) -> ItemModel
    decreases w.len(),
{
    if w.len() == 0 {
        item_empty()
    } else {
        item_merge(work_tally(w.drop_last(), q), tally(w.last().0, w.last().1, q))
    }
}

/// The number of values in a list of documents.
pub open spec fn work_size(w: Seq<(Seq<char>, Json)>) -> nat
    decreases w.len(),
{
    if w.len() == 0 {
        0
    } else {
        work_size(w.drop_last()) + json_size(w.last().1)
    }
}

/// The accumulator `m` after the document `j` has been ingested at the root
/// path `p`: every path gains what the document adds to it, and a path is
/// present if it was, or if the document has a value there.
pub open spec fn ingest(m: Map<Seq<char>, ItemModel>, p: Seq<char>, j: Json) -> Map<
    Seq<char>,
    ItemModel,
> {
    Map::new(
        |q: Seq<char>| m.dom().contains(q) || item_total(tally(p, j, q)) > 0,
        |q: Seq<char>| item_merge(lookup(m, q), tally(p, j, q)),
    )
}

/// The accumulator `m` after every document of the list `w` has been ingested
/// at its path.
pub open spec fn pending(m: Map<Seq<char>, ItemModel>, w: Seq<(Seq<char>, Json)>) -> Map<
    Seq<char>,
    ItemModel,
> {
    Map::new(
        |q: Seq<char>| m.dom().contains(q) || item_total(work_tally(w, q)) > 0,
        |q: Seq<char>| item_merge(lookup(m, q), work_tally(w, q)),
    )
}

/// What a document adds to a path is a well-formed item, and it has seen no
/// more values than the document holds.
pub proof fn lemma_tally_wf(p: Seq<char>, j: Json, q: Seq<char>)
    ensures
        item_wf(tally(p, j, q)),
        item_total(tally(p, j, q)) <= json_size(j),
        item_total(tally(p, j, p)) >= 1,
    decreases j, 0nat, 0nat,
{
    lemma_item_wf(item_empty(), item_empty(), j);
    match j {
        Json::Array(items) => {
            lemma_tally_items_wf(p + array_marker(), items, items.len(), q);
            lemma_tally_items_wf(p + array_marker(), items, items.len(), p);
            lemma_item_wf(
                here(p, j, q),
                tally_items(p + array_marker(), items, items.len(), q),
                j,
            );
            lemma_item_wf(
                here(p, j, p),
                tally_items(p + array_marker(), items, items.len(), p),
                j,
            );
        },
        Json::Object(members) => {
            lemma_tally_members_wf(p, members, members.len(), q);
            lemma_tally_members_wf(p, members, members.len(), p);
            lemma_item_wf(here(p, j, q), tally_members(p, members, members.len(), q), j);
            lemma_item_wf(here(p, j, p), tally_members(p, members, members.len(), p), j);
        },
        _ => {
            lemma_item_wf(here(p, j, q), item_empty(), j);
            lemma_item_wf(here(p, j, p), item_empty(), j);
        },
    }
}

/// What the first items of an array add to a path is a well-formed item, and
/// it has seen no more values than they hold.
pub proof fn lemma_tally_items_wf(p: Seq<char>, items: Seq<Json>, n: nat, q: Seq<char>)
    ensures
        item_wf(tally_items(p, items, n, q)),
        item_total(tally_items(p, items, n, q)) <= items_size(items, n),
    decreases items, 1nat, n,
{
    lemma_item_wf(item_empty(), item_empty(), Json::Null);
    if !(n == 0 || n > items.len()) {
        lemma_tally_items_wf(p, items, (n - 1) as nat, q);
        lemma_tally_wf(p, items[n - 1], q);
        lemma_item_wf(
            tally_items(p, items, (n - 1) as nat, q),
            tally(p, items[n - 1], q),
            Json::Null,
        );
    }
}

/// What the first members of an object add to a path is a well-formed item,
/// and it has seen no more values than they hold.
pub proof fn lemma_tally_members_wf(
    p: Seq<char>,
    members: Seq<(Seq<char>, Json)>,
    n: nat,
    q: Seq<char>,
)
    ensures
        item_wf(tally_members(p, members, n, q)),
        item_total(tally_members(p, members, n, q)) <= members_size(members, n),
    decreases members, 1nat, n,
{
    lemma_item_wf(item_empty(), item_empty(), Json::Null);
    if !(n == 0 || n > members.len()) {
        lemma_tally_members_wf(p, members, (n - 1) as nat, q);
        lemma_tally_wf(p + member_marker(members[n - 1].0), members[n - 1].1, q);
        lemma_item_wf(
            tally_members(p, members, (n - 1) as nat, q),
            tally(p + member_marker(members[n - 1].0), members[n - 1].1, q),
            Json::Null,
        );
    }
}

/// What a list of documents adds to a path is a well-formed item, and it has
/// seen no more values than the documents hold.
pub proof fn lemma_work_wf(w: Seq<(Seq<char>, Json)>, q: Seq<char>)
    ensures
        item_wf(work_tally(w, q)),
        item_total(work_tally(w, q)) <= work_size(w),
    decreases w.len(),
{
    lemma_item_wf(item_empty(), item_empty(), Json::Null);
    if w.len() > 0 {
        lemma_work_wf(w.drop_last(), q);
        lemma_tally_wf(w.last().0, w.last().1, q);
        lemma_item_wf(work_tally(w.drop_last(), q), tally(w.last().0, w.last().1, q), Json::Null);
    }
}

/// What two lists add, one after the other, is the merge of what each adds.
pub proof fn lemma_work_concat(a: Seq<(Seq<char>, Json)>, b: Seq<(Seq<char>, Json)>, q: Seq<char>)
    ensures
        work_tally(a + b, q) == item_merge(work_tally(a, q), work_tally(b, q)),
        work_size(a + b) == work_size(a) + work_size(b),
    decreases b.len(),
{
    lemma_work_wf(a, q);
    if b.len() == 0 {
        assert(a + b =~= a);
        lemma_item_merge_empty(work_tally(a, q));
    } else {
        assert((a + b).drop_last() =~= a + b.drop_last());
        assert((a + b).last() == b.last());
        lemma_work_concat(a, b.drop_last(), q);
        lemma_item_merge_associative(
            work_tally(a, q),
            work_tally(b.drop_last(), q),
            tally(b.last().0, b.last().1, q),
        );
    }
}

/// What a single document adds as a list is what it adds.
pub proof fn lemma_work_single(p: Seq<char>, j: Json, q: Seq<char>)
    ensures
        work_tally(seq![(p, j)], q) == tally(p, j, q),
        work_size(seq![(p, j)]) == json_size(j),
{
    let w = seq![(p, j)];
    assert(w.drop_last() =~= Seq::empty());
    assert(w.last() == (p, j));
    assert(work_tally(w.drop_last(), q) == item_empty());
    assert(work_size(w.drop_last()) == 0);
    lemma_tally_wf(p, j, q);
    lemma_item_merge_empty(tally(p, j, q));
}

/// A document adds what it adds itself and what the values directly inside it
/// add; and it holds one value more than they do.
pub proof fn lemma_children(p: Seq<char>, j: Json, q: Seq<char>)
    ensures
        tally(p, j, q) == item_merge(here(p, j, q), work_tally(children(p, j), q)),
        json_size(j) == 1 + work_size(children(p, j)),
{
    let c = children(p, j);
    match j {
        Json::Array(items) => {
            lemma_children_items(p, items, items.len(), q);
            assert(c.take(items.len() as int) =~= c);
        },
        Json::Object(members) => {
            lemma_children_members(p, members, members.len(), q);
            assert(c.take(members.len() as int) =~= c);
        },
        _ => {
            assert(c.len() == 0);
        },
    }
}

/// The first items of an array add, as a list, what they add as items.
proof fn lemma_children_items(p: Seq<char>, items: Seq<Json>, n: nat, q: Seq<char>)
    requires
        n <= items.len(),
    ensures
        work_tally(children(p, Json::Array(items)).take(n as int), q) == tally_items(
            p + array_marker(),
            items,
            n,
            q,
        ),
        work_size(children(p, Json::Array(items)).take(n as int)) == items_size(items, n),
    decreases n,
{
    let c = children(p, Json::Array(items));
    if n > 0 {
        lemma_children_items(p, items, (n - 1) as nat, q);
        assert(c.take(n as int).drop_last() =~= c.take(n - 1));
        assert(c.take(n as int).last() == c[n - 1]);
    }
}

/// The first members of an object add, as a list, what they add as members.
proof fn lemma_children_members(
    p: Seq<char>,
    members: Seq<(Seq<char>, Json)>,
    n: nat,
    q: Seq<char>,
)
    requires
        n <= members.len(),
    ensures
        work_tally(children(p, Json::Object(members)).take(n as int), q) == tally_members(
            p,
            members,
            n,
            q,
        ),
        work_size(children(p, Json::Object(members)).take(n as int)) == members_size(members, n),
    decreases n,
{
    let c = children(p, Json::Object(members));
    if n > 0 {
        lemma_children_members(p, members, (n - 1) as nat, q);
        assert(c.take(n as int).drop_last() =~= c.take(n - 1));
        assert(c.take(n as int).last() == c[n - 1]);
    }
}

/// The item found for a path, once a list of documents is done, is the item
/// found before merged with what the list adds to the path.
pub proof fn lemma_lookup_pending(
    m: Map<Seq<char>, ItemModel>,
    w: Seq<(Seq<char>, Json)>,
    q: Seq<char>,
)
    ensures
        lookup(pending(m, w), q) == item_merge(lookup(m, q), work_tally(w, q)),
{
    lemma_item_empty();
    lemma_work_wf(w, q);
    if item_total(work_tally(w, q)) == 0 {
        lemma_item_zero(work_tally(w, q));
    }
}

/// Four items merge to the same whether the second goes with the first or
/// with the last.
proof fn lemma_regroup(a: ItemModel, h: ItemModel, r: ItemModel, c: ItemModel)
    requires
        item_wf(a),
        item_wf(h),
        item_wf(r),
        item_wf(c),
    ensures
        item_merge(item_merge(a, h), item_merge(r, c)) == item_merge(
            a,
            item_merge(r, item_merge(h, c)),
        ),
{
    lemma_item_merge_associative(a, h, item_merge(r, c));
    lemma_item_merge_associative(h, r, c);
    lemma_item_merge_commutative(h, r);
    lemma_item_merge_associative(r, h, c);
}

/// One path of [`lemma_step`].
proof fn lemma_step_at(
    m: Map<Seq<char>, ItemModel>,
    rest: Seq<(Seq<char>, Json)>,
    p: Seq<char>,
    j: Json,
    q: Seq<char>,
)
    requires
        stat_wf(m),
    ensures
        item_merge(
            lookup(record(m, p, item_of(j)), q),
            work_tally(rest + children(p, j), q),
        ) == item_merge(lookup(m, q), work_tally(rest.push((p, j)), q)),
        item_total(work_tally(rest.push((p, j)), q)) == item_total(work_tally(rest, q))
            + item_total(here(p, j, q)) + item_total(work_tally(children(p, j), q)),
        item_total(work_tally(rest + children(p, j), q)) == item_total(work_tally(rest, q))
            + item_total(work_tally(children(p, j), q)),
{
    let w = rest.push((p, j));
    let a = lookup(m, q);
    let r = work_tally(rest, q);
    let h = here(p, j, q);
    let c = work_tally(children(p, j), q);
    assert(w.drop_last() =~= rest);
    assert(w.last() == (p, j));
    lemma_children(p, j, q);
    lemma_work_concat(rest, children(p, j), q);
    lemma_work_wf(rest, q);
    lemma_work_wf(children(p, j), q);
    lemma_item_wf(item_empty(), item_empty(), j);
    lemma_item_wf(a, h, j);
    lemma_item_wf(r, c, j);
    lemma_item_wf(h, c, j);
    lemma_item_merge_empty(a);
    lemma_item_wf(r, item_merge(h, c), j);
    assert(lookup(record(m, p, item_of(j)), q) == item_merge(a, h));
    assert(work_tally(w, q) == item_merge(r, item_merge(h, c)));
    assert(work_tally(rest + children(p, j), q) == item_merge(r, c));
    lemma_regroup(a, h, r, c);
}

/// Taking the last document off a list, recording its own item and putting
/// the values directly inside it on the list leaves unchanged what the map
/// will be when the list is done.
pub proof fn lemma_step(
    m: Map<Seq<char>, ItemModel>,
    rest: Seq<(Seq<char>, Json)>,
    p: Seq<char>,
    j: Json,
)
    requires
        stat_wf(m),
    ensures
        pending(record(m, p, item_of(j)), rest + children(p, j)) == pending(
            m,
            rest.push((p, j)),
        ),
        stat_wf(record(m, p, item_of(j))),
        work_size(rest + children(p, j)) + 1 == work_size(rest.push((p, j))),
{
    let m1 = record(m, p, item_of(j));
    let w = rest.push((p, j));
    let w1 = rest + children(p, j);
    lemma_item_wf(item_empty(), item_empty(), j);
    lemma_item_wf(lookup(m, p), item_of(j), j);
    assert(w.drop_last() =~= rest);
    assert(w.last() == (p, j));
    lemma_children(p, j, p);
    lemma_work_concat(rest, children(p, j), p);
    assert forall|q: Seq<char>|
        (m1.dom().contains(q) || item_total(work_tally(w1, q)) > 0) == (m.dom().contains(q)
            || item_total(work_tally(w, q)) > 0) && item_merge(lookup(m1, q), work_tally(w1, q))
            == item_merge(lookup(m, q), work_tally(w, q)) by {
        lemma_step_at(m, rest, p, j, q);
        lemma_item_wf(item_empty(), item_empty(), j);
    }
    assert(pending(m1, w1) =~= pending(m, w));
}

/// Ingesting a document is what is pending when the document alone is on the
/// list; and when the list is empty, nothing is pending.
pub proof fn lemma_pending_ends(m: Map<Seq<char>, ItemModel>, p: Seq<char>, j: Json)
    requires
        stat_wf(m),
    ensures
        pending(m, seq![(p, j)]) == ingest(m, p, j),
        pending(m, Seq::empty()) == m,
        stat_wf(ingest(m, p, j)),
{
    assert forall|q: Seq<char>| work_tally(seq![(p, j)], q) == tally(p, j, q) by {
        lemma_work_single(p, j, q);
    }
    assert(pending(m, seq![(p, j)]) =~= ingest(m, p, j));
    lemma_item_empty();
    assert forall|q: Seq<char>| m.dom().contains(q) implies item_merge(
        lookup(m, q),
        item_empty(),
    ) == m[q] by {
        lemma_item_merge_empty(m[q]);
    }
    assert(pending(m, Seq::empty()) =~= m);
    assert forall|q: Seq<char>| #[trigger] ingest(m, p, j).dom().contains(q) implies item_wf(
        ingest(m, p, j)[q],
    ) && item_total(ingest(m, p, j)[q]) > 0 by {
        lemma_tally_wf(p, j, q);
        lemma_item_wf(lookup(m, q), tally(p, j, q), j);
    }
}

} // verus!
