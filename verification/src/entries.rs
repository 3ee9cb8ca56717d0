//! Sorted lists of entries, the form in which an accumulator keeps its map:
//! one entry for each path, in the order of the paths.

use crate::item::ItemModel;
use crate::model::lookup;
use crate::order::{lemma_text_order, text_below};
use vstd::prelude::*;

verus! {

/// Some entry of `e` has the path `q`.
pub open spec fn has_path(e: Seq<(Seq<char>, ItemModel)>, q: Seq<char>) -> bool {
    exists|i: int| 0 <= i < e.len() && (#[trigger] e[i]).0 == q
}

/// The place of an entry with the path `q`.
pub open spec fn index_of(e: Seq<(Seq<char>, ItemModel)>, q: Seq<char>) -> int {
    choose|i: int| 0 <= i < e.len() && (#[trigger] e[i]).0 == q
}

/// The map that a list of entries stands for.
pub open spec fn to_map(e: Seq<(Seq<char>, ItemModel)>) -> Map<Seq<char>, ItemModel> {
    Map::new(|q: Seq<char>| has_path(e, q), |q: Seq<char>| e[index_of(e, q)].1)
}

/// The paths of the entries ascend strictly, in the order of `str`.
pub open spec fn sorted(e: Seq<(Seq<char>, ItemModel)>) -> bool {
    forall|i: int, j: int|
        0 <= i < j < e.len() ==> text_below((#[trigger] e[i]).0, (#[trigger] e[j]).0)
}

/// In a sorted list no path occurs twice.
pub proof fn lemma_sorted_distinct(e: Seq<(Seq<char>, ItemModel)>, i: int, j: int)
    requires
        sorted(e),
        0 <= i < e.len(),
        0 <= j < e.len(),
        e[i].0 == e[j].0,
    ensures
        i == j,
{
    lemma_text_order(e[i].0, e[i].0, e[i].0);
}

/// The map of a sorted list holds each entry under its path.
pub proof fn lemma_to_map_at(e: Seq<(Seq<char>, ItemModel)>, i: int)
    requires
        sorted(e),
        0 <= i < e.len(),
    ensures
        to_map(e).dom().contains(e[i].0),
        to_map(e)[e[i].0] == e[i].1,
        lookup(to_map(e), e[i].0) == e[i].1,
{
    assert(has_path(e, e[i].0));
    lemma_sorted_distinct(e, i, index_of(e, e[i].0));
}

/// Replacing the item of one entry is an insertion into the map.
pub proof fn lemma_update(e: Seq<(Seq<char>, ItemModel)>, i: int, item: ItemModel)
    requires
        sorted(e),
        0 <= i < e.len(),
    ensures
        sorted(e.update(i, (e[i].0, item))),
        to_map(e.update(i, (e[i].0, item))) == to_map(e).insert(e[i].0, item),
{
    let f = e.update(i, (e[i].0, item));
    assert forall|a: int, b: int| 0 <= a < b < f.len() implies text_below(
        (#[trigger] f[a]).0,
        (#[trigger] f[b]).0,
    ) by {
        assert(f[a].0 == e[a].0);
        assert(f[b].0 == e[b].0);
    }
    assert forall|q: Seq<char>| has_path(f, q) == (has_path(e, q) || q == e[i].0) by {
        if has_path(f, q) {
            let k = index_of(f, q);
            assert(e[k].0 == q);
        }
        if has_path(e, q) {
            let k = index_of(e, q);
            assert(f[k].0 == q);
        }
        if q == e[i].0 {
            assert(f[i].0 == q);
        }
    }
    assert forall|q: Seq<char>| has_path(f, q) implies #[trigger] to_map(f)[q] == to_map(
        e,
    ).insert(e[i].0, item)[q] by {
        let k = index_of(f, q);
        lemma_to_map_at(f, k);
        if k != i {
            assert(e[k].0 == q);
            lemma_to_map_at(e, k);
            if q == e[i].0 {
                lemma_sorted_distinct(e, k, i);
            }
        }
    }
    assert(to_map(f) =~= to_map(e).insert(e[i].0, item));
}

/// Putting a new entry at the place that keeps the list sorted is an insertion
/// into the map.
pub proof fn lemma_insert(
    e: Seq<(Seq<char>, ItemModel)>,
    pos: int,
    path: Seq<char>,
    item: ItemModel,
)
    requires
        sorted(e),
        0 <= pos <= e.len(),
        forall|i: int| 0 <= i < pos ==> text_below((#[trigger] e[i]).0, path),
        forall|i: int| pos <= i < e.len() ==> text_below(path, (#[trigger] e[i]).0),
    ensures
        !has_path(e, path),
        sorted(e.insert(pos, (path, item))),
        to_map(e.insert(pos, (path, item))) == to_map(e).insert(path, item),
{
    let f = e.insert(pos, (path, item));
    lemma_text_order(path, path, path);
    assert forall|a: int, b: int| 0 <= a < b < f.len() implies text_below(
        (#[trigger] f[a]).0,
        (#[trigger] f[b]).0,
    ) by {
        let ea = if a < pos {
            a
        } else {
            a - 1
        };
        let eb = if b < pos {
            b
        } else {
            b - 1
        };
        if a != pos {
            assert(f[a] == e[ea]);
        }
        if b != pos {
            assert(f[b] == e[eb]);
        }
    }
    assert forall|q: Seq<char>| has_path(f, q) == (has_path(e, q) || q == path) by {
        if has_path(f, q) {
            let k = index_of(f, q);
            if k < pos {
                assert(e[k].0 == q);
            } else if k > pos {
                assert(e[k - 1].0 == q);
            }
        }
        if has_path(e, q) {
            let k = index_of(e, q);
            if k < pos {
                assert(f[k].0 == q);
            } else {
                assert(f[k + 1].0 == q);
            }
        }
        if q == path {
            assert(f[pos].0 == q);
        }
    }
    assert forall|q: Seq<char>| has_path(f, q) implies #[trigger] to_map(f)[q] == to_map(
        e,
    ).insert(path, item)[q] by {
        let k = index_of(f, q);
        lemma_to_map_at(f, k);
        if k < pos {
            assert(e[k].0 == q);
            lemma_to_map_at(e, k);
        } else if k > pos {
            assert(e[k - 1].0 == q);
            lemma_to_map_at(e, k - 1);
        }
    }
    assert(to_map(f) =~= to_map(e).insert(path, item));
}

/// A path that lies between two neighbours of a sorted list, or before the
/// first entry or after the last, is not in the list.
pub proof fn lemma_absent(e: Seq<(Seq<char>, ItemModel)>, pos: int, path: Seq<char>)
    requires
        sorted(e),
        0 <= pos <= e.len(),
        forall|i: int| 0 <= i < pos ==> text_below((#[trigger] e[i]).0, path),
        forall|i: int| pos <= i < e.len() ==> text_below(path, (#[trigger] e[i]).0),
    ensures
        !has_path(e, path),
        !to_map(e).dom().contains(path),
{
    lemma_text_order(path, path, path);
}

/// The map of the first entries of a sorted list, one entry more at a time.
pub proof fn lemma_take_next(e: Seq<(Seq<char>, ItemModel)>, n: int)
    requires
        sorted(e),
        0 <= n < e.len(),
    ensures
        sorted(e.take(n)),
        sorted(e.take(n + 1)),
        !to_map(e.take(n)).dom().contains(e[n].0),
        to_map(e.take(n + 1)) == to_map(e.take(n)).insert(e[n].0, e[n].1),
{
    let a = e.take(n);
    assert forall|i: int, j: int| 0 <= i < j < a.len() implies text_below(
        (#[trigger] a[i]).0,
        (#[trigger] a[j]).0,
    ) by {
        assert(a[i] == e[i] && a[j] == e[j]);
    }
    assert forall|i: int| 0 <= i < n implies text_below((#[trigger] a[i]).0, e[n].0) by {
        assert(a[i] == e[i]);
    }
    lemma_insert(a, n, e[n].0, e[n].1);
    assert(a.insert(n, e[n]) =~= e.take(n + 1));
}

/// Two sorted lists that stand for the same map are the same list.
pub proof fn lemma_sorted_unique(e: Seq<(Seq<char>, ItemModel)>, f: Seq<(Seq<char>, ItemModel)>)
    requires
        sorted(e),
        sorted(f),
        to_map(e) == to_map(f),
    ensures
        e == f,
    decreases e.len(),
{
    if e.len() == 0 {
        if f.len() > 0 {
            lemma_to_map_at(f, 0);
            assert(has_path(e, f[0].0));
        }
        assert(e =~= f);
    } else if f.len() == 0 {
        lemma_to_map_at(e, 0);
        assert(has_path(f, e[0].0));
    } else {
        // The last entries hold the greatest path of the map on both sides.
        let n = e.len() - 1;
        let m = f.len() - 1;
        lemma_to_map_at(e, n);
        lemma_to_map_at(f, m);
        assert(has_path(f, e[n].0));
        assert(has_path(e, f[m].0));
        let a = index_of(f, e[n].0);
        let b = index_of(e, f[m].0);
        lemma_text_order(e[n].0, f[m].0, e[n].0);
        assert(e[n].0 == f[m].0);
        lemma_sorted_distinct(f, a, m);
        lemma_take_next(e, n);
        lemma_take_next(f, m);
        let e0 = e.take(n);
        let f0 = f.take(m);
        assert(to_map(e0) =~= to_map(e).remove(e[n].0)) by {
            assert(e.take(n + 1) =~= e);
        }
        assert(to_map(f0) =~= to_map(f).remove(f[m].0)) by {
            assert(f.take(m + 1) =~= f);
        }
        lemma_sorted_unique(e0, f0);
        assert(e =~= e0.push(e[n]));
        assert(f =~= f0.push(f[m]));
    }
}

} // verus!
