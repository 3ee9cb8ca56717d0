//! The accumulator: a map from key paths to items, filled one document at a
//! time and merged with other accumulators.

use crate::convert::{document, parse_document};
use crate::entries::{
    index_of, lemma_absent, lemma_insert, lemma_sorted_unique, lemma_take_next, lemma_to_map_at,
    lemma_update, sorted, to_map,
};
use crate::group::{follow, root_path};
use crate::item::{
    children, item_compact_json, item_empty, item_full_json, item_merge, item_of, item_summary,
    item_total, item_wf, lemma_item_empty, lemma_item_merge_empty, lemma_item_wf,
    lemma_merge_fits, only_if, ItemModel, JsonStatItem,
};
use crate::json::{json_size, members_view, Json, JsonValue};
use crate::model::{
    fits, ingest, lemma_pending_ends, lemma_step, lemma_tally_wf, lemma_work_wf, lookup, merged,
    pending, record, stat_wf, tally, work_size, work_tally,
};
use crate::order::{compare_text, lemma_text_order, text_below, Rank};
use crate::outside::{quote, quoted};
use vstd::prelude::*;
use vstd::string::{StrSliceExecFns, StringExecFns};

verus! {

/// Per-path statistics over the documents ingested so far.
pub struct JsonStat {
    items: Vec<(String, JsonStatItem)>,
    group_key: Option<String>,
}

/// The models of a list of entries.
pub open spec fn entries_view(items: Seq<(String, JsonStatItem)>) -> Seq<(Seq<char>, ItemModel)> {
    Seq::new(items.len(), |i: int| (items[i].0@, items[i].1@))
}

/// The report of one entry: the path as a JSON string, a colon, and the
/// report of the item, full or compact.
#[verifier::opaque]
pub open spec fn entry_json(path: Seq<char>, item: ItemModel, full: bool) -> Seq<char> {
    quoted(path) + ":"@ + if full {
        item_full_json(item)
    } else {
        item_compact_json(item)
    }
}

/// The reports of the first `n` entries, with a comma between each two.
pub open spec fn entries_json(e: Seq<(Seq<char>, ItemModel)>, full: bool, n: nat) -> Seq<char>
    decreases n,
{
    if n == 0 || n > e.len() {
        Seq::empty()
    } else {
        entries_json(e, full, (n - 1) as nat) + only_if(n > 1, ","@) + entry_json(
            e[n - 1].0,
            e[n - 1].1,
            full,
        )
    }
}

/// The report of an accumulator: a JSON object with a member for each path,
/// in the order of the paths.
pub open spec fn stat_json(e: Seq<(Seq<char>, ItemModel)>, full: bool) -> Seq<char> {
    "{"@ + entries_json(e, full, e.len()) + "}"@
}

/// The path as it stands in the summary: a dot for the empty path.
pub open spec fn path_label(path: Seq<char>) -> Seq<char> {
    if path.len() == 0 {
        "."@
    } else {
        path
    }
}

/// The summary of the first `n` entries: a line for each path, in the order
/// of the paths.
pub open spec fn summary_lines(e: Seq<(Seq<char>, ItemModel)>, n: nat) -> Seq<char>
    decreases n,
{
    if n == 0 || n > e.len() {
        Seq::empty()
    } else {
        summary_lines(e, (n - 1) as nat) + path_label(e[n - 1].0) + " : "@ + item_summary(
            e[n - 1].1,
        ) + "\n"@
    }
}

/// The greatest number of values that an item of the first `n` entries has
/// seen.
pub open spec fn most_seen(e: Seq<(Seq<char>, ItemModel)>, n: nat) -> nat
    decreases n,
{
    if n == 0 || n > e.len() {
        0
    } else {
        let rest = most_seen(e, (n - 1) as nat);
        if item_total(e[n - 1].1) > rest {
            item_total(e[n - 1].1)
        } else {
            rest
        }
    }
}

/// No item has seen more than the greatest number.
pub proof fn lemma_most_seen(e: Seq<(Seq<char>, ItemModel)>, n: nat, i: int)
    requires
        0 <= i < n <= e.len(),
    ensures
        item_total(e[i].1) <= most_seen(e, n),
    decreases n,
{
    if i < n - 1 {
        lemma_most_seen(e, (n - 1) as nat, i);
    }
}

/// An accumulator in which no item has seen more than `usize::MAX` less the
/// size of a document has room for that document.
pub proof fn lemma_room(e: Seq<(Seq<char>, ItemModel)>, p: Seq<char>, j: Json)
    requires
        sorted(e),
        most_seen(e, e.len()) + json_size(j) <= usize::MAX,
    ensures
        fits(ingest(to_map(e), p, j)),
{
    let m = to_map(e);
    lemma_item_empty();
    assert forall|q: Seq<char>| #[trigger] ingest(m, p, j).dom().contains(q) implies item_total(
        ingest(m, p, j)[q],
    ) <= usize::MAX by {
        lemma_tally_wf(p, j, q);
        lemma_item_wf(lookup(m, q), tally(p, j, q), j);
        if m.dom().contains(q) {
            let i = index_of(e, q);
            lemma_to_map_at(e, i);
            lemma_most_seen(e, e.len(), i);
        }
    }
}

impl View for JsonStat {
    type V = Map<Seq<char>, ItemModel>;

    closed spec fn view(&self) -> Map<Seq<char>, ItemModel> {
        to_map(self.entries())
    }
}

impl JsonStat {
    /// The entries of the accumulator, in the order of their paths.
    pub closed spec fn entries(&self) -> Seq<(Seq<char>, ItemModel)> {
        entries_view(self.items@)
    }

    /// The grouping key, if the accumulator has one.
    pub closed spec fn group(&self) -> Option<Seq<char>> {
        match self.group_key {
            Some(key) => Some(key@),
            None => None,
        }
    }

    /// The invariant of the accumulator: its entries are sorted by path, and
    /// every item is well formed, has seen something, and has seen no more
    /// values than `usize` can count.
    pub closed spec fn wf(&self) -> bool {
        &&& sorted(self.entries())
        &&& stat_wf(to_map(self.entries()))
        &&& fits(to_map(self.entries()))
    }

    /// What the invariant says, in terms of the entries and the map.
    pub proof fn lemma_wf(&self)
        requires
            self.wf(),
        ensures
            sorted(self.entries()),
            self@ == to_map(self.entries()),
            stat_wf(self@),
            fits(self@),
    {
    }

    /// Two accumulators with the same map have the same entries, and so the
    /// same reports and the same summary.
    pub proof fn lemma_same_map(&self, other: &Self)
        requires
            self.wf(),
            other.wf(),
            self@ == other@,
        ensures
            self.entries() == other.entries(),
    {
        lemma_sorted_unique(self.entries(), other.entries());
    }

    /// An empty accumulator without a grouping key.
    pub fn new() -> (r: Self)
        ensures
            r.wf(),
            r@ == Map::<Seq<char>, ItemModel>::empty(),
            r.entries() == Seq::<(Seq<char>, ItemModel)>::empty(),
            r.group() is None,
    {
        let r = JsonStat { items: Vec::new(), group_key: None };
        assert(r.entries() =~= Seq::empty());
        assert(r@ =~= Map::empty());
        r
    }

    /// An empty accumulator that files each document under the string that
    /// `group_key` leads to.
    pub fn new_by_group(group_key: &str) -> (r: Self)
        ensures
            r.wf(),
            r@ == Map::<Seq<char>, ItemModel>::empty(),
            r.entries() == Seq::<(Seq<char>, ItemModel)>::empty(),
            r.group() == Some(group_key@),
    {
        let r = JsonStat { items: Vec::new(), group_key: Some(String::from_str(group_key)) };
        assert(r.entries() =~= Seq::empty());
        assert(r@ =~= Map::empty());
        r
    }

    /// The number of paths.
    pub fn len(&self) -> (n: usize)
        ensures
            n == self.entries().len(),
    {
        self.items.len()
    }

    /// The path of the entry at the place `i`.
    pub fn path_at(&self, i: usize) -> (r: &str)
        requires
            i < self.entries().len(),
        ensures
            r@ == self.entries()[i as int].0,
    {
        self.items[i].0.as_str()
    }

    /// The item of the entry at the place `i`.
    pub fn item_at(&self, i: usize) -> (r: &JsonStatItem)
        requires
            i < self.entries().len(),
        ensures
            r@ == self.entries()[i as int].1,
    {
        &self.items[i].1
    }

    /// Where the path `key` is, or where it would have to be put.
    fn find(&self, key: &str) -> (r: (bool, usize))
        requires
            self.wf(),
        ensures
            r.1 <= self.entries().len(),
            r.0 ==> r.1 < self.entries().len() && self.entries()[r.1 as int].0 == key@,
            !r.0 ==> forall|i: int|
                0 <= i < r.1 ==> text_below((#[trigger] self.entries()[i]).0, key@),
            !r.0 ==> forall|i: int|
                r.1 <= i < self.entries().len() ==> text_below(
                    key@,
                    (#[trigger] self.entries()[i]).0,
                ),
    {
        let ghost e = self.entries();
        let mut lo: usize = 0;
        let mut hi: usize = self.items.len();
        while lo < hi
            invariant
                e == self.entries(),
                sorted(e),
                lo <= hi <= e.len(),
                e.len() == self.items@.len(),
                forall|i: int| 0 <= i < lo ==> text_below((#[trigger] e[i]).0, key@),
                forall|i: int| hi <= i < e.len() ==> text_below(key@, (#[trigger] e[i]).0),
            decreases hi - lo,
        {
            let mid = lo + (hi - lo) / 2;
            assert(e[mid as int].0 == self.items@[mid as int].0@);
            match compare_text(self.items[mid].0.as_str(), key) {
                Rank::Below => {
                    proof {
                        assert forall|i: int| 0 <= i < mid + 1 implies text_below(
                            (#[trigger] e[i]).0,
                            key@,
                        ) by {
                            if i < mid {
                                lemma_text_order(e[i].0, e[mid as int].0, key@);
                            }
                        }
                    }
                    lo = mid + 1;
                },
                Rank::Same => {
                    return (true, mid);
                },
                Rank::Above => {
                    proof {
                        assert forall|i: int| mid <= i < e.len() implies text_below(
                            key@,
                            (#[trigger] e[i]).0,
                        ) by {
                            if i > mid {
                                lemma_text_order(key@, e[mid as int].0, e[i].0);
                            }
                        }
                    }
                    hi = mid;
                },
            }
        }
        (false, lo)
    }

    /// The item kept for the path `key`, if there is one.
    pub fn get(&self, key: &str) -> (r: Option<&JsonStatItem>)
        requires
            self.wf(),
        ensures
            match r {
                Some(item) => self@.dom().contains(key@) && self@[key@] == item@,
                None => !self@.dom().contains(key@),
            },
    {
        let (found, at) = self.find(key);
        if found {
            proof {
                lemma_to_map_at(self.entries(), at as int);
            }
            Some(&self.items[at].1)
        } else {
            proof {
                lemma_absent(self.entries(), at as int, key@);
            }
            None
        }
    }

    /// Merges `item` into the entry of the path `key`, which is made if it is
    /// not there.
    fn record(&mut self, key: String, item: JsonStatItem)
        requires
            old(self).wf(),
            item.wf(),
            item_total(item@) > 0,
            item_total(lookup(old(self)@, key@)) + item_total(item@) <= usize::MAX,
        ensures
            final(self).wf(),
            final(self)@ == record(old(self)@, key@, item@),
            final(self).group() == old(self).group(),
    {
        let ghost e = self.entries();
        let (found, at) = self.find(key.as_str());
        proof {
            lemma_merge_fits(lookup(self@, key@), item@);
            lemma_item_wf(lookup(self@, key@), item@, Json::Null);
        }
        if found {
            proof {
                lemma_to_map_at(e, at as int);
                lemma_update(e, at as int, item_merge(e[at as int].1, item@));
            }
            self.items[at].1.merge(&item);
            assert(self.entries() =~= e.update(
                at as int,
                (e[at as int].0, item_merge(e[at as int].1, item@)),
            ));
        } else {
            proof {
                lemma_insert(e, at as int, key@, item@);
                lemma_item_merge_empty(item@);
            }
            self.items.insert(at, (key, item));
            assert(self.entries() =~= e.insert(at as int, (key@, item@)));
        }
    }

    /// The path under which the document `value` is filed.
    pub fn get_group_key(&self, value: &JsonValue) -> (r: String)
        ensures
            r@ == root_path(self.group(), value@),
    {
        match &self.group_key {
            Some(key) => {
                match follow(key.as_str(), value) {
                    Some(JsonValue::String(s)) => s.clone(),
                    _ => String::new(),
                }
            },
            None => String::new(),
        }
    }

    /// The item of the value `value` alone, and the values directly inside
    /// it, each with its path, where `value` is at the path `key`.
    pub fn stat_key_value(&self, key: &str, value: &JsonValue) -> (r: (
        JsonStatItem,
        Vec<(String, JsonValue)>,
    ))
        ensures
            r.0@ == item_of(value@),
            r.0.wf(),
            members_view(r.1@) == children(key@, value@),
    {
        let mut item = JsonStatItem::new();
        proof {
            lemma_item_wf(item_empty(), item_empty(), value@);
            lemma_item_merge_empty(item_of(value@));
            lemma_merge_fits(item_empty(), item_of(value@));
        }
        let ret = item.stat(key, value);
        (item, ret)
    }

    /// Ingests one document: files every value in it under its path. Always
    /// returns `true`.
    pub fn stat_value(&mut self, value: &JsonValue) -> (ok: bool)
        requires
            old(self).wf(),
            fits(ingest(old(self)@, root_path(old(self).group(), value@), value@)),
        ensures
            ok,
            final(self).wf(),
            final(self)@ == ingest(old(self)@, root_path(old(self).group(), value@), value@),
            final(self).group() == old(self).group(),
    {
        let root = self.get_group_key(value);
        let ghost goal = ingest(old(self)@, root@, value@);
        let mut todo_list: Vec<(String, JsonValue)> = Vec::new();
        todo_list.push((root, value.duplicate()));
        proof {
            lemma_pending_ends(self@, root@, value@);
            assert(members_view(todo_list@) =~= seq![(root@, value@)]);
        }
        while todo_list.len() > 0
            invariant
                self.wf(),
                self.group() == old(self).group(),
                pending(self@, members_view(todo_list@)) == goal,
                fits(goal),
            decreases work_size(members_view(todo_list@)),
        {
            let ghost before = members_view(todo_list@);
            let ghost m = self@;
            let (k, v) = todo_list.pop().unwrap();
            let ghost rest = members_view(todo_list@);
            let (item, mut list) = self.stat_key_value(k.as_str(), &v);
            proof {
                assert(before =~= rest.push((k@, v@)));
                lemma_step(m, rest, k@, v@);
                lemma_item_wf(item_empty(), item_empty(), v@);
                // The entry of this path has room for one more value.
                assert(goal.dom().contains(k@) && item_total(goal[k@]) == item_total(
                    lookup(m, k@),
                ) + item_total(work_tally(before, k@)) && item_total(work_tally(before, k@))
                    >= 1) by {
                    lemma_work_wf(before, k@);
                    lemma_item_wf(lookup(m, k@), work_tally(before, k@), v@);
                    lemma_work_wf(rest, k@);
                    lemma_tally_wf(k@, v@, k@);
                    lemma_item_wf(work_tally(rest, k@), tally(k@, v@, k@), v@);
                    assert(before.drop_last() =~= rest);
                }
                lemma_item_empty();
            }
            todo_list.append(&mut list);
            assert(members_view(todo_list@) =~= rest + children(k@, v@));
            self.record(k, item);
        }
        proof {
            assert(members_view(todo_list@) =~= Seq::empty());
            lemma_pending_ends(self@, root@, value@);
        }
        true
    }

    /// Ingests the document that the JSON text `line` stands for. Returns
    /// `false`, and leaves the accumulator as it was, where the text cannot
    /// be read.
    pub fn stat_str(&mut self, line: &str) -> (ok: bool)
        requires
            old(self).wf(),
            document(line@) matches Some(j) ==> fits(
                ingest(old(self)@, root_path(old(self).group(), j), j),
            ),
        ensures
            final(self).wf(),
            final(self).group() == old(self).group(),
            match document(line@) {
                Some(j) => ok && final(self)@ == ingest(
                    old(self)@,
                    root_path(old(self).group(), j),
                    j,
                ),
                None => !ok && final(self)@ == old(self)@ && final(self).entries() == old(
                    self,
                ).entries(),
            },
    {
        match parse_document(line) {
            Some(value) => self.stat_value(&value),
            None => false,
        }
    }

    /// Whether the accumulator has room for the document `value`, whatever its
    /// paths: no item has seen more values than `usize::MAX` less the number of
    /// values in the document.
    pub fn has_room(&self, value: &JsonValue) -> (r: bool)
        ensures
            r == (most_seen(self.entries(), self.entries().len()) + json_size(value@)
                <= usize::MAX),
    {
        let size = match value.size() {
            Some(n) => n,
            None => {
                return false;
            },
        };
        let ghost e = self.entries();
        let mut most: usize = 0;
        let mut i: usize = 0;
        while i < self.items.len()
            invariant
                e == self.entries(),
                e.len() == self.items@.len(),
                i <= e.len(),
                most == most_seen(e, i as nat),
            decreases e.len() - i,
        {
            assert(e[i as int].1 == self.items@[i as int].1@);
            proof {
                lemma_most_seen_grows(e, (i + 1) as nat, e.len());
            }
            match self.items[i].1.total() {
                Some(n) => {
                    if n > most {
                        most = n;
                    }
                },
                None => {
                    return false;
                },
            }
            i = i + 1;
        }
        most <= usize::MAX - size
    }

    /// Ingests the document that the JSON text `line` stands for, if the
    /// accumulator has room for it, see [`JsonStat::has_room`]. Returns
    /// nothing, and leaves the accumulator as it was, if it has not.
    pub fn try_stat_str(&mut self, line: &str) -> (r: Option<bool>)
        requires
            old(self).wf(),
        ensures
            final(self).wf(),
            final(self).group() == old(self).group(),
            match document(line@) {
                Some(j) => if most_seen(old(self).entries(), old(self).entries().len())
                    + json_size(j) <= usize::MAX {
                    r == Some(true) && final(self)@ == ingest(
                        old(self)@,
                        root_path(old(self).group(), j),
                        j,
                    )
                } else {
                    r is None && final(self).entries() == old(self).entries()
                },
                None => r == Some(false) && final(self).entries() == old(self).entries(),
            },
    {
        let room = match parse_document(line) {
            Some(value) => self.has_room(&value),
            None => true,
        };
        if room {
            proof {
                if document(line@) is Some {
                    let j = document(line@)->0;
                    lemma_room(self.entries(), root_path(self.group(), j), j);
                }
            }
            Some(self.stat_str(line))
        } else {
            None
        }
    }

    /// The report of the accumulator as JSON text: an object with a member
    /// for each path. With `full` every item reports all seven kinds;
    /// without, only those of which it has seen a value.
    pub fn to_json_str(&self, full: bool) -> (r: String)
        ensures
            r@ == stat_json(self.entries(), full),
    {
        let ghost e = self.entries();
        let mut out = String::from_str("{");
        let mut i: usize = 0;
        assert(out@ =~= "{"@ + entries_json(e, full, 0));
        while i < self.items.len()
            invariant
                e == self.entries(),
                e.len() == self.items@.len(),
                i <= e.len(),
                out@ == "{"@ + entries_json(e, full, i as nat),
            decreases e.len() - i,
        {
            let ghost before = out@;
            assert(e[i as int] == (self.items@[i as int].0@, self.items@[i as int].1@));
            push_entry(&mut out, i == 0, self.items[i].0.as_str(), &self.items[i].1, full);
            proof {
                lemma_entries_json_next(e, full, i as nat, before, out@);
            }
            i = i + 1;
        }
        out.append("}");
        out
    }

    /// The summary of the accumulator: a line for each path.
    pub fn to_string(&self) -> (r: String)
        ensures
            r@ == summary_lines(self.entries(), self.entries().len()),
    {
        let ghost e = self.entries();
        let mut out = String::new();
        let mut i: usize = 0;
        assert(out@ =~= summary_lines(e, 0));
        while i < self.items.len()
            invariant
                e == self.entries(),
                e.len() == self.items@.len(),
                i <= e.len(),
                out@ == summary_lines(e, i as nat),
            decreases e.len() - i,
        {
            let ghost before = out@;
            assert(e[i as int] == (self.items@[i as int].0@, self.items@[i as int].1@));
            let key = self.items[i].0.as_str();
            if key.unicode_len() == 0 {
                out.append(".");
            } else {
                out.append(key);
            }
            out.append(" : ");
            let body = self.items[i].1.to_string();
            out.append(body.as_str());
            out.append("\n");
            assert(out@ =~= summary_lines(e, (i + 1) as nat)) by {
                assert(out@ =~= before + path_label(e[i as int].0) + " : "@ + body@ + "\n"@);
            }
            i = i + 1;
        }
        out
    }

    /// Whether `other` can be merged into the accumulator: no item of the
    /// merge would have seen more values than `usize` can count.
    pub fn can_merge(&self, other: &Self) -> (r: bool)
        requires
            self.wf(),
            other.wf(),
        ensures
            r == fits(merged(self@, other@)),
    {
        let ghost e = other.entries();
        let mut i: usize = 0;
        while i < other.items.len()
            invariant
                self.wf(),
                other.wf(),
                e == other.entries(),
                e.len() == other.items@.len(),
                i <= e.len(),
                forall|k: int|
                    0 <= k < i ==> item_total(lookup(self@, (#[trigger] e[k]).0)) + item_total(
                        e[k].1,
                    ) <= usize::MAX,
            decreases e.len() - i,
        {
            assert(e[i as int] == (other.items@[i as int].0@, other.items@[i as int].1@));
            proof {
                lemma_to_map_at(e, i as int);
                lemma_item_empty();
            }
            let theirs = match other.items[i].1.total() {
                Some(n) => n,
                None => {
                    return false;
                },
            };
            let ours = match self.get(other.items[i].0.as_str()) {
                Some(item) => match item.total() {
                    Some(n) => n,
                    None => {
                        return false;
                    },
                },
                None => 0,
            };
            if ours > usize::MAX - theirs {
                proof {
                    let q = e[i as int].0;
                    lemma_item_wf(lookup(self@, q), lookup(other@, q), Json::Null);
                    assert(merged(self@, other@).dom().contains(q));
                }
                return false;
            }
            i = i + 1;
        }
        proof {
            assert forall|q: Seq<char>| #[trigger]
                merged(self@, other@).dom().contains(q) implies item_total(
                merged(self@, other@)[q],
            ) <= usize::MAX by {
                lemma_item_empty();
                lemma_item_wf(lookup(self@, q), lookup(other@, q), Json::Null);
                if other@.dom().contains(q) {
                    let k = index_of(e, q);
                    lemma_to_map_at(e, k);
                }
            }
        }
        true
    }

    /// Takes in everything that `other` has seen: path by path the items of
    /// `other` are merged into those of `self`.
    pub fn merge(&mut self, other: &Self)
        requires
            old(self).wf(),
            other.wf(),
            fits(merged(old(self)@, other@)),
        ensures
            final(self).wf(),
            final(self)@ == merged(old(self)@, other@),
            final(self).group() == old(self).group(),
    {
        let ghost e = other.entries();
        let ghost start = self@;
        let mut i: usize = 0;
        proof {
            lemma_merge_prefix_empty(start, e);
        }
        while i < other.items.len()
            invariant
                self.wf(),
                other.wf(),
                self.group() == old(self).group(),
                e == other.entries(),
                i <= e.len(),
                e.len() == other.items@.len(),
                start == old(self)@,
                stat_wf(start),
                self@ == merged(start, to_map(e.take(i as int))),
                fits(merged(start, to_map(e))),
            decreases e.len() - i,
        {
            let key = other.items[i].0.clone();
            let item = other.items[i].1.duplicate();
            proof {
                assert(e[i as int] == (key@, item@));
                lemma_merge_prefix_next(start, e, i as int);
            }
            self.record(key, item);
            i = i + 1;
        }
        proof {
            assert(e.take(i as int) =~= e);
        }
    }
}

impl Default for JsonStat {
    /// An empty accumulator without a grouping key.
    fn default() -> (r: Self)
        ensures
            r.wf(),
            r@ == Map::<Seq<char>, ItemModel>::empty(),
            r.group() is None,
    {
        JsonStat::new()
    }
}

/// Appends the report of one entry to `out`, after a comma unless it is the
/// first.
fn push_entry(out: &mut String, first: bool, path: &str, item: &JsonStatItem, full: bool)
    ensures
        final(out)@ == old(out)@ + only_if(!first, ","@) + entry_json(path@, item@, full),
{
    proof {
        reveal(entry_json);
    }
    if !first {
        out.append(",");
    }
    let key = quote(path);
    out.append(key.as_str());
    out.append(":");
    let body = if full {
        item.to_json_full()
    } else {
        item.to_json_value()
    };
    out.append(body.as_str());
    assert(final(out)@ =~= old(out)@ + only_if(!first, ","@) + (quoted(path@) + ":"@ + body@));
}

/// The text of a report, one entry more.
proof fn lemma_entries_json_next(
    e: Seq<(Seq<char>, ItemModel)>,
    full: bool,
    n: nat,
    before: Seq<char>,
    after: Seq<char>,
)
    requires
        n < e.len(),
        before == "{"@ + entries_json(e, full, n),
        after == before + only_if(n != 0, ","@) + entry_json(e[n as int].0, e[n as int].1, full),
    ensures
        after == "{"@ + entries_json(e, full, n + 1),
{
    let x = entries_json(e, full, n);
    let c = only_if(n != 0, ","@);
    let b = entry_json(e[n as int].0, e[n as int].1, full);
    assert(entries_json(e, full, n + 1) == x + c + b);
    assert("{"@ + x + c + b =~= "{"@ + (x + c + b));
}

/// More entries have no smaller greatest number.
proof fn lemma_most_seen_grows(e: Seq<(Seq<char>, ItemModel)>, n: nat, m: nat)
    requires
        n <= m <= e.len(),
    ensures
        most_seen(e, n) <= most_seen(e, m),
    decreases m,
{
    if n < m {
        lemma_most_seen_grows(e, n, (m - 1) as nat);
    }
}

/// Merging with the map of no entries changes nothing.
proof fn lemma_merge_prefix_empty(a: Map<Seq<char>, ItemModel>, e: Seq<(Seq<char>, ItemModel)>)
    requires
        stat_wf(a),
    ensures
        a == merged(a, to_map(e.take(0))),
{
    assert forall|q: Seq<char>| a.dom().contains(q) implies item_merge(
        lookup(a, q),
        item_empty(),
    ) == a[q] by {
        lemma_item_merge_empty(a[q]);
    }
    assert(a =~= merged(a, to_map(e.take(0))));
}

/// Recording the next entry of a sorted list takes the merge with the first
/// `n` entries to the merge with the first `n + 1`.
proof fn lemma_merge_prefix_next(
    a: Map<Seq<char>, ItemModel>,
    e: Seq<(Seq<char>, ItemModel)>,
    n: int,
)
    requires
        stat_wf(a),
        sorted(e),
        stat_wf(to_map(e)),
        0 <= n < e.len(),
        fits(merged(a, to_map(e))),
    ensures
        record(merged(a, to_map(e.take(n))), e[n].0, e[n].1) == merged(a, to_map(e.take(n + 1))),
        item_total(lookup(merged(a, to_map(e.take(n))), e[n].0)) + item_total(e[n].1)
            <= usize::MAX,
        item_wf(e[n].1),
        item_total(e[n].1) > 0,
{
    let b0 = to_map(e.take(n));
    let b1 = to_map(e.take(n + 1));
    let p = e[n].0;
    lemma_take_next(e, n);
    lemma_to_map_at(e, n);
    lemma_item_wf(item_empty(), item_empty(), Json::Null);
    lemma_item_merge_empty(lookup(a, p));
    lemma_item_wf(lookup(a, p), e[n].1, Json::Null);
    assert(merged(a, to_map(e)).dom().contains(p));
    lemma_item_empty();
    assert(record(merged(a, b0), p, e[n].1) =~= merged(a, b1));
}

} // verus!
