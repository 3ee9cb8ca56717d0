//! Running aggregates: a plain counter, and a count with the least and the
//! greatest value seen.

use crate::scalar::Scalar;
use crate::text::{nat_text, push_nat};
use vstd::prelude::*;
use vstd::string::StringExecFns;

verus! {

/// The model of an ordered aggregate: how many values were seen, and the least
/// and the greatest of them. While `count` is 0 both bounds hold the default
/// value and mean nothing.
pub struct Tally<V> {
    pub count: nat,
    pub min: V,
    pub max: V,
}

/// The aggregate that has seen nothing.
pub open spec fn tally_empty<T: Scalar>() -> Tally<T::V> {
    Tally { count: 0, min: T::zero_model(), max: T::zero_model() }
}

/// The aggregate that has seen `v` alone.
pub open spec fn tally_single<T: Scalar>(v: T::V) -> Tally<T::V> {
    Tally { count: 1, min: v, max: v }
}

/// The smaller of two values.
pub open spec fn least<T: Scalar>(a: T::V, b: T::V) -> T::V {
    if T::below(b, a) {
        b
    } else {
        a
    }
}

/// The greater of two values.
pub open spec fn greatest<T: Scalar>(a: T::V, b: T::V) -> T::V {
    if T::below(a, b) {
        b
    } else {
        a
    }
}

/// `t` after one more value.
pub open spec fn tally_observe<T: Scalar>(t: Tally<T::V>, v: T::V) -> Tally<T::V> {
    if t.count == 0 {
        tally_single::<T>(v)
    } else {
        Tally { count: t.count + 1, min: least::<T>(t.min, v), max: greatest::<T>(t.max, v) }
    }
}

/// The aggregate of everything that `a` and `b` have seen.
pub open spec fn tally_merge<T: Scalar>(a: Tally<T::V>, b: Tally<T::V>) -> Tally<T::V> {
    if b.count == 0 {
        a
    } else if a.count == 0 {
        b
    } else {
        Tally {
            count: a.count + b.count,
            min: least::<T>(a.min, b.min),
            max: greatest::<T>(a.max, b.max),
        }
    }
}

/// An empty aggregate holds the default bounds; otherwise the least value is
/// not above the greatest.
pub open spec fn tally_wf<T: Scalar>(t: Tally<T::V>) -> bool {
    &&& t.count == 0 ==> t == tally_empty::<T>()
    &&& t.count > 0 ==> !T::below(t.max, t.min)
}

/// The aggregate of a sequence of observations, taken in order.
pub open spec fn tally_of<T: Scalar>(s: Seq<T::V>) -> Tally<T::V>
    decreases s.len(),
{
    if s.len() == 0 {
        tally_empty::<T>()
    } else {
        tally_observe::<T>(tally_of::<T>(s.drop_last()), s.last())
    }
}

/// The JSON object that reports an ordered aggregate.
pub open spec fn tally_json<T: Scalar>(t: Tally<T::V>) -> Seq<char> {
    "{\"count\":"@ + nat_text(t.count) + ",\"max\":"@ + T::text(t.max) + ",\"min\":"@ + T::text(
        t.min,
    ) + "}"@
}

/// The JSON object that reports a counter.
pub open spec fn count_json(n: nat) -> Seq<char> {
    "{\"count\":"@ + nat_text(n) + "}"@
}

/// An ordered aggregate in a line of the summary: the count, and the least
/// and the greatest value in brackets.
pub open spec fn tally_summary<T: Scalar>(t: Tally<T::V>) -> Seq<char> {
    nat_text(t.count) + "("@ + T::text(t.min) + "~"@ + T::text(t.max) + ")"@
}

/// Observing and merging keep an aggregate well formed.
pub proof fn lemma_tally_wf<T: Scalar>(a: Tally<T::V>, b: Tally<T::V>, v: T::V)
    requires
        tally_wf::<T>(a),
        tally_wf::<T>(b),
    ensures
        tally_wf::<T>(tally_empty::<T>()),
        tally_wf::<T>(tally_single::<T>(v)),
        tally_wf::<T>(tally_observe::<T>(a, v)),
        tally_wf::<T>(tally_merge::<T>(a, b)),
{
    T::lemma_order(v, v, v);
    T::lemma_order(a.min, a.max, v);
    T::lemma_order(v, a.min, a.max);
    T::lemma_order(a.min, v, a.max);
    T::lemma_order(a.min, a.max, b.max);
    T::lemma_order(b.min, a.min, a.max);
    T::lemma_order(b.min, b.max, a.max);
    T::lemma_order(a.min, b.min, b.max);
    T::lemma_order(b.min, a.max, b.max);
    T::lemma_order(a.min, b.max, a.max);
    let m = tally_merge::<T>(a, b);
    T::lemma_order(m.max, m.min, a.min);
    T::lemma_order(m.max, a.min, a.max);
    T::lemma_order(m.max, a.max, m.max);
}

/// Observing a value is merging the aggregate of that value alone.
pub proof fn lemma_observe_is_merge<T: Scalar>(t: Tally<T::V>, v: T::V)
    ensures
        tally_observe::<T>(t, v) == tally_merge::<T>(t, tally_single::<T>(v)),
{
}

/// Merging with the empty aggregate changes nothing.
pub proof fn lemma_tally_merge_empty<T: Scalar>(t: Tally<T::V>)
    requires
        tally_wf::<T>(t),
    ensures
        tally_merge::<T>(t, tally_empty::<T>()) == t,
        tally_merge::<T>(tally_empty::<T>(), t) == t,
{
}

/// Merging does not depend on the order of its two arguments.
pub proof fn lemma_tally_merge_commutative<T: Scalar>(a: Tally<T::V>, b: Tally<T::V>)
    requires
        tally_wf::<T>(a),
        tally_wf::<T>(b),
    ensures
        tally_merge::<T>(a, b) == tally_merge::<T>(b, a),
{
    T::lemma_order(a.min, b.min, a.min);
    T::lemma_order(a.max, b.max, a.max);
}

/// Merging three aggregates gives the same result however they are grouped.
pub proof fn lemma_tally_merge_associative<T: Scalar>(
    a: Tally<T::V>,
    b: Tally<T::V>,
    c: Tally<T::V>,
)
    ensures
        tally_merge::<T>(tally_merge::<T>(a, b), c) == tally_merge::<T>(
            a,
            tally_merge::<T>(b, c),
        ),
{
    T::lemma_order(a.min, b.min, c.min);
    T::lemma_order(c.min, b.min, a.min);
    T::lemma_order(b.min, a.min, c.min);
    T::lemma_order(b.min, c.min, a.min);
    T::lemma_order(a.min, c.min, b.min);
    T::lemma_order(c.min, a.min, b.min);
    T::lemma_order(a.max, b.max, c.max);
    T::lemma_order(c.max, b.max, a.max);
    T::lemma_order(b.max, a.max, c.max);
    T::lemma_order(b.max, c.max, a.max);
    T::lemma_order(a.max, c.max, b.max);
    T::lemma_order(c.max, a.max, b.max);
}

/// Merging two aggregates into a third gives the same result in either order.
pub proof fn lemma_tally_merge_swap<T: Scalar>(v: Tally<T::V>, x: Tally<T::V>, y: Tally<T::V>)
    requires
        tally_wf::<T>(x),
        tally_wf::<T>(y),
    ensures
        tally_merge::<T>(tally_merge::<T>(v, x), y) == tally_merge::<T>(
            tally_merge::<T>(v, y),
            x,
        ),
{
    lemma_tally_merge_associative::<T>(v, x, y);
    lemma_tally_merge_associative::<T>(v, y, x);
    lemma_tally_merge_commutative::<T>(x, y);
}

/// Merging the aggregates of two sequences of observations gives the
/// aggregate of the two sequences, one after the other.
pub proof fn lemma_tally_merge_concat<T: Scalar>(a: Seq<T::V>, b: Seq<T::V>)
    ensures
        tally_merge::<T>(tally_of::<T>(a), tally_of::<T>(b)) == tally_of::<T>(a + b),
    decreases b.len(),
{
    if b.len() == 0 {
        assert(a + b =~= a);
    } else {
        let front = b.drop_last();
        assert((a + b).drop_last() =~= a + front);
        assert((a + b).last() == b.last());
        lemma_tally_merge_concat::<T>(a, front);
        lemma_observe_is_merge::<T>(tally_of::<T>(front), b.last());
        lemma_observe_is_merge::<T>(tally_of::<T>(a + front), b.last());
        lemma_tally_merge_associative::<T>(
            tally_of::<T>(a),
            tally_of::<T>(front),
            tally_single::<T>(b.last()),
        );
    }
}

/// After any sequence of observations the count is their number, the bounds
/// are among them, none is below the least and none above the greatest.
pub proof fn lemma_tally_bounds<T: Scalar>(s: Seq<T::V>)
    ensures
        tally_of::<T>(s).count == s.len(),
        tally_wf::<T>(tally_of::<T>(s)),
        s.len() > 0 ==> s.contains(tally_of::<T>(s).min) && s.contains(tally_of::<T>(s).max),
        forall|i: int|
            0 <= i < s.len() ==> !T::below(#[trigger] s[i], tally_of::<T>(s).min) && !T::below(
                tally_of::<T>(s).max,
                s[i],
            ),
    decreases s.len(),
{
    if s.len() > 0 {
        let front = s.drop_last();
        let t = tally_of::<T>(front);
        let v = s.last();
        let r = tally_of::<T>(s);
        lemma_tally_bounds::<T>(front);
        lemma_tally_wf::<T>(t, t, v);
        T::lemma_order(v, v, v);
        if front.len() > 0 {
            let i = choose|i: int| 0 <= i < front.len() && front[i] == t.min;
            assert(s[i] == t.min);
            let j = choose|j: int| 0 <= j < front.len() && front[j] == t.max;
            assert(s[j] == t.max);
        }
        assert(s[s.len() - 1] == v);
        assert forall|i: int| 0 <= i < s.len() implies !T::below(#[trigger] s[i], r.min)
            && !T::below(r.max, s[i]) by {
            if i < front.len() {
                assert(front[i] == s[i]);
                T::lemma_order(s[i], r.min, t.min);
                T::lemma_order(t.max, r.max, s[i]);
            }
        }
    }
}

/// A count of observations together with the least and the greatest value
/// observed.
#[derive(Clone, Debug)]
pub struct MaxMinCount<T> {
    pub count: usize,
    pub max: T,
    pub min: T,
}

impl<T: Scalar> View for MaxMinCount<T> {
    type V = Tally<T::V>;

    open spec fn view(&self) -> Tally<T::V> {
        Tally { count: self.count as nat, min: self.min@, max: self.max@ }
    }
}

impl<T: Scalar> MaxMinCount<T> {
    /// The invariant of the aggregate, see [`tally_wf`].
    pub open spec fn wf(&self) -> bool {
        tally_wf::<T>(self@)
    }

    /// An aggregate that has seen nothing.
    pub fn new() -> (r: Self)
        ensures
            r@ == tally_empty::<T>(),
            r.wf(),
    {
        MaxMinCount { count: 0, max: T::zero(), min: T::zero() }
    }

    /// Records one more value.
    pub fn add(&mut self, new_value: &T)
        requires
            old(self).count < usize::MAX,
        ensures
            final(self)@ == tally_observe::<T>(old(self)@, new_value@),
            old(self).wf() ==> final(self).wf(),
    {
        proof {
            lemma_tally_wf::<T>(tally_empty::<T>(), tally_empty::<T>(), new_value@);
            if old(self).wf() {
                lemma_tally_wf::<T>(old(self)@, old(self)@, new_value@);
            }
        }
        if self.count == 0 {
            self.max = new_value.duplicate();
            self.min = new_value.duplicate();
        } else {
            if self.max.less(new_value) {
                self.max = new_value.duplicate();
            }
            if new_value.less(&self.min) {
                self.min = new_value.duplicate();
            }
        }
        self.count = self.count + 1;
    }

    /// Takes in everything that `other` has seen.
    pub fn merge(&mut self, other: &Self)
        requires
            old(self).count + other.count <= usize::MAX,
        ensures
            final(self)@ == tally_merge::<T>(old(self)@, other@),
            old(self).wf() && other.wf() ==> final(self).wf(),
    {
        proof {
            if old(self).wf() && other.wf() {
                lemma_tally_wf::<T>(old(self)@, other@, other@.min);
            }
        }
        if other.count == 0 {
            return ;
        }
        if self.count == 0 {
            self.max = other.max.duplicate();
            self.min = other.min.duplicate();
        } else {
            if self.max.less(&other.max) {
                self.max = other.max.duplicate();
            }
            if other.min.less(&self.min) {
                self.min = other.min.duplicate();
            }
        }
        self.count = self.count + other.count;
    }

    /// A copy of the aggregate.
    pub fn duplicate(&self) -> (r: Self)
        ensures
            r@ == self@,
    {
        MaxMinCount { count: self.count, max: self.max.duplicate(), min: self.min.duplicate() }
    }

    /// Appends the JSON object that reports the aggregate to `out`.
    pub fn write_json(&self, out: &mut String)
        ensures
            final(out)@ == old(out)@ + tally_json::<T>(self@),
    {
        out.append("{\"count\":");
        push_nat(out, self.count as u64);
        out.append(",\"max\":");
        self.max.write(out);
        out.append(",\"min\":");
        self.min.write(out);
        out.append("}");
        assert(final(out)@ =~= old(out)@ + tally_json::<T>(self@));
    }

    /// Appends the aggregate to `out` as it stands in a line of the summary.
    pub fn write_summary(&self, out: &mut String)
        ensures
            final(out)@ == old(out)@ + tally_summary::<T>(self@),
    {
        push_nat(out, self.count as u64);
        out.append("(");
        self.min.write(out);
        out.append("~");
        self.max.write(out);
        out.append(")");
        assert(final(out)@ =~= old(out)@ + tally_summary::<T>(self@));
    }
}

/// A count of observations.
#[derive(Clone, Debug)]
pub struct Count {
    pub count: usize,
}

impl View for Count {
    type V = nat;

    open spec fn view(&self) -> nat {
        self.count as nat
    }
}

impl Count {
    /// A counter at zero.
    pub fn new() -> (r: Self)
        ensures
            r@ == 0,
    {
        Count { count: 0 }
    }

    /// Counts one more observation.
    pub fn add(&mut self)
        requires
            old(self).count < usize::MAX,
        ensures
            final(self)@ == old(self)@ + 1,
    {
        self.count = self.count + 1;
    }

    /// Takes in everything that `other` has counted.
    pub fn merge(&mut self, other: &Self)
        requires
            old(self).count + other.count <= usize::MAX,
        ensures
            final(self)@ == old(self)@ + other@,
    {
        self.count = self.count + other.count;
    }

    /// A copy of the counter.
    pub fn duplicate(&self) -> (r: Self)
        ensures
            r@ == self@,
    {
        Count { count: self.count }
    }

    /// Appends the JSON object that reports the counter to `out`.
    pub fn write_json(&self, out: &mut String)
        ensures
            final(out)@ == old(out)@ + count_json(self@),
    {
        out.append("{\"count\":");
        push_nat(out, self.count as u64);
        out.append("}");
        assert(final(out)@ =~= old(out)@ + count_json(self@));
    }
}

} // verus!
