//! The values an ordered aggregate can hold.

use crate::text::{int_text, nat_text, push_int, push_nat};
use vstd::prelude::*;

verus! {

/// A scalar with a strict total order on its model, a default value, a way to
/// copy it and a text that stands for it in output.
pub trait Scalar: View + Sized {
    /// `a` is strictly smaller than `b`.
    spec fn below(a: Self::V, b: Self::V) -> bool;

    /// The model of the default value.
    spec fn zero_model() -> Self::V;

    /// `below` is irreflexive, transitive and connected.
    proof fn lemma_order(a: Self::V, b: Self::V, c: Self::V)
        ensures
            !Self::below(a, a),
            Self::below(a, b) && Self::below(b, c) ==> Self::below(a, c),
            Self::below(a, b) || Self::below(b, a) || a == b,
    ;

    /// The default value, held by an aggregate that has seen nothing.
    fn zero() -> (r: Self)
        ensures
            r@ == Self::zero_model(),
    ;

    /// Whether `self` is strictly smaller than `other`.
    fn less(&self, other: &Self) -> (r: bool)
        ensures
            r == Self::below(self@, other@),
    ;

    /// A copy of `self`.
    fn duplicate(&self) -> (r: Self)
        ensures
            r@ == self@,
    ;

    /// The text that stands for the value in output.
    spec fn text(v: Self::V) -> Seq<char>;

    /// Appends the text of `self` to `out`.
    fn write(&self, out: &mut String)
        ensures
            final(out)@ == old(out)@ + Self::text(self@),
    ;
}

impl Scalar for usize {
    open spec fn below(a: usize, b: usize) -> bool {
        a < b
    }

    open spec fn zero_model() -> usize {
        0
    }

    proof fn lemma_order(a: usize, b: usize, c: usize) {
    }

    fn zero() -> (r: usize) {
        0
    }

    fn less(&self, other: &usize) -> (r: bool) {
        *self < *other
    }

    fn duplicate(&self) -> (r: usize) {
        *self
    }

    open spec fn text(v: usize) -> Seq<char> {
        nat_text(v as nat)
    }

    fn write(&self, out: &mut String) {
        push_nat(out, *self as u64);
    }
}

impl Scalar for i64 {
    open spec fn below(a: i64, b: i64) -> bool {
        a < b
    }

    open spec fn zero_model() -> i64 {
        0
    }

    proof fn lemma_order(a: i64, b: i64, c: i64) {
    }

    fn zero() -> (r: i64) {
        0
    }

    fn less(&self, other: &i64) -> (r: bool) {
        *self < *other
    }

    fn duplicate(&self) -> (r: i64) {
        *self
    }

    open spec fn text(v: i64) -> Seq<char> {
        int_text(v as int)
    }

    fn write(&self, out: &mut String) {
        push_int(out, *self);
    }
}

} // verus!
