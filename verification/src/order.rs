//! A strict total order on element values, as a capability trait.
//!
//! The convenience heap constructors (smallest-first, largest-first), the
//! binary search tree and the sorted-list merge all need to compare elements.
//! The `Ordered` trait packages a specification-level strict order `lt_spec`,
//! the laws that make it a strict total order, and an executable comparison
//! that agrees with it.

use vstd::prelude::*;

verus! {

/// A strict total order: `lt_spec` is irreflexive, transitive and connected,
/// and `less_than` decides it at run time.
pub trait Ordered: Sized {
    /// Does `self` come strictly before `other`?
    spec fn lt_spec(self, other: Self) -> bool;

    /// No value comes before itself.
    proof fn lemma_irreflexive(a: Self)
        ensures
            !a.lt_spec(a),
    ;

    /// The order is transitive.
    proof fn lemma_transitive(a: Self, b: Self, c: Self)
        requires
            a.lt_spec(b),
            b.lt_spec(c),
        ensures
            a.lt_spec(c),
    ;

    /// Any two distinct values are ordered one way or the other.
    proof fn lemma_connected(a: Self, b: Self)
        requires
            a != b,
        ensures
            a.lt_spec(b) || b.lt_spec(a),
    ;

    /// Executable comparison, agreeing with `lt_spec`.
    fn less_than(&self, other: &Self) -> (r: bool)
        ensures
            r == self.lt_spec(*other),
    ;
}

impl Ordered for i32 {
    open spec fn lt_spec(self, other: Self) -> bool {
        self < other
    }

    proof fn lemma_irreflexive(a: Self) {
    }

    proof fn lemma_transitive(a: Self, b: Self, c: Self) {
    }

    proof fn lemma_connected(a: Self, b: Self) {
    }

    fn less_than(&self, other: &Self) -> (r: bool) {
        *self < *other
    }
}

impl Ordered for u64 {
    open spec fn lt_spec(self, other: Self) -> bool {
        self < other
    }

    proof fn lemma_irreflexive(a: Self) {
    }

    proof fn lemma_transitive(a: Self, b: Self, c: Self) {
    }

    proof fn lemma_connected(a: Self, b: Self) {
    }

    fn less_than(&self, other: &Self) -> (r: bool) {
        *self < *other
    }
}

/// Two values that each fail to come before a third, in a chain, stay ordered:
/// the complement of a strict total order is transitive.
pub proof fn lemma_lt_negative_transitive<T: Ordered>(a: T, b: T, c: T)
    requires
        !a.lt_spec(b),
        !b.lt_spec(c),
    ensures
        !a.lt_spec(c),
{
    if a.lt_spec(c) {
        if a == b {
            assert(false);
        } else {
            T::lemma_connected(a, b);
            T::lemma_transitive(b, a, c);
            assert(false);
        }
    }
}

/// A value that comes before another is not come-before by it.
pub proof fn lemma_lt_asymmetric<T: Ordered>(a: T, b: T)
    requires
        a.lt_spec(b),
    ensures
        !b.lt_spec(a),
{
    if b.lt_spec(a) {
        T::lemma_transitive(a, b, a);
        T::lemma_irreflexive(a);
    }
}

} // verus!
