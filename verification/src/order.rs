//! Ordering rules for the heap.
//!
//! A [`Comparator`] is a strict "has priority over" relation on element
//! values: the element that the relation prefers sits nearer the root of the
//! heap. The relation must be asymmetric and its complement transitive (it is
//! a strict weak ordering), which is what the heap's maintenance algorithms
//! rely on; implementors discharge those obligations as proofs.

use vstd::prelude::*;

verus! {

/// A strict priority relation on values of type `T`.
///
/// `prior(a, b)` reads "`a` has priority over `b`": in a heap ordered by this
/// comparator, `a` belongs above `b`. The relation must be a strict weak
/// ordering; the two proof obligations below capture exactly the properties
/// the heap needs (asymmetry, and transitivity of the complement).
pub trait Comparator<T>: Sized {
    /// The priority relation itself, as a mathematical predicate.
    spec fn prior(&self, a: T, b: T) -> bool;

    /// The relation is asymmetric: two values never both outrank each other.
    proof fn lemma_asymmetric(&self, x: T, y: T)
        requires
            self.prior(x, y),
        ensures
            !self.prior(y, x),
    ;

    /// The complement of the relation is transitive.
    proof fn lemma_no_priority_transitive(&self, x: T, y: T, z: T)
        requires
            !self.prior(x, y),
            !self.prior(y, z),
        ensures
            !self.prior(x, z),
    ;

    /// Decides the relation: returns exactly `prior(*a, *b)`.
    fn outranks(&self, a: &T, b: &T) -> (r: bool)
        ensures
            r == self.prior(*a, *b),
    ;
}

/// The priority relation is transitive (derived from asymmetry and
/// transitivity of the complement).
pub proof fn lemma_priority_transitive<T, C: Comparator<T>>(c: C, x: T, y: T, z: T)
    requires
        c.prior(x, y),
        c.prior(y, z),
    ensures
        c.prior(x, z),
{
    if !c.prior(x, z) {
        c.lemma_asymmetric(y, z);
        c.lemma_no_priority_transitive(x, z, y);
    }
}

/// The priority relation is irreflexive: no value outranks itself.
pub proof fn lemma_priority_irreflexive<T, C: Comparator<T>>(c: C, x: T)
    ensures
        !c.prior(x, x),
{
    if c.prior(x, x) {
        c.lemma_asymmetric(x, x);
    }
}

/// A type with a strict order of its own, from which the min-first and
/// max-first comparators are built.
///
/// `before(other)` reads "`self` sorts strictly before `other`". The order
/// must be asymmetric and its complement transitive.
pub trait StrictOrder: Sized {
    /// The strict order, as a mathematical predicate.
    spec fn before(self, other: Self) -> bool;

    /// The order is asymmetric.
    proof fn lemma_asymmetric(x: Self, y: Self)
        requires
            x.before(y),
        ensures
            !y.before(x),
    ;

    /// The complement of the order is transitive.
    proof fn lemma_no_before_transitive(x: Self, y: Self, z: Self)
        requires
            !x.before(y),
            !y.before(z),
        ensures
            !x.before(z),
    ;

    /// Decides the order: returns exactly `self.before(*other)`.
    fn precedes(&self, other: &Self) -> (r: bool)
        ensures
            r == self.before(*other),
    ;
}

/// The comparator of a min-heap: the smaller value has priority.
pub struct MinFirst;

impl<T: StrictOrder> Comparator<T> for MinFirst {
    open spec fn prior(&self, a: T, b: T) -> bool {
        a.before(b)
    }

    proof fn lemma_asymmetric(&self, x: T, y: T) {
        T::lemma_asymmetric(x, y);
    }

    proof fn lemma_no_priority_transitive(&self, x: T, y: T, z: T) {
        T::lemma_no_before_transitive(x, y, z);
    }

    fn outranks(&self, a: &T, b: &T) -> (r: bool) {
        a.precedes(b)
    }
}

/// The comparator of a max-heap: the greater value has priority.
pub struct MaxFirst;

impl<T: StrictOrder> Comparator<T> for MaxFirst {
    open spec fn prior(&self, a: T, b: T) -> bool {
        b.before(a)
    }

    proof fn lemma_asymmetric(&self, x: T, y: T) {
        T::lemma_asymmetric(y, x);
    }

    proof fn lemma_no_priority_transitive(&self, x: T, y: T, z: T) {
        T::lemma_no_before_transitive(z, y, x);
    }

    fn outranks(&self, a: &T, b: &T) -> (r: bool) {
        b.precedes(a)
    }
}

impl StrictOrder for i32 {
    open spec fn before(self, other: Self) -> bool {
        self < other
    }

    proof fn lemma_asymmetric(x: Self, y: Self) {
    }

    proof fn lemma_no_before_transitive(x: Self, y: Self, z: Self) {
    }

    fn precedes(&self, other: &Self) -> (r: bool) {
        *self < *other
    }
}

impl StrictOrder for i64 {
    open spec fn before(self, other: Self) -> bool {
        self < other
    }

    proof fn lemma_asymmetric(x: Self, y: Self) {
    }

    proof fn lemma_no_before_transitive(x: Self, y: Self, z: Self) {
    }

    fn precedes(&self, other: &Self) -> (r: bool) {
        *self < *other
    }
}

impl StrictOrder for u32 {
    open spec fn before(self, other: Self) -> bool {
        self < other
    }

    proof fn lemma_asymmetric(x: Self, y: Self) {
    }

    proof fn lemma_no_before_transitive(x: Self, y: Self, z: Self) {
    }

    fn precedes(&self, other: &Self) -> (r: bool) {
        *self < *other
    }
}

impl StrictOrder for u64 {
    open spec fn before(self, other: Self) -> bool {
        self < other
    }

    proof fn lemma_asymmetric(x: Self, y: Self) {
    }

    proof fn lemma_no_before_transitive(x: Self, y: Self, z: Self) {
    }

    fn precedes(&self, other: &Self) -> (r: bool) {
        *self < *other
    }
}

impl StrictOrder for usize {
    open spec fn before(self, other: Self) -> bool {
        self < other
    }

    proof fn lemma_asymmetric(x: Self, y: Self) {
    }

    proof fn lemma_no_before_transitive(x: Self, y: Self, z: Self) {
    }

    fn precedes(&self, other: &Self) -> (r: bool) {
        *self < *other
    }
}

} // verus!
