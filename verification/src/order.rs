//! The ordering rule: a caller-supplied capability that compares two items.
//!
//! A [`Comparator`] is a total preorder together with an executable
//! comparison; the heap never looks at items except through it.  [`Natural`]
//! orders items by their own order, [`Reversed`] by its mirror image.

use vstd::prelude::*;

verus! {

/// An injected ordering rule over `T`: a total preorder `le` with an
/// executable decision procedure.
pub trait Comparator<T>: Sized {
    /// The rule itself: `a` is at most `b`.
    spec fn le(self, a: T, b: T) -> bool;

    /// Any two items are ordered one way or the other.
    proof fn total(self, a: T, b: T)
        ensures
            self.le(a, b) || self.le(b, a),
    ;

    /// The rule is transitive.
    proof fn transitive(self, a: T, b: T, x: T)
        requires
            self.le(a, b),
            self.le(b, x),
        ensures
            self.le(a, x),
    ;

    /// Decides `le` on two items.
    fn compares_le(&self, a: &T, b: &T) -> (r: bool)
        ensures
            r == self.le(*a, *b),
    ;
}

/// An item type that carries its own (natural) total order.
pub trait NaturallyOrdered: Sized {
    /// The natural order: `self` is at most `other`.
    spec fn nat_le(self, other: Self) -> bool;

    /// The natural order relates any two items.
    proof fn nat_total(a: Self, b: Self)
        ensures
            a.nat_le(b) || b.nat_le(a),
    ;

    /// The natural order is transitive.
    proof fn nat_transitive(a: Self, b: Self, x: Self)
        requires
            a.nat_le(b),
            b.nat_le(x),
        ensures
            a.nat_le(x),
    ;

    /// Decides the natural order.
    fn nat_compares_le(&self, other: &Self) -> (r: bool)
        ensures
            r == self.nat_le(*other),
    ;
}

/// The comparator that applies an item type's own order.
#[derive(Clone, Copy)]
pub struct Natural;

impl<T: NaturallyOrdered> Comparator<T> for Natural {
    open spec fn le(self, a: T, b: T) -> bool {
        a.nat_le(b)
    }

    proof fn total(self, a: T, b: T) {
        T::nat_total(a, b);
    }

    proof fn transitive(self, a: T, b: T, x: T) {
        T::nat_transitive(a, b, x);
    }

    fn compares_le(&self, a: &T, b: &T) -> (r: bool) {
        a.nat_compares_le(b)
    }
}

/// The comparator that applies the mirror image of an item type's own order.
#[derive(Clone, Copy)]
pub struct Reversed;

impl<T: NaturallyOrdered> Comparator<T> for Reversed {
    open spec fn le(self, a: T, b: T) -> bool {
        b.nat_le(a)
    }

    proof fn total(self, a: T, b: T) {
        T::nat_total(b, a);
    }

    proof fn transitive(self, a: T, b: T, x: T) {
        T::nat_transitive(x, b, a);
    }

    fn compares_le(&self, a: &T, b: &T) -> (r: bool) {
        b.nat_compares_le(a)
    }
}

impl NaturallyOrdered for u32 {
    open spec fn nat_le(self, other: Self) -> bool {
        self <= other
    }

    proof fn nat_total(a: Self, b: Self) {
    }

    proof fn nat_transitive(a: Self, b: Self, x: Self) {
    }

    fn nat_compares_le(&self, other: &Self) -> (r: bool) {
        *self <= *other
    }
}

impl NaturallyOrdered for i32 {
    open spec fn nat_le(self, other: Self) -> bool {
        self <= other
    }

    proof fn nat_total(a: Self, b: Self) {
    }

    proof fn nat_transitive(a: Self, b: Self, x: Self) {
    }

    fn nat_compares_le(&self, other: &Self) -> (r: bool) {
        *self <= *other
    }
}

impl NaturallyOrdered for u64 {
    open spec fn nat_le(self, other: Self) -> bool {
        self <= other
    }

    proof fn nat_total(a: Self, b: Self) {
    }

    proof fn nat_transitive(a: Self, b: Self, x: Self) {
    }

    fn nat_compares_le(&self, other: &Self) -> (r: bool) {
        *self <= *other
    }
}

impl NaturallyOrdered for usize {
    open spec fn nat_le(self, other: Self) -> bool {
        self <= other
    }

    proof fn nat_total(a: Self, b: Self) {
    }

    proof fn nat_transitive(a: Self, b: Self, x: Self) {
    }

    fn nat_compares_le(&self, other: &Self) -> (r: bool) {
        *self <= *other
    }
}

} // verus!
