//! The total-order capability that key types supply to the tree engine.

use vstd::prelude::*;

verus! {

/// Result of a three-way comparison.
pub enum Cmp {
    Lt,
    Eq,
    Gt,
}

/// A total order on a key type. The engine compares keys only through this
/// trait, so callers may pick the ordering rather than rely on a built-in
/// comparison trait.
pub trait TotalOrder: Sized {
    /// The order relation, as a specification-level predicate.
    spec fn le(self, other: Self) -> bool;

    proof fn lemma_refl(a: Self)
        ensures
            a.le(a),
    ;

    proof fn lemma_trans(a: Self, b: Self, c: Self)
        requires
            a.le(b),
            b.le(c),
        ensures
            a.le(c),
    ;

    proof fn lemma_antisym(a: Self, b: Self)
        requires
            a.le(b),
            b.le(a),
        ensures
            a == b,
    ;

    proof fn lemma_total(a: Self, b: Self)
        ensures
            a.le(b) || b.le(a),
    ;

    /// Executable three-way comparison deciding the order relation.
    fn compare(&self, other: &Self) -> (c: Cmp)
        ensures
            (match c {
                Cmp::Lt => self.le(*other) && *self != *other,
                Cmp::Eq => *self == *other,
                Cmp::Gt => other.le(*self) && *self != *other,
            }),
    ;
}

/// Decidable equality on values, used where two trees are compared entry
/// by entry.
pub trait ValueEq: Sized {
    /// Executable test deciding specification-level equality.
    fn value_eq(&self, other: &Self) -> (r: bool)
        ensures
            r == (*self == *other),
    ;
}

impl ValueEq for u64 {
    fn value_eq(&self, other: &Self) -> (r: bool) {
        *self == *other
    }
}

impl ValueEq for i64 {
    fn value_eq(&self, other: &Self) -> (r: bool) {
        *self == *other
    }
}

impl ValueEq for usize {
    fn value_eq(&self, other: &Self) -> (r: bool) {
        *self == *other
    }
}

impl ValueEq for u32 {
    fn value_eq(&self, other: &Self) -> (r: bool) {
        *self == *other
    }
}

impl ValueEq for i32 {
    fn value_eq(&self, other: &Self) -> (r: bool) {
        *self == *other
    }
}

/// Strict order derived from the order relation.
pub open spec fn lt<K: TotalOrder>(a: K, b: K) -> bool {
    a.le(b) && a != b
}

impl TotalOrder for u64 {
    open spec fn le(self, other: Self) -> bool {
        self <= other
    }

    proof fn lemma_refl(a: Self) {
    }

    proof fn lemma_trans(a: Self, b: Self, c: Self) {
    }

    proof fn lemma_antisym(a: Self, b: Self) {
    }

    proof fn lemma_total(a: Self, b: Self) {
    }

    fn compare(&self, other: &Self) -> (c: Cmp) {
        if *self < *other {
            Cmp::Lt
        } else if *self == *other {
            Cmp::Eq
        } else {
            Cmp::Gt
        }
    }
}

impl TotalOrder for i64 {
    open spec fn le(self, other: Self) -> bool {
        self <= other
    }

    proof fn lemma_refl(a: Self) {
    }

    proof fn lemma_trans(a: Self, b: Self, c: Self) {
    }

    proof fn lemma_antisym(a: Self, b: Self) {
    }

    proof fn lemma_total(a: Self, b: Self) {
    }

    fn compare(&self, other: &Self) -> (c: Cmp) {
        if *self < *other {
            Cmp::Lt
        } else if *self == *other {
            Cmp::Eq
        } else {
            Cmp::Gt
        }
    }
}

impl TotalOrder for usize {
    open spec fn le(self, other: Self) -> bool {
        self <= other
    }

    proof fn lemma_refl(a: Self) {
    }

    proof fn lemma_trans(a: Self, b: Self, c: Self) {
    }

    proof fn lemma_antisym(a: Self, b: Self) {
    }

    proof fn lemma_total(a: Self, b: Self) {
    }

    fn compare(&self, other: &Self) -> (c: Cmp) {
        if *self < *other {
            Cmp::Lt
        } else if *self == *other {
            Cmp::Eq
        } else {
            Cmp::Gt
        }
    }
}

impl TotalOrder for u32 {
    open spec fn le(self, other: Self) -> bool {
        self <= other
    }

    proof fn lemma_refl(a: Self) {
    }

    proof fn lemma_trans(a: Self, b: Self, c: Self) {
    }

    proof fn lemma_antisym(a: Self, b: Self) {
    }

    proof fn lemma_total(a: Self, b: Self) {
    }

    fn compare(&self, other: &Self) -> (c: Cmp) {
        if *self < *other {
            Cmp::Lt
        } else if *self == *other {
            Cmp::Eq
        } else {
            Cmp::Gt
        }
    }
}

impl TotalOrder for i32 {
    open spec fn le(self, other: Self) -> bool {
        self <= other
    }

    proof fn lemma_refl(a: Self) {
    }

    proof fn lemma_trans(a: Self, b: Self, c: Self) {
    }

    proof fn lemma_antisym(a: Self, b: Self) {
    }

    proof fn lemma_total(a: Self, b: Self) {
    }

    fn compare(&self, other: &Self) -> (c: Cmp) {
        if *self < *other {
            Cmp::Lt
        } else if *self == *other {
            Cmp::Eq
        } else {
            Cmp::Gt
        }
    }
}

} // verus!
