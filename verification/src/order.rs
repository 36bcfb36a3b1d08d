//! The ordering capability that element types provide to the set.

use vstd::prelude::*;

verus! {

/// Outcome of a three-way comparison between two elements.
pub enum Cmp {
    Less,
    Equal,
    Greater,
}

/// A total order on the abstract values of a type.
///
/// The order is stated on views (`Self::V`), so that elements with more
/// than one concrete representation of the same abstract value compare
/// consistently.  `cmp_with` is the executable comparison that decides
/// the order; it answers `Cmp::Equal` exactly on elements whose views
/// coincide.
pub trait TotalOrder: View + Sized {
    /// The strict order on abstract values.
    spec fn lt(a: Self::V, b: Self::V) -> bool;

    /// The order is transitive.
    proof fn lt_transitive(a: Self::V, b: Self::V, c: Self::V)
        requires
            Self::lt(a, b),
            Self::lt(b, c),
        ensures
            Self::lt(a, c),
    ;

    /// Any two distinct abstract values are ordered one way or the other.
    proof fn lt_connected(a: Self::V, b: Self::V)
        requires
            a != b,
        ensures
            Self::lt(a, b) || Self::lt(b, a),
    ;

    /// No abstract value is strictly below itself.
    proof fn lt_irreflexive(a: Self::V)
        ensures
            !Self::lt(a, a),
    ;

    /// Three-way comparison deciding the order.
    fn cmp_with(&self, other: &Self) -> (c: Cmp)
        ensures
            match c {
                Cmp::Less => Self::lt(self@, other@),
                Cmp::Equal => self@ == other@,
                Cmp::Greater => Self::lt(other@, self@),
            },
    ;

    /// An owned element with the same abstract value.
    fn duplicate(&self) -> (r: Self)
        ensures
            r@ == self@,
    ;
}

/// A strict total order is asymmetric, irreflexive and connected; having
/// these facts ambient lets most order reasoning go through unaided.
pub broadcast proof fn lt_facts<T: TotalOrder>(a: T::V, b: T::V)
    ensures
        #[trigger] T::lt(a, b) ==> !T::lt(b, a) && a != b,
        T::lt(a, b) || T::lt(b, a) || a == b,
{
    if T::lt(a, b) {
        if T::lt(b, a) {
            T::lt_transitive(a, b, a);
            T::lt_irreflexive(a);
        }
        if a == b {
            T::lt_irreflexive(a);
        }
    }
    if a != b {
        T::lt_connected(a, b);
    }
}

/// Transitivity, as an ambient fact over pairs of related values.
pub broadcast proof fn lt_chain<T: TotalOrder>(a: T::V, b: T::V, c: T::V)
    requires
        #[trigger] T::lt(a, b),
        #[trigger] T::lt(b, c),
    ensures
        T::lt(a, c),
{
    T::lt_transitive(a, b, c);
}

impl TotalOrder for i64 {
    open spec fn lt(a: i64, b: i64) -> bool {
        a < b
    }

    proof fn lt_transitive(a: i64, b: i64, c: i64) {
    }

    proof fn lt_connected(a: i64, b: i64) {
    }

    proof fn lt_irreflexive(a: i64) {
    }

    fn cmp_with(&self, other: &Self) -> (c: Cmp) {
        if *self < *other {
            Cmp::Less
        } else if *self == *other {
            Cmp::Equal
        } else {
            Cmp::Greater
        }
    }

    fn duplicate(&self) -> (r: Self) {
        *self
    }
}

impl TotalOrder for u64 {
    open spec fn lt(a: u64, b: u64) -> bool {
        a < b
    }

    proof fn lt_transitive(a: u64, b: u64, c: u64) {
    }

    proof fn lt_connected(a: u64, b: u64) {
    }

    proof fn lt_irreflexive(a: u64) {
    }

    fn cmp_with(&self, other: &Self) -> (c: Cmp) {
        if *self < *other {
            Cmp::Less
        } else if *self == *other {
            Cmp::Equal
        } else {
            Cmp::Greater
        }
    }

    fn duplicate(&self) -> (r: Self) {
        *self
    }
}

} // verus!
