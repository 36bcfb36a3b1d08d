//! Specification vocabulary for the ordered storage: what it means for a
//! sequence of abstract values to be strictly ascending, and the fact that
//! a strictly ascending sequence is the unique representation of its set
//! of elements.

use vstd::prelude::*;

use crate::order::TotalOrder;
use crate::order::lt_facts;

verus! {

/// The abstract values of a sequence of elements, in storage order.
pub open spec fn views_of<T: TotalOrder>(s: Seq<T>) -> Seq<T::V> {
    s.map_values(|t: T| t@)
}

/// The sequence of abstract values is strictly ascending: every pair of
/// positions is ordered, so the sequence is also duplicate-free.
pub open spec fn ascending<T: TotalOrder>(s: Seq<T::V>) -> bool {
    forall|i: int, j: int|
        0 <= i < j < s.len() ==> T::lt(#[trigger] s[i], #[trigger] s[j])
}

/// Indexing commutes with taking views.
pub broadcast proof fn lemma_views_index<T: TotalOrder>(s: Seq<T>, i: int)
    requires
        0 <= i < s.len(),
    ensures
        #[trigger] views_of(s)[i] == s[i]@,
{
}

/// Taking views preserves length.
pub broadcast proof fn lemma_views_len<T: TotalOrder>(s: Seq<T>)
    ensures
        #[trigger] views_of(s).len() == s.len(),
{
}

/// Appending one element appends its view.
pub broadcast proof fn lemma_views_push<T: TotalOrder>(s: Seq<T>, t: T)
    ensures
        #[trigger] views_of(s.push(t)) == views_of(s).push(t@),
{
    assert(views_of(s.push(t)) =~= views_of(s).push(t@));
}

/// Inserting one element inserts its view at the same position.
pub broadcast proof fn lemma_views_insert<T: TotalOrder>(s: Seq<T>, i: int, t: T)
    requires
        0 <= i <= s.len(),
    ensures
        #[trigger] views_of(s.insert(i, t)) == views_of(s).insert(i, t@),
{
    assert(views_of(s.insert(i, t)) =~= views_of(s).insert(i, t@));
}

/// Updating one element updates its view at the same position.
pub broadcast proof fn lemma_views_update<T: TotalOrder>(s: Seq<T>, i: int, t: T)
    requires
        0 <= i < s.len(),
    ensures
        #[trigger] views_of(s.update(i, t)) == views_of(s).update(i, t@),
{
    assert(views_of(s.update(i, t)) =~= views_of(s).update(i, t@));
}

/// Removing one element removes its view from the same position.
pub broadcast proof fn lemma_views_remove<T: TotalOrder>(s: Seq<T>, i: int)
    requires
        0 <= i < s.len(),
    ensures
        #[trigger] views_of(s.remove(i)) == views_of(s).remove(i),
{
    assert(views_of(s.remove(i)) =~= views_of(s).remove(i));
}

/// Taking views commutes with splitting off a suffix.
pub broadcast proof fn lemma_views_subrange<T: TotalOrder>(s: Seq<T>, i: int, j: int)
    requires
        0 <= i <= j <= s.len(),
    ensures
        #[trigger] views_of(s.subrange(i, j)) == views_of(s).subrange(i, j),
{
    assert(views_of(s.subrange(i, j)) =~= views_of(s).subrange(i, j));
}

/// Inserting an element into a sequence adds exactly it to the element set.
pub proof fn lemma_seq_insert_to_set<A>(s: Seq<A>, i: int, x: A)
    requires
        0 <= i <= s.len(),
    ensures
        s.insert(i, x).to_set() == s.to_set().insert(x),
{
    let t = s.insert(i, x);
    assert forall|y: A| t.to_set().contains(y) implies s.to_set().insert(x).contains(y) by {
        let k = choose|k: int| 0 <= k < t.len() && t[k] == y;
        if k < i {
            assert(s[k] == y);
        } else if k > i {
            assert(s[k - 1] == y);
        }
    }
    assert forall|y: A| s.to_set().insert(x).contains(y) implies t.to_set().contains(y) by {
        if s.to_set().contains(y) {
            let k = choose|k: int| 0 <= k < s.len() && s[k] == y;
            if k < i {
                assert(t[k] == y);
            } else {
                assert(t[k + 1] == y);
            }
        } else {
            assert(t[i] == y);
        }
    }
    assert(t.to_set() =~= s.to_set().insert(x));
}

/// A sequence still strictly ascends after inserting an element between
/// the entries below it and the entries above it.
pub proof fn lemma_ascending_insert<T: TotalOrder>(s: Seq<T::V>, i: int, x: T::V)
    requires
        ascending::<T>(s),
        0 <= i <= s.len(),
        forall|k: int| 0 <= k < i ==> T::lt(#[trigger] s[k], x),
        forall|k: int| i <= k < s.len() ==> T::lt(x, #[trigger] s[k]),
    ensures
        ascending::<T>(s.insert(i, x)),
{
    let t = s.insert(i, x);
    assert forall|p: int, q: int| 0 <= p < q < t.len() implies T::lt(t[p], t[q]) by {
        if p < i && q < i {
            assert(t[p] == s[p] && t[q] == s[q]);
        } else if p < i && q == i {
            assert(t[p] == s[p]);
        } else if p < i && q > i {
            assert(t[p] == s[p] && t[q] == s[q - 1]);
        } else if p == i {
            assert(t[q] == s[q - 1]);
        } else {
            assert(t[p] == s[p - 1] && t[q] == s[q - 1]);
        }
    }
}

/// Removing an entry of a strictly ascending sequence keeps it strictly
/// ascending and removes exactly that element from the element set.
pub proof fn lemma_ascending_remove<T: TotalOrder>(s: Seq<T::V>, i: int)
    requires
        ascending::<T>(s),
        0 <= i < s.len(),
    ensures
        ascending::<T>(s.remove(i)),
        s.remove(i).to_set() == s.to_set().remove(s[i]),
{
    broadcast use lt_facts;

    let t = s.remove(i);
    assert forall|p: int, q: int| 0 <= p < q < t.len() implies T::lt(t[p], t[q]) by {
        if p < i && q < i {
            assert(t[p] == s[p] && t[q] == s[q]);
        } else if p < i {
            assert(t[p] == s[p] && t[q] == s[q + 1]);
        } else {
            assert(t[p] == s[p + 1] && t[q] == s[q + 1]);
        }
    }
    assert forall|y: T::V| t.to_set().contains(y) implies s.to_set().remove(s[i]).contains(y) by {
        let k = choose|k: int| 0 <= k < t.len() && t[k] == y;
        if k < i {
            assert(s[k] == y);
            assert(y != s[i]);
        } else {
            assert(s[k + 1] == y);
            assert(T::lt(s[i], s[k + 1]));
        }
    }
    assert forall|y: T::V| s.to_set().remove(s[i]).contains(y) implies t.to_set().contains(y) by {
        let k = choose|k: int| 0 <= k < s.len() && s[k] == y;
        if k < i {
            assert(t[k] == y);
        } else {
            assert(k != i);
            assert(t[k - 1] == y);
        }
    }
    assert(t.to_set() =~= s.to_set().remove(s[i]));
}

/// The abstract values of a sequence never descend; equal neighbours are
/// allowed.  This is what sorting an arbitrary batch establishes.
pub open spec fn nondesc<T: TotalOrder>(s: Seq<T::V>) -> bool {
    forall|i: int, j: int|
        0 <= i < j < s.len() ==> !T::lt(#[trigger] s[j], #[trigger] s[i])
}

/// A sequence stays non-descending after inserting an element between
/// the entries at or below it and the entries at or above it.
pub proof fn lemma_nondesc_insert<T: TotalOrder>(s: Seq<T::V>, i: int, x: T::V)
    requires
        nondesc::<T>(s),
        0 <= i <= s.len(),
        forall|k: int| 0 <= k < i ==> !T::lt(x, #[trigger] s[k]),
        forall|k: int| i <= k < s.len() ==> !T::lt(#[trigger] s[k], x),
    ensures
        nondesc::<T>(s.insert(i, x)),
{
    let t = s.insert(i, x);
    assert forall|p: int, q: int| 0 <= p < q < t.len() implies !T::lt(t[q], t[p]) by {
        if p < i && q < i {
            assert(t[p] == s[p] && t[q] == s[q]);
        } else if p < i && q == i {
            assert(t[p] == s[p]);
        } else if p < i && q > i {
            assert(t[p] == s[p] && t[q] == s[q - 1]);
        } else if p == i {
            assert(t[q] == s[q - 1]);
        } else {
            assert(t[p] == s[p - 1] && t[q] == s[q - 1]);
        }
    }
}

/// A non-descending sequence with no two equal neighbours strictly
/// ascends.
pub proof fn lemma_adjacent_distinct_ascending<T: TotalOrder>(s: Seq<T::V>)
    requires
        nondesc::<T>(s),
        forall|i: int| 0 <= i < s.len() - 1 ==> #[trigger] s[i] != s[i + 1],
    ensures
        ascending::<T>(s),
{
    assert forall|p: int, q: int| 0 <= p < q < s.len() implies T::lt(s[p], s[q]) by {
        lemma_adjacent_chain::<T>(s, p, q);
    }
}

/// In a non-descending sequence with distinct neighbours, any earlier
/// entry is strictly below any later one.
proof fn lemma_adjacent_chain<T: TotalOrder>(s: Seq<T::V>, p: int, q: int)
    requires
        nondesc::<T>(s),
        forall|i: int| 0 <= i < s.len() - 1 ==> #[trigger] s[i] != s[i + 1],
        0 <= p < q < s.len(),
    ensures
        T::lt(s[p], s[q]),
    decreases q - p,
{
    broadcast use lt_facts;

    if q == p + 1 {
        assert(s[p] != s[q]);
        assert(!T::lt(s[q], s[p]));
    } else {
        lemma_adjacent_chain::<T>(s, p, q - 1);
        lemma_adjacent_chain::<T>(s, q - 1, q);
    }
}

/// Membership in the element set is membership in the sequence.
pub broadcast proof fn lemma_to_set_contains<A>(s: Seq<A>, x: A)
    ensures
        #![trigger s.to_set().contains(x)]
        #![trigger s.contains(x)]
        s.to_set().contains(x) <==> s.contains(x),
{
    broadcast use vstd::set::group_set_axioms;

}

/// Appending one element adds exactly it to the element set.
pub broadcast proof fn lemma_push_to_set<A>(s: Seq<A>, x: A)
    ensures
        #[trigger] s.push(x).to_set() == s.to_set().insert(x),
{
    assert(s.push(x) =~= s + seq![x]);
    Seq::<A>::lemma_to_set_insert_commutes(s, x);
}

/// Extending a prefix by one position appends the element there.
pub broadcast proof fn lemma_take_push<A>(s: Seq<A>, i: int)
    requires
        0 <= i < s.len(),
    ensures
        #[trigger] s.take(i + 1) == s.take(i).push(s[i]),
{
    assert(s.take(i + 1) =~= s.take(i).push(s[i]));
}

/// A strictly ascending sequence has pairwise-distinct entries.
pub proof fn lemma_ascending_distinct<T: TotalOrder>(s: Seq<T::V>)
    requires
        ascending::<T>(s),
    ensures
        s.no_duplicates(),
{
    broadcast use lt_facts;

    assert forall|i: int, j: int| 0 <= i < s.len() && 0 <= j < s.len() && i != j implies s[i]
        != s[j] by {
        if i < j {
            assert(T::lt(s[i], s[j]));
        } else {
            assert(T::lt(s[j], s[i]));
        }
    }
}

/// A strictly ascending sequence has exactly one entry per element of its
/// set, so its length is the cardinality of that set.
pub proof fn lemma_ascending_set_len<T: TotalOrder>(s: Seq<T::V>)
    requires
        ascending::<T>(s),
    ensures
        s.to_set().len() == s.len(),
        s.to_set().finite(),
{
    broadcast use vstd::seq_lib::seq_to_set_is_finite;

    lemma_ascending_distinct::<T>(s);
    s.unique_seq_to_set();
}

/// Removing the first entry of a strictly ascending sequence removes
/// exactly that element from its set.
pub proof fn lemma_ascending_drop_first_set<T: TotalOrder>(s: Seq<T::V>)
    requires
        ascending::<T>(s),
        s.len() > 0,
    ensures
        ascending::<T>(s.drop_first()),
        s.drop_first().to_set() == s.to_set().remove(s[0]),
{
    broadcast use lt_facts;

    let rest = s.drop_first();
    assert forall|x: T::V| rest.to_set().contains(x) implies s.to_set().remove(s[0]).contains(
        x,
    ) by {
        let k = choose|k: int| 0 <= k < rest.len() && rest[k] == x;
        assert(s[k + 1] == x);
        assert(T::lt(s[0], s[k + 1]));
    }
    assert forall|x: T::V| s.to_set().remove(s[0]).contains(x) implies rest.to_set().contains(
        x,
    ) by {
        let k = choose|k: int| 0 <= k < s.len() && s[k] == x;
        assert(k != 0);
        assert(rest[k - 1] == x);
    }
    assert(rest.to_set() =~= s.to_set().remove(s[0]));
}

/// A strictly ascending sequence is determined by its set of elements:
/// two ascending sequences over the same set are equal.  This is the
/// canonical-form fact behind round-tripping through any ordered-unique
/// structure, and behind the equivalence of bulk and one-at-a-time
/// insertion.
pub proof fn lemma_ascending_unique<T: TotalOrder>(a: Seq<T::V>, b: Seq<T::V>)
    requires
        ascending::<T>(a),
        ascending::<T>(b),
        a.to_set() == b.to_set(),
    ensures
        a == b,
    decreases a.len(),
{
    broadcast use lt_facts;

    if a.len() == 0 {
        if b.len() > 0 {
            assert(b.to_set().contains(b[0]));
            assert(a.contains(b[0]));
        }
        assert(a =~= b);
    } else if b.len() == 0 {
        assert(a.to_set().contains(a[0]));
        assert(b.contains(a[0]));
    } else {
        // The heads are both the least element of the common set, so they
        // are equal.
        if a[0] != b[0] {
            assert(b.to_set().contains(a[0]));
            let j = choose|j: int| 0 <= j < b.len() && b[j] == a[0];
            assert(j != 0);
            assert(T::lt(b[0], b[j]));
            assert(a.to_set().contains(b[0]));
            let i = choose|i: int| 0 <= i < a.len() && a[i] == b[0];
            assert(i != 0);
            assert(T::lt(a[0], a[i]));
        }
        lemma_ascending_drop_first_set::<T>(a);
        lemma_ascending_drop_first_set::<T>(b);
        lemma_ascending_unique::<T>(a.drop_first(), b.drop_first());
        assert(a =~= seq![a[0]] + a.drop_first());
        assert(b =~= seq![b[0]] + b.drop_first());
    }
}

} // verus!
