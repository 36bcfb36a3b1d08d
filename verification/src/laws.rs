//! The library-level laws of the sorted-vector set, stated over the same
//! spec functions its contracts use and proved once and for all.

use vstd::prelude::*;

use crate::ops::diff_seq;
use crate::ops::inter_seq;
use crate::ops::lemma_scan_char;
use crate::ops::sym_diff_seq;
use crate::ops::union_seq;
use crate::order::TotalOrder;
use crate::order::lt_facts;
use crate::set::SortedVectorSet;
use crate::sorted::ascending;
use crate::sorted::lemma_ascending_distinct;
use crate::sorted::lemma_ascending_set_len;
use crate::sorted::lemma_ascending_unique;
use crate::sorted::views_of;

verus! {

broadcast use lt_facts;

/// Order and uniqueness: iterating a well-formed set yields strictly
/// ascending, pairwise-distinct values.
pub proof fn lemma_iteration_strictly_ascending<T: TotalOrder>(s: SortedVectorSet<T>)
    requires
        s.wf(),
    ensures
        forall|i: int, j: int| 0 <= i < j < s@.len() ==> T::lt(#[trigger] s@[i], #[trigger] s@[j]),
        s@.no_duplicates(),
{
    lemma_ascending_distinct::<T>(s@);
}

/// Equivalence to the mathematical reference set: the length and
/// emptiness of a well-formed set agree with the cardinality and
/// emptiness of its element set.
pub proof fn lemma_matches_reference_set<T: TotalOrder>(s: SortedVectorSet<T>)
    requires
        s.wf(),
    ensures
        s@.to_set().finite(),
        s@.to_set().len() == s@.len(),
        (s@.len() == 0 <==> s@.to_set() == Set::<T::V>::empty()),
{
    lemma_ascending_set_len::<T>(s@);
    if s@.len() == 0 {
        assert(s@.to_set() =~= Set::<T::V>::empty());
    } else {
        assert(s@.to_set().contains(s@[0]));
    }
}

/// A well-formed set is determined by its element set: two well-formed
/// sets over the same elements iterate identically.  This is the
/// canonical-form law behind round-tripping through any ordered-unique
/// structure, and behind insertion-order independence.
pub proof fn lemma_view_determined_by_set<T: TotalOrder>(a: SortedVectorSet<T>, b: SortedVectorSet<
    T,
>)
    requires
        a.wf(),
        b.wf(),
        a@.to_set() == b@.to_set(),
    ensures
        a@ == b@,
{
    lemma_ascending_unique::<T>(a@, b@);
}

/// Round trip: exporting a well-formed set as its ordered storage and
/// rebuilding from that storage reproduces an equal sequence.
pub proof fn lemma_round_trip<T: TotalOrder>(
    s: SortedVectorSet<T>,
    exported: Seq<T>,
    rebuilt: SortedVectorSet<T>,
)
    requires
        s.wf(),
        views_of(exported) == s@,
        rebuilt@ == views_of(exported),
    ensures
        rebuilt.wf(),
        rebuilt@ == s@,
{
}

/// Set algebra: the intersection and the difference of two sets split
/// the left set exactly in two.
pub proof fn lemma_intersection_difference_partition<T: TotalOrder>(a: Seq<T::V>, b: Seq<T::V>)
    requires
        ascending::<T>(a),
        ascending::<T>(b),
    ensures
        inter_seq::<T>(a, b).to_set().union(diff_seq::<T>(a, b).to_set()) == a.to_set(),
        union_seq::<T>(inter_seq::<T>(a, b), diff_seq::<T>(a, b)) == a,
{
    lemma_scan_char::<T>(a, b, false, false, true);
    lemma_scan_char::<T>(a, b, true, false, false);
    assert(inter_seq::<T>(a, b).to_set().union(diff_seq::<T>(a, b).to_set()) =~= a.to_set());
    lemma_scan_char::<T>(inter_seq::<T>(a, b), diff_seq::<T>(a, b), true, true, true);
    let recombined = union_seq::<T>(inter_seq::<T>(a, b), diff_seq::<T>(a, b));
    assert(recombined.to_set() =~= a.to_set());
    lemma_ascending_unique::<T>(recombined, a);
}

/// Set algebra: the symmetric difference is the union of the two
/// one-sided differences.
pub proof fn lemma_symmetric_difference_split<T: TotalOrder>(a: Seq<T::V>, b: Seq<T::V>)
    requires
        ascending::<T>(a),
        ascending::<T>(b),
    ensures
        sym_diff_seq::<T>(a, b).to_set() == diff_seq::<T>(a, b).to_set().union(
            diff_seq::<T>(b, a).to_set(),
        ),
        sym_diff_seq::<T>(a, b) == union_seq::<T>(diff_seq::<T>(a, b), diff_seq::<T>(b, a)),
{
    lemma_scan_char::<T>(a, b, true, true, false);
    lemma_scan_char::<T>(a, b, true, false, false);
    lemma_scan_char::<T>(b, a, true, false, false);
    assert(sym_diff_seq::<T>(a, b).to_set() =~= diff_seq::<T>(a, b).to_set().union(
        diff_seq::<T>(b, a).to_set(),
    ));
    lemma_scan_char::<T>(diff_seq::<T>(a, b), diff_seq::<T>(b, a), true, true, true);
    let joined = union_seq::<T>(diff_seq::<T>(a, b), diff_seq::<T>(b, a));
    assert(joined.to_set() =~= sym_diff_seq::<T>(a, b).to_set());
    lemma_ascending_unique::<T>(sym_diff_seq::<T>(a, b), joined);
}

/// Set algebra: uniting a set with a subset of itself changes nothing,
/// down to the exact iteration sequence.
pub proof fn lemma_union_with_subset<T: TotalOrder>(a: Seq<T::V>, b: Seq<T::V>)
    requires
        ascending::<T>(a),
        ascending::<T>(b),
        b.to_set().subset_of(a.to_set()),
    ensures
        union_seq::<T>(a, b).to_set() == a.to_set(),
        union_seq::<T>(a, b) == a,
{
    lemma_scan_char::<T>(a, b, true, true, true);
    assert(union_seq::<T>(a, b).to_set() =~= a.to_set());
    lemma_ascending_unique::<T>(union_seq::<T>(a, b), a);
}

/// The subset, superset and disjointness predicates agree with running
/// the corresponding set-algebra scan and checking that it is empty.
pub proof fn lemma_predicates_agree_with_scans<T: TotalOrder>(a: Seq<T::V>, b: Seq<T::V>)
    requires
        ascending::<T>(a),
        ascending::<T>(b),
    ensures
        (inter_seq::<T>(a, b).len() == 0 <==> a.to_set().disjoint(b.to_set())),
        (diff_seq::<T>(a, b).len() == 0 <==> a.to_set().subset_of(b.to_set())),
        (diff_seq::<T>(b, a).len() == 0 <==> b.to_set().subset_of(a.to_set())),
{
    lemma_scan_char::<T>(a, b, false, false, true);
    lemma_scan_char::<T>(a, b, true, false, false);
    lemma_scan_char::<T>(b, a, true, false, false);
    lemma_scan_empty_iff::<T>(inter_seq::<T>(a, b));
    lemma_scan_empty_iff::<T>(diff_seq::<T>(a, b));
    lemma_scan_empty_iff::<T>(diff_seq::<T>(b, a));
    let it = inter_seq::<T>(a, b);
    if it.len() == 0 {
        assert forall|v: T::V| a.to_set().contains(v) implies !b.to_set().contains(v) by {
            assert(!it.to_set().contains(v));
        }
    } else {
        assert(it.to_set().contains(it[0]));
    }
    let dab = diff_seq::<T>(a, b);
    if dab.len() == 0 {
        assert forall|v: T::V| a.to_set().contains(v) implies b.to_set().contains(v) by {
            assert(!dab.to_set().contains(v));
        }
    } else {
        assert(dab.to_set().contains(dab[0]));
    }
    let dba = diff_seq::<T>(b, a);
    if dba.len() == 0 {
        assert forall|v: T::V| b.to_set().contains(v) implies a.to_set().contains(v) by {
            assert(!dba.to_set().contains(v));
        }
    } else {
        assert(dba.to_set().contains(dba[0]));
    }
}

/// A sequence is empty exactly when its element set is.
proof fn lemma_scan_empty_iff<T: TotalOrder>(s: Seq<T::V>)
    ensures
        s.len() == 0 <==> s.to_set() == Set::<T::V>::empty(),
{
    if s.len() == 0 {
        assert(s.to_set() =~= Set::<T::V>::empty());
    } else {
        assert(s.to_set().contains(s[0]));
    }
}

/// Bulk extension agrees with one-at-a-time insertion: a well-formed
/// set whose elements are the initial ones united with a batch's is the
/// same sequence however it was produced, so extending with a batch and
/// inserting its elements one by one, in any order, end alike.
pub proof fn lemma_extend_matches_individual_inserts<T: TotalOrder>(
    initial: Seq<T::V>,
    batch: Seq<T::V>,
    bulk: Seq<T::V>,
    individual: Seq<T::V>,
)
    requires
        ascending::<T>(bulk),
        ascending::<T>(individual),
        bulk.to_set() == initial.to_set().union(batch.to_set()),
        individual.to_set() == initial.to_set().union(batch.to_set()),
    ensures
        bulk == individual,
{
    lemma_ascending_unique::<T>(bulk, individual);
}

} // verus!
