//! The two-way merge machinery behind bulk loading: sorting a batch,
//! appending a disjoint-and-after batch, and the general ordered merge
//! in which batch values win over stored values on equal keys.

use vstd::prelude::*;

use crate::order::Cmp;
use crate::order::TotalOrder;
use crate::order::lt_chain;
use crate::order::lt_facts;
use crate::sorted::ascending;
use crate::sorted::lemma_nondesc_insert;
use crate::sorted::lemma_push_to_set;
use crate::sorted::lemma_seq_insert_to_set;
use crate::sorted::lemma_take_push;
use crate::sorted::lemma_views_index;
use crate::sorted::lemma_views_insert;
use crate::sorted::lemma_views_len;
use crate::sorted::lemma_views_push;
use crate::sorted::lemma_views_update;
use crate::sorted::nondesc;
use crate::sorted::views_of;

verus! {

broadcast use lt_facts, lt_chain, lemma_views_index, lemma_views_len, lemma_views_push,
    lemma_views_insert, lemma_views_update, lemma_push_to_set, lemma_take_push;

/// Appends an element to an ascending vector whose entries are all at or
/// below it.  An entry equal to it is overwritten, so the newcomer wins;
/// otherwise the element is pushed.
pub(crate) fn push_keep_last<T: TotalOrder>(v: &mut Vec<T>, t: T)
    requires
        ascending::<T>(views_of(old(v)@)),
        old(v)@.len() > 0 ==> !T::lt(t@, views_of(old(v)@).last()),
    ensures
        ascending::<T>(views_of(final(v)@)),
        views_of(final(v)@).to_set() == views_of(old(v)@).to_set().insert(t@),
        final(v)@.len() > 0,
        views_of(final(v)@).last() == t@,
{
    let ghost s0 = views_of(v@);
    let n = v.len();
    if n > 0 {
        let c = v[n - 1].cmp_with(&t);
        if matches!(c, Cmp::Equal) {
            v[n - 1] = t;
            proof {
                assert(views_of(v@) =~= s0);
                assert(views_of(v@).to_set() =~= s0.to_set().insert(t@));
            }
        } else {
            proof {
                assert(T::lt(s0.last(), t@));
            }
            v.push(t);
            proof {
                assert forall|p: int, q: int|
                    0 <= p < q < views_of(v@).len() implies T::lt(
                    views_of(v@)[p],
                    views_of(v@)[q],
                ) by {
                    if q == views_of(v@).len() - 1 {
                        if p < s0.len() - 1 {
                            assert(T::lt(s0[p], s0[s0.len() - 1]));
                        }
                    } else {
                        assert(T::lt(s0[p], s0[q]));
                    }
                }
            }
        }
    } else {
        v.push(t);
        proof {
            assert(s0.to_set() =~= Set::<T::V>::empty());
            assert(views_of(v@).to_set() =~= s0.to_set().insert(t@));
        }
    }
}

/// Sorts a batch of elements into non-descending view order.  Only the
/// set of abstract values is pinned: among equal elements the order of
/// concrete representatives is left open.
pub(crate) fn sort_batch<T: TotalOrder>(v: Vec<T>) -> (r: Vec<T>)
    ensures
        nondesc::<T>(views_of(r@)),
        views_of(r@).to_set() == views_of(v@).to_set(),
        r@.len() == v@.len(),
{
    let ghost total = views_of(v@).to_set();
    let ghost total_len = v@.len();
    let mut rest = v;
    let mut out: Vec<T> = Vec::new();
    proof {
        assert(views_of(out@).to_set().union(views_of(rest@).to_set()) =~= total);
    }
    while rest.len() > 0
        invariant
            nondesc::<T>(views_of(out@)),
            views_of(out@).to_set().union(views_of(rest@).to_set()) == total,
            out@.len() + rest@.len() == total_len,
        decreases rest@.len(),
    {
        let ghost rv0 = views_of(rest@);
        match rest.pop() {
            Some(t) => {
                proof {
                    assert(rv0 =~= views_of(rest@).push(t@));
                }
                let ov = Ghost(views_of(out@));
                let mut p = out.len();
                let mut scanning = p > 0;
                while scanning
                    invariant
                        views_of(out@) == ov@,
                        p <= out@.len(),
                        scanning ==> p > 0,
                        !scanning ==> (p == 0 || !T::lt(t@, ov@[p - 1])),
                        forall|k: int| p <= k < ov@.len() ==> T::lt(t@, #[trigger] ov@[k]),
                    decreases p + (if scanning { 1int } else { 0int }),
                {
                    let c = out[p - 1].cmp_with(&t);
                    if matches!(c, Cmp::Greater) {
                        p = p - 1;
                        scanning = p > 0;
                    } else {
                        scanning = false;
                    }
                }
                proof {
                    assert forall|k: int| 0 <= k < p implies !T::lt(t@, #[trigger] ov@[k]) by {
                        assert(!T::lt(t@, ov@[p - 1]));
                        if k < p - 1 {
                            assert(!T::lt(ov@[p - 1], ov@[k]));
                            if T::lt(t@, ov@[k]) {
                                if ov@[k] == ov@[p - 1] {
                                    assert(false);
                                } else {
                                    assert(T::lt(ov@[k], ov@[p - 1]));
                                }
                            }
                        }
                    }
                }
                let ghost out0 = views_of(out@);
                out.insert(p, t);
                proof {
                    lemma_nondesc_insert::<T>(out0, p as int, t@);
                    lemma_seq_insert_to_set::<T::V>(out0, p as int, t@);
                    assert(views_of(out@).to_set().union(views_of(rest@).to_set()) =~= total);
                }
            },
            None => {
                proof {
                    assert(false);
                }
            },
        }
    }
    proof {
        assert(views_of(rest@).to_set() =~= Set::<T::V>::empty());
        assert(views_of(out@).to_set() =~= total);
    }
    out
}

/// Scans a batch for a pair of equal neighbours.  A sorted batch with
/// none is already duplicate-free and can be taken as it is.
pub(crate) fn has_adjacent_dup<T: TotalOrder>(v: &Vec<T>) -> (r: bool)
    ensures
        r == (exists|i: int|
            0 <= i < v@.len() - 1 && #[trigger] views_of(v@)[i] == views_of(v@)[i + 1]),
{
    let ghost vs = views_of(v@);
    let n = v.len();
    if n == 0 {
        return false;
    }
    let mut i: usize = 0;
    while i < n - 1
        invariant
            vs == views_of(v@),
            n == vs.len(),
            n > 0,
            i <= vs.len() - 1,
            forall|k: int| 0 <= k < i ==> #[trigger] vs[k] != vs[k + 1],
        decreases vs.len() - i,
    {
        let c = v[i].cmp_with(&v[i + 1]);
        if matches!(c, Cmp::Equal) {
            proof {
                assert(vs[i as int] == vs[i + 1]);
            }
            return true;
        }
        i = i + 1;
    }
    false
}

/// Appends a sorted batch that lies entirely above the vector's current
/// maximum, collapsing runs of equal batch entries so the last of each
/// run wins.
pub(crate) fn append_nondesc<T: TotalOrder>(v: &mut Vec<T>, batch: &Vec<T>)
    requires
        ascending::<T>(views_of(old(v)@)),
        nondesc::<T>(views_of(batch@)),
        forall|m: int|
            0 <= m < batch@.len() ==> (old(v)@.len() == 0 || T::lt(
                views_of(old(v)@).last(),
                #[trigger] views_of(batch@)[m],
            )),
    ensures
        ascending::<T>(views_of(final(v)@)),
        views_of(final(v)@).to_set() == views_of(old(v)@).to_set().union(
            views_of(batch@).to_set(),
        ),
{
    let ghost v0 = views_of(v@);
    let ghost bv = views_of(batch@);
    let mut i: usize = 0;
    proof {
        assert(views_of(v@).to_set().union(bv.take(0).to_set()) =~= v0.to_set());
    }
    while i < batch.len()
        invariant
            ascending::<T>(views_of(v@)),
            i <= bv.len(),
            views_of(v@).to_set() == v0.to_set().union(bv.take(i as int).to_set()),
            v@.len() > 0 && i < bv.len() ==> !T::lt(bv[i as int], views_of(v@).last()),
            v@.len() == 0 ==> v0.len() == 0 && i == 0,
            nondesc::<T>(bv),
            bv == views_of(batch@),
            forall|m: int|
                0 <= m < bv.len() ==> (v0.len() == 0 || T::lt(v0.last(), #[trigger] bv[m])),
        decreases bv.len() - i,
    {
        let t = batch[i].duplicate();
        push_keep_last(v, t);
        proof {
            assert(views_of(v@).to_set() =~= v0.to_set().union(bv.take(i + 1).to_set()));
        }
        i = i + 1;
    }
    proof {
        assert(bv.take(bv.len() as int) =~= bv);
    }
}

/// Merges an ascending vector with a sorted batch into a single
/// ascending vector.  On equal keys the batch element wins, and within a
/// run of equal batch entries the last one wins.
pub(crate) fn merge_vecs<T: TotalOrder>(left: Vec<T>, right: Vec<T>) -> (r: Vec<T>)
    requires
        ascending::<T>(views_of(left@)),
        nondesc::<T>(views_of(right@)),
    ensures
        ascending::<T>(views_of(r@)),
        views_of(r@).to_set() == views_of(left@).to_set().union(views_of(right@).to_set()),
{
    let ghost lv = views_of(left@);
    let ghost rv = views_of(right@);
    let mut out: Vec<T> = Vec::new();
    let mut i: usize = 0;
    let mut j: usize = 0;
    proof {
        assert(views_of(out@).to_set() =~= lv.take(0).to_set().union(rv.take(0).to_set()));
    }
    while i < left.len() || j < right.len()
        invariant
            i <= lv.len(),
            j <= rv.len(),
            ascending::<T>(views_of(out@)),
            views_of(out@).to_set() == lv.take(i as int).to_set().union(rv.take(j as int).to_set()),
            out@.len() > 0 && i < lv.len() ==> T::lt(views_of(out@).last(), lv[i as int]),
            out@.len() > 0 && j < rv.len() ==> !T::lt(rv[j as int], views_of(out@).last()),
            ascending::<T>(lv),
            nondesc::<T>(rv),
            lv == views_of(left@),
            rv == views_of(right@),
        decreases lv.len() - i + rv.len() - j,
    {
        let emit_left: bool = if j == right.len() {
            true
        } else if i == left.len() {
            false
        } else {
            match left[i].cmp_with(&right[j]) {
                Cmp::Less => true,
                Cmp::Greater => false,
                Cmp::Equal => {
                    proof {
                        if i + 1 < lv.len() {
                            assert(T::lt(lv[i as int], lv[i + 1]));
                        }
                        assert(lv.take(i + 1).to_set() =~= lv.take(i as int).to_set().insert(
                            lv[i as int],
                        ));
                    }
                    i = i + 1;
                    false
                },
            }
        };
        if emit_left {
            let t = left[i].duplicate();
            push_keep_last(&mut out, t);
            proof {
                assert(views_of(out@).to_set() =~= lv.take(i + 1).to_set().union(
                    rv.take(j as int).to_set(),
                ));
            }
            i = i + 1;
        } else {
            let t = right[j].duplicate();
            push_keep_last(&mut out, t);
            proof {
                assert(views_of(out@).to_set() =~= lv.take(i as int).to_set().union(
                    rv.take(j + 1).to_set(),
                ));
            }
            j = j + 1;
        }
    }
    proof {
        assert(lv.take(lv.len() as int) =~= lv);
        assert(rv.take(rv.len() as int) =~= rv);
    }
    out
}

} // verus!
