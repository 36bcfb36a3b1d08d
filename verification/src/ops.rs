//! The binary set operations, produced lazily by one shared two-way
//! merge scan over two ascending sequences.
//!
//! The scan walks both inputs in lockstep and classifies each abstract
//! value as left-only, right-only, or common; an emit policy then says
//! which classes an operation keeps.  Difference, symmetric difference,
//! intersection and union are the four instances of that single scan.

use vstd::prelude::*;

use crate::order::Cmp;
use crate::order::TotalOrder;
use crate::order::lt_chain;
use crate::order::lt_facts;
use crate::set::SortedVectorSet;
use crate::sorted::ascending;
use crate::sorted::lemma_views_index;
use crate::sorted::lemma_views_len;
use crate::sorted::views_of;

verus! {

broadcast use lt_facts, lt_chain, lemma_views_index, lemma_views_len,
    crate::sorted::lemma_take_push;

/// The shared merge scan over two ascending sequences of abstract
/// values.  The policy flags say what is emitted: values found only on
/// the left (`pl`), only on the right (`pr`), or on both sides (`pb`).
pub open spec fn scan_seq<T: TotalOrder>(
    a: Seq<T::V>,
    b: Seq<T::V>,
    pl: bool,
    pr: bool,
    pb: bool,
) -> Seq<T::V>
    decreases a.len() + b.len(),
{
    if a.len() == 0 {
        if pr {
            b
        } else {
            Seq::empty()
        }
    } else if b.len() == 0 {
        if pl {
            a
        } else {
            Seq::empty()
        }
    } else if T::lt(a[0], b[0]) {
        if pl {
            seq![a[0]] + scan_seq::<T>(a.drop_first(), b, pl, pr, pb)
        } else {
            scan_seq::<T>(a.drop_first(), b, pl, pr, pb)
        }
    } else if T::lt(b[0], a[0]) {
        if pr {
            seq![b[0]] + scan_seq::<T>(a, b.drop_first(), pl, pr, pb)
        } else {
            scan_seq::<T>(a, b.drop_first(), pl, pr, pb)
        }
    } else {
        if pb {
            seq![b[0]] + scan_seq::<T>(a.drop_first(), b.drop_first(), pl, pr, pb)
        } else {
            scan_seq::<T>(a.drop_first(), b.drop_first(), pl, pr, pb)
        }
    }
}

/// The elements of `self` that are not in `other`.
pub open spec fn diff_seq<T: TotalOrder>(a: Seq<T::V>, b: Seq<T::V>) -> Seq<T::V> {
    scan_seq::<T>(a, b, true, false, false)
}

/// The elements of `self` or `other` but not both.
pub open spec fn sym_diff_seq<T: TotalOrder>(a: Seq<T::V>, b: Seq<T::V>) -> Seq<T::V> {
    scan_seq::<T>(a, b, true, true, false)
}

/// The elements common to `self` and `other`.
pub open spec fn inter_seq<T: TotalOrder>(a: Seq<T::V>, b: Seq<T::V>) -> Seq<T::V> {
    scan_seq::<T>(a, b, false, false, true)
}

/// The elements of `self`, `other`, or both.
pub open spec fn union_seq<T: TotalOrder>(a: Seq<T::V>, b: Seq<T::V>) -> Seq<T::V> {
    scan_seq::<T>(a, b, true, true, true)
}

/// What one merge scan over two ascending inputs produces: an ascending
/// sequence holding exactly the values the policy keeps.
pub proof fn lemma_scan_char<T: TotalOrder>(
    a: Seq<T::V>,
    b: Seq<T::V>,
    pl: bool,
    pr: bool,
    pb: bool,
)
    requires
        ascending::<T>(a),
        ascending::<T>(b),
    ensures
        ascending::<T>(scan_seq::<T>(a, b, pl, pr, pb)),
        forall|v: T::V|
            #[trigger] scan_seq::<T>(a, b, pl, pr, pb).to_set().contains(v) <==> ((pl
                && a.to_set().contains(v) && !b.to_set().contains(v)) || (pr && !a.to_set().contains(
                v,
            ) && b.to_set().contains(v)) || (pb && a.to_set().contains(v) && b.to_set().contains(
                v,
            ))),
    decreases a.len() + b.len(),
{
    let s = scan_seq::<T>(a, b, pl, pr, pb);
    if a.len() == 0 {
        assert(a.to_set() =~= Set::<T::V>::empty());
        if !pr {
            assert(Seq::<T::V>::empty().to_set() =~= Set::<T::V>::empty());
        }
    } else if b.len() == 0 {
        assert(b.to_set() =~= Set::<T::V>::empty());
        if !pl {
            assert(Seq::<T::V>::empty().to_set() =~= Set::<T::V>::empty());
        }
    } else {
        let a1 = a.drop_first();
        let b1 = b.drop_first();
        assert(forall|i: int| 0 <= i < a1.len() ==> a1[i] == a[i + 1]);
        assert(forall|i: int| 0 <= i < b1.len() ==> b1[i] == b[i + 1]);
        crate::sorted::lemma_ascending_drop_first_set::<T>(a);
        crate::sorted::lemma_ascending_drop_first_set::<T>(b);
        if T::lt(a[0], b[0]) {
            lemma_scan_char::<T>(a1, b, pl, pr, pb);
            let rest = scan_seq::<T>(a1, b, pl, pr, pb);
            // a[0] is below everything in either tail set, so it is fresh.
            assert(!b.to_set().contains(a[0]));
            if pl {
                assert(s =~= seq![a[0]] + rest);
                lemma_prepend_below::<T>(a[0], rest, a1.to_set().union(b.to_set()));
                assert(s.to_set() =~= rest.to_set().insert(a[0]));
            }
            assert(a.to_set() =~= a1.to_set().insert(a[0]));
        } else if T::lt(b[0], a[0]) {
            lemma_scan_char::<T>(a, b1, pl, pr, pb);
            let rest = scan_seq::<T>(a, b1, pl, pr, pb);
            assert(!a.to_set().contains(b[0]));
            if pr {
                assert(s =~= seq![b[0]] + rest);
                lemma_prepend_below::<T>(b[0], rest, a.to_set().union(b1.to_set()));
                assert(s.to_set() =~= rest.to_set().insert(b[0]));
            }
            assert(b.to_set() =~= b1.to_set().insert(b[0]));
        } else {
            lemma_scan_char::<T>(a1, b1, pl, pr, pb);
            let rest = scan_seq::<T>(a1, b1, pl, pr, pb);
            if pb {
                assert(s =~= seq![b[0]] + rest);
                lemma_prepend_below::<T>(b[0], rest, a1.to_set().union(b1.to_set()));
                assert(s.to_set() =~= rest.to_set().insert(b[0]));
            }
            assert(a.to_set() =~= a1.to_set().insert(a[0]));
            assert(b.to_set() =~= b1.to_set().insert(b[0]));
        }
    }
}

/// Putting a value below an ascending sequence whose elements all come
/// from a set of strictly larger values keeps the sequence ascending
/// and prepends the value to the element set.
proof fn lemma_prepend_below<T: TotalOrder>(x: T::V, rest: Seq<T::V>, above: Set<T::V>)
    requires
        ascending::<T>(rest),
        rest.to_set().subset_of(above),
        forall|v: T::V| #[trigger] above.contains(v) ==> T::lt(x, v),
    ensures
        ascending::<T>(seq![x] + rest),
        (seq![x] + rest).to_set() == rest.to_set().insert(x),
{
    let s = seq![x] + rest;
    assert forall|p: int, q: int| 0 <= p < q < s.len() implies T::lt(s[p], s[q]) by {
        if p == 0 {
            assert(rest.to_set().contains(rest[q - 1]));
            assert(s[q] == rest[q - 1]);
        } else {
            assert(s[p] == rest[p - 1] && s[q] == rest[q - 1]);
            assert(T::lt(rest[p - 1], rest[q - 1]));
        }
    }
    assert forall|v: T::V| #[trigger] s.to_set().contains(v) implies rest.to_set().insert(
        x,
    ).contains(v) by {
        let k = choose|k: int| 0 <= k < s.len() && s[k] == v;
        if k > 0 {
            assert(rest[k - 1] == v);
        }
    }
    assert forall|v: T::V| #[trigger] rest.to_set().insert(x).contains(v) implies s.to_set(
    ).contains(v) by {
        if v == x {
            assert(s[0] == v);
        } else {
            let k = choose|k: int| 0 <= k < rest.len() && rest[k] == v;
            assert(s[k + 1] == v);
        }
    }
    assert(s.to_set() =~= rest.to_set().insert(x));
}

/// Length bounds of the merge scan, from which every size hint follows.
pub proof fn lemma_scan_len<T: TotalOrder>(
    a: Seq<T::V>,
    b: Seq<T::V>,
    pl: bool,
    pr: bool,
    pb: bool,
)
    ensures
        scan_seq::<T>(a, b, pl, pr, pb).len() <= a.len() + b.len(),
        !pr ==> scan_seq::<T>(a, b, pl, pr, pb).len() <= a.len(),
        !pl ==> scan_seq::<T>(a, b, pl, pr, pb).len() <= b.len(),
        pl ==> scan_seq::<T>(a, b, pl, pr, pb).len() >= a.len() - b.len(),
        pr ==> scan_seq::<T>(a, b, pl, pr, pb).len() >= b.len() - a.len(),
        pl && pb ==> scan_seq::<T>(a, b, pl, pr, pb).len() >= a.len(),
        pr && pb ==> scan_seq::<T>(a, b, pl, pr, pb).len() >= b.len(),
    decreases a.len() + b.len(),
{
    if a.len() == 0 || b.len() == 0 {
    } else if T::lt(a[0], b[0]) {
        lemma_scan_len::<T>(a.drop_first(), b, pl, pr, pb);
    } else if T::lt(b[0], a[0]) {
        lemma_scan_len::<T>(a, b.drop_first(), pl, pr, pb);
    } else {
        lemma_scan_len::<T>(a.drop_first(), b.drop_first(), pl, pr, pb);
    }
}

/// The shared lazy cursor pair: one position per input slice, advanced
/// in lockstep by comparison outcome, plus the emit policy and a ghost
/// count of the values emitted so far.
struct MergeScan<'a, T: TotalOrder> {
    left: &'a [T],
    right: &'a [T],
    i: usize,
    j: usize,
    pl: bool,
    pr: bool,
    pb: bool,
    emitted: Ghost<int>,
}

impl<'a, T: TotalOrder> MergeScan<'a, T> {
    /// The abstract values of the left input.
    pub closed spec fn lefts(self) -> Seq<T::V> {
        views_of(self.left@)
    }

    /// The abstract values of the right input.
    pub closed spec fn rights(self) -> Seq<T::V> {
        views_of(self.right@)
    }

    /// The full sequence this scan will have produced when exhausted.
    pub closed spec fn total(self) -> Seq<T::V> {
        scan_seq::<T>(self.lefts(), self.rights(), self.pl, self.pr, self.pb)
    }

    /// How many values have been produced so far.
    pub closed spec fn emitted(self) -> int {
        self.emitted@
    }

    /// What is still to come from the current cursor positions.
    closed spec fn remaining(self) -> Seq<T::V> {
        scan_seq::<T>(
            self.lefts().skip(self.i as int),
            self.rights().skip(self.j as int),
            self.pl,
            self.pr,
            self.pb,
        )
    }

    /// The cursor pair is consistent: the inputs ascend, the positions
    /// are in bounds, and what was emitted followed by what remains is
    /// the whole scan.
    pub closed spec fn wf(self) -> bool {
        &&& self.i <= self.left@.len()
        &&& self.j <= self.right@.len()
        &&& ascending::<T>(self.lefts())
        &&& ascending::<T>(self.rights())
        &&& 0 <= self.emitted@ <= self.total().len()
        &&& self.total() == self.total().take(self.emitted@) + self.remaining()
    }

    /// The two input streams and the policy of `other` are the same.
    pub closed spec fn same_streams(self, other: Self) -> bool {
        &&& self.left == other.left
        &&& self.right == other.right
        &&& self.pl == other.pl
        &&& self.pr == other.pr
        &&& self.pb == other.pb
    }

    fn new(left: &'a [T], right: &'a [T], pl: bool, pr: bool, pb: bool) -> (r: MergeScan<'a, T>)
        requires
            ascending::<T>(views_of(left@)),
            ascending::<T>(views_of(right@)),
        ensures
            r.wf(),
            r.emitted() == 0,
            r.lefts() == views_of(left@),
            r.rights() == views_of(right@),
            r.total() == scan_seq::<T>(views_of(left@), views_of(right@), pl, pr, pb),
            r.pl == pl,
            r.pr == pr,
            r.pb == pb,
    {
        let r = MergeScan { left, right, i: 0, j: 0, pl, pr, pb, emitted: Ghost(0) };
        proof {
            assert(r.lefts().skip(0) =~= r.lefts());
            assert(r.rights().skip(0) =~= r.rights());
            assert(r.total() =~= r.total().take(0) + r.remaining());
        }
        r
    }

    /// Produces the next value of the scan, or `None` once it is
    /// exhausted.
    fn next(&mut self) -> (r: Option<&'a T>)
        requires
            old(self).wf(),
        ensures
            final(self).wf(),
            final(self).same_streams(*old(self)),
            match r {
                Some(t) => {
                    &&& old(self).emitted() < old(self).total().len()
                    &&& t@ == old(self).total()[old(self).emitted()]
                    &&& final(self).emitted() == old(self).emitted() + 1
                },
                None => {
                    &&& old(self).emitted() == old(self).total().len()
                    &&& final(self).emitted() == old(self).emitted()
                },
            },
    {
        let ghost em = self.emitted@;
        let ghost total = self.total();
        loop
            invariant
                self.wf(),
                self.same_streams(*old(self)),
                self.emitted@ == em,
                self.total() == total,
                em == old(self).emitted(),
                total == old(self).total(),
            decreases self.left@.len() - self.i + self.right@.len() - self.j,
        {
            let ghost lv = self.lefts();
            let ghost rv = self.rights();
            let ghost i0 = self.i as int;
            let ghost j0 = self.j as int;
            let ghost rem = self.remaining();
            if self.i == self.left.len() && self.j == self.right.len() {
                proof {
                    assert(lv.skip(i0) =~= Seq::<T::V>::empty());
                    assert(rv.skip(j0) =~= Seq::<T::V>::empty());
                    assert(rem =~= Seq::<T::V>::empty());
                    assert(total =~= total.take(em));
                    assert(total.take(em).len() == em);
                    assert(em == total.len());
                }
                return None;
            }
            if self.j == self.right.len() {
                // Only the left input remains.
                proof {
                    assert(rv.skip(j0) =~= Seq::<T::V>::empty());
                    assert(lv.skip(i0).len() > 0);
                }
                if self.pl {
                    let t = &self.left[self.i];
                    proof {
                        assert(rem == lv.skip(i0));
                        assert(rem[0] == lv[i0]);
                        assert(lv.skip(i0).drop_first() =~= lv.skip(i0 + 1));
                        if lv.skip(i0 + 1).len() == 0 {
                            assert(scan_seq::<T>(
                                lv.skip(i0 + 1),
                                rv.skip(j0),
                                self.pl,
                                self.pr,
                                self.pb,
                            ) =~= lv.skip(i0 + 1));
                        }
                        assert(rem.drop_first() == scan_seq::<T>(
                            lv.skip(i0 + 1),
                            rv.skip(j0),
                            self.pl,
                            self.pr,
                            self.pb,
                        ));
                        self.advance_left_emit(em, total, rem);
                    }
                    self.i = self.i + 1;
                    proof {
                        self.emitted = Ghost(em + 1);
                    }
                    return Some(t);
                } else {
                    proof {
                        assert(rem =~= Seq::<T::V>::empty());
                        assert(total =~= total.take(em));
                        assert(total.take(em).len() == em);
                        assert(em == total.len());
                    }
                    return None;
                }
            }
            if self.i == self.left.len() {
                // Only the right input remains.
                proof {
                    assert(lv.skip(i0) =~= Seq::<T::V>::empty());
                    assert(rv.skip(j0).len() > 0);
                }
                if self.pr {
                    let t = &self.right[self.j];
                    proof {
                        assert(rem == rv.skip(j0));
                        assert(rem[0] == rv[j0]);
                        assert(rv.skip(j0).drop_first() =~= rv.skip(j0 + 1));
                        if rv.skip(j0 + 1).len() == 0 {
                            assert(scan_seq::<T>(
                                lv.skip(i0),
                                rv.skip(j0 + 1),
                                self.pl,
                                self.pr,
                                self.pb,
                            ) =~= rv.skip(j0 + 1));
                        }
                        assert(rem.drop_first() == scan_seq::<T>(
                            lv.skip(i0),
                            rv.skip(j0 + 1),
                            self.pl,
                            self.pr,
                            self.pb,
                        ));
                        self.advance_right_emit(em, total, rem);
                    }
                    self.j = self.j + 1;
                    proof {
                        self.emitted = Ghost(em + 1);
                    }
                    return Some(t);
                } else {
                    proof {
                        assert(rem =~= Seq::<T::V>::empty());
                        assert(total =~= total.take(em));
                        assert(total.take(em).len() == em);
                        assert(em == total.len());
                    }
                    return None;
                }
            }
            // Both inputs still have values: compare their heads.
            let c = self.left[self.i].cmp_with(&self.right[self.j]);
            proof {
                assert(lv.skip(i0)[0] == lv[i0]);
                assert(rv.skip(j0)[0] == rv[j0]);
                assert(lv.skip(i0).drop_first() =~= lv.skip(i0 + 1));
                assert(rv.skip(j0).drop_first() =~= rv.skip(j0 + 1));
            }
            match c {
                Cmp::Less => {
                    if self.pl {
                        let t = &self.left[self.i];
                        proof {
                            assert(rem == seq![lv[i0]] + scan_seq::<T>(
                                lv.skip(i0 + 1),
                                rv.skip(j0),
                                self.pl,
                                self.pr,
                                self.pb,
                            ));
                            assert(rem.drop_first() =~= scan_seq::<T>(
                                lv.skip(i0 + 1),
                                rv.skip(j0),
                                self.pl,
                                self.pr,
                                self.pb,
                            ));
                            self.advance_left_emit(em, total, rem);
                        }
                        self.i = self.i + 1;
                        proof {
                            self.emitted = Ghost(em + 1);
                        }
                        return Some(t);
                    } else {
                        self.i = self.i + 1;
                        proof {
                            assert(self.remaining() == rem);
                        }
                    }
                },
                Cmp::Greater => {
                    if self.pr {
                        let t = &self.right[self.j];
                        proof {
                            assert(rem == seq![rv[j0]] + scan_seq::<T>(
                                lv.skip(i0),
                                rv.skip(j0 + 1),
                                self.pl,
                                self.pr,
                                self.pb,
                            ));
                            assert(rem.drop_first() =~= scan_seq::<T>(
                                lv.skip(i0),
                                rv.skip(j0 + 1),
                                self.pl,
                                self.pr,
                                self.pb,
                            ));
                            self.advance_right_emit(em, total, rem);
                        }
                        self.j = self.j + 1;
                        proof {
                            self.emitted = Ghost(em + 1);
                        }
                        return Some(t);
                    } else {
                        self.j = self.j + 1;
                        proof {
                            assert(self.remaining() == rem);
                        }
                    }
                },
                Cmp::Equal => {
                    if self.pb {
                        let t = &self.right[self.j];
                        proof {
                            assert(rem == seq![rv[j0]] + scan_seq::<T>(
                                lv.skip(i0 + 1),
                                rv.skip(j0 + 1),
                                self.pl,
                                self.pr,
                                self.pb,
                            ));
                            assert(total[em] == rv[j0]);
                            assert(total.take(em + 1) =~= total.take(em).push(rv[j0]));
                            assert(total =~= total.take(em + 1) + scan_seq::<T>(
                                lv.skip(i0 + 1),
                                rv.skip(j0 + 1),
                                self.pl,
                                self.pr,
                                self.pb,
                            ));
                        }
                        self.i = self.i + 1;
                        self.j = self.j + 1;
                        proof {
                            self.emitted = Ghost(em + 1);
                        }
                        return Some(t);
                    } else {
                        self.i = self.i + 1;
                        self.j = self.j + 1;
                        proof {
                            assert(self.remaining() == rem);
                        }
                    }
                },
            }
        }
    }

    /// After emitting the head of the remainder, the ledger still adds
    /// up: one more taken, the tail still to come.
    proof fn advance_left_emit(&self, em: int, total: Seq<T::V>, rem: Seq<T::V>)
        requires
            self.wf(),
            em == self.emitted@,
            total == self.total(),
            rem == self.remaining(),
            rem.len() > 0,
            self.i < self.left@.len(),
            rem[0] == self.lefts()[self.i as int],
            rem.drop_first() == scan_seq::<T>(
                self.lefts().skip(self.i + 1),
                self.rights().skip(self.j as int),
                self.pl,
                self.pr,
                self.pb,
            ),
        ensures
            em < total.len(),
            total[em] == self.lefts()[self.i as int],
            total.take(em + 1) == total.take(em).push(total[em]),
            total == total.take(em + 1) + scan_seq::<T>(
                self.lefts().skip(self.i + 1),
                self.rights().skip(self.j as int),
                self.pl,
                self.pr,
                self.pb,
            ),
    {
        assert(total[em] == rem[0]);
        assert(total.take(em + 1) =~= total.take(em).push(total[em]));
        assert(total =~= total.take(em + 1) + rem.drop_first());
    }

    /// Mirror of [`Self::advance_left_emit`] for the right input.
    proof fn advance_right_emit(&self, em: int, total: Seq<T::V>, rem: Seq<T::V>)
        requires
            self.wf(),
            em == self.emitted@,
            total == self.total(),
            rem == self.remaining(),
            rem.len() > 0,
            self.j < self.right@.len(),
            rem[0] == self.rights()[self.j as int],
            rem.drop_first() == scan_seq::<T>(
                self.lefts().skip(self.i as int),
                self.rights().skip(self.j + 1),
                self.pl,
                self.pr,
                self.pb,
            ),
        ensures
            em < total.len(),
            total[em] == self.rights()[self.j as int],
            total.take(em + 1) == total.take(em).push(total[em]),
            total == total.take(em + 1) + scan_seq::<T>(
                self.lefts().skip(self.i as int),
                self.rights().skip(self.j + 1),
                self.pl,
                self.pr,
                self.pb,
            ),
    {
        assert(total[em] == rem[0]);
        assert(total.take(em + 1) =~= total.take(em).push(total[em]));
        assert(total =~= total.take(em + 1) + rem.drop_first());
    }

    /// An advisory estimate of how many values remain: the lower bound
    /// never overstates, the upper bound never understates.
    fn size_hint(&self) -> (r: (usize, Option<usize>))
        requires
            self.wf(),
        ensures
            r.0 <= self.total().len() - self.emitted(),
            match r.1 {
                Some(h) => self.total().len() - self.emitted() <= h,
                None => true,
            },
    {
        let l_rem = self.left.len() - self.i;
        let r_rem = self.right.len() - self.j;
        proof {
            lemma_scan_len::<T>(
                self.lefts().skip(self.i as int),
                self.rights().skip(self.j as int),
                self.pl,
                self.pr,
                self.pb,
            );
        }
        let mut low: usize = 0;
        if self.pl {
            if self.pb {
                low = l_rem;
            } else if l_rem > r_rem {
                low = l_rem - r_rem;
            }
        }
        if self.pr {
            let lb = if self.pb {
                r_rem
            } else if r_rem > l_rem {
                r_rem - l_rem
            } else {
                0
            };
            if lb > low {
                low = lb;
            }
        }
        let high: Option<usize> = if !self.pr && !self.pl {
            Some(if l_rem < r_rem {
                l_rem
            } else {
                r_rem
            })
        } else if !self.pr {
            Some(l_rem)
        } else if !self.pl {
            Some(r_rem)
        } else if l_rem <= usize::MAX - r_rem {
            Some(l_rem + r_rem)
        } else {
            None
        };
        (low, high)
    }
}

/// Lazily yields the elements of the left set that are not in the right
/// set, in ascending order.
pub struct Difference<'a, T: TotalOrder>(MergeScan<'a, T>);

/// Lazily yields the elements in exactly one of the two sets, in
/// ascending order.
pub struct SymmetricDifference<'a, T: TotalOrder>(MergeScan<'a, T>);

/// Lazily yields the elements common to both sets, in ascending order.
pub struct Intersection<'a, T: TotalOrder>(MergeScan<'a, T>);

/// Lazily yields the elements of either set, in ascending order; on a
/// common value the right set's element is produced.
pub struct Union<'a, T: TotalOrder>(MergeScan<'a, T>);

impl<'a, T: TotalOrder> Difference<'a, T> {
    /// The full sequence of values this cursor yields over its lifetime.
    pub closed spec fn total(self) -> Seq<T::V> {
        self.0.total()
    }

    /// How many values have been yielded so far.
    pub closed spec fn emitted(self) -> int {
        self.0.emitted()
    }

    /// The cursor is consistent with its two source sets.
    pub closed spec fn wf(self) -> bool {
        self.0.wf() && self.0.pl && !self.0.pr && !self.0.pb
    }

    /// Yields the next element, or `None` once the scan is exhausted.
    pub fn next(&mut self) -> (r: Option<&'a T>)
        requires
            old(self).wf(),
        ensures
            final(self).wf(),
            final(self).total() == old(self).total(),
            match r {
                Some(t) => {
                    &&& old(self).emitted() < old(self).total().len()
                    &&& t@ == old(self).total()[old(self).emitted()]
                    &&& final(self).emitted() == old(self).emitted() + 1
                },
                None => {
                    &&& old(self).emitted() == old(self).total().len()
                    &&& final(self).emitted() == old(self).emitted()
                },
            },
    {
        self.0.next()
    }

    /// An advisory estimate of how many elements remain: the lower bound
    /// never overstates it, the upper bound never understates it.
    pub fn size_hint(&self) -> (r: (usize, Option<usize>))
        requires
            self.wf(),
        ensures
            r.0 <= self.total().len() - self.emitted(),
            match r.1 {
                Some(h) => self.total().len() - self.emitted() <= h,
                None => true,
            },
    {
        self.0.size_hint()
    }
}

impl<'a, T: TotalOrder> SymmetricDifference<'a, T> {
    /// The full sequence of values this cursor yields over its lifetime.
    pub closed spec fn total(self) -> Seq<T::V> {
        self.0.total()
    }

    /// How many values have been yielded so far.
    pub closed spec fn emitted(self) -> int {
        self.0.emitted()
    }

    /// The cursor is consistent with its two source sets.
    pub closed spec fn wf(self) -> bool {
        self.0.wf() && self.0.pl && self.0.pr && !self.0.pb
    }

    /// Yields the next element, or `None` once the scan is exhausted.
    pub fn next(&mut self) -> (r: Option<&'a T>)
        requires
            old(self).wf(),
        ensures
            final(self).wf(),
            final(self).total() == old(self).total(),
            match r {
                Some(t) => {
                    &&& old(self).emitted() < old(self).total().len()
                    &&& t@ == old(self).total()[old(self).emitted()]
                    &&& final(self).emitted() == old(self).emitted() + 1
                },
                None => {
                    &&& old(self).emitted() == old(self).total().len()
                    &&& final(self).emitted() == old(self).emitted()
                },
            },
    {
        self.0.next()
    }

    /// An advisory estimate of how many elements remain: the lower bound
    /// never overstates it, the upper bound never understates it.
    pub fn size_hint(&self) -> (r: (usize, Option<usize>))
        requires
            self.wf(),
        ensures
            r.0 <= self.total().len() - self.emitted(),
            match r.1 {
                Some(h) => self.total().len() - self.emitted() <= h,
                None => true,
            },
    {
        self.0.size_hint()
    }
}

impl<'a, T: TotalOrder> Intersection<'a, T> {
    /// The full sequence of values this cursor yields over its lifetime.
    pub closed spec fn total(self) -> Seq<T::V> {
        self.0.total()
    }

    /// How many values have been yielded so far.
    pub closed spec fn emitted(self) -> int {
        self.0.emitted()
    }

    /// The cursor is consistent with its two source sets.
    pub closed spec fn wf(self) -> bool {
        self.0.wf() && !self.0.pl && !self.0.pr && self.0.pb
    }

    /// Yields the next element, or `None` once the scan is exhausted.
    pub fn next(&mut self) -> (r: Option<&'a T>)
        requires
            old(self).wf(),
        ensures
            final(self).wf(),
            final(self).total() == old(self).total(),
            match r {
                Some(t) => {
                    &&& old(self).emitted() < old(self).total().len()
                    &&& t@ == old(self).total()[old(self).emitted()]
                    &&& final(self).emitted() == old(self).emitted() + 1
                },
                None => {
                    &&& old(self).emitted() == old(self).total().len()
                    &&& final(self).emitted() == old(self).emitted()
                },
            },
    {
        self.0.next()
    }

    /// An advisory estimate of how many elements remain: the lower bound
    /// never overstates it, the upper bound never understates it.
    pub fn size_hint(&self) -> (r: (usize, Option<usize>))
        requires
            self.wf(),
        ensures
            r.0 <= self.total().len() - self.emitted(),
            match r.1 {
                Some(h) => self.total().len() - self.emitted() <= h,
                None => true,
            },
    {
        self.0.size_hint()
    }
}

impl<'a, T: TotalOrder> Union<'a, T> {
    /// The full sequence of values this cursor yields over its lifetime.
    pub closed spec fn total(self) -> Seq<T::V> {
        self.0.total()
    }

    /// How many values have been yielded so far.
    pub closed spec fn emitted(self) -> int {
        self.0.emitted()
    }

    /// The cursor is consistent with its two source sets.
    pub closed spec fn wf(self) -> bool {
        self.0.wf() && self.0.pl && self.0.pr && self.0.pb
    }

    /// Yields the next element, or `None` once the scan is exhausted.
    pub fn next(&mut self) -> (r: Option<&'a T>)
        requires
            old(self).wf(),
        ensures
            final(self).wf(),
            final(self).total() == old(self).total(),
            match r {
                Some(t) => {
                    &&& old(self).emitted() < old(self).total().len()
                    &&& t@ == old(self).total()[old(self).emitted()]
                    &&& final(self).emitted() == old(self).emitted() + 1
                },
                None => {
                    &&& old(self).emitted() == old(self).total().len()
                    &&& final(self).emitted() == old(self).emitted()
                },
            },
    {
        self.0.next()
    }

    /// An advisory estimate of how many elements remain: the lower bound
    /// never overstates it, the upper bound never understates it.
    pub fn size_hint(&self) -> (r: (usize, Option<usize>))
        requires
            self.wf(),
        ensures
            r.0 <= self.total().len() - self.emitted(),
            match r.1 {
                Some(h) => self.total().len() - self.emitted() <= h,
                None => true,
            },
    {
        self.0.size_hint()
    }
}

impl<T: TotalOrder> SortedVectorSet<T> {
    /// Returns a lazy cursor over the elements of `self` that are not
    /// in `other`.
    pub fn difference<'a>(&'a self, other: &'a SortedVectorSet<T>) -> (r: Difference<'a, T>)
        requires
            self.wf(),
            other.wf(),
        ensures
            r.wf(),
            r.emitted() == 0,
            r.total() == diff_seq::<T>(self@, other@),
            ascending::<T>(r.total()),
            r.total().to_set() == self@.to_set().difference(other@.to_set()),
    {
        let l = self.as_slice();
        let rt = other.as_slice();
        proof {
            lemma_scan_char::<T>(self@, other@, true, false, false);
            assert(diff_seq::<T>(self@, other@).to_set() =~= self@.to_set().difference(
                other@.to_set(),
            ));
        }
        Difference(MergeScan::new(l, rt, true, false, false))
    }

    /// Returns a lazy cursor over the elements in exactly one of `self`
    /// and `other`.
    pub fn symmetric_difference<'a>(&'a self, other: &'a SortedVectorSet<T>) -> (r:
        SymmetricDifference<'a, T>)
        requires
            self.wf(),
            other.wf(),
        ensures
            r.wf(),
            r.emitted() == 0,
            r.total() == sym_diff_seq::<T>(self@, other@),
            ascending::<T>(r.total()),
            r.total().to_set() == self@.to_set().difference(other@.to_set()).union(
                other@.to_set().difference(self@.to_set()),
            ),
    {
        let l = self.as_slice();
        let rt = other.as_slice();
        proof {
            lemma_scan_char::<T>(self@, other@, true, true, false);
            assert(sym_diff_seq::<T>(self@, other@).to_set() =~= self@.to_set().difference(
                other@.to_set(),
            ).union(other@.to_set().difference(self@.to_set())));
        }
        SymmetricDifference(MergeScan::new(l, rt, true, true, false))
    }

    /// Returns a lazy cursor over the elements common to `self` and
    /// `other`.
    pub fn intersection<'a>(&'a self, other: &'a SortedVectorSet<T>) -> (r: Intersection<'a, T>)
        requires
            self.wf(),
            other.wf(),
        ensures
            r.wf(),
            r.emitted() == 0,
            r.total() == inter_seq::<T>(self@, other@),
            ascending::<T>(r.total()),
            r.total().to_set() == self@.to_set().intersect(other@.to_set()),
    {
        let l = self.as_slice();
        let rt = other.as_slice();
        proof {
            lemma_scan_char::<T>(self@, other@, false, false, true);
            assert(inter_seq::<T>(self@, other@).to_set() =~= self@.to_set().intersect(
                other@.to_set(),
            ));
        }
        Intersection(MergeScan::new(l, rt, false, false, true))
    }

    /// Returns a lazy cursor over the elements of `self`, `other`, or
    /// both.
    pub fn union<'a>(&'a self, other: &'a SortedVectorSet<T>) -> (r: Union<'a, T>)
        requires
            self.wf(),
            other.wf(),
        ensures
            r.wf(),
            r.emitted() == 0,
            r.total() == union_seq::<T>(self@, other@),
            ascending::<T>(r.total()),
            r.total().to_set() == self@.to_set().union(other@.to_set()),
    {
        let l = self.as_slice();
        let rt = other.as_slice();
        proof {
            lemma_scan_char::<T>(self@, other@, true, true, true);
            assert(union_seq::<T>(self@, other@).to_set() =~= self@.to_set().union(
                other@.to_set(),
            ));
        }
        Union(MergeScan::new(l, rt, true, true, true))
    }

    /// Materializes a whole merge scan into an owned set.
    fn collect_scan(mut scan: MergeScan<'_, T>) -> (r: SortedVectorSet<T>)
        requires
            scan.wf(),
            scan.emitted() == 0,
            ascending::<T>(scan.total()),
        ensures
            r.wf(),
            r@ == scan.total(),
    {
        let ghost total = scan.total();
        let mut out: Vec<T> = Vec::new();
        let mut done = false;
        proof {
            assert(views_of(out@) =~= total.take(0));
        }
        while !done
            invariant
                scan.wf(),
                scan.total() == total,
                ascending::<T>(total),
                views_of(out@) == total.take(scan.emitted()),
                done ==> scan.emitted() == total.len(),
            decreases total.len() - scan.emitted() + (if done {
                0int
            } else {
                1int
            }),
        {
            match scan.next() {
                Some(t) => {
                    out.push(t.duplicate());
                },
                None => {
                    done = true;
                },
            }
        }
        proof {
            assert(total.take(total.len() as int) =~= total);
        }
        SortedVectorSet::from_sorted_vec(out)
    }

    /// Returns a new owned set holding the elements of `self` that are
    /// not in `other`.
    pub fn difference_set(&self, other: &SortedVectorSet<T>) -> (r: SortedVectorSet<T>)
        requires
            self.wf(),
            other.wf(),
        ensures
            r.wf(),
            r@ == diff_seq::<T>(self@, other@),
            r@.to_set() == self@.to_set().difference(other@.to_set()),
    {
        let Difference(scan) = self.difference(other);
        Self::collect_scan(scan)
    }

    /// Returns a new owned set holding the elements in exactly one of
    /// `self` and `other`.
    pub fn symmetric_difference_set(&self, other: &SortedVectorSet<T>) -> (r: SortedVectorSet<T>)
        requires
            self.wf(),
            other.wf(),
        ensures
            r.wf(),
            r@ == sym_diff_seq::<T>(self@, other@),
            r@.to_set() == self@.to_set().difference(other@.to_set()).union(
                other@.to_set().difference(self@.to_set()),
            ),
    {
        let SymmetricDifference(scan) = self.symmetric_difference(other);
        Self::collect_scan(scan)
    }

    /// Returns a new owned set holding the elements common to `self`
    /// and `other`.
    pub fn intersection_set(&self, other: &SortedVectorSet<T>) -> (r: SortedVectorSet<T>)
        requires
            self.wf(),
            other.wf(),
        ensures
            r.wf(),
            r@ == inter_seq::<T>(self@, other@),
            r@.to_set() == self@.to_set().intersect(other@.to_set()),
    {
        let Intersection(scan) = self.intersection(other);
        Self::collect_scan(scan)
    }

    /// Returns a new owned set holding the elements of `self`, `other`,
    /// or both.
    pub fn union_set(&self, other: &SortedVectorSet<T>) -> (r: SortedVectorSet<T>)
        requires
            self.wf(),
            other.wf(),
        ensures
            r.wf(),
            r@ == union_seq::<T>(self@, other@),
            r@.to_set() == self@.to_set().union(other@.to_set()),
    {
        let Union(scan) = self.union(other);
        Self::collect_scan(scan)
    }

    /// Returns `true` if `self` has no elements in common with `other`.
    pub fn is_disjoint(&self, other: &SortedVectorSet<T>) -> (r: bool)
        requires
            self.wf(),
            other.wf(),
        ensures
            r == self@.to_set().disjoint(other@.to_set()),
    {
        let mut it = self.intersection(other);
        let first = it.next();
        proof {
            let total = inter_seq::<T>(self@, other@);
            if total.len() > 0 {
                assert(total.to_set().contains(total[0]));
            } else {
                assert forall|v: T::V| !(self@.to_set().contains(v) && other@.to_set().contains(
                    v,
                )) by {
                    if total.to_set().contains(v) {
                        let k = choose|k: int| 0 <= k < total.len() && total[k] == v;
                    }
                }
            }
        }
        first.is_none()
    }

    /// Returns `true` if `self` is a subset of `other`: every element of
    /// `self` is in `other`.
    pub fn is_subset(&self, other: &SortedVectorSet<T>) -> (r: bool)
        requires
            self.wf(),
            other.wf(),
        ensures
            r == self@.to_set().subset_of(other@.to_set()),
    {
        let mut it = self.difference(other);
        let first = it.next();
        proof {
            let total = diff_seq::<T>(self@, other@);
            if total.len() > 0 {
                assert(total.to_set().contains(total[0]));
            } else {
                assert forall|v: T::V| self@.to_set().contains(v) implies other@.to_set().contains(
                    v,
                ) by {
                    if total.to_set().contains(v) {
                        let k = choose|k: int| 0 <= k < total.len() && total[k] == v;
                    }
                }
            }
        }
        first.is_none()
    }

    /// Returns `true` if `self` is a superset of `other`: every element
    /// of `other` is in `self`.
    pub fn is_superset(&self, other: &SortedVectorSet<T>) -> (r: bool)
        requires
            self.wf(),
            other.wf(),
        ensures
            r == other@.to_set().subset_of(self@.to_set()),
    {
        other.is_subset(self)
    }
}

} // verus!
