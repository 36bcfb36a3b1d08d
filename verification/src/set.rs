//! The sorted-vector set: an ordered, duplicate-free container backed by
//! a single contiguous vector.

use vstd::prelude::*;

use crate::order::Cmp;
use crate::order::TotalOrder;
use crate::order::lt_chain;
use crate::order::lt_facts;
use crate::sorted::ascending;
use crate::sorted::lemma_ascending_insert;
use crate::sorted::lemma_ascending_remove;
use crate::sorted::lemma_push_to_set;
use crate::sorted::lemma_seq_insert_to_set;
use crate::sorted::lemma_take_push;
use crate::sorted::lemma_to_set_contains;
use crate::sorted::lemma_views_index;
use crate::sorted::lemma_views_insert;
use crate::sorted::lemma_views_len;
use crate::sorted::lemma_views_push;
use crate::sorted::lemma_views_remove;
use crate::sorted::lemma_views_subrange;
use crate::sorted::lemma_views_update;
use crate::sorted::views_of;

verus! {

broadcast use lt_facts, lt_chain, lemma_views_index, lemma_views_len, lemma_views_push,
    lemma_views_insert, lemma_views_update, lemma_views_remove, lemma_views_subrange,
    lemma_push_to_set, lemma_take_push, lemma_to_set_contains;

/// One end of a range query: unbounded, or bounded by a key that is
/// itself included or excluded.
pub enum Bound<T> {
    Unbounded,
    Included(T),
    Excluded(T),
}

/// Whether a value lies on or above the lower bound `b`.
pub open spec fn lower_ok<T: TotalOrder>(b: Bound<T>, v: T::V) -> bool {
    match b {
        Bound::Unbounded => true,
        Bound::Included(q) => !T::lt(v, q@),
        Bound::Excluded(q) => T::lt(q@, v),
    }
}

/// Whether a value lies on or below the upper bound `b`.
pub open spec fn upper_ok<T: TotalOrder>(b: Bound<T>, v: T::V) -> bool {
    match b {
        Bound::Unbounded => true,
        Bound::Included(q) => !T::lt(q@, v),
        Bound::Excluded(q) => T::lt(v, q@),
    }
}

/// Whether a value lies between the two bounds.
pub open spec fn in_range<T: TotalOrder>(lo: Bound<T>, hi: Bound<T>, v: T::V) -> bool {
    lower_ok::<T>(lo, v) && upper_ok::<T>(hi, v)
}

/// The index where a range with lower bound `b` starts in the ascending
/// sequence `s`: the length of the initial run of entries below the bound.
pub open spec fn range_start<T: TotalOrder>(s: Seq<T::V>, b: Bound<T>) -> int
    decreases s.len(),
{
    if s.len() == 0 {
        0
    } else if lower_ok::<T>(b, s[0]) {
        0
    } else {
        1 + range_start::<T>(s.drop_first(), b)
    }
}

/// The index one past where a range with upper bound `b` ends in the
/// ascending sequence `s`: the length of the initial run of entries
/// within the bound.
pub open spec fn range_end<T: TotalOrder>(s: Seq<T::V>, b: Bound<T>) -> int
    decreases s.len(),
{
    if s.len() == 0 {
        0
    } else if !upper_ok::<T>(b, s[0]) {
        0
    } else {
        1 + range_end::<T>(s.drop_first(), b)
    }
}

/// In an ascending sequence the entries at or above the lower bound are
/// exactly those from `range_start` on.
pub proof fn lemma_range_start_char<T: TotalOrder>(s: Seq<T::V>, b: Bound<T>)
    requires
        ascending::<T>(s),
    ensures
        0 <= range_start::<T>(s, b) <= s.len(),
        forall|k: int|
            0 <= k < s.len() ==> (lower_ok::<T>(b, #[trigger] s[k]) <==> range_start::<T>(s, b)
                <= k),
    decreases s.len(),
{
    if s.len() > 0 {
        let rest = s.drop_first();
        assert(forall|i: int| 0 <= i < rest.len() ==> rest[i] == s[i + 1]);
        lemma_range_start_char::<T>(rest, b);
        if lower_ok::<T>(b, s[0]) {
            // The bound predicate is upward closed along the order.
            assert forall|k: int| 0 <= k < s.len() implies lower_ok::<T>(b, #[trigger] s[k]) by {
                if k > 0 {
                    assert(T::lt(s[0], s[k]));
                }
            }
        } else {
            assert forall|k: int|
                0 < k < s.len() implies (lower_ok::<T>(b, #[trigger] s[k]) <==> range_start::<T>(
                s,
                b,
            ) <= k) by {
                assert(rest[k - 1] == s[k]);
                assert(lower_ok::<T>(b, rest[k - 1]) <==> range_start::<T>(rest, b) <= k - 1);
            }
        }
    }
}

/// In an ascending sequence the entries within the upper bound are
/// exactly those before `range_end`.
pub proof fn lemma_range_end_char<T: TotalOrder>(s: Seq<T::V>, b: Bound<T>)
    requires
        ascending::<T>(s),
    ensures
        0 <= range_end::<T>(s, b) <= s.len(),
        forall|k: int|
            0 <= k < s.len() ==> (upper_ok::<T>(b, #[trigger] s[k]) <==> k < range_end::<T>(s, b)),
    decreases s.len(),
{
    if s.len() > 0 {
        let rest = s.drop_first();
        assert(forall|i: int| 0 <= i < rest.len() ==> rest[i] == s[i + 1]);
        lemma_range_end_char::<T>(rest, b);
        if !upper_ok::<T>(b, s[0]) {
            // Failing the bound is upward closed along the order.
            assert forall|k: int| 0 <= k < s.len() implies !upper_ok::<T>(b, #[trigger] s[k]) by {
                if k > 0 {
                    assert(T::lt(s[0], s[k]));
                }
            }
        } else {
            assert forall|k: int|
                0 < k < s.len() implies (upper_ok::<T>(b, #[trigger] s[k]) <==> k < range_end::<T>(
                s,
                b,
            )) by {
                assert(rest[k - 1] == s[k]);
                assert(upper_ok::<T>(b, rest[k - 1]) <==> k - 1 < range_end::<T>(rest, b));
            }
        }
    }
}

/// What `retain` did, element by element: `decisions` records the
/// verdict the predicate returned for each original element, and the
/// result keeps exactly the approved ones.
pub open spec fn retain_decided<T: TotalOrder, F: Fn(&T) -> bool>(
    f: F,
    elems: Seq<T>,
    result: Seq<T::V>,
    decisions: Seq<bool>,
) -> bool {
    &&& decisions.len() == elems.len()
    &&& forall|i: int|
        0 <= i < elems.len() ==> ((#[trigger] decisions[i]) ==> f.ensures((&elems[i],), true))
    &&& forall|i: int|
        0 <= i < elems.len() ==> (!(#[trigger] decisions[i]) ==> f.ensures((&elems[i],), false))
    &&& forall|i: int|
        0 <= i < elems.len() ==> (result.contains(views_of(elems)[i]) <==> #[trigger] decisions[i])
}

/// An ordered set of elements, stored as a strictly ascending vector.
///
/// The abstract value of a set is the sequence of its elements' views in
/// storage order; [`SortedVectorSet::wf`] says that this sequence is
/// strictly ascending, which every operation preserves.
#[derive(Clone, Debug)]
pub struct SortedVectorSet<T: TotalOrder> {
    v: Vec<T>,
}

impl<T: TotalOrder> Default for SortedVectorSet<T> {
    /// Creates a new, empty set.
    fn default() -> (r: SortedVectorSet<T>)
        ensures
            r@ == Seq::<T::V>::empty(),
            r.wf(),
    {
        SortedVectorSet::new()
    }
}

impl<T: TotalOrder> PartialEq for SortedVectorSet<T> {
    /// Two sets are equal when they hold the same abstract values in
    /// the same order.
    fn eq(&self, other: &Self) -> (r: bool) {
        if self.v.len() != other.v.len() {
            return false;
        }
        let mut i: usize = 0;
        while i < self.v.len()
            invariant
                self@.len() == other@.len(),
                i <= self@.len(),
                forall|k: int| 0 <= k < i ==> self@[k] == other@[k],
            decreases self@.len() - i,
        {
            let c = self.v[i].cmp_with(&other.v[i]);
            if !matches!(c, Cmp::Equal) {
                proof {
                    assert(self@[i as int] != other@[i as int]);
                }
                return false;
            }
            proof {
                assert(self@[i as int] == other@[i as int]);
            }
            i = i + 1;
        }
        proof {
            assert(self@ =~= other@);
        }
        true
    }
}

impl<T: TotalOrder> vstd::std_specs::cmp::PartialEqSpecImpl for SortedVectorSet<T> {
    open spec fn obeys_eq_spec() -> bool {
        true
    }

    open spec fn eq_spec(&self, other: &Self) -> bool {
        self@ == other@
    }
}

impl<T: TotalOrder> View for SortedVectorSet<T> {
    type V = Seq<T::V>;

    open spec fn view(&self) -> Seq<T::V> {
        views_of(self.elements())
    }
}

impl<T: TotalOrder> SortedVectorSet<T> {
    /// The stored elements themselves, in storage order.
    pub closed spec fn elements(&self) -> Seq<T> {
        self.v@
    }

    /// The ordering invariant: the stored views strictly ascend, so no
    /// element repeats and iteration order is the order of `T`.
    pub open spec fn wf(&self) -> bool {
        ascending::<T>(self@)
    }

    /// Creates a new, empty set.
    pub fn new() -> (r: SortedVectorSet<T>)
        ensures
            r@ == Seq::<T::V>::empty(),
            r.wf(),
    {
        let r = SortedVectorSet { v: Vec::new() };
        proof {
            assert(r@ =~= Seq::<T::V>::empty());
        }
        r
    }

    /// Creates a new, empty set with capacity for `capacity` elements.
    /// The capacity is only a hint; the contents start empty.
    pub fn with_capacity(capacity: usize) -> (r: SortedVectorSet<T>)
        ensures
            r@ == Seq::<T::V>::empty(),
            r.wf(),
    {
        let r = SortedVectorSet { v: Vec::with_capacity(capacity) };
        proof {
            assert(r@ =~= Seq::<T::V>::empty());
        }
        r
    }

    /// Extracts the backing vector, in ascending order.
    pub fn into_inner(self) -> (r: Vec<T>)
        ensures
            views_of(r@) == self@,
    {
        let SortedVectorSet { v } = self;
        v
    }

    /// Builds a set directly from a vector that is already strictly
    /// ascending; the caller carries the ordering obligation.
    pub fn from_sorted_vec(v: Vec<T>) -> (r: SortedVectorSet<T>)
        requires
            ascending::<T>(views_of(v@)),
        ensures
            r@ == views_of(v@),
            r.wf(),
    {
        SortedVectorSet { v }
    }

    /// Borrows the elements as a slice, in ascending order.
    pub fn as_slice(&self) -> (r: &[T])
        ensures
            views_of(r@) == self@,
    {
        self.v.as_slice()
    }

    /// Clears the set, removing all elements.
    pub fn clear(&mut self)
        ensures
            final(self)@ == Seq::<T::V>::empty(),
            final(self).wf(),
    {
        self.v.clear();
        proof {
            assert(self@ =~= Seq::<T::V>::empty());
        }
    }

    /// Returns the number of elements in the set.
    pub fn len(&self) -> (r: usize)
        ensures
            r == self@.len(),
    {
        self.v.len()
    }

    /// Returns `true` if the set is empty.
    pub fn is_empty(&self) -> (r: bool)
        ensures
            r == (self@.len() == 0),
    {
        self.v.is_empty()
    }

    /// Returns a reference to the least element, if any.
    pub fn first(&self) -> (r: Option<&T>)
        ensures
            match r {
                Some(t) => self@.len() > 0 && t@ == self@[0],
                None => self@.len() == 0,
            },
    {
        self.v.first()
    }

    /// Returns a reference to the greatest element, if any.
    pub fn last(&self) -> (r: Option<&T>)
        ensures
            match r {
                Some(t) => self@.len() > 0 && t@ == self@.last(),
                None => self@.len() == 0,
            },
    {
        self.v.last()
    }

    /// Removes and returns the greatest element, if any.
    ///
    /// There is deliberately no `pop_first` counterpart: removing the
    /// least element of a vector would shift everything that follows.
    pub fn pop_last(&mut self) -> (r: Option<T>)
        requires
            old(self).wf(),
        ensures
            final(self).wf(),
            match r {
                Some(t) => old(self)@.len() > 0 && t@ == old(self)@.last() && final(self)@
                    == old(self)@.drop_last(),
                None => old(self)@.len() == 0 && final(self)@ == old(self)@,
            },
    {
        let r = self.v.pop();
        proof {
            if old(self).v@.len() > 0 {
                assert(self@ =~= old(self)@.drop_last());
            }
        }
        r
    }

    /// Binary search for the position of a query key.  On a hit, `Ok`
    /// carries the index of the element whose view equals the key's; on a
    /// miss, `Err` carries the insertion point: the index of the first
    /// element greater than the key.
    fn find_index(&self, q: &T) -> (r: Result<usize, usize>)
        requires
            self.wf(),
        ensures
            match r {
                Ok(ix) => ix < self@.len() && self@[ix as int] == q@,
                Err(ix) => {
                    &&& ix <= self@.len()
                    &&& forall|k: int| 0 <= k < ix ==> T::lt(#[trigger] self@[k], q@)
                    &&& forall|k: int| ix <= k < self@.len() ==> T::lt(q@, #[trigger] self@[k])
                    &&& !self@.contains(q@)
                },
            },
    {
        let mut lo: usize = 0;
        let mut hi: usize = self.v.len();
        while lo < hi
            invariant
                self.wf(),
                lo <= hi <= self@.len(),
                forall|k: int| 0 <= k < lo ==> T::lt(#[trigger] self@[k], q@),
                forall|k: int| hi <= k < self@.len() ==> T::lt(q@, #[trigger] self@[k]),
            decreases hi - lo,
        {
            let mid = lo + (hi - lo) / 2;
            match self.v[mid].cmp_with(q) {
                Cmp::Less => {
                    proof {
                        assert(T::lt(self@[mid as int], q@));
                        assert forall|k: int| 0 <= k <= mid implies T::lt(
                            #[trigger] self@[k],
                            q@,
                        ) by {
                            if k < mid {
                                assert(T::lt(self@[k], self@[mid as int]));
                            }
                        }
                    }
                    lo = mid + 1;
                },
                Cmp::Equal => {
                    proof {
                        assert(self@[mid as int] == q@);
                    }
                    return Ok(mid);
                },
                Cmp::Greater => {
                    proof {
                        assert(T::lt(q@, self@[mid as int]));
                        assert forall|k: int| mid <= k < self@.len() implies T::lt(
                            q@,
                            #[trigger] self@[k],
                        ) by {
                            if k > mid {
                                assert(T::lt(self@[mid as int], self@[k]));
                            }
                        }
                    }
                    hi = mid;
                },
            }
        }
        proof {
            if self@.contains(q@) {
                let k = choose|k: int| 0 <= k < self@.len() && self@[k] == q@;
                assert(T::lt(self@[k], q@) || T::lt(q@, self@[k]));
            }
        }
        Err(lo)
    }

    /// Returns `true` if the set contains an element equal to the key.
    pub fn contains(&self, q: &T) -> (r: bool)
        requires
            self.wf(),
        ensures
            r == self@.contains(q@),
    {
        self.find_index(q).is_ok()
    }

    /// Returns a reference to the stored element equal to the key, if any.
    pub fn get(&self, q: &T) -> (r: Option<&T>)
        requires
            self.wf(),
        ensures
            match r {
                Some(t) => self@.contains(q@) && t@ == q@,
                None => !self@.contains(q@),
            },
    {
        match self.find_index(q) {
            Ok(ix) => Some(&self.v[ix]),
            Err(_) => None,
        }
    }

    /// Adds an element to the set, replacing and returning the stored
    /// element equal to it, if any.
    pub fn replace(&mut self, value: T) -> (r: Option<T>)
        requires
            old(self).wf(),
        ensures
            final(self).wf(),
            final(self)@.to_set() == old(self)@.to_set().insert(value@),
            final(self)@.len() == old(self)@.len() + (if old(self)@.contains(value@) {
                0int
            } else {
                1int
            }),
            old(self)@.contains(value@) ==> final(self)@ == old(self)@,
            match r {
                Some(prev) => old(self)@.contains(value@) && prev@ == value@,
                None => !old(self)@.contains(value@),
            },
    {
        let ghost s0 = self@;
        let len = self.v.len();
        if len == 0 {
            self.v.push(value);
            proof {
                Seq::<T::V>::lemma_to_set_insert_commutes(s0, value@);
                assert(s0 =~= Seq::<T::V>::empty());
                assert(s0 + seq![value@] =~= self@);
            }
            None
        } else {
            let last_cmp = self.v[len - 1].cmp_with(&value);
            if matches!(last_cmp, Cmp::Less) {
                self.v.push(value);
                proof {
                    Seq::<T::V>::lemma_to_set_insert_commutes(s0, value@);
                    assert forall|k: int| 0 <= k < s0.len() implies T::lt(
                        #[trigger] s0[k],
                        value@,
                    ) by {
                        if k < s0.len() - 1 {
                            assert(T::lt(s0[k], s0[s0.len() - 1]));
                        }
                    }
                    assert(s0 + seq![value@] =~= self@);
                    if s0.contains(value@) {
                        let k = choose|k: int| 0 <= k < s0.len() && s0[k] == value@;
                        assert(T::lt(s0[k], value@));
                    }
                }
                None
            } else {
                match self.find_index(&value) {
                    Ok(ix) => {
                        let mut value = value;
                        core::mem::swap(&mut self.v[ix], &mut value);
                        proof {
                            assert(self@ =~= s0);
                            assert(self@.to_set() =~= s0.to_set().insert(s0[ix as int]));
                        }
                        Some(value)
                    },
                    Err(ix) => {
                        self.v.insert(ix, value);
                        proof {
                            lemma_ascending_insert::<T>(s0, ix as int, value@);
                            lemma_seq_insert_to_set::<T::V>(s0, ix as int, value@);
                        }
                        None
                    },
                }
            }
        }
    }

    /// Adds an element to the set.  Returns `true` if the set did not
    /// already contain an element equal to it.
    pub fn insert(&mut self, value: T) -> (r: bool)
        requires
            old(self).wf(),
        ensures
            final(self).wf(),
            final(self)@.to_set() == old(self)@.to_set().insert(value@),
            final(self)@.len() == old(self)@.len() + (if old(self)@.contains(value@) {
                0int
            } else {
                1int
            }),
            old(self)@.contains(value@) ==> final(self)@ == old(self)@,
            r == !old(self)@.contains(value@),
    {
        self.replace(value).is_none()
    }

    /// Removes and returns the stored element equal to the key, if any.
    pub fn take(&mut self, value: &T) -> (r: Option<T>)
        requires
            old(self).wf(),
        ensures
            final(self).wf(),
            final(self)@.to_set() == old(self)@.to_set().remove(value@),
            match r {
                Some(t) => t@ == value@ && old(self)@.contains(value@) && final(self)@.len()
                    == old(self)@.len() - 1,
                None => !old(self)@.contains(value@) && final(self)@ == old(self)@,
            },
    {
        let ghost s0 = self@;
        match self.find_index(value) {
            Ok(ix) => {
                let t = self.v.remove(ix);
                proof {
                    lemma_ascending_remove::<T>(s0, ix as int);
                }
                Some(t)
            },
            Err(_) => {
                proof {
                    assert(self@.to_set() =~= s0.to_set().remove(value@));
                }
                None
            },
        }
    }

    /// Resolves a lower range bound into the index where the range
    /// starts.
    fn range_index_start(&self, b: &Bound<T>) -> (r: usize)
        requires
            self.wf(),
        ensures
            r == range_start::<T>(self@, *b),
            r <= self@.len(),
    {
        proof {
            lemma_range_start_char::<T>(self@, *b);
        }
        let ghost rs = range_start::<T>(self@, *b);
        match b {
            Bound::Unbounded => {
                proof {
                    if rs > 0 {
                        assert(lower_ok::<T>(*b, self@[0]));
                    }
                }
                0
            },
            Bound::Included(q) => {
                let ix = match self.find_index(q) {
                    Ok(ix) => ix,
                    Err(ix) => ix,
                };
                proof {
                    assert forall|k: int| 0 <= k < self@.len() implies (lower_ok::<T>(
                        *b,
                        #[trigger] self@[k],
                    ) <==> ix <= k) by {
                        if k < ix {
                            assert(T::lt(self@[k], q@));
                        } else if k > ix {
                            if ix < self@.len() && self@[ix as int] == q@ {
                                assert(T::lt(self@[ix as int], self@[k]));
                            }
                        }
                    }
                    if ix < rs {
                        assert(lower_ok::<T>(*b, self@[ix as int]));
                    }
                    if rs < ix {
                        assert(lower_ok::<T>(*b, self@[rs]));
                    }
                }
                ix
            },
            Bound::Excluded(q) => {
                proof {
                    vstd::std_specs::vec::axiom_spec_len(&self.v);
                }
                let ix = match self.find_index(q) {
                    Ok(ix) => ix + 1,
                    Err(ix) => ix,
                };
                proof {
                    assert forall|k: int| 0 <= k < self@.len() implies (lower_ok::<T>(
                        *b,
                        #[trigger] self@[k],
                    ) <==> ix <= k) by {
                        if k < ix {
                            if self@[k] != q@ {
                                assert(T::lt(self@[k], self@[ix - 1]) || self@[k] == self@[ix - 1]);
                            }
                        } else {
                            if self@[k] == q@ {
                                assert(T::lt(self@[ix - 1], self@[k]) || ix == 0);
                            }
                        }
                    }
                    if ix < rs {
                        assert(lower_ok::<T>(*b, self@[ix as int]));
                    }
                    if rs < ix {
                        assert(lower_ok::<T>(*b, self@[rs]));
                    }
                }
                ix
            },
        }
    }

    /// Resolves an upper range bound into the index one past where the
    /// range ends.
    fn range_index_end(&self, b: &Bound<T>) -> (r: usize)
        requires
            self.wf(),
        ensures
            r == range_end::<T>(self@, *b),
            r <= self@.len(),
    {
        proof {
            lemma_range_end_char::<T>(self@, *b);
        }
        let ghost re = range_end::<T>(self@, *b);
        match b {
            Bound::Unbounded => {
                let n = self.v.len();
                proof {
                    if re < n {
                        assert(upper_ok::<T>(*b, self@[re]));
                    }
                }
                n
            },
            Bound::Included(q) => {
                proof {
                    vstd::std_specs::vec::axiom_spec_len(&self.v);
                }
                let ix = match self.find_index(q) {
                    Ok(ix) => ix + 1,
                    Err(ix) => ix,
                };
                proof {
                    assert forall|k: int| 0 <= k < self@.len() implies (upper_ok::<T>(
                        *b,
                        #[trigger] self@[k],
                    ) <==> k < ix) by {
                        if k < ix {
                            if self@[k] != q@ {
                                assert(T::lt(self@[k], self@[ix - 1]) || self@[k] == self@[ix - 1]);
                            }
                        } else {
                            if self@[k] == q@ {
                                assert(T::lt(self@[ix - 1], self@[k]) || ix == 0);
                            }
                        }
                    }
                    if ix < re {
                        assert(!upper_ok::<T>(*b, self@[ix as int]));
                    }
                    if re < ix {
                        assert(!upper_ok::<T>(*b, self@[re]));
                    }
                }
                ix
            },
            Bound::Excluded(q) => {
                let ix = match self.find_index(q) {
                    Ok(ix) => ix,
                    Err(ix) => ix,
                };
                proof {
                    assert forall|k: int| 0 <= k < self@.len() implies (upper_ok::<T>(
                        *b,
                        #[trigger] self@[k],
                    ) <==> k < ix) by {
                        if k < ix {
                            assert(T::lt(self@[k], q@));
                        } else if k > ix {
                            if ix < self@.len() && self@[ix as int] == q@ {
                                assert(T::lt(self@[ix as int], self@[k]));
                            }
                        }
                    }
                    if ix < re {
                        assert(!upper_ok::<T>(*b, self@[ix as int]));
                    }
                    if re < ix {
                        assert(!upper_ok::<T>(*b, self@[re]));
                    }
                }
                ix
            },
        }
    }

    /// Borrows the contiguous run of elements that lie between the two
    /// bounds, in ascending order.
    ///
    /// Bounds that resolve to an inverted index range signal a caller
    /// error; they are ruled out here, and the underlying storage faults
    /// on them rather than answering with a reordered or empty slice.
    pub fn range(&self, lo: Bound<T>, hi: Bound<T>) -> (r: &[T])
        requires
            self.wf(),
            range_start::<T>(self@, lo) <= range_end::<T>(self@, hi),
        ensures
            views_of(r@) == self@.subrange(range_start::<T>(self@, lo), range_end::<T>(self@, hi)),
            forall|k: int|
                0 <= k < self@.len() ==> (in_range::<T>(lo, hi, #[trigger] self@[k]) <==> range_start::<
                    T,
                >(self@, lo) <= k < range_end::<T>(self@, hi)),
    {
        let start = self.range_index_start(&lo);
        let end = self.range_index_end(&hi);
        proof {
            lemma_range_start_char::<T>(self@, lo);
            lemma_range_end_char::<T>(self@, hi);
        }
        &self.v.as_slice()[start..end]
    }

    /// Splits the set at the first element at or above the key.  That
    /// suffix (including an exact match) is returned; the strictly
    /// smaller prefix stays behind.
    pub fn split_off(&mut self, q: &T) -> (r: SortedVectorSet<T>)
        requires
            old(self).wf(),
        ensures
            final(self).wf(),
            r.wf(),
            old(self)@ == final(self)@ + r@,
            forall|v: T::V| #[trigger] final(self)@.contains(v) ==> T::lt(v, q@),
            forall|v: T::V| #[trigger] r@.contains(v) ==> !T::lt(v, q@),
    {
        let ghost s0 = self@;
        let ix = match self.find_index(q) {
            Ok(ix) => ix,
            Err(ix) => ix,
        };
        let ghost is_hit = ix < s0.len() && s0[ix as int] == q@;
        let tail = self.v.split_off(ix);
        let r = SortedVectorSet { v: tail };
        proof {
            assert(s0 =~= self@ + r@);
            assert forall|v: T::V| #[trigger] self@.contains(v) implies T::lt(v, q@) by {
                let k = choose|k: int| 0 <= k < self@.len() && self@[k] == v;
                assert(s0[k] == v);
                if is_hit {
                    assert(T::lt(s0[k], s0[ix as int]));
                }
            }
            assert forall|v: T::V| #[trigger] r@.contains(v) implies !T::lt(v, q@) by {
                let k = choose|k: int| 0 <= k < r@.len() && r@[k] == v;
                assert(s0[ix + k] == v);
                if is_hit && k > 0 {
                    assert(T::lt(s0[ix as int], s0[ix + k]));
                }
            }
        }
        r
    }

    /// Removes the stored element equal to the key, if any.  Returns
    /// `true` if such an element was present.
    pub fn remove(&mut self, value: &T) -> (r: bool)
        requires
            old(self).wf(),
        ensures
            final(self).wf(),
            final(self)@.to_set() == old(self)@.to_set().remove(value@),
            r == old(self)@.contains(value@),
    {
        self.take(value).is_some()
    }

    /// Builds a set from a vector of elements by inserting each in
    /// turn, with capacity pre-sized to the element count.  On equal
    /// keys later elements win.
    pub fn from_elements(elems: Vec<T>) -> (r: SortedVectorSet<T>)
        ensures
            r.wf(),
            r@.to_set() == views_of(elems@).to_set(),
    {
        let ghost ev = views_of(elems@);
        let mut set = SortedVectorSet::with_capacity(elems.len());
        proof {
            assert(set@.to_set() =~= ev.take(0).to_set());
        }
        let mut i: usize = 0;
        while i < elems.len()
            invariant
                set.wf(),
                i <= ev.len(),
                set@.to_set() == ev.take(i as int).to_set(),
                ev == views_of(elems@),
            decreases ev.len() - i,
        {
            let t = elems[i].duplicate();
            set.insert(t);
            proof {
                assert(set@.to_set() =~= ev.take(i + 1).to_set());
            }
            i = i + 1;
        }
        proof {
            assert(ev.take(ev.len() as int) =~= ev);
        }
        set
    }

    /// Returns an iterator over the elements, in ascending order.
    pub fn iter<'a>(&'a self) -> (r: core::slice::Iter<'a, T>)
        ensures
            vstd::std_specs::slice::into_iter_elts(r) == self.elements(),
    {
        let s = self.v.as_slice();
        let it = s.iter();
        proof {
            broadcast use vstd::std_specs::slice::axiom_spec_slice_iter;

            assert(vstd::std_specs::slice::into_iter_elts(it) =~= self.v@);
        }
        it
    }

    /// Moves all elements from `other` into `self`, leaving `other`
    /// empty.  On equal keys the element coming from `other` wins.
    pub fn append(&mut self, other: &mut SortedVectorSet<T>)
        requires
            old(self).wf(),
            old(other).wf(),
        ensures
            final(self).wf(),
            final(self)@.to_set() == old(self)@.to_set().union(old(other)@.to_set()),
            final(other)@ == Seq::<T::V>::empty(),
            final(other).wf(),
    {
        let ghost s0 = self@;
        let ghost o0 = other@;
        if other.v.is_empty() {
            proof {
                assert(o0 =~= Seq::<T::V>::empty());
                assert(o0.to_set() =~= Set::<T::V>::empty());
                assert(self@.to_set() =~= s0.to_set().union(o0.to_set()));
            }
        } else if self.v.is_empty() {
            core::mem::swap(self, other);
            proof {
                assert(s0 =~= Seq::<T::V>::empty());
                assert(s0.to_set() =~= Set::<T::V>::empty());
                assert(other@ =~= Seq::<T::V>::empty());
                assert(self@.to_set() =~= s0.to_set().union(o0.to_set()));
            }
        } else {
            let mut left: Vec<T> = Vec::new();
            core::mem::swap(&mut self.v, &mut left);
            let mut right: Vec<T> = Vec::new();
            core::mem::swap(&mut other.v, &mut right);
            proof {
                assert forall|p: int, q: int|
                    0 <= p < q < views_of(right@).len() implies !T::lt(
                    views_of(right@)[q],
                    views_of(right@)[p],
                ) by {
                    assert(T::lt(o0[p], o0[q]));
                }
            }
            self.v = crate::merge::merge_vecs(left, right);
            proof {
                assert(other@ =~= Seq::<T::V>::empty());
            }
        }
    }

    /// Extends the set from a vector of elements: the batch is sorted
    /// and folded in, and on equal keys later batch entries win over
    /// earlier ones and over elements already stored.
    ///
    /// An empty batch is a no-op; a single element is a plain insert; a
    /// batch lying entirely above the current maximum is deduplicated
    /// and appended; anything else goes through the full ordered merge.
    pub fn extend_with_vec(&mut self, new: Vec<T>)
        requires
            old(self).wf(),
        ensures
            final(self).wf(),
            final(self)@.to_set() == old(self)@.to_set().union(views_of(new@).to_set()),
    {
        let ghost s0 = self@;
        let ghost n0 = views_of(new@);
        if new.is_empty() {
            proof {
                assert(n0 =~= Seq::<T::V>::empty());
                assert(n0.to_set() =~= Set::<T::V>::empty());
                assert(self@.to_set() =~= s0.to_set().union(n0.to_set()));
            }
            return;
        }
        if new.len() == 1 {
            let mut new = new;
            match new.pop() {
                Some(t) => {
                    proof {
                        assert(n0 =~= Seq::<T::V>::empty().push(t@));
                        assert(Seq::<T::V>::empty().to_set() =~= Set::<T::V>::empty());
                    }
                    self.insert(t);
                    proof {
                        assert(self@.to_set() =~= s0.to_set().union(n0.to_set()));
                    }
                },
                None => {
                    proof {
                        assert(false);
                    }
                },
            }
            return;
        }
        let mut sorted = crate::merge::sort_batch(new);
        let ghost sv = views_of(sorted@);
        // A sorted batch without equal neighbours needs no
        // deduplication and can be taken over wholesale.
        let dup_free = !crate::merge::has_adjacent_dup(&sorted);
        proof {
            if dup_free {
                crate::sorted::lemma_adjacent_distinct_ascending::<T>(sv);
            }
        }
        let n = self.v.len();
        if n == 0 {
            proof {
                assert(s0 =~= Seq::<T::V>::empty());
                assert(s0.to_set() =~= Set::<T::V>::empty());
            }
            if dup_free {
                self.v = sorted;
                proof {
                    assert(self@.to_set() =~= s0.to_set().union(n0.to_set()));
                }
            } else {
                crate::merge::append_nondesc(&mut self.v, &sorted);
                proof {
                    assert(self@.to_set() =~= s0.to_set().union(n0.to_set()));
                }
            }
        } else {
            // All batch elements after the current maximum: append fast
            // path.  Otherwise: full merge.
            let c = self.v[n - 1].cmp_with(&sorted[0]);
            if matches!(c, Cmp::Less) {
                proof {
                    assert forall|m: int| 0 <= m < sv.len() implies T::lt(
                        s0.last(),
                        #[trigger] sv[m],
                    ) by {
                        assert(T::lt(s0.last(), sv[0]));
                        if m > 0 {
                            assert(!T::lt(sv[m], sv[0]));
                            if T::lt(sv[m], s0.last()) {
                                if sv[m] == sv[0] {
                                    assert(false);
                                } else {
                                    assert(T::lt(sv[0], sv[m]));
                                }
                            }
                            if sv[m] == s0.last() {
                                if sv[m] != sv[0] {
                                    assert(T::lt(sv[0], sv[m]));
                                }
                            }
                        }
                    }
                }
                if dup_free {
                    let ghost pre = self.v@;
                    self.v.append(&mut sorted);
                    proof {
                        assert(views_of(self.v@) =~= s0 + sv);
                        assert forall|p: int, q: int|
                            0 <= p < q < self@.len() implies T::lt(self@[p], self@[q]) by {
                            if p < s0.len() && q >= s0.len() {
                                if p < s0.len() - 1 {
                                    assert(T::lt(s0[p], s0[s0.len() - 1]));
                                }
                                assert(T::lt(s0.last(), sv[q - s0.len()]));
                            }
                        }
                        assert forall|v: T::V| #[trigger] self@.to_set().contains(v) implies
                            s0.to_set().union(sv.to_set()).contains(v) by {
                            let k = choose|k: int| 0 <= k < self@.len() && self@[k] == v;
                            if k < s0.len() {
                                assert(s0[k] == v);
                            } else {
                                assert(sv[k - s0.len()] == v);
                            }
                        }
                        assert forall|v: T::V|
                            s0.to_set().union(sv.to_set()).contains(v) implies #[trigger] self@.to_set().contains(
                            v,
                        ) by {
                            if s0.to_set().contains(v) {
                                let k = choose|k: int| 0 <= k < s0.len() && s0[k] == v;
                                assert(self@[k] == v);
                            } else {
                                let k = choose|k: int| 0 <= k < sv.len() && sv[k] == v;
                                assert(self@[s0.len() + k] == v);
                            }
                        }
                        assert(self@.to_set() =~= s0.to_set().union(n0.to_set()));
                    }
                } else {
                    crate::merge::append_nondesc(&mut self.v, &sorted);
                    proof {
                        assert(self@.to_set() =~= s0.to_set().union(n0.to_set()));
                    }
                }
            } else {
                let mut left: Vec<T> = Vec::new();
                core::mem::swap(&mut self.v, &mut left);
                self.v = crate::merge::merge_vecs(left, sorted);
                proof {
                    assert(self@.to_set() =~= s0.to_set().union(n0.to_set()));
                }
            }
        }
    }

    /// Retains only the elements approved by the predicate, preserving
    /// their relative order.  `decisions` records, per original element,
    /// the verdict the predicate actually returned.
    pub fn retain<F: Fn(&T) -> bool>(&mut self, f: F)
        requires
            old(self).wf(),
            forall|i: int|
                0 <= i < old(self).elements().len() ==> f.requires((&old(self).elements()[i],)),
        ensures
            final(self).wf(),
            forall|v: T::V| #[trigger] final(self)@.contains(v) ==> old(self)@.contains(v),
            exists|decisions: Seq<bool>|
                #[trigger] retain_decided::<T, F>(
                    f,
                    old(self).elements(),
                    final(self)@,
                    decisions,
                ),
    {
        let ghost elems = self.v@;
        let ghost s0 = self@;
        let mut out: Vec<T> = Vec::new();
        let ghost kept: Seq<bool> = Seq::empty();
        let mut i: usize = 0;
        while i < self.v.len()
            invariant
                self.wf(),
                self.v@ == elems,
                self@ == s0,
                forall|k: int| 0 <= k < elems.len() ==> f.requires((&elems[k],)),
                i <= elems.len(),
                kept.len() == i,
                forall|k: int|
                    0 <= k < i ==> (#[trigger] kept[k] ==> f.ensures((&elems[k],), true)),
                forall|k: int|
                    0 <= k < i ==> (!(#[trigger] kept[k]) ==> f.ensures((&elems[k],), false)),
                forall|k: int|
                    0 <= k < i ==> (#[trigger] kept[k] <==> views_of(out@).contains(s0[k])),
                forall|v: T::V|
                    #[trigger] views_of(out@).contains(v) ==> exists|k: int|
                        0 <= k < i && s0[k] == v,
                ascending::<T>(views_of(out@)),
            decreases self.v@.len() - i,
        {
            let ghost out0 = views_of(out@);
            let keep = f(&self.v[i]);
            if keep {
                out.push(self.v[i].duplicate());
                proof {
                    assert(views_of(out@) =~= out0.push(s0[i as int]));
                    assert forall|p: int, q: int|
                        0 <= p < q < views_of(out@).len() implies T::lt(
                        views_of(out@)[p],
                        views_of(out@)[q],
                    ) by {
                        if q == views_of(out@).len() - 1 {
                            assert(views_of(out@)[p] == out0[p]);
                            assert(out0.contains(out0[p]));
                            let k = choose|k: int| 0 <= k < i && s0[k] == out0[p];
                            assert(T::lt(s0[k], s0[i as int]));
                            assert(views_of(out@)[q] == s0[i as int]);
                        } else {
                            assert(views_of(out@)[p] == out0[p]);
                            assert(views_of(out@)[q] == out0[q]);
                            assert(T::lt(out0[p], out0[q]));
                        }
                    }
                }
            }
            proof {
                kept = kept.push(keep);
                if keep {
                    assert(views_of(out@) =~= out0.push(s0[i as int]));
                } else {
                    assert(views_of(out@) == out0);
                }
                assert forall|v: T::V| #[trigger] views_of(out@).contains(v) implies exists|k: int|
                    0 <= k < i + 1 && s0[k] == v by {
                    let p = choose|p: int|
                        0 <= p < views_of(out@).len() && views_of(out@)[p] == v;
                    if p < out0.len() {
                        assert(out0[p] == v);
                        assert(out0.contains(out0[p]));
                        let k = choose|k: int| 0 <= k < i && s0[k] == v;
                        assert(0 <= k < i + 1 && s0[k] == v);
                    } else {
                        assert(views_of(out@)[p] == s0[i as int]);
                        assert(0 <= i < i + 1 && s0[i as int] == v);
                    }
                }
                assert forall|k: int|
                    0 <= k < i + 1 implies (#[trigger] kept[k] <==> views_of(out@).contains(
                    s0[k],
                )) by {
                    if k < i {
                        if kept[k] {
                            assert(out0.contains(s0[k]));
                            let p = choose|p: int| 0 <= p < out0.len() && out0[p] == s0[k];
                            assert(views_of(out@)[p] == s0[k]);
                        } else {
                            if views_of(out@).contains(s0[k]) {
                                let p = choose|p: int|
                                    0 <= p < views_of(out@).len() && views_of(out@)[p] == s0[k];
                                if p < out0.len() {
                                    assert(out0[p] == s0[k]);
                                    assert(out0.contains(s0[k]));
                                } else {
                                    // the new entry is strictly above every
                                    // earlier element, this one included
                                    assert(s0[k] == s0[i as int]);
                                    assert(T::lt(s0[k], s0[i as int]));
                                }
                            }
                        }
                    } else {
                        if keep {
                            assert(views_of(out@)[views_of(out@).len() - 1] == s0[i as int]);
                        } else {
                            if views_of(out@).contains(s0[i as int]) {
                                let p = choose|p: int|
                                    0 <= p < out0.len() && out0[p] == s0[i as int];
                                assert(out0.contains(out0[p]));
                                let k2 = choose|k2: int| 0 <= k2 < i && s0[k2] == out0[p];
                                assert(T::lt(s0[k2], s0[i as int]));
                            }
                        }
                    }
                }
            }
            i = i + 1;
        }
        self.v = out;
        proof {
            assert forall|v: T::V| #[trigger] self@.contains(v) implies s0.contains(v) by {
                let k = choose|k: int| 0 <= k < i && s0[k] == v;
                assert(s0[k] == v);
            }
            assert(retain_decided::<T, F>(f, elems, self@, kept));
        }
    }
}

} // verus!
