//! Finding the entries that have a place in common with a range.
use super::values::pairs_of;
use super::IntervalMap;
use crate::bound::{
    cut_lt, end_lt_end, lemma_cut_order, start_lt_end, start_lt_start, EndBound, StartBound,
};
use crate::interval::Interval;
use crate::order::total_order;
use vstd::prelude::*;
use vstd::std_specs::convert::IntoSpec;

verus! {

impl<K: Ord, V> IntervalMap<K, V> {
    /// Looks for the entry that begins where `b` does: `Ok` with its index,
    /// or `Err` with the index of the first entry that begins above `b`.
    fn search_start(&self, b: &StartBound<K>) -> (r: Result<usize, usize>)
        requires
            self.wf(),
            total_order::<K>(),
        ensures
            match r {
                Ok(i) => i < self@.len() && !cut_lt(self@[i as int].0.lo(), b.cut()) && !cut_lt(
                    b.cut(),
                    self@[i as int].0.lo(),
                ),
                Err(i) => i <= self@.len() && (forall|j: int|
                    0 <= j < i ==> cut_lt((#[trigger] self@[j]).0.lo(), b.cut())) && (forall|j: int|
                    i <= j < self@.len() ==> cut_lt(b.cut(), (#[trigger] self@[j]).0.lo())),
            },
    {
        let n = self.sorted_vec.len();
        let mut lo: usize = 0;
        let mut hi: usize = n;
        while lo < hi
            invariant
                lo <= hi <= n,
                n == self@.len(),
                self.wf(),
                total_order::<K>(),
                forall|j: int| 0 <= j < lo ==> cut_lt((#[trigger] self@[j]).0.lo(), b.cut()),
                forall|j: int| hi <= j < n ==> cut_lt(b.cut(), (#[trigger] self@[j]).0.lo()),
            decreases hi - lo,
        {
            let mid = lo + (hi - lo) / 2;
            let e = &self.sorted_vec[mid];
            proof {
                lemma_cut_order::<K>();
                assert(!self@[mid as int].0.empty());
            }
            if start_lt_start(&e.0.start, b) {
                assert forall|j: int| 0 <= j < mid + 1 implies cut_lt(
                    (#[trigger] self@[j]).0.lo(),
                    b.cut(),
                ) by {
                    if j < mid {
                        assert(self@[j].0.below(self@[mid as int].0));
                        assert(!self@[j].0.empty());
                    }
                }
                lo = mid + 1;
            } else if start_lt_start(b, &e.0.start) {
                assert forall|j: int| mid <= j < n implies cut_lt(
                    b.cut(),
                    (#[trigger] self@[j]).0.lo(),
                ) by {
                    if j > mid {
                        assert(self@[mid as int].0.below(self@[j].0));
                    }
                }
                hi = mid;
            } else {
                return Ok(mid);
            }
        }
        Err(lo)
    }

    /// Looks for the entry that stops where `b` does: `Ok` with its index,
    /// or `Err` with the index of the first entry that stops above `b`.
    fn search_end(&self, b: &EndBound<K>) -> (r: Result<usize, usize>)
        requires
            self.wf(),
            total_order::<K>(),
        ensures
            match r {
                Ok(i) => i < self@.len() && !cut_lt(self@[i as int].0.hi(), b.cut()) && !cut_lt(
                    b.cut(),
                    self@[i as int].0.hi(),
                ),
                Err(i) => i <= self@.len() && (forall|j: int|
                    0 <= j < i ==> cut_lt((#[trigger] self@[j]).0.hi(), b.cut())) && (forall|j: int|
                    i <= j < self@.len() ==> cut_lt(b.cut(), (#[trigger] self@[j]).0.hi())),
            },
    {
        let n = self.sorted_vec.len();
        let mut lo: usize = 0;
        let mut hi: usize = n;
        while lo < hi
            invariant
                lo <= hi <= n,
                n == self@.len(),
                self.wf(),
                total_order::<K>(),
                forall|j: int| 0 <= j < lo ==> cut_lt((#[trigger] self@[j]).0.hi(), b.cut()),
                forall|j: int| hi <= j < n ==> cut_lt(b.cut(), (#[trigger] self@[j]).0.hi()),
            decreases hi - lo,
        {
            let mid = lo + (hi - lo) / 2;
            let e = &self.sorted_vec[mid];
            proof {
                lemma_cut_order::<K>();
                assert(!self@[mid as int].0.empty());
            }
            if end_lt_end(&e.0.end, b) {
                assert forall|j: int| 0 <= j < mid + 1 implies cut_lt(
                    (#[trigger] self@[j]).0.hi(),
                    b.cut(),
                ) by {
                    if j < mid {
                        assert(self@[j].0.below(self@[mid as int].0));
                    }
                }
                lo = mid + 1;
            } else if end_lt_end(b, &e.0.end) {
                assert forall|j: int| mid <= j < n implies cut_lt(
                    b.cut(),
                    (#[trigger] self@[j]).0.hi(),
                ) by {
                    if j > mid {
                        assert(self@[mid as int].0.below(self@[j].0));
                        assert(!self@[j].0.empty());
                    }
                }
                hi = mid;
            } else {
                return Ok(mid);
            }
        }
        Err(lo)
    }

    /// The indices between which the entries stand that have a place in
    /// common with the range: the index of the first of them, and the index
    /// behind the last. One search finds the entry that begins where the
    /// range begins, a second the entry that stops where it stops; where
    /// there is none, the neighbour decides on which side it falls.
    pub fn range_bounds(&self, query: &Interval<K>) -> (r: (usize, usize))
        requires
            self.wf(),
            total_order::<K>(),
        ensures
            window(self@, *query, r.0 as int, r.1 as int),
    {
        let n = self.sorted_vec.len();
        proof {
            lemma_cut_order::<K>();
        }
        if query.is_empty() {
            assert forall|j: int| 0 <= j < self@.len() implies !(#[trigger] self@[j]).0.overlaps(
                *query,
            ) by {
                assert(!self@[j].0.empty());
            }
            return (0, 0);
        }
        let begins = self.search_start(&query.start);
        let first = match begins {
            Ok(i) => i,
            Err(i) => if i > 0 && start_lt_end(&query.start, &self.sorted_vec[i - 1].0.end) {
                i - 1
            } else {
                i
            },
        };
        let stops = self.search_end(&query.end);
        let past = match stops {
            Ok(i) => i + 1,
            Err(i) => if i < n && start_lt_end(&self.sorted_vec[i].0.start, &query.end) {
                i + 1
            } else {
                i
            },
        };
        assert forall|j: int| 0 <= j < self@.len() implies ((first <= j) <==> cut_lt(
            query.lo(),
            (#[trigger] self@[j]).0.hi(),
        )) by {
            assert(!self@[j].0.empty());
            let i = match begins {
                Ok(i) => i,
                Err(i) => i,
            };
            if begins is Ok {
                if j < i {
                    assert(self@[j].0.below(self@[i as int].0));
                }
                if j > i {
                    assert(self@[i as int].0.below(self@[j].0));
                }
            } else {
                if i > 0 {
                    assert(!self@[i - 1].0.empty());
                    if j < i - 1 {
                        assert(self@[j].0.below(self@[i - 1].0));
                    }
                }
            }
        }
        assert forall|j: int| 0 <= j < self@.len() implies ((j < past) <==> cut_lt(
            (#[trigger] self@[j]).0.lo(),
            query.hi(),
        )) by {
            assert(!self@[j].0.empty());
            let i = match stops {
                Ok(i) => i,
                Err(i) => i,
            };
            if stops is Ok {
                if j < i {
                    assert(self@[j].0.below(self@[i as int].0));
                }
                if j > i {
                    assert(self@[i as int].0.below(self@[j].0));
                }
            } else {
                if i < n {
                    assert(!self@[i as int].0.empty());
                    if j > i {
                        assert(self@[i as int].0.below(self@[j].0));
                    }
                }
            }
        }
        if first < past {
            (first, past)
        } else {
            assert forall|j: int| 0 <= j < self@.len() implies !(#[trigger] self@[j]).0.overlaps(
                *query,
            ) by {}
            (0, 0)
        }
    }

    /// The entries that have a place in common with the range, in
    /// ascending order.
    pub fn range<R: Into<Interval<K>>>(&self, r: R) -> (found: &[(Interval<K>, V)])
        requires
            self.wf(),
            total_order::<K>(),
        ensures
            R::obeys_into_spec() ==> exists|lo: int, hi: int|
                #[trigger] window(self@, r.into_spec(), lo, hi) && found@ == self@.subrange(lo, hi),
    {
        let query: Interval<K> = r.into();
        let (lo, hi) = self.range_bounds(&query);
        vstd::slice::slice_subrange(self.sorted_vec.as_slice(), lo, hi)
    }
}

/// The entries of `s` that have a place in common with `query` are those at
/// the indices from `lo` up to `hi`, without `hi`.
pub open spec fn window<K: Ord, V>(
    s: Seq<(Interval<K>, V)>,
    query: Interval<K>,
    lo: int,
    hi: int,
) -> bool {
    &&& 0 <= lo <= hi <= s.len()
    &&& forall|j: int|
        0 <= j < s.len() ==> ((lo <= j < hi) <==> (#[trigger] s[j]).0.overlaps(query))
}

impl<K: Ord, V> IntervalMap<K, V> {
    /// The entries that have a place in common with the range, in ascending
    /// order, each with its range to be read and its value to be changed in
    /// place. The other entries stay as they are.
    pub fn range_mut<R: Into<Interval<K>>>(&mut self, r: R) -> (found: Vec<
        (&Interval<K>, &mut V),
    >)
        requires
            old(self).wf(),
            total_order::<K>(),
        ensures
            final(self)@.len() == old(self)@.len(),
            final(self).wf(),
            R::obeys_into_spec() ==> exists|lo: int|
                {
                    &&& #[trigger] window(old(self)@, r.into_spec(), lo, lo + found@.len())
                    &&& forall|i: int|
                        0 <= i < found@.len() ==> *(#[trigger] found@[i]).0 == old(self)@[lo
                            + i].0 && *found@[i].1 == old(self)@[lo + i].1
                    &&& forall|j: int|
                        0 <= j < old(self)@.len() ==> #[trigger] final(self)@[j] == if lo <= j < lo
                            + found@.len() {
                            (old(self)@[j].0, *final(found@[j - lo].1))
                        } else {
                            old(self)@[j]
                        }
                },
    {
        let ghost given = self@;
        let query: Interval<K> = r.into();
        let (lo, hi) = self.range_bounds(&query);
        let all = self.sorted_vec.as_mut_slice();
        let ghost all_fin = final(all)@;
        let (upto, above) = all.split_at_mut(hi);
        let ghost upto_fin = final(upto)@;
        let ghost above_now = above@;
        let (below, mid) = upto.split_at_mut(lo);
        let ghost below_now = below@;
        let ghost mid_now = mid@;
        let ghost mid_fin = final(mid)@;
        let found = pairs_of(mid);
        proof {
            assert(upto_fin == below_now + mid_fin);
            assert(all_fin == upto_fin + above_now);
            assert(mid_now =~= given.subrange(lo as int, hi as int));
            assert forall|j: int| 0 <= j < given.len() implies #[trigger] all_fin[j] == if lo <= j
                < lo + found@.len() {
                (given[j].0, *final(found@[j - lo].1))
            } else {
                given[j]
            } by {
                if lo <= j < hi {
                    assert(all_fin[j] == mid_fin[j - lo]);
                }
            }
            crate::table::lemma_sorted_same_ranges(given, all_fin);
        }
        found
    }
}

} // verus!
