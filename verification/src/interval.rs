//! A range of keys, and what is left of one range when another is taken
//! out of it.
use crate::bound::{
    copy_bound, cut_le, cut_lt, end_lt_end, key_lt_end, start_le_key, start_lt_end, start_lt_start,
    Bound, Cut, EndBound, StartBound,
};
use crate::order::{faithful_clone, total_order};
use core::cmp::Ordering;
use vstd::prelude::*;
use vstd::std_specs::cmp::{PartialEqSpecImpl, PartialOrdSpecImpl, OrdSpec};

verus! {

/// The keys from a start bound to an end bound.
#[derive(Copy, Clone, Eq, PartialEq, Debug, Hash)]
pub struct Interval<T> {
    pub start: StartBound<T>,
    pub end: EndBound<T>,
}

impl<T> Interval<T> {
    /// The range between the two bounds.
    pub fn new(start: Bound<T>, end: Bound<T>) -> (r: Self)
        ensures
            r == (Interval { start: StartBound(start), end: EndBound(end) }),
    {
        Interval { start: StartBound(start), end: EndBound(end) }
    }

    /// The range that holds the one key `k`.
    pub open spec fn point(k: T) -> Self {
        Interval { start: StartBound(Bound::Included(k)), end: EndBound(Bound::Included(k)) }
    }

    /// The place where the range begins.
    pub open spec fn lo(self) -> Cut<T> {
        self.start.cut()
    }

    /// The place where the range stops.
    pub open spec fn hi(self) -> Cut<T> {
        self.end.cut()
    }

    /// The start of the range, by reference.
    pub fn start_bound(&self) -> (r: Bound<&T>)
        ensures
            r == (match self.start.0 {
                Bound::Excluded(v) => Bound::Excluded(&v),
                Bound::Included(v) => Bound::Included(&v),
                Bound::Unbounded => Bound::Unbounded,
            }),
    {
        match &self.start.0 {
            Bound::Excluded(v) => Bound::Excluded(v),
            Bound::Included(v) => Bound::Included(v),
            Bound::Unbounded => Bound::Unbounded,
        }
    }

    /// The end of the range, by reference.
    pub fn end_bound(&self) -> (r: Bound<&T>)
        ensures
            r == (match self.end.0 {
                Bound::Excluded(v) => Bound::Excluded(&v),
                Bound::Included(v) => Bound::Included(&v),
                Bound::Unbounded => Bound::Unbounded,
            }),
    {
        match &self.end.0 {
            Bound::Excluded(v) => Bound::Excluded(v),
            Bound::Included(v) => Bound::Included(v),
            Bound::Unbounded => Bound::Unbounded,
        }
    }
}

impl<T: Ord> Interval<T> {
    /// The range holds no place: it does not begin before it stops. A
    /// range that includes one key at both ends is not empty.
    pub open spec fn empty(self) -> bool {
        !cut_lt(self.lo(), self.hi())
    }

    /// The key lies in the range.
    pub open spec fn contains(self, k: T) -> bool {
        cut_le(self.lo(), Cut::Before(k)) && cut_lt(Cut::Before(k), self.hi())
    }

    /// The range stops before the other begins.
    pub open spec fn below(self, other: Self) -> bool {
        cut_le(self.hi(), other.lo())
    }

    /// The two ranges have a place in common.
    pub open spec fn overlaps(self, other: Self) -> bool {
        &&& !self.empty()
        &&& !other.empty()
        &&& cut_lt(self.lo(), other.hi())
        &&& cut_lt(other.lo(), self.hi())
    }

    /// Where the range lies as seen from the key: `Greater` if it begins
    /// above the key, `Equal` if it holds the key, `Less` if it has
    /// stopped below the key.
    pub open spec fn side_of(self, k: T) -> Ordering {
        if !cut_le(self.lo(), Cut::Before(k)) {
            Ordering::Greater
        } else if cut_lt(Cut::Before(k), self.hi()) {
            Ordering::Equal
        } else {
            Ordering::Less
        }
    }

    /// What is left of the range once `other` is taken out: the part
    /// below `other` and the part above it, each if it holds a place. A
    /// range that `other` does not touch is left whole, on its side.
    pub open spec fn carve(self, other: Self) -> (Option<Self>, Option<Self>) {
        if self.below(other) {
            (Some(self), None)
        } else if other.below(self) {
            (None, Some(self))
        } else {
            (
                if cut_lt(self.lo(), other.lo()) {
                    Some(Interval { start: self.start, end: EndBound::before(other.start) })
                } else {
                    None
                },
                if cut_lt(other.hi(), self.hi()) {
                    Some(Interval { start: StartBound::after(other.end), end: self.end })
                } else {
                    None
                },
            )
        }
    }

    /// Whether the range holds no place.
    pub fn is_empty(&self) -> (r: bool)
        requires
            total_order::<T>(),
        ensures
            r == self.empty(),
    {
        !start_lt_end(&self.start, &self.end)
    }

    /// Whether the key lies in the range.
    pub fn contains_key(&self, key: &T) -> (r: bool)
        requires
            total_order::<T>(),
        ensures
            r == self.contains(*key),
    {
        start_le_key(&self.start, key) && key_lt_end(key, &self.end)
    }
}

impl<T: Ord> Interval<T> {
    /// How the range compares with a key, from how its two bounds do:
    /// `Greater` where the start is above the key, `Less` where the end is
    /// below it, `Equal` where the range holds the key.
    pub open spec fn order_key(self, k: T) -> Ordering {
        match self.start.order_key(k) {
            Ordering::Greater => Ordering::Greater,
            _ => match self.end.order_key(k) {
                Ordering::Less => Ordering::Less,
                _ => Ordering::Equal,
            },
        }
    }
}

impl<T: Ord> PartialEqSpecImpl<T> for Interval<T> {
    open spec fn obeys_eq_spec() -> bool {
        T::obeys_cmp_spec()
    }

    /// A range equals a key where it holds the key.
    open spec fn eq_spec(&self, other: &T) -> bool {
        self.order_key(*other) == Ordering::Equal
    }
}

impl<T: Ord> PartialEq<T> for Interval<T> {
    fn eq(&self, other: &T) -> (r: bool) {
        match self.partial_cmp(other) {
            Some(Ordering::Equal) => true,
            _ => false,
        }
    }
}

impl<T: Ord> PartialOrdSpecImpl<T> for Interval<T> {
    open spec fn obeys_partial_cmp_spec() -> bool {
        T::obeys_cmp_spec()
    }

    open spec fn partial_cmp_spec(&self, other: &T) -> Option<Ordering> {
        Some(self.order_key(*other))
    }
}

impl<T: Ord> PartialOrd<T> for Interval<T> {
    /// Compares the range with a key, as a search for the key among ranges
    /// that do not overlap needs it.
    fn partial_cmp(&self, other: &T) -> (r: Option<Ordering>) {
        match self.start.partial_cmp(other) {
            Some(Ordering::Greater) => Some(Ordering::Greater),
            _ => match self.end.partial_cmp(other) {
                Some(Ordering::Less) => Some(Ordering::Less),
                _ => Some(Ordering::Equal),
            },
        }
    }
}

/// Compared with a key, a range is `Equal` exactly where it holds the key,
/// and else lies on the side of the key that [`Interval::side_of`] says.
pub proof fn law_range_against_key<T: Ord>(iv: Interval<T>, k: T)
    requires
        total_order::<T>(),
    ensures
        iv.order_key(k) == iv.side_of(k),
        iv.order_key(k) == Ordering::Equal <==> iv.contains(k),
{
    crate::bound_order::lemma_key_order(iv.start, iv.end, k);
}

impl<T: Ord + Clone> Interval<T> {
    /// Takes `other` out of the range.
    pub fn remove(self, other: &Self) -> (r: (Option<Self>, Option<Self>))
        requires
            total_order::<T>(),
            faithful_clone::<T>(),
        ensures
            r == self.carve(*other),
    {
        if !start_lt_end(&other.start, &self.end) {
            (Some(self), None)
        } else if !start_lt_end(&self.start, &other.end) {
            (None, Some(self))
        } else {
            let left = start_lt_start(&self.start, &other.start);
            let right = end_lt_end(&other.end, &self.end);
            proof {
                crate::bound::lemma_cut_ends(self.lo());
                crate::bound::lemma_cut_ends(self.hi());
            }
            let Interval { start, end } = self;
            (
                if left {
                    Some(
                        Interval {
                            start,
                            end: EndBound::from_start(StartBound(copy_bound(&other.start.0))),
                        },
                    )
                } else {
                    None
                },
                if right {
                    Some(
                        Interval {
                            start: StartBound::from_end(EndBound(copy_bound(&other.end.0))),
                            end,
                        },
                    )
                } else {
                    None
                },
            )
        }
    }
}

/// What taking one range out of another leaves, place by place.
pub proof fn lemma_carve<T: Ord>(a: Interval<T>, b: Interval<T>)
    requires
        total_order::<T>(),
        !a.empty(),
        !b.empty(),
    ensures
        // each part holds a place, lies in `a`, and lies on its side of `b`
        a.carve(b).0 matches Some(l) ==> l.lo() == a.lo() && !l.empty() && cut_le(l.hi(), a.hi())
            && cut_le(l.hi(), b.lo()),
        a.carve(b).1 matches Some(r) ==> r.hi() == a.hi() && !r.empty() && cut_le(a.lo(), r.lo())
            && cut_le(b.hi(), r.lo()),
        // where there is no part, `b` reaches to the end of `a` on that side
        a.carve(b).0 is None ==> cut_le(b.lo(), a.lo()),
        a.carve(b).1 is None ==> cut_le(a.hi(), b.hi()),
        // a part that is cut off ends where `b` begins
        a.carve(b).0 matches Some(l) ==> l == a || l.hi() == b.lo(),
        a.carve(b).1 matches Some(r) ==> r == a || r.lo() == b.hi(),
{
    crate::bound::lemma_cut_ends(a.lo());
    crate::bound::lemma_cut_ends(a.hi());
    if cut_lt(a.lo(), b.lo()) {
        assert(EndBound::before(b.start).cut() == b.lo());
    }
    if cut_lt(b.hi(), a.hi()) {
        assert(StartBound::after(b.end).cut() == b.hi());
    }
    crate::bound::lemma_cut_lt_asymmetric(b.lo(), b.lo());
    crate::bound::lemma_cut_lt_asymmetric(b.hi(), b.hi());
    crate::bound::lemma_cut_lt_asymmetric(a.lo(), a.lo());
    crate::bound::lemma_cut_lt_asymmetric(a.hi(), a.hi());
    crate::bound::lemma_cut_chain(b.lo(), b.hi(), a.lo());
    crate::bound::lemma_cut_chain(a.hi(), b.lo(), b.hi());
    crate::bound::lemma_cut_chain(a.lo(), a.hi(), b.lo());
    crate::bound::lemma_cut_chain(b.hi(), a.lo(), a.hi());
    crate::bound::lemma_cut_chain(a.lo(), b.lo(), a.hi());
    crate::bound::lemma_cut_chain(a.lo(), b.hi(), a.hi());
    crate::bound::lemma_cut_chain(b.lo(), a.lo(), a.hi());
    crate::bound::lemma_cut_chain(a.lo(), a.hi(), b.hi());
    crate::bound::lemma_cut_chain(b.lo(), a.hi(), b.hi());
}

/// The keys of the two parts are the keys of `a` that are not in `b`.
pub proof fn lemma_carve_keys<T: Ord>(a: Interval<T>, b: Interval<T>, k: T)
    requires
        total_order::<T>(),
    ensures
        (a.contains(k) && !b.contains(k)) <==> ((a.carve(b).0 matches Some(l) && l.contains(k))
            || (a.carve(b).1 matches Some(r) && r.contains(k))),
{
    let c = Cut::Before(k);
    crate::bound::lemma_cut_ends(a.lo());
    crate::bound::lemma_cut_ends(a.hi());
    if cut_lt(a.lo(), b.lo()) {
        assert(EndBound::before(b.start).cut() == b.lo());
    }
    if cut_lt(b.hi(), a.hi()) {
        assert(StartBound::after(b.end).cut() == b.hi());
    }
    crate::bound::lemma_cut_chain(a.lo(), c, a.hi());
    crate::bound::lemma_cut_chain(b.lo(), c, b.hi());
    crate::bound::lemma_cut_chain(c, a.hi(), b.lo());
    crate::bound::lemma_cut_chain(b.hi(), a.lo(), c);
    crate::bound::lemma_cut_chain(a.lo(), b.lo(), c);
    crate::bound::lemma_cut_chain(c, b.hi(), a.hi());
    crate::bound::lemma_cut_chain(a.lo(), c, b.lo());
    crate::bound::lemma_cut_chain(b.hi(), c, a.hi());
    crate::bound::lemma_cut_chain(c, b.lo(), a.hi());
    crate::bound::lemma_cut_chain(a.lo(), b.hi(), c);
}

} // verus!
