//! A map from ranges of keys that do not overlap to values.
use crate::bound::{lemma_cut_order, start_lt_end};
use crate::interval::Interval;
use crate::order::total_order;
use crate::table::{lookup, sorted};
use vstd::prelude::*;

pub mod edit;
pub mod entry;
pub mod invert;
pub mod find;
pub mod range;
pub mod split;
pub mod sweep;
pub mod values;
mod worklist;

pub use self::entry::{Entry, OccupiedEntry, VacantEntry};

verus! {

/// What two maps hold over one stretch of keys: a value of the left map only,
/// of the right map only, or one of each.
#[derive(Copy, Clone, Eq, PartialEq, Ord, PartialOrd, Debug, Hash)]
pub enum MergedValue<T, U> {
    Left(T),
    Right(U),
    Both(T, U),
}

/// A map from ranges of keys to values. The ranges are kept in ascending
/// order; no two of them overlap and none is empty. Ranges that touch are
/// kept apart even where they hold equal values.
///
/// The operations ask of their caller that the map is in order
/// ([`IntervalMap::wf`]), which every operation keeps; that the keys are
/// totally ordered ([`crate::order::total_order`]); and, where keys or
/// values are copied, that a copy is what it was copied from
/// ([`crate::order::faithful_clone`]).
#[derive(Clone, Eq, PartialEq, Debug, Hash)]
pub struct IntervalMap<K, V> {
    sorted_vec: Vec<(Interval<K>, V)>,
}

impl<K, V> View for IntervalMap<K, V> {
    type V = Seq<(Interval<K>, V)>;

    /// The entries, in the order in which the map keeps them.
    closed spec fn view(&self) -> Seq<(Interval<K>, V)> {
        self.sorted_vec@
    }
}

impl<K, V> IntervalMap<K, V> {
    /// A map without entries.
    pub fn new() -> (r: Self)
        ensures
            r@ == Seq::<(Interval<K>, V)>::empty(),
    {
        IntervalMap { sorted_vec: Vec::new() }
    }

    /// The number of entries.
    pub fn len(&self) -> (r: usize)
        ensures
            r == self@.len(),
    {
        self.sorted_vec.len()
    }

    /// Whether the map has no entry.
    pub fn is_empty(&self) -> (r: bool)
        ensures
            r == (self@.len() == 0),
    {
        self.sorted_vec.len() == 0
    }

    /// A map without entries, with room for `capacity` of them.
    pub fn with_capacity(capacity: usize) -> (r: Self)
        ensures
            r@ == Seq::<(Interval<K>, V)>::empty(),
    {
        IntervalMap { sorted_vec: Vec::with_capacity(capacity) }
    }

    /// The number of entries for which the map has room. This is
    /// `Vec::capacity` of the storage; what it returns is up to the
    /// allocator, so nothing is said of it.
    #[verifier::external_body]
    pub fn capacity(&self) -> (r: usize) {
        self.sorted_vec.capacity()
    }

    /// Takes all entries out of the map.
    pub fn clear(&mut self)
        ensures
            final(self)@ == Seq::<(Interval<K>, V)>::empty(),
    {
        self.sorted_vec.clear()
    }

    /// Makes room for `additional` more entries. The entries stay as they
    /// are.
    pub fn reserve(&mut self, additional: usize)
        ensures
            final(self)@ == old(self)@,
    {
        self.sorted_vec.reserve(additional)
    }

    /// Tries to make room for `additional` more entries, and says whether
    /// the room could be had. The entries stay as they are either way.
    pub fn try_reserve(&mut self, additional: usize) -> (r: Result<
        (),
        std::collections::TryReserveError,
    >)
        ensures
            final(self)@ == old(self)@,
    {
        self.sorted_vec.try_reserve(additional)
    }

    /// Gives back the room that no entry needs. This is `Vec::shrink_to_fit`
    /// of the storage, which changes the room and not the entries.
    #[verifier::external_body]
    pub fn shrink_to_fit(&mut self)
        ensures
            final(self)@ == old(self)@,
    {
        self.sorted_vec.shrink_to_fit()
    }

    /// Gives back room down to what `min_capacity` entries need, or what
    /// the entries need that are there. This is `Vec::shrink_to` of the
    /// storage, which changes the room and not the entries.
    #[verifier::external_body]
    pub fn shrink_to(&mut self, min_capacity: usize)
        ensures
            final(self)@ == old(self)@,
    {
        self.sorted_vec.shrink_to(min_capacity)
    }

    /// Takes all entries out of the map and hands them over, in ascending
    /// order.
    pub fn drain(&mut self) -> (r: Vec<(Interval<K>, V)>)
        ensures
            r@ == old(self)@,
            final(self)@ == Seq::<(Interval<K>, V)>::empty(),
    {
        let mut taken: Vec<(Interval<K>, V)> = Vec::new();
        core::mem::swap(&mut taken, &mut self.sorted_vec);
        taken
    }

    /// The first entry, range and value.
    pub fn first_key_value(&self) -> (r: Option<(&Interval<K>, &V)>)
        ensures
            r == if self@.len() > 0 {
                Some((&self@[0].0, &self@[0].1))
            } else {
                None
            },
    {
        if self.sorted_vec.len() > 0 {
            let e = &self.sorted_vec[0];
            Some((&e.0, &e.1))
        } else {
            None
        }
    }

    /// The last entry, range and value.
    pub fn last_key_value(&self) -> (r: Option<(&Interval<K>, &V)>)
        ensures
            r == if self@.len() > 0 {
                Some((&self@.last().0, &self@.last().1))
            } else {
                None
            },
    {
        let n = self.sorted_vec.len();
        if n > 0 {
            let e = &self.sorted_vec[n - 1];
            Some((&e.0, &e.1))
        } else {
            None
        }
    }

    /// The ranges of all entries, in ascending order.
    pub fn keys(&self) -> (r: Vec<&Interval<K>>)
        ensures
            r@.len() == self@.len(),
            forall|i: int| 0 <= i < r@.len() ==> *(#[trigger] r@[i]) == self@[i].0,
    {
        let mut out: Vec<&Interval<K>> = Vec::new();
        let mut i: usize = 0;
        while i < self.sorted_vec.len()
            invariant
                i <= self@.len(),
                out@.len() == i,
                forall|j: int| 0 <= j < i ==> *(#[trigger] out@[j]) == self@[j].0,
            decreases self@.len() - i,
        {
            out.push(&self.sorted_vec[i].0);
            i = i + 1;
        }
        out
    }

    /// The values of all entries, in the ascending order of their ranges.
    pub fn values(&self) -> (r: Vec<&V>)
        ensures
            r@.len() == self@.len(),
            forall|i: int| 0 <= i < r@.len() ==> *(#[trigger] r@[i]) == self@[i].1,
    {
        let mut out: Vec<&V> = Vec::new();
        let mut i: usize = 0;
        while i < self.sorted_vec.len()
            invariant
                i <= self@.len(),
                out@.len() == i,
                forall|j: int| 0 <= j < i ==> *(#[trigger] out@[j]) == self@[j].1,
            decreases self@.len() - i,
        {
            out.push(&self.sorted_vec[i].1);
            i = i + 1;
        }
        out
    }

    /// All entries, range and value, in ascending order.
    pub fn iter(&self) -> (r: Vec<(&Interval<K>, &V)>)
        ensures
            r@.len() == self@.len(),
            forall|i: int|
                0 <= i < r@.len() ==> *(#[trigger] r@[i]).0 == self@[i].0 && *r@[i].1 == self@[i].1,
    {
        let mut out: Vec<(&Interval<K>, &V)> = Vec::new();
        let mut i: usize = 0;
        while i < self.sorted_vec.len()
            invariant
                i <= self@.len(),
                out@.len() == i,
                forall|j: int|
                    0 <= j < i ==> *(#[trigger] out@[j]).0 == self@[j].0 && *out@[j].1
                        == self@[j].1,
            decreases self@.len() - i,
        {
            let e = &self.sorted_vec[i];
            out.push((&e.0, &e.1));
            i = i + 1;
        }
        out
    }

    /// The entries, in ascending order.
    pub fn inner(&self) -> (r: &[(Interval<K>, V)])
        ensures
            r@ == self@,
    {
        self.sorted_vec.as_slice()
    }

    /// The entries, in ascending order, in place of the map.
    pub fn into_inner(self) -> (r: Vec<(Interval<K>, V)>)
        ensures
            r@ == self@,
    {
        self.sorted_vec
    }
}

impl<K: Ord, V> IntervalMap<K, V> {
    /// The entries are in ascending order, no two of them overlap, and
    /// none is empty.
    pub open spec fn wf(&self) -> bool {
        sorted(self@)
    }

    /// The value that the map gives for a key.
    pub open spec fn value_at(&self, k: K) -> Option<V> {
        lookup(self@, k)
    }

    /// The map with the given entries. The entries must be in ascending
    /// order, without overlap and without an empty range: that they are is
    /// for the caller to see to, and is not looked into here.
    pub fn from_inner_unchecked(inner: Vec<(Interval<K>, V)>) -> (r: Self)
        requires
            sorted(inner@),
        ensures
            r@ == inner@,
            r.wf(),
    {
        IntervalMap { sorted_vec: inner }
    }

    /// The map with the given entries, if they are in ascending order,
    /// without overlap and without an empty range; else the entries come
    /// back as they were given.
    pub fn from_inner(inner: Vec<(Interval<K>, V)>) -> (r: Result<Self, Vec<(Interval<K>, V)>>)
        requires
            total_order::<K>(),
        ensures
            match r {
                Ok(map) => sorted(inner@) && map@ == inner@,
                Err(given) => !sorted(inner@) && given@ == inner@,
            },
    {
        let n = inner.len();
        let mut i: usize = 0;
        proof {
            lemma_cut_order::<K>();
        }
        while i < n
            invariant
                total_order::<K>(),
                n == inner@.len(),
                i <= n,
                sorted(inner@.take(i as int)),
            decreases n - i,
        {
            let ghost done = inner@.take(i as int);
            let e = &inner[i];
            if e.0.is_empty() {
                assert(inner@[i as int].0.empty());
                return Err(inner);
            }
            if i > 0 && start_lt_end(&e.0.start, &inner[i - 1].0.end) {
                assert(!inner@[i - 1].0.below(inner@[i as int].0));
                return Err(inner);
            }
            proof {
                lemma_cut_order::<K>();
                if i > 0 {
                    assert(done.last() == inner@[i - 1]);
                    crate::table::lemma_sorted_all_below_last(done);
                    crate::table::lemma_all_below_weaken(done, done.last().0.hi(), e.0.lo());
                } else {
                    assert(crate::table::all_below(done, e.0.lo()));
                }
                crate::table::lemma_sorted_push(done, *e);
                assert(inner@.take(i + 1) =~= done.push(*e));
            }
            i = i + 1;
        }
        assert(inner@.take(n as int) =~= inner@);
        Ok(IntervalMap { sorted_vec: inner })
    }
}

impl<K, V> Default for IntervalMap<K, V> {
    /// A map without entries.
    fn default() -> (r: Self)
        ensures
            r@ == Seq::<(Interval<K>, V)>::empty(),
    {
        IntervalMap::new()
    }
}

} // verus!
