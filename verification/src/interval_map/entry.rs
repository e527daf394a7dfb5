//! The place of one key in a map, to be read, filled or emptied.

use super::IntervalMap;
use crate::bound::{lemma_cut_order, Bound, Cut};
use crate::interval::Interval;
use crate::order::{copy_of, faithful_clone, total_order};
use crate::table::{covers, sorted};
use vstd::prelude::*;

verus! {

/// The place in a map where a key has no entry yet: the range for the one
/// key, and the index at which an entry for it would stand.
#[derive(Debug)]
pub struct VacantEntry<'a, K, V> {
    pub index: usize,
    pub interval: Interval<K>,
    pub map: &'a mut IntervalMap<K, V>,
}

/// The place in a map where an entry stands: the index of the entry.
#[derive(Debug)]
pub struct OccupiedEntry<'a, K, V> {
    pub index: usize,
    pub map: &'a mut IntervalMap<K, V>,
}

/// The place of a key in a map, with an entry or without.
#[derive(Debug)]
pub enum Entry<'a, K, V> {
    Vacant(VacantEntry<'a, K, V>),
    Occupied(OccupiedEntry<'a, K, V>),
}

/// `after` is `before` with an entry for `interval` made at `index`.
pub open spec fn made<K, V>(
    before: Seq<(Interval<K>, V)>,
    after: Seq<(Interval<K>, V)>,
    index: int,
    interval: Interval<K>,
    value: V,
) -> bool {
    after =~= before.insert(index, (interval, value))
}

/// `after` is `before` with `value` in the entry at `index`, and the range
/// of that entry as it was.
pub open spec fn revalued<K, V>(
    before: Seq<(Interval<K>, V)>,
    after: Seq<(Interval<K>, V)>,
    index: int,
    value: V,
) -> bool {
    after =~= before.update(index, (before[index].0, value))
}

impl<'a, K, V> VacantEntry<'a, K, V> {
    /// The entries of the map as they are now.
    pub open spec fn entries(&self) -> Seq<(Interval<K>, V)> {
        self.map@
    }
}

impl<'a, K, V> OccupiedEntry<'a, K, V> {
    /// The entries of the map as they are now.
    pub open spec fn entries(&self) -> Seq<(Interval<K>, V)> {
        self.map@
    }

    /// The entry that stands at the place.
    pub open spec fn current(&self) -> (Interval<K>, V) {
        self.map@[self.index as int]
    }
}

impl<'a, K: Ord, V> VacantEntry<'a, K, V> {
    /// The map is in order, and in it the range fits at the index: it
    /// holds a place, the entries before the index stop below it, and the
    /// entries from the index on begin above it.
    pub open spec fn wf(&self) -> bool {
        &&& self.map.wf()
        &&& self.index <= self.map@.len()
        &&& !self.interval.empty()
        &&& forall|j: int|
            0 <= j < self.index ==> (#[trigger] self.map@[j]).0.below(self.interval)
        &&& forall|j: int|
            self.index <= j < self.map@.len() ==> self.interval.below((#[trigger] self.map@[j]).0)
    }

    /// The range that an entry made here would have.
    pub fn key(&self) -> (r: &Interval<K>)
        ensures
            *r == self.interval,
    {
        &self.interval
    }

    /// The range that an entry made here would have, in place of the
    /// entry.
    pub fn into_key(self) -> (r: Interval<K>)
        ensures
            r == self.interval,
    {
        self.interval
    }

    /// Makes the entry, with the value, and hands out the value in the
    /// map.
    pub fn insert(self, value: V) -> (r: &'a mut V)
        requires
            self.wf(),
            total_order::<K>(),
        ensures
            *r == value,
            made(self.entries(), final(self.map)@, self.index as int, self.interval, *final(r)),
            final(self.map).wf(),
    {
        let ghost before = self.map@;
        proof {
            assert forall|w: V|
                sorted(#[trigger] before.insert(self.index as int, (self.interval, w))) by {
                lemma_sorted_insert(before, self.index as int, (self.interval, w));
            }
        }
        self.map.sorted_vec.insert(self.index, (self.interval, value));
        &mut self.map.sorted_vec[self.index].1
    }
}

impl<'a, K: Ord, V> OccupiedEntry<'a, K, V> {
    /// The map is in order and has an entry at the index.
    pub open spec fn wf(&self) -> bool {
        &&& self.map.wf()
        &&& self.index < self.map@.len()
    }

    /// The range of the entry.
    pub fn key(&self) -> (r: &Interval<K>)
        requires
            self.wf(),
        ensures
            *r == self.current().0,
    {
        &self.map.sorted_vec[self.index].0
    }

    /// The value of the entry.
    pub fn get(&self) -> (r: &V)
        requires
            self.wf(),
        ensures
            *r == self.current().1,
    {
        &self.map.sorted_vec[self.index].1
    }

    /// The value of the entry, to be changed in place, in place of the
    /// entry.
    pub fn into_mut(self) -> (r: &'a mut V)
        requires
            self.wf(),
        ensures
            *r == self.current().1,
            revalued(self.entries(), final(self.map)@, self.index as int, *final(r)),
            final(self.map).wf(),
    {
        proof {
            assert forall|w: V|
                sorted(
                    #[trigger] self.map@.update(
                        self.index as int,
                        (self.map@[self.index as int].0, w),
                    ),
                ) by {
                crate::table::lemma_sorted_revalued(self.map@, self.index as int, w);
            }
        }
        &mut self.map.sorted_vec[self.index].1
    }

    /// The value of the entry, to be changed in place. The entry stays
    /// where it is.
    pub fn get_mut(&mut self) -> (r: &mut V)
        requires
            old(self).wf(),
        ensures
            *r == old(self).current().1,
            final(self).index == old(self).index,
            revalued(old(self).entries(), final(self).entries(), old(self).index as int, *final(r)),
            final(final(self).map)@ == final(old(self).map)@,
            final(self).wf(),
    {
        proof {
            assert forall|w: V|
                sorted(
                    #[trigger] self.map@.update(
                        self.index as int,
                        (self.map@[self.index as int].0, w),
                    ),
                ) by {
                crate::table::lemma_sorted_revalued(self.map@, self.index as int, w);
            }
        }
        &mut self.map.sorted_vec[self.index].1
    }

    /// Puts another value in the entry and hands over the one that was
    /// there. The entry stays where it is.
    pub fn insert(&mut self, value: V) -> (r: V)
        requires
            old(self).wf(),
        ensures
            r == old(self).current().1,
            final(self).index == old(self).index,
            revalued(old(self).entries(), final(self).entries(), old(self).index as int, value),
            final(final(self).map)@ == final(old(self).map)@,
            final(self).wf(),
    {
        proof {
            crate::table::lemma_sorted_revalued(self.map@, self.index as int, value);
        }
        let mut value = value;
        core::mem::swap(&mut self.map.sorted_vec[self.index].1, &mut value);
        value
    }

    /// Takes the entry out of the map and hands it over, range and value.
    pub fn remove_entry(self) -> (r: (Interval<K>, V))
        requires
            self.wf(),
        ensures
            r == self.current(),
            final(self.map)@ == self.entries().remove(self.index as int),
            final(self.map).wf(),
    {
        proof {
            lemma_sorted_remove(self.map@, self.index as int);
        }
        self.map.sorted_vec.remove(self.index)
    }

    /// Takes the entry out of the map and hands over its value.
    pub fn remove(self) -> (r: V)
        requires
            self.wf(),
        ensures
            r == self.current().1,
            final(self.map)@ == self.entries().remove(self.index as int),
            final(self.map).wf(),
    {
        self.remove_entry().1
    }
}

impl<'a, K: Ord, V> Entry<'a, K, V> {
    /// The entry stands for a sound place in a map in order.
    pub open spec fn wf(&self) -> bool {
        match self {
            Entry::Vacant(v) => v.wf(),
            Entry::Occupied(o) => o.wf(),
        }
    }

    /// The range of the entry that is there, or of the one that would be
    /// made.
    pub fn key(&self) -> (r: &Interval<K>)
        requires
            self.wf(),
        ensures
            *r == (match self {
                Entry::Vacant(v) => v.interval,
                Entry::Occupied(o) => o.current().0,
            }),
    {
        match self {
            Entry::Vacant(v) => v.key(),
            Entry::Occupied(o) => o.key(),
        }
    }

    /// The value of the entry; where there is none, the entry is made
    /// first, with `default` as its value.
    pub fn or_insert(self, default: V) -> (r: &'a mut V)
        requires
            self.wf(),
            total_order::<K>(),
        ensures
            match self {
                Entry::Vacant(v) => {
                    &&& *r == default
                    &&& made(v.entries(), final(v.map)@, v.index as int, v.interval, *final(r))
                    &&& final(v.map).wf()
                },
                Entry::Occupied(o) => {
                    &&& *r == o.current().1
                    &&& revalued(o.entries(), final(o.map)@, o.index as int, *final(r))
                    &&& final(o.map).wf()
                },
            },
    {
        match self {
            Entry::Vacant(v) => v.insert(default),
            Entry::Occupied(o) => o.into_mut(),
        }
    }

    /// The value of the entry; where there is none, the entry is made
    /// first, with what `default` returns as its value. Where there is
    /// one, `default` is not called.
    pub fn or_insert_with<F: FnOnce() -> V>(self, default: F) -> (r: &'a mut V)
        requires
            self.wf(),
            total_order::<K>(),
            self is Vacant ==> default.requires(()),
        ensures
            match self {
                Entry::Vacant(v) => {
                    &&& default.ensures((), *r)
                    &&& made(v.entries(), final(v.map)@, v.index as int, v.interval, *final(r))
                    &&& final(v.map).wf()
                },
                Entry::Occupied(o) => {
                    &&& *r == o.current().1
                    &&& revalued(o.entries(), final(o.map)@, o.index as int, *final(r))
                    &&& final(o.map).wf()
                },
            },
    {
        match self {
            Entry::Vacant(v) => v.insert(default()),
            Entry::Occupied(o) => o.into_mut(),
        }
    }

    /// The value of the entry; where there is none, the entry is made
    /// first, with the default value of `V`.
    pub fn or_default(self) -> (r: &'a mut V) where V: Default
        requires
            self.wf(),
            total_order::<K>(),
            self is Vacant ==> call_requires(V::default, ()),
        ensures
            match self {
                Entry::Vacant(v) => {
                    &&& call_ensures(V::default, (), *r)
                    &&& made(v.entries(), final(v.map)@, v.index as int, v.interval, *final(r))
                    &&& final(v.map).wf()
                },
                Entry::Occupied(o) => {
                    &&& *r == o.current().1
                    &&& revalued(o.entries(), final(o.map)@, o.index as int, *final(r))
                    &&& final(o.map).wf()
                },
            },
    {
        match self {
            Entry::Vacant(v) => v.insert(V::default()),
            Entry::Occupied(o) => o.into_mut(),
        }
    }

    /// Lets `f` change the value of the entry, where there is an entry.
    /// Where there is none, `f` is not called. What comes back is the same
    /// place in the same map.
    pub fn and_modify<F: FnOnce(&mut V)>(self, f: F) -> (r: Entry<'a, K, V>)
        requires
            self.wf(),
            self matches Entry::Occupied(o) ==> forall|slot: &mut V|
                *slot == o.current().1 ==> #[trigger] call_requires(f, (slot,)),
        ensures
            r.wf(),
            match self {
                Entry::Vacant(v) => {
                    &&& r matches Entry::Vacant(w)
                    &&& w.index == v.index
                    &&& w.interval == v.interval
                    &&& w.entries() == v.entries()
                    &&& final(w.map)@ == final(v.map)@
                },
                Entry::Occupied(o) => {
                    &&& r matches Entry::Occupied(p)
                    &&& p.index == o.index
                    &&& final(p.map)@ == final(o.map)@
                    &&& exists|slot: &mut V|
                        {
                            &&& *slot == o.current().1
                            &&& #[trigger] call_ensures(f, (slot,), ())
                            &&& revalued(o.entries(), p.entries(), o.index as int, *final(slot))
                        }
                },
            },
    {
        match self {
            Entry::Occupied(o) => {
                let mut o = o;
                let slot = o.get_mut();
                f(slot);
                Entry::Occupied(o)
            },
            Entry::Vacant(v) => Entry::Vacant(v),
        }
    }
}

/// An entry with a range that fits between its neighbours keeps a sequence
/// in order.
proof fn lemma_sorted_insert<K: Ord, V>(s: Seq<(Interval<K>, V)>, i: int, e: (Interval<K>, V))
    requires
        sorted(s),
        0 <= i <= s.len(),
        !e.0.empty(),
        forall|j: int| 0 <= j < i ==> (#[trigger] s[j]).0.below(e.0),
        forall|j: int| i <= j < s.len() ==> e.0.below((#[trigger] s[j]).0),
    ensures
        sorted(s.insert(i, e)),
{
    let t = s.insert(i, e);
    assert forall|a: int, b: int| 0 <= a < b < t.len() implies (#[trigger] t[a]).0.below(
        (#[trigger] t[b]).0,
    ) by {
        let a0 = if a < i {
            a
        } else {
            a - 1
        };
        let b0 = if b < i {
            b
        } else {
            b - 1
        };
        if a == i {
            assert(e.0.below(s[b0].0));
        } else if b == i {
            assert(s[a0].0.below(e.0));
        } else {
            assert(s[a0].0.below(s[b0].0));
        }
    }
    assert forall|a: int| 0 <= a < t.len() implies !(#[trigger] t[a]).0.empty() by {
        if a < i {
            assert(!s[a].0.empty());
        } else if a > i {
            assert(!s[a - 1].0.empty());
        }
    }
}

/// Without one of its entries a sequence in order stays in order.
proof fn lemma_sorted_remove<K: Ord, V>(s: Seq<(Interval<K>, V)>, i: int)
    requires
        sorted(s),
        0 <= i < s.len(),
    ensures
        sorted(s.remove(i)),
{
    let t = s.remove(i);
    assert forall|a: int, b: int| 0 <= a < b < t.len() implies (#[trigger] t[a]).0.below(
        (#[trigger] t[b]).0,
    ) by {
        let a0 = if a < i {
            a
        } else {
            a + 1
        };
        let b0 = if b < i {
            b
        } else {
            b + 1
        };
        assert(s[a0].0.below(s[b0].0));
    }
    assert forall|a: int| 0 <= a < t.len() implies !(#[trigger] t[a]).0.empty() by {
        if a < i {
            assert(!s[a].0.empty());
        } else {
            assert(!s[a + 1].0.empty());
        }
    }
}

impl<K: Ord + Clone, V> IntervalMap<K, V> {
    /// The place of the key in the map: the entry that holds it, or the
    /// place where an entry for this one key would stand.
    pub fn entry(&mut self, key: K) -> (r: Entry<'_, K, V>)
        requires
            old(self).wf(),
            total_order::<K>(),
            faithful_clone::<K>(),
        ensures
            r.wf(),
            match r {
                Entry::Occupied(o) => {
                    &&& o.entries() == old(self)@
                    &&& o.current().0.contains(key)
                    &&& final(o.map)@ == final(self)@
                },
                Entry::Vacant(v) => {
                    &&& v.entries() == old(self)@
                    &&& v.interval == Interval::point(key)
                    &&& !covers(old(self)@, key)
                    &&& final(v.map)@ == final(self)@
                },
            },
    {
        match self.search(&key) {
            Ok(i) => Entry::Occupied(OccupiedEntry { index: i, map: self }),
            Err(i) => {
                let interval = Interval::new(Bound::Included(copy_of(&key)), Bound::Included(key));
                proof {
                    lemma_cut_order::<K>();
                    crate::bound::lemma_cut_beside(key, Cut::NegInf);
                    assert forall|j: int| i <= j < self@.len() implies interval.below(
                        (#[trigger] self@[j]).0,
                    ) by {
                        crate::bound::lemma_cut_beside(key, self@[j].0.lo());
                    }
                }
                Entry::Vacant(VacantEntry { index: i, interval, map: self })
            },
        }
    }
}

impl<K: Ord, V> IntervalMap<K, V> {
    /// The place of the first entry, if the map has one.
    pub fn first_entry(&mut self) -> (r: Option<OccupiedEntry<'_, K, V>>)
        requires
            old(self).wf(),
        ensures
            match r {
                Some(o) => {
                    &&& o.wf()
                    &&& o.index == 0
                    &&& o.entries() == old(self)@
                    &&& final(o.map)@ == final(self)@
                },
                None => old(self)@.len() == 0 && final(self)@ == old(self)@,
            },
    {
        if self.sorted_vec.len() > 0 {
            Some(OccupiedEntry { index: 0, map: self })
        } else {
            None
        }
    }

    /// The place of the last entry, if the map has one.
    pub fn last_entry(&mut self) -> (r: Option<OccupiedEntry<'_, K, V>>)
        requires
            old(self).wf(),
        ensures
            match r {
                Some(o) => {
                    &&& o.wf()
                    &&& o.index == old(self)@.len() - 1
                    &&& o.entries() == old(self)@
                    &&& final(o.map)@ == final(self)@
                },
                None => old(self)@.len() == 0 && final(self)@ == old(self)@,
            },
    {
        let n = self.sorted_vec.len();
        if n > 0 {
            Some(OccupiedEntry { index: n - 1, map: self })
        } else {
            None
        }
    }
}

} // verus!
