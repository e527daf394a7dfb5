//! Putting ranges into a map, writing them over what is there, and taking
//! them out.

use super::worklist::{carve_back, fill_back, restore};
use super::IntervalMap;
use crate::bound::Cut;
use crate::bulk::{extended, first_match, lemma_extended, or_else};
use crate::carving::{
    fill_at, filled, lemma_filled, lemma_overwritten, lemma_removed, overwritten, removed,
};
use crate::interval::Interval;
use crate::order::{faithful_clone, total_order};
use crate::table::{lemma_sorted_empty, sorted};
use vstd::prelude::*;
use vstd::std_specs::convert::IntoSpec;

verus! {

impl<K: Ord + Clone, V: Clone> IntervalMap<K, V> {
    /// Puts `val` on every key of the range that has no value yet. The
    /// entries that are there stay as they are; each stretch of the range
    /// between them, before the first or after the last becomes an entry of
    /// its own. An empty range changes nothing.
    pub fn insert_impl(&mut self, interval: Interval<K>, val: V)
        requires
            old(self).wf(),
            total_order::<K>(),
            faithful_clone::<K>(),
            faithful_clone::<V>(),
        ensures
            final(self).wf(),
            final(self)@ == filled(old(self)@, interval, val),
            forall|k: K| #[trigger]
                final(self).value_at(k) == fill_at(old(self).value_at(k), interval, val, k),
    {
        proof {
            lemma_filled(self@, interval, val, Cut::PosInf);
        }
        if interval.is_empty() {
            return ;
        }
        let mut stack: Vec<(Interval<K>, V)> = Vec::new();
        fill_back(&mut self.sorted_vec, &mut stack, interval, val);
        restore(&mut self.sorted_vec, &mut stack);
        assert(old(self)@ + Seq::<(Interval<K>, V)>::empty().reverse() =~= old(self)@);
        assert(filled(old(self)@, interval, val) + Seq::<(Interval<K>, V)>::empty().reverse()
            =~= filled(old(self)@, interval, val));
    }

    /// [`IntervalMap::insert_impl`] for whatever can be read as a range.
    pub fn insert<T: Into<Interval<K>>>(&mut self, key: T, val: V)
        requires
            old(self).wf(),
            total_order::<K>(),
            faithful_clone::<K>(),
            faithful_clone::<V>(),
        ensures
            final(self).wf(),
            T::obeys_into_spec() ==> final(self)@ == filled(old(self)@, key.into_spec(), val),
            T::obeys_into_spec() ==> forall|k: K| #[trigger]
                final(self).value_at(k) == fill_at(
                    old(self).value_at(k),
                    key.into_spec(),
                    val,
                    k,
                ),
    {
        self.insert_impl(key.into(), val)
    }

    /// Puts `val` on every key of the range, whatever was there: the range
    /// becomes one entry, and of each entry that reaches into it the parts
    /// outside stay, with its value. An empty range changes nothing.
    pub fn overwrite_impl(&mut self, interval: Interval<K>, val: V)
        requires
            old(self).wf(),
            total_order::<K>(),
            faithful_clone::<K>(),
            faithful_clone::<V>(),
        ensures
            final(self).wf(),
            final(self)@ == overwritten(old(self)@, interval, val),
            forall|k: K| #[trigger]
                final(self).value_at(k) == if interval.contains(k) {
                    Some(val)
                } else {
                    old(self).value_at(k)
                },
    {
        proof {
            lemma_overwritten(self@, interval, val, Cut::PosInf);
        }
        if interval.is_empty() {
            return ;
        }
        let mut stack: Vec<(Interval<K>, V)> = Vec::new();
        carve_back(&mut self.sorted_vec, &mut stack, interval, Some(val));
        restore(&mut self.sorted_vec, &mut stack);
        assert(overwritten(old(self)@, interval, val) + Seq::<(Interval<K>, V)>::empty().reverse()
            =~= overwritten(old(self)@, interval, val));
    }

    /// [`IntervalMap::overwrite_impl`] for whatever can be read as a range.
    pub fn overwrite<T: Into<Interval<K>>>(&mut self, key: T, val: V)
        requires
            old(self).wf(),
            total_order::<K>(),
            faithful_clone::<K>(),
            faithful_clone::<V>(),
        ensures
            final(self).wf(),
            T::obeys_into_spec() ==> final(self)@ == overwritten(
                old(self)@,
                key.into_spec(),
                val,
            ),
            T::obeys_into_spec() ==> forall|k: K| #[trigger]
                final(self).value_at(k) == if key.into_spec().contains(k) {
                    Some(val)
                } else {
                    old(self).value_at(k)
                },
    {
        self.overwrite_impl(key.into(), val)
    }

    /// Leaves no key of the range with a value: of each entry that reaches
    /// into it the parts outside stay, with its value. An empty range
    /// changes nothing.
    pub fn remove_impl(&mut self, interval: Interval<K>)
        requires
            old(self).wf(),
            total_order::<K>(),
            faithful_clone::<K>(),
            faithful_clone::<V>(),
        ensures
            final(self).wf(),
            final(self)@ == removed(old(self)@, interval),
            forall|k: K| #[trigger]
                final(self).value_at(k) == if interval.contains(k) {
                    None
                } else {
                    old(self).value_at(k)
                },
    {
        proof {
            lemma_removed(self@, interval, Cut::PosInf);
        }
        if interval.is_empty() {
            return ;
        }
        let mut stack: Vec<(Interval<K>, V)> = Vec::new();
        carve_back(&mut self.sorted_vec, &mut stack, interval, None);
        restore(&mut self.sorted_vec, &mut stack);
        assert(removed(old(self)@, interval) + Seq::<(Interval<K>, V)>::empty().reverse()
            =~= removed(old(self)@, interval));
    }

    /// [`IntervalMap::remove_impl`] for whatever can be read as a range.
    pub fn remove<T: Into<Interval<K>>>(&mut self, key: T)
        requires
            old(self).wf(),
            total_order::<K>(),
            faithful_clone::<K>(),
            faithful_clone::<V>(),
        ensures
            final(self).wf(),
            T::obeys_into_spec() ==> final(self)@ == removed(old(self)@, key.into_spec()),
            T::obeys_into_spec() ==> forall|k: K| #[trigger]
                final(self).value_at(k) == if key.into_spec().contains(k) {
                    None
                } else {
                    old(self).value_at(k)
                },
    {
        self.remove_impl(key.into())
    }

    /// Puts the entries in one after the other, the first of them first,
    /// each as [`IntervalMap::insert`] does.
    pub fn extend(&mut self, entries: Vec<(Interval<K>, V)>)
        requires
            old(self).wf(),
            total_order::<K>(),
            faithful_clone::<K>(),
            faithful_clone::<V>(),
        ensures
            final(self).wf(),
            final(self)@ == extended(old(self)@, entries@),
            forall|k: K| #[trigger]
                final(self).value_at(k) == or_else(
                    old(self).value_at(k),
                    first_match(entries@, k),
                ),
    {
        let mut entries = entries;
        let ghost adds = entries@;
        let mut stack: Vec<(Interval<K>, V)> = Vec::new();
        let ghost nothing = Seq::<(Interval<K>, V)>::empty();
        assert(adds =~= entries@ + stack@.reverse());
        restore(&mut stack, &mut entries);
        assert(stack@ =~= adds.reverse());
        let ghost before = self@;
        assert(adds.take(0) =~= nothing);
        while stack.len() > 0
            invariant
                total_order::<K>(),
                faithful_clone::<K>(),
                faithful_clone::<V>(),
                sorted(before),
                stack@.len() <= adds.len(),
                stack@ == adds.reverse().take(stack@.len() as int),
                self@ == extended(before, adds.take(adds.len() - stack@.len())),
                self.wf(),
            decreases stack@.len(),
        {
            let ghost done = adds.len() - stack@.len();
            let (iv, val) = stack.pop().unwrap();
            proof {
                assert((iv, val) == adds[done]);
                assert(adds.take(done + 1).drop_last() =~= adds.take(done));
                assert(adds.take(done + 1).last() == adds[done]);
                assert(stack@ =~= adds.reverse().take(stack@.len() as int));
            }
            self.insert_impl(iv, val);
        }
        proof {
            assert(adds.take(adds.len() as int) =~= adds);
            lemma_extended(before, adds);
        }
    }

    /// The map that holds the entries, put in one after the other, the
    /// first of them first, each as [`IntervalMap::insert`] does.
    pub fn from_iter<I: Into<Interval<K>>>(entries: Vec<(I, V)>) -> (r: Self)
        requires
            total_order::<K>(),
            faithful_clone::<K>(),
            faithful_clone::<V>(),
        ensures
            r.wf(),
            I::obeys_into_spec() ==> r@ == extended(Seq::empty(), as_entries(entries@)),
            I::obeys_into_spec() ==> forall|k: K| #[trigger]
                r.value_at(k) == first_match(as_entries(entries@), k),
    {
        let mut entries = entries;
        let ghost given = entries@;
        let mut converted: Vec<(Interval<K>, V)> = Vec::new();
        while entries.len() > 0
            invariant
                entries@.len() <= given.len(),
                entries@ == given.take(entries@.len() as int),
                converted@.len() + entries@.len() == given.len(),
                I::obeys_into_spec() ==> forall|j: int|
                    0 <= j < converted@.len() ==> #[trigger] converted@[j] == (
                        given[given.len() - 1 - j].0.into_spec(),
                        given[given.len() - 1 - j].1,
                    ),
            decreases entries@.len(),
        {
            let (i, v) = entries.pop().unwrap();
            converted.push((i.into(), v));
            assert(entries@ =~= given.take(entries@.len() as int));
        }
        let mut ordered: Vec<(Interval<K>, V)> = Vec::new();
        restore(&mut ordered, &mut converted);
        let mut map = IntervalMap::new();
        proof {
            lemma_sorted_empty::<K, V>();
            if I::obeys_into_spec() {
                assert(ordered@ =~= as_entries(given));
            }
        }
        map.extend(ordered);
        map
    }
}

/// The entries that a sequence of pairs stands for, each range read as an
/// [`Interval`].
pub open spec fn as_entries<K, V, I: Into<Interval<K>>>(given: Seq<(I, V)>) -> Seq<
    (Interval<K>, V),
> {
    Seq::new(given.len(), |j: int| (given[j].0.into_spec(), given[j].1))
}

} // verus!
