//! Turning a map into the map of its gaps.

use super::IntervalMap;
use crate::bound::{copy_bound, lemma_cut_ends, start_lt_start, Bound, EndBound, StartBound};
use crate::interval::Interval;
use crate::inverting::{gaps_from, inverted, lemma_inverted, next_start};
use crate::order::{copy_of, faithful_clone, total_order};
use vstd::prelude::*;

verus! {

impl<K: Ord + Clone, V: Clone> IntervalMap<K, V> {
    /// Turns the map into the map of its gaps: every key that had no value
    /// gets `val`, and every key that had one has none. What lies before
    /// the first entry, between two entries that do not touch, and after
    /// the last becomes an entry each; the entries take the places of the
    /// old ones in the same storage.
    pub fn invert(&mut self, val: V)
        requires
            old(self).wf(),
            total_order::<K>(),
            faithful_clone::<K>(),
            faithful_clone::<V>(),
        ensures
            final(self).wf(),
            final(self)@ == inverted(old(self)@, val),
            forall|k: K| #[trigger]
                final(self).value_at(k) == if old(self).value_at(k) is None {
                    Some(val)
                } else {
                    None
                },
    {
        let ghost given = self@;
        proof {
            lemma_inverted(given, val);
        }
        let n = self.sorted_vec.len();
        let mut from: Option<StartBound<K>> = Some(StartBound(Bound::Unbounded));
        let mut kept: usize = 0;
        let mut i: usize = 0;
        assert(self@.take(0) + gaps_from(given.skip(0), from, val) =~= inverted(given, val)) by {
            assert(given.skip(0) =~= given);
        }
        while i < n
            invariant
                total_order::<K>(),
                faithful_clone::<K>(),
                faithful_clone::<V>(),
                n == given.len(),
                self@.len() == n,
                kept <= i <= n,
                self@.skip(i as int) == given.skip(i as int),
                self@.take(kept as int) + gaps_from(given.skip(i as int), from, val) == inverted(
                    given,
                    val,
                ),
            decreases n - i,
        {
            let ghost before = self@;
            let ghost ahead = given.skip(i as int);
            let e = &self.sorted_vec[i];
            let start = StartBound(copy_bound(&e.0.start.0));
            let end = EndBound(copy_bound(&e.0.end.0));
            proof {
                assert(before[i as int] == before.skip(i as int)[0]);
                assert(ahead[0] == given[i as int]);
                assert(ahead.skip(1) =~= given.skip(i + 1));
                crate::bound::lemma_cut_ends(start.cut());
            }
            let gap = match from {
                Some(st) => {
                    proof {
                        crate::bound::lemma_cut_ends(st.cut());
                    }
                    if start_lt_start(&st, &start) {
                        let until = EndBound::from_start(start);
                        Some((Interval { start: st, end: until }, copy_of(&val)))
                    } else {
                        None
                    }
                },
                None => None,
            };
            from =
            match end.0 {
                Bound::Unbounded => None,
                _ => Some(StartBound::from_end(end)),
            };
            assert(from == next_start(given[i as int].0.end));
            match gap {
                Some(g) => {
                    self.sorted_vec.set(kept, g);
                    proof {
                        assert(self@.skip(i + 1) =~= given.skip(i + 1));
                        assert(self@.take(kept + 1) =~= before.take(kept as int) + seq![g]);
                    }
                    kept = kept + 1;
                },
                None => {
                    assert(self@.skip(i + 1) =~= given.skip(i + 1));
                },
            }
            i = i + 1;
        }
        self.sorted_vec.truncate(kept);
        proof {
            assert(given.skip(n as int) =~= Seq::empty());
        }
        match from {
            Some(st) => {
                let rest = Interval { start: st, end: EndBound(Bound::Unbounded) };
                self.sorted_vec.push((rest, val));
            },
            None => {},
        }
        assert(self@ =~= inverted(given, val));
    }
}

} // verus!
