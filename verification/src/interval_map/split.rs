//! Splitting a map in two at a key.

use super::IntervalMap;
use crate::bound::{
    cut_le, lemma_cut_ends, lemma_cut_order, start_lt_key, Bound, Cut, EndBound, StartBound,
};
use crate::carving::{
    from_key, lemma_key_ranges, lemma_removed, lemma_removed_inside, lemma_removed_lower,
    lemma_removed_upper, removed, up_to_key,
};
use crate::interval::Interval;
use crate::order::{copy_of, faithful_clone, lt, total_order};
use crate::table::lemma_sorted_take;
use vstd::prelude::*;

verus! {

impl<K: Ord + Clone, V: Clone> IntervalMap<K, V> {
    /// Splits the map at `key`: what lies below `key` stays, what lies at
    /// `key` or above it leaves with the map that is returned. An entry
    /// that holds keys on both sides is cut in two at `key`, and both parts
    /// have its value.
    pub fn split_off(&mut self, key: K) -> (r: Self)
        requires
            old(self).wf(),
            total_order::<K>(),
            faithful_clone::<K>(),
            faithful_clone::<V>(),
        ensures
            final(self).wf(),
            r.wf(),
            final(self)@ == removed(old(self)@, from_key(key)),
            r@ == removed(old(self)@, up_to_key(key)),
            forall|k: K| #[trigger]
                final(self).value_at(k) == if lt(k, key) {
                    old(self).value_at(k)
                } else {
                    None
                },
            forall|k: K| #[trigger]
                r.value_at(k) == if lt(k, key) {
                    None
                } else {
                    old(self).value_at(k)
                },
    {
        let ghost s = self@;
        let ghost upper = from_key(key);
        let ghost lower = up_to_key(key);
        proof {
            lemma_cut_order::<K>();
            lemma_key_ranges(key);
            lemma_removed(s, upper, Cut::PosInf);
            lemma_removed(s, lower, Cut::PosInf);
        }
        let found = self.search(&key);
        let at = match found {
            Ok(i) => i,
            Err(i) => i,
        };
        let straddles = match found {
            Ok(i) => start_lt_key(&self.sorted_vec[i].0.start, &key),
            Err(_) => false,
        };
        if straddles {
            assert(found is Ok && at < self.sorted_vec.len());
            proof {
                assert forall|j: int| at + 1 <= j < s.len() implies cut_le(
                    Cut::Before(key),
                    (#[trigger] s[j]).0.lo(),
                ) by {
                    assert(s[at as int].0.below(s[j].0));
                }
                assert forall|j: int| 0 <= j < s.take(at as int).len() implies cut_le(
                    (#[trigger] s.take(at as int)[j]).0.hi(),
                    lower.hi(),
                ) by {
                    assert(s[j].0.below(s[at as int].0));
                }
                crate::table::lemma_sorted_take(s, at + 1);
                crate::table::lemma_sorted_take(s, at as int);
                lemma_removed_upper(s, upper, at + 1);
                lemma_removed_lower(s, lower, at + 1);
                lemma_removed_inside(s.take(at as int), lower);
                assert(s.take(at + 1).drop_last() =~= s.take(at as int));
                assert(s.take(at + 1).last() == s[at as int]);
                lemma_cut_ends(s[at as int].0.lo());
                lemma_cut_ends(s[at as int].0.hi());
                lemma_cut_ends(Cut::Before(key));
            }
            let mut right = self.sorted_vec.split_off(at + 1);
            let (iv, v) = self.sorted_vec.pop().unwrap();
            let Interval { start, end } = iv;
            let stop = EndBound::from_start(StartBound(Bound::Included(copy_of(&key))));
            self.sorted_vec.push((Interval { start, end: stop }, copy_of(&v)));
            let begin = StartBound::from_end(EndBound(Bound::Excluded(key)));
            right.insert(0, (Interval { start: begin, end }, v));
            proof {
                assert(self@ =~= removed(s, upper));
                assert(right@ =~= removed(s, lower));
            }
            IntervalMap { sorted_vec: right }
        } else {
            proof {
                assert forall|j: int| at <= j < s.len() implies cut_le(
                    Cut::Before(key),
                    (#[trigger] s[j]).0.lo(),
                ) by {
                    if found is Ok && j > at {
                        assert(s[at as int].0.below(s[j].0));
                    }
                }
                assert forall|j: int| 0 <= j < s.take(at as int).len() implies cut_le(
                    (#[trigger] s.take(at as int)[j]).0.hi(),
                    lower.hi(),
                ) by {
                    if found is Ok {
                        assert(s[j].0.below(s[at as int].0));
                    } else {
                        assert(cut_le(s[j].0.hi(), Cut::Before(key)));
                    }
                }
                crate::table::lemma_sorted_take(s, at as int);
                lemma_removed_upper(s, upper, at as int);
                lemma_removed_lower(s, lower, at as int);
                lemma_removed_inside(s.take(at as int), lower);
                if at > 0 {
                    let e = s.take(at as int).last();
                    assert(e == s.take(at as int)[at - 1]);
                    assert(cut_le(e.0.hi(), Cut::Before(key)));
                    assert(e.0.carve(upper) == (Some(e.0), None::<Interval<K>>));
                    assert(s.take(at as int).drop_last().push(e) =~= s.take(at as int));
                }
            }
            let right = self.sorted_vec.split_off(at);
            proof {
                assert(self@ =~= removed(s, upper));
                assert(right@ =~= removed(s, lower));
            }
            IntervalMap { sorted_vec: right }
        }
    }
}

} // verus!
