//! Finding the entry that holds a key.

use super::IntervalMap;
use crate::bound::{cut_le, cut_lt, key_lt_end, lemma_cut_order, start_le_key, Cut};
use crate::interval::Interval;
use crate::order::total_order;
use crate::table::{covers, lemma_lookup_at, lemma_lookup_covers, sorted};
use vstd::prelude::*;

verus! {

impl<K: Ord, V> IntervalMap<K, V> {
    /// Looks for the entry that holds the key: `Ok` with its index, or `Err`
    /// with the index at which an entry for the key would stand.
    pub(super) fn search(&self, key: &K) -> (r: Result<usize, usize>)
        requires
            self.wf(),
            total_order::<K>(),
        ensures
            match r {
                Ok(i) => i < self@.len() && self@[i as int].0.contains(*key),
                Err(i) => i <= self@.len() && !covers(self@, *key) && (forall|j: int|
                    0 <= j < i ==> cut_le((#[trigger] self@[j]).0.hi(), Cut::Before(*key)))
                    && (forall|j: int|
                    i <= j < self@.len() ==> cut_lt(
                        Cut::Before(*key),
                        (#[trigger] self@[j]).0.lo(),
                    )),
            },
    {
        let n = self.sorted_vec.len();
        let mut lo: usize = 0;
        let mut hi: usize = n;
        proof {
            lemma_cut_order::<K>();
        }
        while lo < hi
            invariant
                lo <= hi <= n,
                n == self@.len(),
                self.wf(),
                total_order::<K>(),
                forall|j: int|
                    0 <= j < lo ==> cut_le((#[trigger] self@[j]).0.hi(), Cut::Before(*key)),
                forall|j: int|
                    hi <= j < n ==> cut_lt(Cut::Before(*key), (#[trigger] self@[j]).0.lo()),
            decreases hi - lo,
        {
            let mid = lo + (hi - lo) / 2;
            let e = &self.sorted_vec[mid];
            proof {
                lemma_cut_order::<K>();
                assert(!self@[mid as int].0.empty());
            }
            if !start_le_key(&e.0.start, key) {
                assert forall|j: int| mid <= j < n implies cut_lt(
                    Cut::Before(*key),
                    (#[trigger] self@[j]).0.lo(),
                ) by {
                    if j > mid {
                        assert(self@[mid as int].0.below(self@[j].0));
                    }
                }
                hi = mid;
            } else if key_lt_end(key, &e.0.end) {
                return Ok(mid);
            } else {
                assert forall|j: int| 0 <= j < mid + 1 implies cut_le(
                    (#[trigger] self@[j]).0.hi(),
                    Cut::Before(*key),
                ) by {
                    if j < mid {
                        assert(self@[j].0.below(self@[mid as int].0));
                    }
                }
                lo = mid + 1;
            }
        }
        assert forall|j: int| 0 <= j < n implies !(#[trigger] self@[j]).0.contains(*key) by {
            if j < lo {
                assert(cut_le(self@[j].0.hi(), Cut::Before(*key)));
            } else {
                assert(cut_lt(Cut::Before(*key), self@[j].0.lo()));
            }
        }
        Err(lo)
    }

    /// The value of the one entry that holds the key, if there is one.
    pub fn get(&self, key: &K) -> (r: Option<&V>)
        requires
            self.wf(),
            total_order::<K>(),
        ensures
            match r {
                Some(v) => self.value_at(*key) == Some(*v) && exists|i: int|
                    0 <= i < self@.len() && (#[trigger] self@[i]).0.contains(*key) && self@[i].1
                        == *v,
                None => self.value_at(*key) is None && !covers(self@, *key),
            },
    {
        proof {
            lemma_lookup_covers(self@, *key);
        }
        match self.search(key) {
            Ok(i) => {
                proof {
                    lemma_lookup_at(self@, i as int, *key);
                }
                Some(&self.sorted_vec[i].1)
            },
            Err(_) => None,
        }
    }

    /// The one entry that holds the key, range and value, if there is one.
    pub fn get_key_value(&self, key: &K) -> (r: Option<(&Interval<K>, &V)>)
        requires
            self.wf(),
            total_order::<K>(),
        ensures
            match r {
                Some((iv, v)) => self.value_at(*key) == Some(*v) && iv.contains(*key) && exists|
                    i: int,
                | 0 <= i < self@.len() && #[trigger] self@[i] == (*iv, *v),
                None => self.value_at(*key) is None && !covers(self@, *key),
            },
    {
        proof {
            lemma_lookup_covers(self@, *key);
        }
        match self.search(key) {
            Ok(i) => {
                proof {
                    lemma_lookup_at(self@, i as int, *key);
                }
                let e = &self.sorted_vec[i];
                assert(self@[i as int] == (e.0, e.1));
                Some((&e.0, &e.1))
            },
            Err(_) => None,
        }
    }

    /// The value of the entry that holds the key, to be changed in place,
    /// if there is such an entry. The ranges stay as they are.
    pub fn get_mut(&mut self, key: &K) -> (r: Option<&mut V>)
        requires
            old(self).wf(),
            total_order::<K>(),
        ensures
            match r {
                Some(v) => old(self).value_at(*key) == Some(*v) && exists|i: int|
                    0 <= i < old(self)@.len() && (#[trigger] old(self)@[i]).0.contains(*key)
                        && final(self)@ == old(self)@.update(i, (old(self)@[i].0, *final(v))),
                None => old(self).value_at(*key) is None && !covers(old(self)@, *key)
                    && final(self)@ == old(self)@,
            },
            final(self).wf(),
    {
        proof {
            lemma_lookup_covers(self@, *key);
        }
        match self.search(key) {
            Ok(i) => {
                proof {
                    lemma_lookup_at(self@, i as int, *key);
                    assert forall|w: V|
                        sorted(#[trigger] self@.update(i as int, (self@[i as int].0, w))) by {
                        crate::table::lemma_sorted_revalued(self@, i as int, w);
                    }
                }
                Some(&mut self.sorted_vec[i].1)
            },
            Err(_) => None,
        }
    }

    /// The value of the entry that holds the key. There must be such an
    /// entry.
    pub fn index(&self, key: &K) -> (r: &V)
        requires
            self.wf(),
            total_order::<K>(),
            covers(self@, *key),
        ensures
            self.value_at(*key) == Some(*r),
    {
        proof {
            lemma_lookup_covers(self@, *key);
        }
        match self.search(key) {
            Ok(i) => {
                proof {
                    lemma_lookup_at(self@, i as int, *key);
                }
                &self.sorted_vec[i].1
            },
            Err(_) => unreached(),
        }
    }

    /// Whether some entry holds the key.
    pub fn contains_key(&self, key: &K) -> (r: bool)
        requires
            self.wf(),
            total_order::<K>(),
        ensures
            r == covers(self@, *key),
            r == self.value_at(*key).is_some(),
    {
        proof {
            lemma_lookup_covers(self@, *key);
        }
        match self.search(key) {
            Ok(i) => true,
            Err(_) => false,
        }
    }
}

} // verus!
