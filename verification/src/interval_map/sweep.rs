//! Two maps worked into one in a single sweep over both.

use super::worklist::{fill_back, lemma_all_above_reverse, restore};
use super::{IntervalMap, MergedValue};
use crate::bound::{
    copy_bound, cut_le, end_lt_end, lemma_cut_ends, lemma_cut_order, start_lt_end, start_lt_start,
    Cut, EndBound, StartBound,
};
use crate::bulk::{appended, lemma_appended, lemma_appended_to_empty, lemma_filled_under, or_else};
use crate::interval::Interval;
use crate::merging::{
    after_cut, common_start, lead, lemma_merged, merge_at, merged, tag_left, tag_right,
};
use crate::order::{copy_of, faithful_clone, total_order};
use crate::table::{
    all_above, all_below, lemma_all_above_weaken, lemma_sorted_drop_last, lemma_sorted_take,
    sorted,
};
use vstd::prelude::*;

verus! {

impl<K: Ord + Clone, V: Clone> IntervalMap<K, V> {
    /// Works the entries of `other` into the map and leaves `other` empty.
    /// Where both maps hold a key, it keeps the value it has in `self`.
    /// The outcome is that of putting in the entries of `other` one by one,
    /// the last of them first, each as [`IntervalMap::insert_impl`] does;
    /// the work is one sweep over both maps from their upper ends, and a map
    /// without entries takes the storage of `other` as it is.
    pub fn append(&mut self, other: &mut Self)
        requires
            old(self).wf(),
            old(other).wf(),
            total_order::<K>(),
            faithful_clone::<K>(),
            faithful_clone::<V>(),
        ensures
            final(self).wf(),
            final(other)@.len() == 0,
            final(self)@ == appended(old(self)@, old(other)@),
            forall|k: K| #[trigger]
                final(self).value_at(k) == or_else(old(self).value_at(k), old(other).value_at(k)),
    {
        let ghost a = self@;
        let ghost b = other@;
        proof {
            lemma_appended(a, b);
        }
        if self.sorted_vec.len() == 0 {
            core::mem::swap(&mut self.sorted_vec, &mut other.sorted_vec);
            proof {
                assert(a =~= Seq::empty());
                lemma_appended_to_empty(b);
            }
            return ;
        }
        let mut stack: Vec<(Interval<K>, V)> = Vec::new();
        let ghost mut c: Cut<K> = Cut::PosInf;
        proof {
            assert(self@ + stack@.reverse() =~= a);
            assert forall|i: int| 0 <= i < b.len() implies cut_le((#[trigger] b[i]).0.hi(), c) by {
                crate::bound::lemma_cut_ends(b[i].0.hi());
            }
            assert(self@ =~= a.take(self@.len() as int));
            assert(other@ =~= b.take(other@.len() as int));
        }
        while other.sorted_vec.len() > 0
            invariant
                total_order::<K>(),
                faithful_clone::<K>(),
                faithful_clone::<V>(),
                sorted(a),
                sorted(b),
                self@.len() <= a.len(),
                self@ == a.take(self@.len() as int),
                other@.len() <= b.len(),
                other@ == b.take(other@.len() as int),
                all_above(stack@, c),
                all_below(other@, c),
                appended(self@ + stack@.reverse(), other@) == appended(a, b),
            decreases other@.len(),
        {
            let ghost s = self@;
            let ghost st = stack@;
            let ghost rem = other@;
            proof {
                lemma_sorted_take(a, s.len() as int);
                lemma_sorted_take(b, rem.len() as int);
                lemma_sorted_drop_last(rem);
            }
            let (iv, val) = other.sorted_vec.pop().unwrap();
            proof {
                lemma_cut_order::<K>();
                assert(other@ =~= rem.drop_last());
                assert(rem.last() == (iv, val));
                assert(cut_le(rem[rem.len() - 1].0.hi(), c));
                lemma_all_above_reverse(st, iv.hi());
                lemma_all_above_weaken(st, c, iv.hi());
                lemma_all_above_weaken(st, c, iv.lo());
                lemma_filled_under(s, st.reverse(), iv, val);
            }
            fill_back(&mut self.sorted_vec, &mut stack, iv, val);
            proof {
                c = iv.lo();
                assert(self@ =~= a.take(self@.len() as int));
                assert(other@ =~= b.take(other@.len() as int));
            }
        }
        restore(&mut self.sorted_vec, &mut stack);
    }
}

/// A copy of the entry at `i`, if there is one.
fn fetch<K: Clone, V: Clone>(v: &Vec<(Interval<K>, V)>, i: usize) -> (r: Option<(Interval<K>, V)>)
    requires
        faithful_clone::<K>(),
        faithful_clone::<V>(),
    ensures
        r == if i < v@.len() {
            Some(v@[i as int])
        } else {
            None
        },
{
    if i < v.len() {
        let e = &v[i];
        Some(
            (
                Interval {
                    start: StartBound(copy_bound(&e.0.start.0)),
                    end: EndBound(copy_bound(&e.0.end.0)),
                },
                copy_of(&e.1),
            ),
        )
    } else {
        None
    }
}

/// What is still to be merged of one map: the entry at hand, then the
/// entries from `i` on.
spec fn pending<K, V>(head: Option<(Interval<K>, V)>, s: Seq<(Interval<K>, V)>, i: int) -> Seq<
    (Interval<K>, V),
> {
    match head {
        Some(e) => seq![e] + s.skip(i),
        None => Seq::empty(),
    }
}

impl<K: Ord + Clone, V: Clone> IntervalMap<K, V> {
    /// The two maps laid over one another. Over every stretch of keys the
    /// new map holds what the two hold there: a value of `self` tagged
    /// `Left`, one of `other` tagged `Right`, or both. A new entry begins
    /// wherever an entry of either map begins or ends.
    pub fn merge<V2: Clone>(&self, other: &IntervalMap<K, V2>) -> (r: IntervalMap<
        K,
        MergedValue<V, V2>,
    >)
        requires
            self.wf(),
            other.wf(),
            total_order::<K>(),
            faithful_clone::<K>(),
            faithful_clone::<V>(),
            faithful_clone::<V2>(),
        ensures
            r.wf(),
            r@ == merged(self@, other@),
            forall|k: K| #[trigger]
                r.value_at(k) == merge_at(self.value_at(k), other.value_at(k)),
    {
        let ghost a = self@;
        let ghost b = other@;
        let n1 = self.sorted_vec.len();
        let n2 = other.sorted_vec.len();
        let mut inner: Vec<(Interval<K>, MergedValue<V, V2>)> = Vec::new();
        let mut x1 = fetch(&self.sorted_vec, 0);
        let mut x2 = fetch(&other.sorted_vec, 0);
        let mut i: usize = if n1 > 0 {
            1
        } else {
            0
        };
        let mut j: usize = if n2 > 0 {
            1
        } else {
            0
        };
        proof {
            assert(pending(x1, a, i as int) =~= a);
            assert(pending(x2, b, j as int) =~= b);
            assert(inner@ + merged(a, b) =~= merged(a, b));
            lemma_cut_ends(Cut::<K>::NegInf);
            assert forall|t: int| 0 <= t < a.len() implies cut_le(
                Cut::NegInf,
                (#[trigger] a[t]).0.lo(),
            ) by {
                lemma_cut_ends(a[t].0.lo());
            }
            assert forall|t: int| 0 <= t < b.len() implies cut_le(
                Cut::NegInf,
                (#[trigger] b[t]).0.lo(),
            ) by {
                lemma_cut_ends(b[t].0.lo());
            }
            lemma_merged(a, b, Cut::NegInf);
        }
        while x1.is_some() && x2.is_some()
            invariant
                total_order::<K>(),
                faithful_clone::<K>(),
                faithful_clone::<V>(),
                faithful_clone::<V2>(),
                a == self@,
                b == other@,
                n1 == a.len(),
                n2 == b.len(),
                i <= n1,
                j <= n2,
                x1 is None ==> i == n1,
                x2 is None ==> j == n2,
                inner@ + merged(pending(x1, a, i as int), pending(x2, b, j as int)) == merged(a, b),
            decreases pending(x1, a, i as int).len() + pending(x2, b, j as int).len(),
        {
            let ghost ca = pending(x1, a, i as int);
            let ghost cb = pending(x2, b, j as int);
            let ghost done = inner@;
            let (i1, v1) = x1.unwrap();
            let (i2, v2) = x2.unwrap();
            proof {
                assert(ca[0] == (i1, v1));
                assert(cb[0] == (i2, v2));
                assert(ca.skip(1) =~= a.skip(i as int));
                assert(cb.skip(1) =~= b.skip(j as int));
                lemma_cut_ends(i1.hi());
                lemma_cut_ends(i2.hi());
                lemma_cut_ends(i1.lo());
                lemma_cut_ends(i2.lo());
            }
            if !start_lt_end(&i2.start, &i1.end) {
                inner.push((i1, MergedValue::Left(v1)));
                x2 = Some((i2, v2));
                x1 = fetch(&self.sorted_vec, i);
                if i < n1 {
                    i = i + 1;
                }
                proof {
                    assert(pending(x1, a, i as int) =~= ca.skip(1));
                    assert(pending(x2, b, j as int) =~= cb);
                    assert(inner@ + merged(ca.skip(1), cb) =~= done + merged(ca, cb));
                }
            } else if !start_lt_end(&i1.start, &i2.end) {
                inner.push((i2, MergedValue::Right(v2)));
                x1 = Some((i1, v1));
                x2 = fetch(&other.sorted_vec, j);
                if j < n2 {
                    j = j + 1;
                }
                proof {
                    assert(pending(x1, a, i as int) =~= ca);
                    assert(pending(x2, b, j as int) =~= cb.skip(1));
                    assert(inner@ + merged(ca, cb.skip(1)) =~= done + merged(ca, cb));
                }
            } else {
                let Interval { start: s1, end: e1 } = i1;
                let Interval { start: s2, end: e2 } = i2;
                let a_first = end_lt_end(&e1, &e2);
                let b_first = !a_first && end_lt_end(&e2, &e1);
                let cs = if start_lt_start(&s1, &s2) {
                    let until = EndBound::from_start(StartBound(copy_bound(&s2.0)));
                    inner.push(
                        (Interval { start: s1, end: until }, MergedValue::Left(copy_of(&v1))),
                    );
                    s2
                } else if start_lt_start(&s2, &s1) {
                    let until = EndBound::from_start(StartBound(copy_bound(&s1.0)));
                    inner.push(
                        (Interval { start: s2, end: until }, MergedValue::Right(copy_of(&v2))),
                    );
                    s1
                } else if b_first {
                    s2
                } else {
                    s1
                };
                assert(cs == common_start(i1, i2));
                assert(inner@ =~= done + lead((i1, v1), (i2, v2)));
                let ghost led = inner@;
                if a_first {
                    let stop = EndBound(copy_bound(&e1.0));
                    inner.push(
                        (Interval { start: cs, end: stop }, MergedValue::Both(v1, copy_of(&v2))),
                    );
                    x2 = Some((Interval { start: StartBound::from_end(e1), end: e2 }, v2));
                    x1 = fetch(&self.sorted_vec, i);
                    if i < n1 {
                        i = i + 1;
                    }
                    proof {
                        assert(pending(x1, a, i as int) =~= ca.skip(1));
                        assert(pending(x2, b, j as int) =~= after_cut(cb, i1.end));
                        assert(inner@ + merged(ca.skip(1), after_cut(cb, i1.end)) =~= done
                            + merged(ca, cb));
                    }
                } else if b_first {
                    let stop = EndBound(copy_bound(&e2.0));
                    inner.push(
                        (Interval { start: cs, end: stop }, MergedValue::Both(copy_of(&v1), v2)),
                    );
                    x1 = Some((Interval { start: StartBound::from_end(e2), end: e1 }, v1));
                    x2 = fetch(&other.sorted_vec, j);
                    if j < n2 {
                        j = j + 1;
                    }
                    proof {
                        assert(pending(x1, a, i as int) =~= after_cut(ca, i2.end));
                        assert(pending(x2, b, j as int) =~= cb.skip(1));
                        assert(inner@ + merged(after_cut(ca, i2.end), cb.skip(1)) =~= done
                            + merged(ca, cb));
                    }
                } else {
                    inner.push((Interval { start: cs, end: e1 }, MergedValue::Both(v1, v2)));
                    x1 = fetch(&self.sorted_vec, i);
                    if i < n1 {
                        i = i + 1;
                    }
                    x2 = fetch(&other.sorted_vec, j);
                    if j < n2 {
                        j = j + 1;
                    }
                    proof {
                        assert(pending(x1, a, i as int) =~= ca.skip(1));
                        assert(pending(x2, b, j as int) =~= cb.skip(1));
                        assert(inner@ + merged(ca.skip(1), cb.skip(1)) =~= done + merged(ca, cb));
                    }
                }
            }
        }
        let ghost ca = pending(x1, a, i as int);
        let ghost cb = pending(x2, b, j as int);
        let ghost done = inner@;
        proof {
            assert(merged(ca, cb) =~= tag_left::<K, V, V2>(ca) + tag_right::<K, V, V2>(cb));
        }
        let ghost i0 = i;
        let ghost j0 = j;
        if let Some((iv, v)) = x1 {
            inner.push((iv, MergedValue::Left(v)));
            assert(inner@ =~= done + tag_left::<K, V, V2>(ca).take(1));
            while i < n1
                invariant
                    faithful_clone::<K>(),
                    faithful_clone::<V>(),
                    a == self@,
                    n1 == a.len(),
                    i0 <= i <= n1,
                    ca == seq![(iv, v)] + a.skip(i0 as int),
                    inner@ == done + tag_left::<K, V, V2>(ca).take(1 + i - i0),
                decreases n1 - i,
            {
                let e = fetch(&self.sorted_vec, i).unwrap();
                proof {
                    let t = 1 + i - i0;
                    assert(ca[t] == a[i as int]);
                    assert(tag_left::<K, V, V2>(ca).take(t + 1) =~= tag_left::<K, V, V2>(ca).take(
                        t,
                    ).push((e.0, MergedValue::Left(e.1))));
                }
                inner.push((e.0, MergedValue::Left(e.1)));
                i = i + 1;
            }
            assert(tag_left::<K, V, V2>(ca).take(ca.len() as int) =~= tag_left::<K, V, V2>(ca));
        }
        let ghost mid = inner@;
        assert(mid =~= done + tag_left::<K, V, V2>(ca));
        if let Some((iv, v)) = x2 {
            inner.push((iv, MergedValue::Right(v)));
            assert(inner@ =~= mid + tag_right::<K, V, V2>(cb).take(1));
            while j < n2
                invariant
                    faithful_clone::<K>(),
                    faithful_clone::<V2>(),
                    b == other@,
                    n2 == b.len(),
                    j0 <= j <= n2,
                    cb == seq![(iv, v)] + b.skip(j0 as int),
                    inner@ == mid + tag_right::<K, V, V2>(cb).take(1 + j - j0),
                decreases n2 - j,
            {
                let e = fetch(&other.sorted_vec, j).unwrap();
                proof {
                    let t = 1 + j - j0;
                    assert(cb[t] == b[j as int]);
                    assert(tag_right::<K, V, V2>(cb).take(t + 1) =~= tag_right::<K, V, V2>(
                        cb,
                    ).take(t).push((e.0, MergedValue::Right(e.1))));
                }
                inner.push((e.0, MergedValue::Right(e.1)));
                j = j + 1;
            }
            assert(tag_right::<K, V, V2>(cb).take(cb.len() as int) =~= tag_right::<K, V, V2>(cb));
        }
        assert(inner@ =~= done + merged(ca, cb));
        IntervalMap { sorted_vec: inner }
    }
}

} // verus!
