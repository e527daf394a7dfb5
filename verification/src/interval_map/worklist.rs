//! The loops that work a range into a sequence of entries from its last
//! entry down, with a stack for what is settled.

use crate::bound::{cut_le, Cut};
use crate::carving::{filled, overwritten, removed};
use crate::interval::{lemma_carve, Interval};
use crate::order::{copy_of, faithful_clone, total_order};
use crate::table::{all_above, sorted};
use vstd::prelude::*;

verus! {

/// Moves the entries of `stack` to the end of `vec`, last entry first.
pub(super) fn restore<K, V>(vec: &mut Vec<(Interval<K>, V)>, stack: &mut Vec<(Interval<K>, V)>)
    ensures
        final(vec)@ == old(vec)@ + old(stack)@.reverse(),
        final(stack)@.len() == 0,
{
    while stack.len() > 0
        invariant
            vec@ + stack@.reverse() == old(vec)@ + old(stack)@.reverse(),
        decreases stack.len(),
    {
        let ghost before = stack@;
        let e = stack.pop().unwrap();
        assert(before.reverse() =~= seq![e] + stack@.reverse());
        vec.push(e);
        assert(vec@ + stack@.reverse() =~= old(vec)@ + old(stack)@.reverse());
    }
    assert(stack@.reverse() =~= Seq::empty());
    assert(vec@ =~= vec@ + stack@.reverse());
}

/// Works `iv` into the entries of `vec` from the last one down, as
/// [`filled`] says. What is settled leaves `vec` for `stack`, so that `vec`
/// followed by `stack` read backwards is the result.
pub(super) fn fill_back<K: Ord + Clone, V: Clone>(
    vec: &mut Vec<(Interval<K>, V)>,
    stack: &mut Vec<(Interval<K>, V)>,
    iv: Interval<K>,
    val: V,
)
    requires
        total_order::<K>(),
        faithful_clone::<K>(),
        faithful_clone::<V>(),
        !iv.empty(),
        sorted(old(vec)@),
    ensures
        final(vec)@ + final(stack)@.reverse() == filled(old(vec)@, iv, val) + old(stack)@.reverse(),
        final(vec)@ == old(vec)@.take(final(vec)@.len() as int),
        final(vec)@.len() <= old(vec)@.len(),
        all_above(old(stack)@, iv.lo()) ==> all_above(final(stack)@, iv.lo()),
{
    let ghost low = iv.lo();
    let ghost v0 = val;
    let mut cur = iv;
    loop
        invariant
            total_order::<K>(),
            faithful_clone::<K>(),
            faithful_clone::<V>(),
            sorted(old(vec)@),
            val == v0,
            low == iv.lo(),
            !cur.empty(),
            cur.lo() == low,
            vec@.len() <= old(vec)@.len(),
            vec@ == old(vec)@.take(vec@.len() as int),
            filled(vec@, cur, v0) + stack@.reverse() == filled(old(vec)@, iv, v0)
                + old(stack)@.reverse(),
            all_above(old(stack)@, low) ==> all_above(stack@, low),
        decreases vec@.len(),
    {
        let n = vec.len();
        let ghost s = vec@;
        let ghost st = stack@;
        if n == 0 {
            stack.push((cur, val));
            proof {
                assert(stack@.reverse() =~= seq![(cur, v0)] + st.reverse());
                assert(vec@ + stack@.reverse() =~= filled(s, cur, v0) + st.reverse());
                crate::bound::lemma_cut_lt_asymmetric(low, low);
                lemma_all_above_push(st, (cur, v0), low);
            }
            return ;
        }
        proof {
            assert(s[n - 1] == old(vec)@[n - 1]);
            assert(!old(vec)@[n - 1].0.empty());
            lemma_carve(cur, s.last().0);
        }
        let (l, r) = cur.remove(&vec[n - 1].0);
        match (l, r) {
            (Some(l), Some(r)) => {
                stack.push((r, copy_of(&val)));
                let e = vec.pop().unwrap();
                stack.push(e);
                proof {
                    assert(vec@ =~= s.drop_last());
                    assert(stack@.reverse() =~= seq![e, (r, v0)] + st.reverse());
                    assert(filled(vec@, l, v0) + stack@.reverse() =~= filled(s, cur, v0)
                        + st.reverse());
                    assert(vec@ =~= old(vec)@.take(vec@.len() as int));
                    crate::bound::lemma_cut_chain(low, l.hi(), e.0.lo());
                    lemma_all_above_push(st, (r, v0), low);
                    lemma_all_above_push(st.push((r, v0)), e, low);
                }
                cur = l;
            },
            (Some(l), None) => {
                let e = vec.pop().unwrap();
                stack.push(e);
                proof {
                    assert(vec@ =~= s.drop_last());
                    assert(stack@.reverse() =~= seq![e] + st.reverse());
                    assert(filled(vec@, l, v0) + stack@.reverse() =~= filled(s, cur, v0)
                        + st.reverse());
                    assert(vec@ =~= old(vec)@.take(vec@.len() as int));
                    crate::bound::lemma_cut_chain(low, l.hi(), e.0.lo());
                    lemma_all_above_push(st, e, low);
                }
                cur = l;
            },
            (None, Some(r)) => {
                stack.push((r, val));
                proof {
                    assert(stack@.reverse() =~= seq![(r, v0)] + st.reverse());
                    assert(vec@ + stack@.reverse() =~= filled(s, cur, v0) + st.reverse());
                    lemma_all_above_push(st, (r, v0), low);
                }
                return ;
            },
            (None, None) => {
                assert(vec@ + stack@.reverse() =~= filled(s, cur, v0) + st.reverse());
                return ;
            },
        }
    }
}

/// Takes `iv` out of the entries of `vec` from the last one down and, where
/// `ov` holds a value, puts `iv` with that value in its place: as
/// [`overwritten`] and [`removed`] say. Parts of entries above `iv` leave
/// `vec` for `stack`, so that `vec` followed by `stack` read backwards is
/// the result.
pub(super) fn carve_back<K: Ord + Clone, V: Clone>(
    vec: &mut Vec<(Interval<K>, V)>,
    stack: &mut Vec<(Interval<K>, V)>,
    iv: Interval<K>,
    ov: Option<V>,
)
    requires
        total_order::<K>(),
        faithful_clone::<K>(),
        faithful_clone::<V>(),
        !iv.empty(),
    ensures
        final(vec)@ + final(stack)@.reverse() == carved(old(vec)@, iv, ov) + old(stack)@.reverse(),
{
    let ghost ov0 = ov;
    loop
        invariant
            total_order::<K>(),
            faithful_clone::<K>(),
            faithful_clone::<V>(),
            !iv.empty(),
            ov == ov0,
            carved(vec@, iv, ov0) + stack@.reverse() == carved(old(vec)@, iv, ov0)
                + old(stack)@.reverse(),
        decreases vec@.len(),
    {
        let ghost s = vec@;
        let ghost st = stack@;
        match vec.pop() {
            None => {
                if let Some(val) = ov {
                    vec.push((iv, val));
                }
                assert(vec@ =~= carved(s, iv, ov0));
                return ;
            },
            Some((i, v)) => {
                let ghost rest = vec@;
                assert(rest =~= s.drop_last());
                assert(s.last() == (i, v));
                let (l, r) = i.remove(&iv);
                match (l, r) {
                    (Some(l), Some(r)) => {
                        vec.push((l, copy_of(&v)));
                        if let Some(val) = ov {
                            vec.push((iv, val));
                        }
                        vec.push((r, v));
                        assert(vec@ =~= carved(s, iv, ov0));
                        return ;
                    },
                    (Some(l), None) => {
                        vec.push((l, v));
                        if let Some(val) = ov {
                            vec.push((iv, val));
                        }
                        assert(vec@ =~= carved(s, iv, ov0));
                        return ;
                    },
                    (None, Some(r)) => {
                        stack.push((r, v));
                        proof {
                            assert(stack@.reverse() =~= seq![(r, v)] + st.reverse());
                            assert(carved(vec@, iv, ov0) + stack@.reverse() =~= carved(s, iv, ov0)
                                + st.reverse());
                        }
                    },
                    (None, None) => {
                        assert(carved(vec@, iv, ov0) == carved(s, iv, ov0));
                    },
                }
            },
        }
    }
}

/// An entry that begins above the cut can join others that do.
proof fn lemma_all_above_push<K: Ord, V>(s: Seq<(Interval<K>, V)>, e: (Interval<K>, V), c: Cut<K>)
    requires
        cut_le(c, e.0.lo()),
    ensures
        all_above(s, c) ==> all_above(s.push(e), c),
{
    if all_above(s, c) {
        assert forall|i: int| 0 <= i < s.push(e).len() implies cut_le(
            c,
            (#[trigger] s.push(e)[i]).0.lo(),
        ) by {
            if i < s.len() {
                assert(cut_le(c, s[i].0.lo()));
            }
        }
    }
}

/// [`overwritten`] where `ov` holds a value, [`removed`] where it holds none.
pub(super) open spec fn carved<K: Ord, V>(
    s: Seq<(Interval<K>, V)>,
    iv: Interval<K>,
    ov: Option<V>,
) -> Seq<
    (Interval<K>, V),
> {
    match ov {
        Some(val) => overwritten(s, iv, val),
        None => removed(s, iv),
    }
}

/// Read backwards, entries begin above the same cuts.
pub(super) proof fn lemma_all_above_reverse<K: Ord, V>(s: Seq<(Interval<K>, V)>, c: Cut<K>)
    ensures
        all_above(s, c) ==> all_above(s.reverse(), c),
{
    if all_above(s, c) {
        assert forall|i: int| 0 <= i < s.reverse().len() implies cut_le(
            c,
            (#[trigger] s.reverse()[i]).0.lo(),
        ) by {
            assert(s.reverse()[i] == s[s.len() - 1 - i]);
        }
    }
}

} // verus!
