//! What putting many entries into a sequence of entries makes of it: one
//! after the other as they come, or a whole sequence that is itself in
//! order.
use crate::bound::{cut_le, lemma_cut_order, Cut};
use crate::carving::{fill_at, filled, lemma_filled};
use crate::interval::Interval;
use crate::order::total_order;
use crate::table::{all_above, all_below, lemma_sorted_drop_last, lookup, sorted};
use vstd::prelude::*;

verus! {

/// The entries of `base` once those of `adds` are put in, the first of them
/// first, each as [`filled`] says: where two of them hold the same key, the
/// earlier one keeps it.
pub open spec fn extended<K: Ord, V>(
    base: Seq<(Interval<K>, V)>,
    adds: Seq<(Interval<K>, V)>,
) -> Seq<(Interval<K>, V)>
    decreases adds.len(),
{
    if adds.len() == 0 {
        base
    } else {
        filled(extended(base, adds.drop_last()), adds.last().0, adds.last().1)
    }
}

/// The value of the first entry of `adds` that holds the key.
pub open spec fn first_match<K: Ord, V>(adds: Seq<(Interval<K>, V)>, k: K) -> Option<V>
    decreases adds.len(),
{
    if adds.len() == 0 {
        None
    } else {
        fill_at(first_match(adds.drop_last(), k), adds.last().0, adds.last().1, k)
    }
}

/// The entries of `a` once those of `b` are put in, the last of them first,
/// each as [`filled`] says.
pub open spec fn appended<K: Ord, V>(a: Seq<(Interval<K>, V)>, b: Seq<(Interval<K>, V)>) -> Seq<
    (Interval<K>, V),
>
    decreases b.len(),
{
    if b.len() == 0 {
        a
    } else {
        appended(filled(a, b.last().0, b.last().1), b.drop_last())
    }
}

/// The value of a key where one map has the say and another fills in.
pub open spec fn or_else<V>(first: Option<V>, second: Option<V>) -> Option<V> {
    match first {
        Some(v) => Some(v),
        None => second,
    }
}

/// Putting entries in one after the other keeps the whole in order; a key
/// keeps the value it had, and one that had none gets the value of the
/// first of the new entries that holds it.
pub proof fn lemma_extended<K: Ord, V>(base: Seq<(Interval<K>, V)>, adds: Seq<(Interval<K>, V)>)
    requires
        total_order::<K>(),
        sorted(base),
    ensures
        sorted(extended(base, adds)),
        forall|k: K| #[trigger]
            lookup(extended(base, adds), k) == or_else(lookup(base, k), first_match(adds, k)),
    decreases adds.len(),
{
    if adds.len() > 0 {
        let e = adds.last();
        let before = extended(base, adds.drop_last());
        lemma_extended(base, adds.drop_last());
        lemma_filled(before, e.0, e.1, Cut::PosInf);
        assert forall|k: K| #[trigger]
            lookup(extended(base, adds), k) == or_else(lookup(base, k), first_match(adds, k)) by {
            assert(lookup(filled(before, e.0, e.1), k) == fill_at(lookup(before, k), e.0, e.1, k));
        }
    }
}

/// Entries that all lie above a range do not take part when the range is
/// worked in below them.
pub proof fn lemma_filled_under<K: Ord, V>(
    s: Seq<(Interval<K>, V)>,
    t: Seq<(Interval<K>, V)>,
    iv: Interval<K>,
    val: V,
)
    requires
        total_order::<K>(),
        all_above(t, iv.hi()),
    ensures
        filled(s + t, iv, val) == filled(s, iv, val) + t,
    decreases t.len(),
{
    if iv.empty() {
    } else if t.len() == 0 {
        assert(s + t =~= s);
        assert(filled(s, iv, val) + t =~= filled(s, iv, val));
    } else {
        let e = t.last();
        assert((s + t).last() == e);
        assert((s + t).drop_last() =~= s + t.drop_last());
        assert(cut_le(iv.hi(), t[t.len() - 1].0.lo()));
        assert(iv.carve(e.0) == (Some(iv), None::<Interval<K>>));
        assert forall|i: int| 0 <= i < t.drop_last().len() implies cut_le(
            iv.hi(),
            (#[trigger] t.drop_last()[i]).0.lo(),
        ) by {
            assert(cut_le(iv.hi(), t[i].0.lo()));
        }
        lemma_filled_under(s, t.drop_last(), iv, val);
        assert(filled(s + t, iv, val) == filled(s + t.drop_last(), iv, val).push(e));
        assert((filled(s, iv, val) + t.drop_last()).push(e) =~= filled(s, iv, val) + t);
    }
}

/// Entries that all lie above those of `b` do not take part when `b` is
/// worked in below them.
pub proof fn lemma_appended_under<K: Ord, V>(
    s: Seq<(Interval<K>, V)>,
    t: Seq<(Interval<K>, V)>,
    b: Seq<(Interval<K>, V)>,
    c: Cut<K>,
)
    requires
        total_order::<K>(),
        all_below(b, c),
        all_above(t, c),
    ensures
        appended(s + t, b) == appended(s, b) + t,
    decreases b.len(),
{
    if b.len() > 0 {
        let e = b.last();
        lemma_cut_order::<K>();
        assert(cut_le(b[b.len() - 1].0.hi(), c));
        assert forall|i: int| 0 <= i < t.len() implies cut_le(
            e.0.hi(),
            (#[trigger] t[i]).0.lo(),
        ) by {
            assert(cut_le(c, t[i].0.lo()));
        }
        lemma_filled_under(s, t, e.0, e.1);
        assert forall|i: int| 0 <= i < b.drop_last().len() implies cut_le(
            (#[trigger] b.drop_last()[i]).0.hi(),
            c,
        ) by {
            assert(cut_le(b[i].0.hi(), c));
        }
        lemma_appended_under(filled(s, e.0, e.1), t, b.drop_last(), c);
    }
}

/// Into nothing, entries in order go as they are.
pub proof fn lemma_appended_to_empty<K: Ord, V>(b: Seq<(Interval<K>, V)>)
    requires
        total_order::<K>(),
        sorted(b),
    ensures
        appended(Seq::empty(), b) == b,
    decreases b.len(),
{
    let nothing = Seq::<(Interval<K>, V)>::empty();
    if b.len() > 0 {
        let e = b.last();
        let rest = b.drop_last();
        lemma_sorted_drop_last(b);
        assert(filled(nothing, e.0, e.1) =~= nothing + seq![e]);
        assert forall|i: int| 0 <= i < seq![e].len() implies cut_le(
            e.0.lo(),
            (#[trigger] seq![e][i]).0.lo(),
        ) by {
            crate::bound::lemma_cut_lt_asymmetric(e.0.lo(), e.0.lo());
        }
        lemma_appended_under(nothing, seq![e], rest, e.0.lo());
        lemma_appended_to_empty(rest);
        assert(rest + seq![e] =~= b);
    }
}

/// Working one map into another keeps the whole in order; a key keeps the
/// value it had in the first, and one that had none gets the value it has
/// in the second.
pub proof fn lemma_appended<K: Ord, V>(a: Seq<(Interval<K>, V)>, b: Seq<(Interval<K>, V)>)
    requires
        total_order::<K>(),
        sorted(a),
    ensures
        sorted(appended(a, b)),
        forall|k: K| #[trigger]
            lookup(appended(a, b), k) == or_else(lookup(a, k), lookup(b, k)),
    decreases b.len(),
{
    if b.len() > 0 {
        let e = b.last();
        let first = filled(a, e.0, e.1);
        lemma_filled(a, e.0, e.1, Cut::PosInf);
        lemma_appended(first, b.drop_last());
        assert forall|k: K| #[trigger]
            lookup(appended(a, b), k) == or_else(lookup(a, k), lookup(b, k)) by {
            assert(lookup(first, k) == fill_at(lookup(a, k), e.0, e.1, k));
            assert(lookup(appended(first, b.drop_last()), k) == or_else(
                lookup(first, k),
                lookup(b.drop_last(), k),
            ));
        }
    }
}

} // verus!
