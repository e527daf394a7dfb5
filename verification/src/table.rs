//! The sequence of entries behind a map, as a mathematical object: when it
//! is in order, and which value it gives for a key.
use crate::bound::{cut_le, cut_lt, lemma_cut_order, Cut};
use crate::interval::Interval;
use crate::order::total_order;
use vstd::prelude::*;

verus! {

/// The entries are in order: none is empty, and each stops before the next
/// begins, so that no two of them overlap.
pub open spec fn sorted<K: Ord, V>(s: Seq<(Interval<K>, V)>) -> bool {
    &&& forall|i: int| 0 <= i < s.len() ==> !(#[trigger] s[i]).0.empty()
    &&& forall|i: int, j: int|
        0 <= i < j < s.len() ==> (#[trigger] s[i]).0.below((#[trigger] s[j]).0)
}

/// Every entry stops at or below the cut.
pub open spec fn all_below<K: Ord, V>(s: Seq<(Interval<K>, V)>, c: Cut<K>) -> bool {
    forall|i: int| 0 <= i < s.len() ==> cut_le((#[trigger] s[i]).0.hi(), c)
}

/// Every entry begins at or above the cut.
pub open spec fn all_above<K: Ord, V>(s: Seq<(Interval<K>, V)>, c: Cut<K>) -> bool {
    forall|i: int| 0 <= i < s.len() ==> cut_le(c, (#[trigger] s[i]).0.lo())
}

/// Some entry holds the key.
pub open spec fn covers<K: Ord, V>(s: Seq<(Interval<K>, V)>, k: K) -> bool {
    exists|i: int| 0 <= i < s.len() && (#[trigger] s[i]).0.contains(k)
}

/// The value of the entry that holds the key, if there is one. Among
/// entries in order at most one holds a given key.
pub open spec fn lookup<K: Ord, V>(s: Seq<(Interval<K>, V)>, k: K) -> Option<V>
    decreases s.len(),
{
    if s.len() == 0 {
        None
    } else if s.last().0.contains(k) {
        Some(s.last().1)
    } else {
        lookup(s.drop_last(), k)
    }
}

/// The empty sequence is in order.
pub proof fn lemma_sorted_empty<K: Ord, V>()
    ensures
        sorted(Seq::<(Interval<K>, V)>::empty()),
{
}

/// An entry that holds a place and begins where all others have stopped
/// can be added at the end.
pub proof fn lemma_sorted_push<K: Ord, V>(s: Seq<(Interval<K>, V)>, e: (Interval<K>, V))
    requires
        sorted(s),
        !e.0.empty(),
        all_below(s, e.0.lo()),
    ensures
        sorted(s.push(e)),
{
    let t = s.push(e);
    assert forall|i: int, j: int| 0 <= i < j < t.len() implies (#[trigger] t[i]).0.below(
        (#[trigger] t[j]).0,
    ) by {
        if j < s.len() {
            assert(s[i].0.below(s[j].0));
        } else {
            assert(cut_le(s[i].0.hi(), e.0.lo()));
        }
    }
    assert forall|i: int| 0 <= i < t.len() implies !(#[trigger] t[i]).0.empty() by {
        if i < s.len() {
            assert(!s[i].0.empty());
        }
    }
}

/// Without its last entry a sequence is still in order, and all that is
/// left stops before the last entry begins.
pub proof fn lemma_sorted_drop_last<K: Ord, V>(s: Seq<(Interval<K>, V)>)
    requires
        sorted(s),
        s.len() > 0,
    ensures
        sorted(s.drop_last()),
        all_below(s.drop_last(), s.last().0.lo()),
        !s.last().0.empty(),
{
    let t = s.drop_last();
    assert forall|i: int, j: int| 0 <= i < j < t.len() implies (#[trigger] t[i]).0.below(
        (#[trigger] t[j]).0,
    ) by {
        assert(s[i].0.below(s[j].0));
    }
    assert forall|i: int| 0 <= i < t.len() implies !(#[trigger] t[i]).0.empty() by {
        assert(!s[i].0.empty());
    }
    assert forall|i: int| 0 <= i < t.len() implies cut_le(
        (#[trigger] t[i]).0.hi(),
        s.last().0.lo(),
    ) by {
        assert(s[i].0.below(s[s.len() - 1].0));
    }
    assert(!s[s.len() - 1].0.empty());
}

/// With another value in one entry, a sequence in order stays in order.
pub proof fn lemma_sorted_revalued<K: Ord, V>(s: Seq<(Interval<K>, V)>, i: int, w: V)
    requires
        sorted(s),
        0 <= i < s.len(),
    ensures
        sorted(s.update(i, (s[i].0, w))),
{
    let t = s.update(i, (s[i].0, w));
    assert forall|a: int, b: int| 0 <= a < b < t.len() implies (#[trigger] t[a]).0.below(
        (#[trigger] t[b]).0,
    ) by {
        assert(s[a].0.below(s[b].0));
    }
    assert forall|a: int| 0 <= a < t.len() implies !(#[trigger] t[a]).0.empty() by {
        assert(!s[a].0.empty());
    }
}

/// Entries with the ranges of entries in order, one for one, are in order.
pub proof fn lemma_sorted_same_ranges<K: Ord, V>(s: Seq<(Interval<K>, V)>, t: Seq<(Interval<K>, V)>)
    requires
        sorted(s),
        t.len() == s.len(),
        forall|i: int| 0 <= i < s.len() ==> (#[trigger] t[i]).0 == s[i].0,
    ensures
        sorted(t),
{
    assert forall|a: int, b: int| 0 <= a < b < t.len() implies (#[trigger] t[a]).0.below(
        (#[trigger] t[b]).0,
    ) by {
        assert(s[a].0.below(s[b].0));
    }
    assert forall|a: int| 0 <= a < t.len() implies !(#[trigger] t[a]).0.empty() by {
        assert(!s[a].0.empty());
    }
}

/// The first entries of a sequence in order are in order.
pub proof fn lemma_sorted_take<K: Ord, V>(s: Seq<(Interval<K>, V)>, n: int)
    requires
        sorted(s),
        0 <= n <= s.len(),
    ensures
        sorted(s.take(n)),
{
    let t = s.take(n);
    assert forall|i: int, j: int| 0 <= i < j < t.len() implies (#[trigger] t[i]).0.below(
        (#[trigger] t[j]).0,
    ) by {
        assert(s[i].0.below(s[j].0));
    }
    assert forall|i: int| 0 <= i < t.len() implies !(#[trigger] t[i]).0.empty() by {
        assert(!s[i].0.empty());
    }
}

/// Without its first entry a sequence is still in order, and all that is
/// left begins after the first entry has stopped.
pub proof fn lemma_sorted_skip<K: Ord, V>(s: Seq<(Interval<K>, V)>)
    requires
        sorted(s),
        s.len() > 0,
    ensures
        sorted(s.skip(1)),
        all_above(s.skip(1), s[0].0.hi()),
        !s[0].0.empty(),
{
    let t = s.skip(1);
    assert forall|i: int, j: int| 0 <= i < j < t.len() implies (#[trigger] t[i]).0.below(
        (#[trigger] t[j]).0,
    ) by {
        assert(s[i + 1].0.below(s[j + 1].0));
    }
    assert forall|i: int| 0 <= i < t.len() implies !(#[trigger] t[i]).0.empty() by {
        assert(!s[i + 1].0.empty());
    }
    assert forall|i: int| 0 <= i < t.len() implies cut_le(
        s[0].0.hi(),
        (#[trigger] t[i]).0.lo(),
    ) by {
        assert(s[0].0.below(s[i + 1].0));
    }
    assert(!s[0].0.empty());
}

/// Two sequences in order, the first below a cut and the second above it,
/// are in order when put end to end.
pub proof fn lemma_sorted_concat<K: Ord, V>(
    x: Seq<(Interval<K>, V)>,
    y: Seq<(Interval<K>, V)>,
    m: Cut<K>,
)
    requires
        total_order::<K>(),
        sorted(x),
        sorted(y),
        all_below(x, m),
        all_above(y, m),
    ensures
        sorted(x + y),
{
    lemma_cut_order::<K>();
    let t = x + y;
    assert forall|i: int, j: int| 0 <= i < j < t.len() implies (#[trigger] t[i]).0.below(
        (#[trigger] t[j]).0,
    ) by {
        if j < x.len() {
            assert(x[i].0.below(x[j].0));
        } else if i >= x.len() {
            assert(y[i - x.len()].0.below(y[j - x.len()].0));
        } else {
            assert(cut_le(x[i].0.hi(), m));
            assert(cut_le(m, y[j - x.len()].0.lo()));
        }
    }
    assert forall|i: int| 0 <= i < t.len() implies !(#[trigger] t[i]).0.empty() by {
        if i < x.len() {
            assert(!x[i].0.empty());
        } else {
            assert(!y[i - x.len()].0.empty());
        }
    }
}

/// Entries in order all begin where the first of them begins, or above.
pub proof fn lemma_sorted_all_above_first<K: Ord, V>(s: Seq<(Interval<K>, V)>)
    requires
        total_order::<K>(),
        sorted(s),
        s.len() > 0,
    ensures
        all_above(s, s[0].0.lo()),
{
    lemma_cut_order::<K>();
    assert forall|i: int| 0 <= i < s.len() implies cut_le(
        s[0].0.lo(),
        (#[trigger] s[i]).0.lo(),
    ) by {
        assert(!s[0].0.empty());
        if i > 0 {
            assert(s[0].0.below(s[i].0));
        }
    }
}

/// Entries that begin above a cut begin above every lower cut.
pub proof fn lemma_all_above_weaken<K: Ord, V>(s: Seq<(Interval<K>, V)>, c: Cut<K>, d: Cut<K>)
    requires
        total_order::<K>(),
        all_above(s, c),
        cut_le(d, c),
    ensures
        all_above(s, d),
{
    lemma_cut_order::<K>();
    assert forall|i: int| 0 <= i < s.len() implies cut_le(d, (#[trigger] s[i]).0.lo()) by {
        assert(cut_le(c, s[i].0.lo()));
    }
}

/// What stops below a cut stops below every higher cut.
pub proof fn lemma_all_below_weaken<K: Ord, V>(s: Seq<(Interval<K>, V)>, c: Cut<K>, d: Cut<K>)
    requires
        total_order::<K>(),
        all_below(s, c),
        cut_le(c, d),
    ensures
        all_below(s, d),
{
    lemma_cut_order::<K>();
    assert forall|i: int| 0 <= i < s.len() implies cut_le((#[trigger] s[i]).0.hi(), d) by {
        assert(cut_le(s[i].0.hi(), c));
    }
}

/// Entries in order all stop where the last of them stops, or below.
pub proof fn lemma_sorted_all_below_last<K: Ord, V>(s: Seq<(Interval<K>, V)>)
    requires
        total_order::<K>(),
        sorted(s),
        s.len() > 0,
    ensures
        all_below(s, s.last().0.hi()),
{
    lemma_cut_order::<K>();
    let n = s.len() - 1;
    assert forall|i: int| 0 <= i < s.len() implies cut_le(
        (#[trigger] s[i]).0.hi(),
        s.last().0.hi(),
    ) by {
        assert(!s[n].0.empty());
        if i < n {
            assert(s[i].0.below(s[n].0));
        }
    }
}

/// The value for a key once an entry is added at the end.
pub proof fn lemma_lookup_push<K: Ord, V>(s: Seq<(Interval<K>, V)>, e: (Interval<K>, V), k: K)
    ensures
        lookup(s.push(e), k) == if e.0.contains(k) {
            Some(e.1)
        } else {
            lookup(s, k)
        },
{
    assert(s.push(e).drop_last() =~= s);
}

/// The value for a key in two sequences put end to end: the second
/// decides where it holds the key.
pub proof fn lemma_lookup_concat<K: Ord, V>(
    a: Seq<(Interval<K>, V)>,
    b: Seq<(Interval<K>, V)>,
    k: K,
)
    ensures
        lookup(a + b, k) == if lookup(b, k) is Some {
            lookup(b, k)
        } else {
            lookup(a, k)
        },
    decreases b.len(),
{
    if b.len() == 0 {
        assert(a + b =~= a);
    } else {
        assert((a + b).drop_last() =~= a + b.drop_last());
        assert((a + b).last() == b.last());
        lemma_lookup_concat(a, b.drop_last(), k);
    }
}

/// The value for a key, read from the first entry on: among entries in
/// order the first one decides where it holds the key.
pub proof fn lemma_lookup_front<K: Ord, V>(s: Seq<(Interval<K>, V)>, k: K)
    requires
        total_order::<K>(),
        sorted(s),
        s.len() > 0,
    ensures
        lookup(s, k) == if s[0].0.contains(k) {
            Some(s[0].1)
        } else {
            lookup(s.skip(1), k)
        },
{
    lemma_cut_order::<K>();
    let head = seq![s[0]];
    assert(head + s.skip(1) =~= s);
    lemma_lookup_concat(head, s.skip(1), k);
    assert(head =~= Seq::empty().push(s[0]));
    lemma_lookup_push(Seq::empty(), s[0], k);
    lemma_sorted_skip(s);
    if s[0].0.contains(k) {
        lemma_lookup_before(s.skip(1), s[0].0.hi(), k);
    }
}

/// No entry holds a key above the cut below which all entries stop.
pub proof fn lemma_lookup_beyond<K: Ord, V>(s: Seq<(Interval<K>, V)>, c: Cut<K>, k: K)
    requires
        total_order::<K>(),
        all_below(s, c),
        cut_le(c, Cut::Before(k)),
    ensures
        lookup(s, k) is None,
        !covers(s, k),
    decreases s.len(),
{
    lemma_cut_order::<K>();
    if s.len() > 0 {
        assert(cut_le(s[s.len() - 1].0.hi(), c));
        assert forall|i: int| 0 <= i < s.drop_last().len() implies cut_le(
            (#[trigger] s.drop_last()[i]).0.hi(),
            c,
        ) by {
            assert(cut_le(s[i].0.hi(), c));
        }
        lemma_lookup_beyond(s.drop_last(), c, k);
    }
    assert forall|i: int| 0 <= i < s.len() implies !(#[trigger] s[i]).0.contains(k) by {
        assert(cut_le(s[i].0.hi(), c));
    }
}

/// No entry holds a key below the cut above which all entries begin.
pub proof fn lemma_lookup_before<K: Ord, V>(s: Seq<(Interval<K>, V)>, c: Cut<K>, k: K)
    requires
        total_order::<K>(),
        all_above(s, c),
        cut_lt(Cut::Before(k), c),
    ensures
        lookup(s, k) is None,
        !covers(s, k),
    decreases s.len(),
{
    lemma_cut_order::<K>();
    if s.len() > 0 {
        assert(cut_le(c, s[s.len() - 1].0.lo()));
        assert forall|i: int| 0 <= i < s.drop_last().len() implies cut_le(
            c,
            (#[trigger] s.drop_last()[i]).0.lo(),
        ) by {
            assert(cut_le(c, s[i].0.lo()));
        }
        lemma_lookup_before(s.drop_last(), c, k);
    }
    assert forall|i: int| 0 <= i < s.len() implies !(#[trigger] s[i]).0.contains(k) by {
        assert(cut_le(c, s[i].0.lo()));
    }
}

/// Among entries in order, the one that holds the key gives its value.
pub proof fn lemma_lookup_at<K: Ord, V>(s: Seq<(Interval<K>, V)>, i: int, k: K)
    requires
        total_order::<K>(),
        sorted(s),
        0 <= i < s.len(),
        s[i].0.contains(k),
    ensures
        lookup(s, k) == Some(s[i].1),
    decreases s.len(),
{
    lemma_cut_order::<K>();
    let n = s.len() - 1;
    if i < n {
        assert(s[i].0.below(s[n].0));
        assert(!s.last().0.contains(k));
        lemma_sorted_drop_last(s);
        lemma_lookup_at(s.drop_last(), i, k);
    }
}

/// A key has a value exactly where an entry holds it, and the value is
/// that entry's.
pub proof fn lemma_lookup_covers<K: Ord, V>(s: Seq<(Interval<K>, V)>, k: K)
    ensures
        lookup(s, k) is Some <==> covers(s, k),
        lookup(s, k) matches Some(v) ==> exists|i: int|
            0 <= i < s.len() && (#[trigger] s[i]).0.contains(k) && s[i].1 == v,
    decreases s.len(),
{
    if s.len() > 0 {
        let n = s.len() - 1;
        let t = s.drop_last();
        lemma_lookup_covers(t, k);
        if s.last().0.contains(k) {
            assert(s[n].0.contains(k));
        } else {
            if covers(t, k) {
                let i = choose|i: int| 0 <= i < t.len() && (#[trigger] t[i]).0.contains(k);
                assert(s[i].0.contains(k));
            }
            if covers(s, k) {
                let i = choose|i: int| 0 <= i < s.len() && (#[trigger] s[i]).0.contains(k);
                assert(t[i].0.contains(k));
            }
            if lookup(s, k) is Some {
                let v = lookup(s, k)->0;
                let i = choose|i: int|
                    0 <= i < t.len() && (#[trigger] t[i]).0.contains(k) && t[i].1 == v;
                assert(s[i].0.contains(k) && s[i].1 == v);
            }
        }
    }
}

} // verus!
