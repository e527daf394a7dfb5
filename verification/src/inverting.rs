//! The gaps of a sequence of entries: what lies before the first entry,
//! between two entries that do not touch, and after the last.
use crate::bound::{
    cut_le, cut_lt, lemma_cut_ends, lemma_cut_order, Bound, Cut, EndBound, StartBound,
};
use crate::interval::Interval;
use crate::order::total_order;
use crate::table::{
    all_above, all_below, lemma_all_above_weaken, lemma_lookup_before, lemma_lookup_concat,
    lemma_lookup_front, lemma_lookup_push, lemma_sorted_concat, lemma_sorted_skip, lookup, sorted,
};
use vstd::prelude::*;

verus! {

/// Where the gap after a range with the end `e` begins, if a range with
/// that end leaves anything above it.
pub open spec fn next_start<K>(e: EndBound<K>) -> Option<StartBound<K>> {
    if e.0 is Unbounded {
        None
    } else {
        Some(StartBound::after(e))
    }
}

/// The gap from `from` up to a range that begins at `start`, with `val`
/// in it; nothing where the range begins at `from`.
pub open spec fn gap_before<K: Ord, V>(
    from: Option<StartBound<K>>,
    start: StartBound<K>,
    val: V,
) -> Seq<(Interval<K>, V)> {
    match from {
        Some(st) => if cut_lt(st.cut(), start.cut()) {
            seq![(Interval { start: st, end: EndBound::before(start) }, val)]
        } else {
            Seq::empty()
        },
        None => Seq::empty(),
    }
}

/// The gaps of `s` from `from` on, each an entry with the value `val`:
/// before every entry the gap that leads up to it, if there is one, and
/// after the last entry all that is left.
pub open spec fn gaps_from<K: Ord, V>(
    s: Seq<(Interval<K>, V)>,
    from: Option<StartBound<K>>,
    val: V,
) -> Seq<(Interval<K>, V)>
    decreases s.len(),
{
    if s.len() == 0 {
        match from {
            Some(st) => seq![(Interval { start: st, end: EndBound(Bound::Unbounded) }, val)],
            None => Seq::empty(),
        }
    } else {
        gap_before(from, s[0].0.start, val) + gaps_from(s.skip(1), next_start(s[0].0.end), val)
    }
}

/// The gaps of `s`, each an entry with the value `val`.
pub open spec fn inverted<K: Ord, V>(s: Seq<(Interval<K>, V)>, val: V) -> Seq<(Interval<K>, V)> {
    gaps_from(s, Some(StartBound(Bound::Unbounded)), val)
}

/// The value of a key among the gaps from `from` on.
pub open spec fn gap_at<K: Ord, V>(
    s: Seq<(Interval<K>, V)>,
    from: Option<StartBound<K>>,
    val: V,
    k: K,
) -> Option<V> {
    match from {
        Some(st) => if cut_le(st.cut(), Cut::Before(k)) && lookup(s, k) is None {
            Some(val)
        } else {
            None
        },
        None => None,
    }
}

/// The gaps of entries in order are in order and begin at `from`; a key
/// above `from` has the value `val` among them exactly where it has no
/// value among the entries.
pub proof fn lemma_gaps_from<K: Ord, V>(
    s: Seq<(Interval<K>, V)>,
    from: Option<StartBound<K>>,
    val: V,
)
    requires
        total_order::<K>(),
        sorted(s),
        from matches Some(st) ==> all_above(s, st.cut()),
        from is None ==> s.len() == 0,
    ensures
        sorted(gaps_from(s, from, val)),
        from matches Some(st) ==> all_above(gaps_from(s, from, val), st.cut()),
        forall|k: K| #[trigger] lookup(gaps_from(s, from, val), k) == gap_at(s, from, val, k),
    decreases s.len(),
{
    lemma_cut_order::<K>();
    let out = gaps_from(s, from, val);
    if s.len() == 0 {
        if let Some(st) = from {
            let e = (Interval { start: st, end: EndBound(Bound::Unbounded) }, val);
            lemma_cut_ends(st.cut());
            assert(out =~= Seq::empty().push(e));
            assert forall|k: K| #[trigger] lookup(out, k) == gap_at(s, from, val, k) by {
                lemma_lookup_push(Seq::empty(), e, k);
                lemma_cut_ends(Cut::Before(k));
            }
        }
    } else {
        let first = s[0].0;
        let gap = gap_before(from, first.start, val);
        let next = next_start(first.end);
        let rest = gaps_from(s.skip(1), next, val);
        lemma_sorted_skip(s);
        lemma_cut_ends(first.lo());
        lemma_cut_ends(first.hi());
        if first.end.0 is Unbounded {
            if s.len() > 1 {
                assert(cut_le(first.hi(), s.skip(1)[0].0.lo()));
                assert(!s[1].0.empty());
                lemma_cut_ends(s[1].0.hi());
                assert(false);
            }
        } else {
            assert(StartBound::after(first.end).cut() == first.hi());
        }
        lemma_gaps_from(s.skip(1), next, val);
        let st = from->0;
        lemma_cut_ends(st.cut());
        assert(cut_le(st.cut(), s[0].0.lo()));
        if gap.len() > 0 {
            assert(EndBound::before(first.start).cut() == first.lo());
        }
        assert(sorted(gap));
        assert(all_below(gap, first.lo()));
        assert(all_above(gap, st.cut()));
        if next is Some {
            lemma_all_above_weaken(rest, first.hi(), first.lo());
            lemma_all_above_weaken(rest, first.hi(), st.cut());
        }
        lemma_sorted_concat(gap, rest, first.lo());
        assert forall|i: int| 0 <= i < out.len() implies cut_le(
            st.cut(),
            (#[trigger] out[i]).0.lo(),
        ) by {
            if i < gap.len() {
                assert(out[i] == gap[i]);
            } else {
                assert(out[i] == rest[i - gap.len()]);
            }
        }
        assert forall|k: K| #[trigger] lookup(out, k) == gap_at(s, from, val, k) by {
            lemma_lookup_concat(gap, rest, k);
            lemma_lookup_front(s, k);
            lemma_cut_ends(Cut::Before(k));
            assert(lookup(rest, k) == gap_at(s.skip(1), next, val, k));
            if gap.len() > 0 {
                assert(gap =~= Seq::empty().push(gap[0]));
                lemma_lookup_push(Seq::empty(), gap[0], k);
            }
            if cut_lt(Cut::Before(k), first.hi()) {
                lemma_lookup_before(s.skip(1), first.hi(), k);
            }
        }
    }
}

/// The gaps of a map are in order, and a key has a value among them
/// exactly where it has none in the map.
pub proof fn lemma_inverted<K: Ord, V>(s: Seq<(Interval<K>, V)>, val: V)
    requires
        total_order::<K>(),
        sorted(s),
    ensures
        sorted(inverted(s, val)),
        forall|k: K| #[trigger]
            lookup(inverted(s, val), k) == if lookup(s, k) is None {
                Some(val)
            } else {
                None
            },
{
    let from = StartBound::<K>(Bound::Unbounded);
    assert forall|i: int| 0 <= i < s.len() implies cut_le(
        from.cut(),
        (#[trigger] s[i]).0.lo(),
    ) by {
        lemma_cut_ends(s[i].0.lo());
    }
    lemma_gaps_from(s, Some(from), val);
    assert forall|k: K| #[trigger]
        lookup(inverted(s, val), k) == if lookup(s, k) is None {
            Some(val)
        } else {
            None
        } by {
        lemma_cut_ends(Cut::Before(k));
        assert(lookup(gaps_from(s, Some(from), val), k) == gap_at(s, Some(from), val, k));
    }
}

} // verus!
