//! What inserting, overwriting and removing a range make of a sequence of
//! entries, and what that means key by key.
//!
//! All three work from the last entry down, taking one range out of another
//! with [`Interval::carve`]. Each is defined here on sequences; the lemmas
//! show that the result is in order again and which value each key has in it.
use crate::bound::{cut_le, cut_lt, lemma_cut_order, Bound, Cut, EndBound, StartBound};
use crate::interval::{lemma_carve, lemma_carve_keys, Interval};
use crate::order::{lt, total_order};
use crate::table::{
    all_below, lemma_all_below_weaken, lemma_lookup_beyond, lemma_lookup_push,
    lemma_sorted_all_below_last, lemma_sorted_drop_last, lemma_sorted_push, lookup, sorted,
};
use vstd::prelude::*;

verus! {

/// The entries once `val` is put on every place of `iv` that no entry
/// holds yet. The entries that were there stay as they are; each stretch of
/// `iv` between them, before the first or after the last becomes an entry
/// of its own.
pub open spec fn filled<K: Ord, V>(s: Seq<(Interval<K>, V)>, iv: Interval<K>, val: V) -> Seq<
    (Interval<K>, V),
>
    decreases s.len(),
{
    if iv.empty() {
        s
    } else if s.len() == 0 {
        seq![(iv, val)]
    } else {
        let e = s.last();
        match iv.carve(e.0) {
            (Some(l), Some(r)) => filled(s.drop_last(), l, val).push(e).push((r, val)),
            (Some(l), None) => filled(s.drop_last(), l, val).push(e),
            (None, Some(r)) => s.push((r, val)),
            (None, None) => s,
        }
    }
}

/// The entries once `val` is put on all of `iv`: one new entry for `iv`,
/// and of each entry that was there the parts outside `iv`, with its value.
pub open spec fn overwritten<K: Ord, V>(
    s: Seq<(Interval<K>, V)>,
    iv: Interval<K>,
    val: V,
) -> Seq<(Interval<K>, V)>
    decreases s.len(),
{
    if iv.empty() {
        s
    } else if s.len() == 0 {
        seq![(iv, val)]
    } else {
        let e = s.last();
        match e.0.carve(iv) {
            (Some(l), Some(r)) => s.drop_last().push((l, e.1)).push((iv, val)).push((r, e.1)),
            (Some(l), None) => s.drop_last().push((l, e.1)).push((iv, val)),
            (None, Some(r)) => overwritten(s.drop_last(), iv, val).push((r, e.1)),
            (None, None) => overwritten(s.drop_last(), iv, val),
        }
    }
}

/// The entries once `iv` is taken out: of each entry the parts outside
/// `iv`, with its value.
pub open spec fn removed<K: Ord, V>(s: Seq<(Interval<K>, V)>, iv: Interval<K>) -> Seq<
    (Interval<K>, V),
>
    decreases s.len(),
{
    if iv.empty() || s.len() == 0 {
        s
    } else {
        let e = s.last();
        match e.0.carve(iv) {
            (Some(l), Some(r)) => s.drop_last().push((l, e.1)).push((r, e.1)),
            (Some(l), None) => s.drop_last().push((l, e.1)),
            (None, Some(r)) => removed(s.drop_last(), iv).push((r, e.1)),
            (None, None) => removed(s.drop_last(), iv),
        }
    }
}

/// The value of a key after `val` was put where nothing was.
pub open spec fn fill_at<K: Ord, V>(before: Option<V>, iv: Interval<K>, val: V, k: K) -> Option<
    V,
> {
    match before {
        Some(v) => Some(v),
        None => if iv.contains(k) {
            Some(val)
        } else {
            None
        },
    }
}

/// An empty range holds no key.
pub proof fn lemma_empty_holds_nothing<K: Ord>(iv: Interval<K>, k: K)
    requires
        total_order::<K>(),
        iv.empty(),
    ensures
        !iv.contains(k),
{
    lemma_cut_order::<K>();
}

/// Filling keeps the entries in order, stays below every cut that the
/// entries and the range stay below, gives every key that had a value the
/// same value, and gives `val` to the other keys of the range.
pub proof fn lemma_filled<K: Ord, V>(
    s: Seq<(Interval<K>, V)>,
    iv: Interval<K>,
    val: V,
    c: Cut<K>,
)
    requires
        total_order::<K>(),
        sorted(s),
    ensures
        sorted(filled(s, iv, val)),
        all_below(s, c) && cut_le(iv.hi(), c) ==> all_below(filled(s, iv, val), c),
        forall|k: K| #[trigger] lookup(filled(s, iv, val), k) == fill_at(lookup(s, k), iv, val, k),
    decreases s.len(),
{
    lemma_cut_order::<K>();
    let out = filled(s, iv, val);
    if iv.empty() {
        assert forall|k: K| #[trigger] lookup(out, k) == fill_at(lookup(s, k), iv, val, k) by {
            lemma_empty_holds_nothing(iv, k);
        }
    } else if s.len() == 0 {
        let e = (iv, val);
        assert(out =~= s.push(e));
        lemma_sorted_push(s, e);
        assert forall|k: K| #[trigger] lookup(out, k) == fill_at(lookup(s, k), iv, val, k) by {
            lemma_lookup_push(s, e, k);
        }
    } else {
        let e = s.last();
        let rest = s.drop_last();
        lemma_carve(iv, e.0);
        lemma_sorted_drop_last(s);
        lemma_sorted_all_below_last(s);
        match iv.carve(e.0) {
            (Some(l), Some(r)) => {
                let f = filled(rest, l, val);
                lemma_filled(rest, l, val, e.0.lo());
                lemma_sorted_push(f, e);
                lemma_all_below_weaken(f, e.0.lo(), r.lo());
                let fe = f.push(e);
                assert(all_below(fe, r.lo()));
                lemma_sorted_push(fe, (r, val));
                if all_below(s, c) && cut_le(iv.hi(), c) {
                    assert(cut_le(s[s.len() - 1].0.hi(), c));
                    lemma_all_below_weaken(f, e.0.lo(), c);
                    assert(all_below(out, c));
                }
                assert forall|k: K| #[trigger]
                    lookup(out, k) == fill_at(lookup(s, k), iv, val, k) by {
                    lemma_lookup_push(fe, (r, val), k);
                    lemma_lookup_push(f, e, k);
                    lemma_carve_keys(iv, e.0, k);
                    if r.contains(k) {
                        lemma_lookup_beyond(s, r.lo(), k);
                    }
                }
            },
            (Some(l), None) => {
                let f = filled(rest, l, val);
                lemma_filled(rest, l, val, e.0.lo());
                lemma_sorted_push(f, e);
                if all_below(s, c) && cut_le(iv.hi(), c) {
                    assert(cut_le(s[s.len() - 1].0.hi(), c));
                    lemma_all_below_weaken(f, e.0.lo(), c);
                    assert(all_below(out, c));
                }
                assert forall|k: K| #[trigger]
                    lookup(out, k) == fill_at(lookup(s, k), iv, val, k) by {
                    lemma_lookup_push(f, e, k);
                    lemma_carve_keys(iv, e.0, k);
                }
            },
            (None, Some(r)) => {
                lemma_all_below_weaken(s, e.0.hi(), r.lo());
                lemma_sorted_push(s, (r, val));
                assert forall|k: K| #[trigger]
                    lookup(out, k) == fill_at(lookup(s, k), iv, val, k) by {
                    lemma_lookup_push(s, (r, val), k);
                    lemma_carve_keys(iv, e.0, k);
                    if r.contains(k) {
                        lemma_lookup_beyond(s, r.lo(), k);
                    }
                }
            },
            (None, None) => {
                assert forall|k: K| #[trigger]
                    lookup(out, k) == fill_at(lookup(s, k), iv, val, k) by {
                    lemma_carve_keys(iv, e.0, k);
                }
            },
        }
    }
}

/// Overwriting keeps the entries in order, stays below every cut that the
/// entries and the range stay below, gives `val` to every key of the range
/// and leaves every other key as it was.
pub proof fn lemma_overwritten<K: Ord, V>(
    s: Seq<(Interval<K>, V)>,
    iv: Interval<K>,
    val: V,
    c: Cut<K>,
)
    requires
        total_order::<K>(),
        sorted(s),
    ensures
        sorted(overwritten(s, iv, val)),
        all_below(s, c) && cut_le(iv.hi(), c) ==> all_below(overwritten(s, iv, val), c),
        forall|k: K| #[trigger]
            lookup(overwritten(s, iv, val), k) == if iv.contains(k) {
                Some(val)
            } else {
                lookup(s, k)
            },
    decreases s.len(),
{
    lemma_cut_order::<K>();
    let out = overwritten(s, iv, val);
    if iv.empty() {
        assert forall|k: K| #[trigger] lookup(out, k) == lookup(s, k) && !iv.contains(k) by {
            lemma_empty_holds_nothing(iv, k);
        }
    } else if s.len() == 0 {
        let e = (iv, val);
        assert(out =~= s.push(e));
        lemma_sorted_push(s, e);
        assert forall|k: K| #[trigger]
            lookup(out, k) == if iv.contains(k) {
                Some(val)
            } else {
                lookup(s, k)
            } by {
            lemma_lookup_push(s, e, k);
        }
    } else {
        let e = s.last();
        let rest = s.drop_last();
        lemma_carve(e.0, iv);
        lemma_sorted_drop_last(s);
        lemma_sorted_all_below_last(s);
        assert(cut_le(s[s.len() - 1].0.hi(), c) || !all_below(s, c));
        match e.0.carve(iv) {
            (Some(l), Some(r)) => {
                let a = rest.push((l, e.1));
                let b = a.push((iv, val));
                lemma_sorted_push(rest, (l, e.1));
                lemma_all_below_weaken(rest, e.0.lo(), iv.lo());
                assert(all_below(a, iv.lo()));
                lemma_sorted_push(a, (iv, val));
                lemma_all_below_weaken(a, iv.lo(), r.lo());
                assert(all_below(b, r.lo()));
                lemma_sorted_push(b, (r, e.1));
                if all_below(s, c) && cut_le(iv.hi(), c) {
                    lemma_all_below_weaken(b, r.lo(), c);
                    assert(all_below(out, c));
                }
                assert forall|k: K| #[trigger]
                    lookup(out, k) == if iv.contains(k) {
                        Some(val)
                    } else {
                        lookup(s, k)
                    } by {
                    lemma_lookup_push(b, (r, e.1), k);
                    lemma_lookup_push(a, (iv, val), k);
                    lemma_lookup_push(rest, (l, e.1), k);
                    lemma_carve_keys(e.0, iv, k);
                }
            },
            (Some(l), None) => {
                let a = rest.push((l, e.1));
                lemma_sorted_push(rest, (l, e.1));
                lemma_all_below_weaken(rest, e.0.lo(), iv.lo());
                assert(all_below(a, iv.lo()));
                lemma_sorted_push(a, (iv, val));
                if all_below(s, c) && cut_le(iv.hi(), c) {
                    lemma_all_below_weaken(a, iv.lo(), c);
                    assert(all_below(out, c));
                }
                assert forall|k: K| #[trigger]
                    lookup(out, k) == if iv.contains(k) {
                        Some(val)
                    } else {
                        lookup(s, k)
                    } by {
                    lemma_lookup_push(a, (iv, val), k);
                    lemma_lookup_push(rest, (l, e.1), k);
                    lemma_carve_keys(e.0, iv, k);
                }
            },
            (None, Some(r)) => {
                let o = overwritten(rest, iv, val);
                lemma_all_below_weaken(rest, e.0.lo(), r.lo());
                lemma_overwritten(rest, iv, val, r.lo());
                lemma_sorted_push(o, (r, e.1));
                if all_below(s, c) && cut_le(iv.hi(), c) {
                    lemma_all_below_weaken(o, r.lo(), c);
                    assert(all_below(out, c));
                }
                assert forall|k: K| #[trigger]
                    lookup(out, k) == if iv.contains(k) {
                        Some(val)
                    } else {
                        lookup(s, k)
                    } by {
                    lemma_lookup_push(o, (r, e.1), k);
                    lemma_carve_keys(e.0, iv, k);
                }
            },
            (None, None) => {
                lemma_overwritten(rest, iv, val, c);
                if all_below(s, c) && cut_le(iv.hi(), c) {
                    lemma_all_below_weaken(rest, e.0.lo(), c);
                }
                assert forall|k: K| #[trigger]
                    lookup(out, k) == if iv.contains(k) {
                        Some(val)
                    } else {
                        lookup(s, k)
                    } by {
                    lemma_carve_keys(e.0, iv, k);
                }
            },
        }
    }
}

/// Removing keeps the entries in order, stays below every cut that the
/// entries stay below, leaves no key of the range with a value and every
/// other key as it was.
pub proof fn lemma_removed<K: Ord, V>(s: Seq<(Interval<K>, V)>, iv: Interval<K>, c: Cut<K>)
    requires
        total_order::<K>(),
        sorted(s),
    ensures
        sorted(removed(s, iv)),
        all_below(s, c) ==> all_below(removed(s, iv), c),
        forall|k: K| #[trigger]
            lookup(removed(s, iv), k) == if iv.contains(k) {
                None
            } else {
                lookup(s, k)
            },
    decreases s.len(),
{
    lemma_cut_order::<K>();
    let out = removed(s, iv);
    if iv.empty() {
        assert forall|k: K| #[trigger] lookup(out, k) == lookup(s, k) && !iv.contains(k) by {
            lemma_empty_holds_nothing(iv, k);
        }
    } else if s.len() == 0 {
    } else {
        let e = s.last();
        let rest = s.drop_last();
        lemma_carve(e.0, iv);
        lemma_sorted_drop_last(s);
        lemma_sorted_all_below_last(s);
        assert(cut_le(s[s.len() - 1].0.hi(), c) || !all_below(s, c));
        match e.0.carve(iv) {
            (Some(l), Some(r)) => {
                let a = rest.push((l, e.1));
                lemma_sorted_push(rest, (l, e.1));
                lemma_all_below_weaken(rest, e.0.lo(), r.lo());
                assert(all_below(a, r.lo()));
                lemma_sorted_push(a, (r, e.1));
                if all_below(s, c) {
                    lemma_all_below_weaken(a, r.lo(), c);
                    assert(all_below(out, c));
                }
                assert forall|k: K| #[trigger]
                    lookup(out, k) == if iv.contains(k) {
                        None
                    } else {
                        lookup(s, k)
                    } by {
                    lemma_lookup_push(a, (r, e.1), k);
                    lemma_lookup_push(rest, (l, e.1), k);
                    lemma_carve_keys(e.0, iv, k);
                    if iv.contains(k) {
                        lemma_lookup_beyond(rest, Cut::Before(k), k);
                    }
                }
            },
            (Some(l), None) => {
                lemma_sorted_push(rest, (l, e.1));
                if all_below(s, c) {
                    lemma_all_below_weaken(rest, e.0.lo(), c);
                    assert(all_below(out, c));
                }
                assert forall|k: K| #[trigger]
                    lookup(out, k) == if iv.contains(k) {
                        None
                    } else {
                        lookup(s, k)
                    } by {
                    lemma_lookup_push(rest, (l, e.1), k);
                    lemma_carve_keys(e.0, iv, k);
                    if iv.contains(k) {
                        lemma_all_below_weaken(rest, e.0.lo(), Cut::Before(k));
                        lemma_lookup_beyond(rest, Cut::Before(k), k);
                    }
                }
            },
            (None, Some(r)) => {
                let o = removed(rest, iv);
                lemma_all_below_weaken(rest, e.0.lo(), r.lo());
                lemma_removed(rest, iv, r.lo());
                lemma_sorted_push(o, (r, e.1));
                if all_below(s, c) {
                    lemma_all_below_weaken(o, r.lo(), c);
                    assert(all_below(out, c));
                }
                assert forall|k: K| #[trigger]
                    lookup(out, k) == if iv.contains(k) {
                        None
                    } else {
                        lookup(s, k)
                    } by {
                    lemma_lookup_push(o, (r, e.1), k);
                    lemma_carve_keys(e.0, iv, k);
                }
            },
            (None, None) => {
                lemma_removed(rest, iv, c);
                if all_below(s, c) {
                    lemma_all_below_weaken(rest, e.0.lo(), c);
                }
                assert forall|k: K| #[trigger]
                    lookup(out, k) == if iv.contains(k) {
                        None
                    } else {
                        lookup(s, k)
                    } by {
                    lemma_carve_keys(e.0, iv, k);
                }
            },
        }
    }
}

/// The range of all keys from `key` on.
pub open spec fn from_key<K>(key: K) -> Interval<K> {
    Interval { start: StartBound(Bound::Included(key)), end: EndBound(Bound::Unbounded) }
}

/// The range of all keys below `key`.
pub open spec fn up_to_key<K>(key: K) -> Interval<K> {
    Interval { start: StartBound(Bound::Unbounded), end: EndBound(Bound::Excluded(key)) }
}

/// Neither of the two ranges is empty: one holds the key, and below the
/// other stretches at least the place below all keys.
pub proof fn lemma_key_ranges<K: Ord>(key: K)
    requires
        total_order::<K>(),
    ensures
        !from_key(key).empty(),
        !up_to_key(key).empty(),
        from_key(key).lo() == Cut::Before(key),
        up_to_key(key).hi() == Cut::Before(key),
        forall|k: K| #[trigger] from_key(key).contains(k) <==> !lt(k, key),
        forall|k: K| #[trigger] up_to_key(key).contains(k) <==> lt(k, key),
{
    crate::bound::lemma_cut_ends(Cut::Before(key));
    assert forall|k: K| #[trigger] from_key(key).contains(k) <==> !lt(k, key) by {
        crate::bound::lemma_cut_ends(Cut::Before(k));
        reveal(cut_lt);
    }
    assert forall|k: K| #[trigger] up_to_key(key).contains(k) <==> lt(k, key) by {
        crate::bound::lemma_cut_ends(Cut::Before(k));
        reveal(cut_lt);
    }
}

/// Taking out a range without upper end leaves nothing of the entries that
/// begin in it.
pub proof fn lemma_removed_upper<K: Ord, V>(s: Seq<(Interval<K>, V)>, iv: Interval<K>, i: int)
    requires
        total_order::<K>(),
        sorted(s),
        0 <= i <= s.len(),
        iv.end.0 is Unbounded,
        !iv.empty(),
        forall|j: int| i <= j < s.len() ==> cut_le(iv.lo(), (#[trigger] s[j]).0.lo()),
    ensures
        removed(s, iv) == removed(s.take(i), iv),
    decreases s.len(),
{
    lemma_cut_order::<K>();
    if i == s.len() {
        assert(s.take(i) =~= s);
    } else {
        let e = s.last();
        let n = s.len() - 1;
        assert(cut_le(iv.lo(), s[n].0.lo()));
        assert(!s[n].0.empty());
        crate::bound::lemma_cut_ends(e.0.lo());
        crate::bound::lemma_cut_ends(e.0.hi());
        assert(e.0.carve(iv) == (None::<Interval<K>>, None::<Interval<K>>));
        lemma_sorted_drop_last(s);
        assert forall|j: int| i <= j < s.drop_last().len() implies cut_le(
            iv.lo(),
            (#[trigger] s.drop_last()[j]).0.lo(),
        ) by {
            assert(cut_le(iv.lo(), s[j].0.lo()));
        }
        lemma_removed_upper(s.drop_last(), iv, i);
        assert(s.drop_last().take(i) =~= s.take(i));
    }
}

/// Taking out a range without lower end leaves nothing of the entries that
/// stop in it.
pub proof fn lemma_removed_inside<K: Ord, V>(s: Seq<(Interval<K>, V)>, iv: Interval<K>)
    requires
        total_order::<K>(),
        sorted(s),
        iv.start.0 is Unbounded,
        all_below(s, iv.hi()),
    ensures
        removed(s, iv) == Seq::<(Interval<K>, V)>::empty(),
    decreases s.len(),
{
    lemma_cut_order::<K>();
    if iv.empty() {
        if s.len() > 0 {
            assert(!s[0].0.empty());
            assert(cut_le(s[0].0.hi(), iv.hi()));
            crate::bound::lemma_cut_ends(s[0].0.lo());
            assert(false);
        }
    } else if s.len() > 0 {
        let e = s.last();
        let n = s.len() - 1;
        assert(cut_le(s[n].0.hi(), iv.hi()));
        assert(!s[n].0.empty());
        crate::bound::lemma_cut_ends(e.0.lo());
        crate::bound::lemma_cut_ends(e.0.hi());
        assert(e.0.carve(iv) == (None::<Interval<K>>, None::<Interval<K>>));
        lemma_sorted_drop_last(s);
        assert forall|j: int| 0 <= j < s.drop_last().len() implies cut_le(
            (#[trigger] s.drop_last()[j]).0.hi(),
            iv.hi(),
        ) by {
            assert(cut_le(s[j].0.hi(), iv.hi()));
        }
        lemma_removed_inside(s.drop_last(), iv);
    }
}

/// Taking out a range without lower end leaves the entries that begin
/// above it as they are.
pub proof fn lemma_removed_lower<K: Ord, V>(s: Seq<(Interval<K>, V)>, iv: Interval<K>, i: int)
    requires
        total_order::<K>(),
        sorted(s),
        0 <= i <= s.len(),
        iv.start.0 is Unbounded,
        !iv.empty(),
        forall|j: int| i <= j < s.len() ==> cut_le(iv.hi(), (#[trigger] s[j]).0.lo()),
    ensures
        removed(s, iv) == removed(s.take(i), iv) + s.skip(i),
    decreases s.len(),
{
    lemma_cut_order::<K>();
    if i == s.len() {
        assert(s.take(i) =~= s);
        assert(removed(s, iv) + s.skip(i) =~= removed(s, iv));
    } else {
        let e = s.last();
        let n = s.len() - 1;
        assert(cut_le(iv.hi(), s[n].0.lo()));
        assert(!s[n].0.empty());
        crate::bound::lemma_cut_ends(e.0.lo());
        crate::bound::lemma_cut_ends(e.0.hi());
        assert(e.0.carve(iv) == (None::<Interval<K>>, Some(e.0)));
        lemma_sorted_drop_last(s);
        assert forall|j: int| i <= j < s.drop_last().len() implies cut_le(
            iv.hi(),
            (#[trigger] s.drop_last()[j]).0.lo(),
        ) by {
            assert(cut_le(iv.hi(), s[j].0.lo()));
        }
        lemma_removed_lower(s.drop_last(), iv, i);
        assert(s.drop_last().take(i) =~= s.take(i));
        assert((removed(s.take(i), iv) + s.drop_last().skip(i)).push(e) =~= removed(s.take(i), iv)
            + s.skip(i));
    }
}

} // verus!
