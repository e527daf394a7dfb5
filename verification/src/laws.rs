//! What holds of the operations of a map, stated of the entries as
//! sequences and of the value that a key has among them.
use crate::bound::{lemma_cut_order, Cut};
use crate::bulk::{appended, lemma_appended, or_else};
use crate::carving::{filled, lemma_filled, lemma_overwritten, lemma_removed, overwritten, removed};
use crate::interval::Interval;
use crate::interval_map::MergedValue;
use crate::inverting::{inverted, lemma_inverted};
use crate::merging::{lemma_merged, merged};
use crate::order::total_order;
use crate::table::{lemma_lookup_at, lemma_lookup_covers, lookup, sorted};
use vstd::prelude::*;

verus! {

/// Every operation that changes a map leaves its entries in ascending
/// order, without overlap and without an empty range.
pub proof fn law_order_is_kept<K: Ord, V, W>(
    s: Seq<(Interval<K>, V)>,
    t: Seq<(Interval<K>, V)>,
    u: Seq<(Interval<K>, W)>,
    iv: Interval<K>,
    val: V,
)
    requires
        total_order::<K>(),
        sorted(s),
        sorted(t),
        sorted(u),
    ensures
        sorted(filled(s, iv, val)),
        sorted(overwritten(s, iv, val)),
        sorted(removed(s, iv)),
        sorted(appended(s, t)),
        sorted(merged(s, u)),
        sorted(inverted(s, val)),
{
    lemma_filled(s, iv, val, Cut::PosInf);
    lemma_overwritten(s, iv, val, Cut::PosInf);
    lemma_removed(s, iv, Cut::PosInf);
    lemma_appended(s, t);
    assert forall|i: int| 0 <= i < s.len() implies crate::bound::cut_le(
        Cut::NegInf,
        (#[trigger] s[i]).0.lo(),
    ) by {
        crate::bound::lemma_cut_ends(s[i].0.lo());
    }
    assert forall|i: int| 0 <= i < u.len() implies crate::bound::cut_le(
        Cut::NegInf,
        (#[trigger] u[i]).0.lo(),
    ) by {
        crate::bound::lemma_cut_ends(u[i].0.lo());
    }
    lemma_merged(s, u, Cut::NegInf);
    lemma_inverted(s, val);
}

/// Among the entries of a map at most one holds a given key, and the key
/// has that entry's value; where none holds it, the key has no value.
pub proof fn law_one_entry_holds_a_key<K: Ord, V>(s: Seq<(Interval<K>, V)>, k: K, i: int, j: int)
    requires
        total_order::<K>(),
        sorted(s),
        0 <= i < s.len(),
        0 <= j < s.len(),
        s[i].0.contains(k),
    ensures
        s[j].0.contains(k) ==> i == j,
        lookup(s, k) == Some(s[i].1),
{
    lemma_cut_order::<K>();
    lemma_lookup_at(s, i, k);
    if s[j].0.contains(k) {
        if i < j {
            assert(s[i].0.below(s[j].0));
        }
        if j < i {
            assert(s[j].0.below(s[i].0));
        }
    }
}

/// A key that no entry holds has no value, and a key that has no value is
/// held by no entry.
pub proof fn law_no_entry_no_value<K: Ord, V>(s: Seq<(Interval<K>, V)>, k: K)
    ensures
        lookup(s, k) is None <==> forall|i: int|
            0 <= i < s.len() ==> !(#[trigger] s[i]).0.contains(k),
{
    lemma_lookup_covers(s, k);
}

/// After a range is overwritten with a value, every key of the range has
/// that value, whatever the map held before.
pub proof fn law_overwrite_then_get<K: Ord, V>(
    s: Seq<(Interval<K>, V)>,
    iv: Interval<K>,
    val: V,
    k: K,
)
    requires
        total_order::<K>(),
        sorted(s),
        iv.contains(k),
    ensures
        lookup(overwritten(s, iv, val), k) == Some(val),
{
    lemma_overwritten(s, iv, val, Cut::PosInf);
}

/// After a range is removed, no key of the range has a value.
pub proof fn law_remove_then_get<K: Ord, V>(s: Seq<(Interval<K>, V)>, iv: Interval<K>, k: K)
    requires
        total_order::<K>(),
        sorted(s),
        iv.contains(k),
    ensures
        lookup(removed(s, iv), k) is None,
{
    lemma_removed(s, iv, Cut::PosInf);
}

/// Overwriting and removing leave every key outside the range as it was.
pub proof fn law_outside_is_untouched<K: Ord, V>(
    s: Seq<(Interval<K>, V)>,
    iv: Interval<K>,
    val: V,
    k: K,
)
    requires
        total_order::<K>(),
        sorted(s),
        !iv.contains(k),
    ensures
        lookup(overwritten(s, iv, val), k) == lookup(s, k),
        lookup(removed(s, iv), k) == lookup(s, k),
        lookup(filled(s, iv, val), k) == lookup(s, k),
{
    lemma_overwritten(s, iv, val, Cut::PosInf);
    lemma_removed(s, iv, Cut::PosInf);
    lemma_filled(s, iv, val, Cut::PosInf);
    assert(lookup(filled(s, iv, val), k) == crate::carving::fill_at(lookup(s, k), iv, val, k));
}

/// Inserting a range with a value leaves every key that had a value with
/// that value, and gives the new value to every other key of the range.
pub proof fn law_insert_keeps_and_fills<K: Ord, V>(
    s: Seq<(Interval<K>, V)>,
    iv: Interval<K>,
    val: V,
    k: K,
)
    requires
        total_order::<K>(),
        sorted(s),
    ensures
        lookup(s, k) is Some ==> lookup(filled(s, iv, val), k) == lookup(s, k),
        lookup(s, k) is None && iv.contains(k) ==> lookup(filled(s, iv, val), k) == Some(val),
{
    lemma_filled(s, iv, val, Cut::PosInf);
    assert(lookup(filled(s, iv, val), k) == crate::carving::fill_at(lookup(s, k), iv, val, k));
}

/// In the merge of two maps a key has both values, tagged `Both`, where
/// both maps have one; the one value, tagged `Left` or `Right`, where one
/// map has one; and no value where neither has one.
pub proof fn law_merge_key_by_key<K: Ord, V, W>(
    a: Seq<(Interval<K>, V)>,
    b: Seq<(Interval<K>, W)>,
    k: K,
)
    requires
        total_order::<K>(),
        sorted(a),
        sorted(b),
    ensures
        lookup(merged(a, b), k) == (match (lookup(a, k), lookup(b, k)) {
            (Some(v), Some(w)) => Some(MergedValue::Both(v, w)),
            (Some(v), None) => Some(MergedValue::Left(v)),
            (None, Some(w)) => Some(MergedValue::Right(w)),
            (None, None) => None,
        }),
        lookup(merged(a, b), k) is None <==> lookup(a, k) is None && lookup(b, k) is None,
{
    assert forall|i: int| 0 <= i < a.len() implies crate::bound::cut_le(
        Cut::NegInf,
        (#[trigger] a[i]).0.lo(),
    ) by {
        crate::bound::lemma_cut_ends(a[i].0.lo());
    }
    assert forall|i: int| 0 <= i < b.len() implies crate::bound::cut_le(
        Cut::NegInf,
        (#[trigger] b[i]).0.lo(),
    ) by {
        crate::bound::lemma_cut_ends(b[i].0.lo());
    }
    lemma_merged(a, b, Cut::NegInf);
    assert(lookup(merged(a, b), k) == crate::merging::merge_at(lookup(a, k), lookup(b, k)));
}

/// After one map is appended to another, a key has the value it had in the
/// first, and where it had none there, the value it had in the second.
pub proof fn law_append_key_by_key<K: Ord, V>(
    a: Seq<(Interval<K>, V)>,
    b: Seq<(Interval<K>, V)>,
    k: K,
)
    requires
        total_order::<K>(),
        sorted(a),
    ensures
        lookup(appended(a, b), k) == (match lookup(a, k) {
            Some(v) => Some(v),
            None => lookup(b, k),
        }),
{
    lemma_appended(a, b);
    assert(lookup(appended(a, b), k) == or_else(lookup(a, k), lookup(b, k)));
}

/// In the map of the gaps a key has the new value exactly where it had no
/// value before.
pub proof fn law_invert_key_by_key<K: Ord, V>(s: Seq<(Interval<K>, V)>, val: V, k: K)
    requires
        total_order::<K>(),
        sorted(s),
    ensures
        lookup(inverted(s, val), k) == if lookup(s, k) is None {
            Some(val)
        } else {
            None
        },
{
    lemma_inverted(s, val);
}

/// A map whose one entry holds every key takes nothing in when another
/// map is appended to it.
pub proof fn law_full_map_absorbs<K: Ord, V>(v: V, b: Seq<(Interval<K>, V)>)
    requires
        total_order::<K>(),
    ensures
        appended(seq![(everything::<K>(), v)], b) == seq![(everything::<K>(), v)],
    decreases b.len(),
{
    let a = seq![(everything::<K>(), v)];
    if b.len() > 0 {
        let iv = b.last().0;
        crate::bound::lemma_cut_ends(iv.lo());
        crate::bound::lemma_cut_ends(iv.hi());
        assert(a.last() == (everything::<K>(), v));
        assert(filled(a, iv, b.last().1) == a);
        law_full_map_absorbs(v, b.drop_last());
    }
}

/// The range that holds every key.
pub open spec fn everything<K>() -> Interval<K> {
    Interval {
        start: crate::bound::StartBound(crate::bound::Bound::Unbounded),
        end: crate::bound::EndBound(crate::bound::Bound::Unbounded),
    }
}

} // verus!
