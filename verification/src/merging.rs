//! What two sequences of entries make when they are laid over one another:
//! over every stretch of keys the values of both, tagged by where they come
//! from.
use crate::bound::{cut_le, cut_lt, lemma_cut_ends, lemma_cut_order, Cut, EndBound, StartBound};
use crate::interval::Interval;
use crate::interval_map::MergedValue;
use crate::order::total_order;
use crate::table::{
    all_above, all_below, lemma_all_above_weaken, lemma_lookup_before, lemma_lookup_beyond,
    lemma_lookup_concat, lemma_lookup_front, lemma_lookup_push, lemma_sorted_all_above_first,
    lemma_sorted_concat, lemma_sorted_skip, lookup, sorted,
};
use vstd::prelude::*;

verus! {

/// The entries of a left map, each value tagged `Left`.
pub open spec fn tag_left<K, V, W>(a: Seq<(Interval<K>, V)>) -> Seq<
    (Interval<K>, MergedValue<V, W>),
> {
    Seq::new(a.len(), |i: int| (a[i].0, MergedValue::Left(a[i].1)))
}

/// The entries of a right map, each value tagged `Right`.
pub open spec fn tag_right<K, V, W>(b: Seq<(Interval<K>, W)>) -> Seq<
    (Interval<K>, MergedValue<V, W>),
> {
    Seq::new(b.len(), |i: int| (b[i].0, MergedValue::Right(b[i].1)))
}

/// What the merged map holds for a key, given what the two maps hold for it.
pub open spec fn merge_at<V, W>(x: Option<V>, y: Option<W>) -> Option<MergedValue<V, W>> {
    match (x, y) {
        (Some(v), Some(w)) => Some(MergedValue::Both(v, w)),
        (Some(v), None) => Some(MergedValue::Left(v)),
        (None, Some(w)) => Some(MergedValue::Right(w)),
        (None, None) => None,
    }
}

/// Where two ranges overlap, the part of the one that begins first that
/// lies before the other; nothing if they begin together.
pub open spec fn lead<K: Ord, V, W>(e1: (Interval<K>, V), e2: (Interval<K>, W)) -> Seq<
    (Interval<K>, MergedValue<V, W>),
> {
    if cut_lt(e1.0.lo(), e2.0.lo()) {
        seq![
            (
                Interval { start: e1.0.start, end: EndBound::before(e2.0.start) },
                MergedValue::Left(e1.1),
            ),
        ]
    } else if cut_lt(e2.0.lo(), e1.0.lo()) {
        seq![
            (
                Interval { start: e2.0.start, end: EndBound::before(e1.0.start) },
                MergedValue::Right(e2.1),
            ),
        ]
    } else {
        Seq::empty()
    }
}

/// Where two ranges overlap, the start of what they have in common.
pub open spec fn common_start<K: Ord>(i1: Interval<K>, i2: Interval<K>) -> StartBound<K> {
    if cut_lt(i1.lo(), i2.lo()) {
        i2.start
    } else if cut_lt(i2.lo(), i1.lo()) {
        i1.start
    } else if !cut_lt(i1.hi(), i2.hi()) && cut_lt(i2.hi(), i1.hi()) {
        i2.start
    } else {
        i1.start
    }
}

/// The two sequences laid over one another, from their first entries on.
/// An entry that stops before the other sequence begins goes over whole.
/// Where the first entries overlap, what the earlier one has alone goes
/// first, then what they have in common up to where the first of them
/// stops; the rest of the longer one stays at the head of its sequence.
pub open spec fn merged<K: Ord, V, W>(a: Seq<(Interval<K>, V)>, b: Seq<(Interval<K>, W)>) -> Seq<
    (Interval<K>, MergedValue<V, W>),
>
    decreases a.len() + b.len(),
{
    if a.len() == 0 {
        tag_right(b)
    } else if b.len() == 0 {
        tag_left(a)
    } else {
        let i1 = a[0].0;
        let i2 = b[0].0;
        let both = MergedValue::Both(a[0].1, b[0].1);
        if i1.below(i2) {
            seq![(i1, MergedValue::Left(a[0].1))] + merged(a.skip(1), b)
        } else if i2.below(i1) {
            seq![(i2, MergedValue::Right(b[0].1))] + merged(a, b.skip(1))
        } else if cut_lt(i1.hi(), i2.hi()) {
            lead(a[0], b[0]).push((Interval { start: common_start(i1, i2), end: i1.end }, both))
                + merged(a.skip(1), after_cut(b, i1.end))
        } else if cut_lt(i2.hi(), i1.hi()) {
            lead(a[0], b[0]).push((Interval { start: common_start(i1, i2), end: i2.end }, both))
                + merged(after_cut(a, i2.end), b.skip(1))
        } else {
            lead(a[0], b[0]).push((Interval { start: common_start(i1, i2), end: i1.end }, both))
                + merged(a.skip(1), b.skip(1))
        }
    }
}

/// The sequence with its first entry cut back to what lies above `e`.
pub open spec fn after_cut<K, V>(s: Seq<(Interval<K>, V)>, e: EndBound<K>) -> Seq<(Interval<K>, V)>
    recommends
        s.len() > 0,
{
    s.update(0, (Interval { start: StartBound::after(e), end: s[0].0.end }, s[0].1))
}

/// Tagged `Left`, entries are in order as before, and every key has its
/// value with the tag.
pub proof fn lemma_tag_left<K: Ord, V, W>(a: Seq<(Interval<K>, V)>, c: Cut<K>)
    ensures
        sorted(a) ==> sorted(tag_left::<K, V, W>(a)),
        all_above(a, c) ==> all_above(tag_left::<K, V, W>(a), c),
        forall|k: K| #[trigger]
            lookup(tag_left::<K, V, W>(a), k) == merge_at::<V, W>(lookup(a, k), None),
    decreases a.len(),
{
    let t = tag_left::<K, V, W>(a);
    if sorted(a) {
        assert forall|i: int, j: int| 0 <= i < j < t.len() implies (#[trigger] t[i]).0.below(
            (#[trigger] t[j]).0,
        ) by {
            assert(a[i].0.below(a[j].0));
        }
        assert forall|i: int| 0 <= i < t.len() implies !(#[trigger] t[i]).0.empty() by {
            assert(!a[i].0.empty());
        }
    }
    if all_above(a, c) {
        assert forall|i: int| 0 <= i < t.len() implies cut_le(c, (#[trigger] t[i]).0.lo()) by {
            assert(cut_le(c, a[i].0.lo()));
        }
    }
    if a.len() > 0 {
        lemma_tag_left::<K, V, W>(a.drop_last(), c);
        assert(t.drop_last() =~= tag_left::<K, V, W>(a.drop_last()));
        assert(t.last() == (a.last().0, MergedValue::<V, W>::Left(a.last().1)));
    }
    assert forall|k: K| #[trigger] lookup(t, k) == merge_at::<V, W>(lookup(a, k), None) by {
        if a.len() > 0 {
            assert(lookup(t.drop_last(), k) == merge_at::<V, W>(lookup(a.drop_last(), k), None));
        }
    }
}

/// Tagged `Right`, entries are in order as before, and every key has its
/// value with the tag.
pub proof fn lemma_tag_right<K: Ord, V, W>(b: Seq<(Interval<K>, W)>, c: Cut<K>)
    ensures
        sorted(b) ==> sorted(tag_right::<K, V, W>(b)),
        all_above(b, c) ==> all_above(tag_right::<K, V, W>(b), c),
        forall|k: K| #[trigger]
            lookup(tag_right::<K, V, W>(b), k) == merge_at::<V, W>(None, lookup(b, k)),
    decreases b.len(),
{
    let t = tag_right::<K, V, W>(b);
    if sorted(b) {
        assert forall|i: int, j: int| 0 <= i < j < t.len() implies (#[trigger] t[i]).0.below(
            (#[trigger] t[j]).0,
        ) by {
            assert(b[i].0.below(b[j].0));
        }
        assert forall|i: int| 0 <= i < t.len() implies !(#[trigger] t[i]).0.empty() by {
            assert(!b[i].0.empty());
        }
    }
    if all_above(b, c) {
        assert forall|i: int| 0 <= i < t.len() implies cut_le(c, (#[trigger] t[i]).0.lo()) by {
            assert(cut_le(c, b[i].0.lo()));
        }
    }
    if b.len() > 0 {
        lemma_tag_right::<K, V, W>(b.drop_last(), c);
        assert(t.drop_last() =~= tag_right::<K, V, W>(b.drop_last()));
        assert(t.last() == (b.last().0, MergedValue::<V, W>::Right(b.last().1)));
    }
    assert forall|k: K| #[trigger] lookup(t, k) == merge_at::<V, W>(None, lookup(b, k)) by {
        if b.len() > 0 {
            assert(lookup(t.drop_last(), k) == merge_at::<V, W>(None, lookup(b.drop_last(), k)));
        }
    }
}

/// A first entry cut back to what lies above a cut within it leaves the
/// sequence in order, above that cut, and with the same value for every
/// key above the cut.
proof fn lemma_after_cut<K: Ord, V>(s: Seq<(Interval<K>, V)>, e: EndBound<K>)
    requires
        total_order::<K>(),
        sorted(s),
        s.len() > 0,
        cut_lt(e.cut(), s[0].0.hi()),
    ensures
        sorted(after_cut(s, e)),
        all_above(after_cut(s, e), e.cut()),
        forall|k: K|
            cut_le(e.cut(), Cut::Before(k)) && cut_le(s[0].0.lo(), e.cut()) ==> #[trigger] lookup(
                after_cut(s, e),
                k,
            ) == lookup(s, k),
{
    lemma_cut_order::<K>();
    lemma_cut_ends(e.cut());
    lemma_cut_ends(s[0].0.hi());
    let t = after_cut(s, e);
    assert(StartBound::after(e).cut() == e.cut());
    lemma_sorted_skip(s);
    assert(t.skip(1) =~= s.skip(1));
    assert forall|i: int, j: int| 0 <= i < j < t.len() implies (#[trigger] t[i]).0.below(
        (#[trigger] t[j]).0,
    ) by {
        assert(s[i].0.below(s[j].0));
    }
    assert forall|i: int| 0 <= i < t.len() implies !(#[trigger] t[i]).0.empty() by {
        assert(!s[i].0.empty());
    }
    assert forall|i: int| 0 <= i < t.len() implies cut_le(e.cut(), (#[trigger] t[i]).0.lo()) by {
        if i > 0 {
            assert(s[0].0.below(s[i].0));
        }
    }
    assert forall|k: K|
        cut_le(e.cut(), Cut::Before(k)) && cut_le(s[0].0.lo(), e.cut()) implies #[trigger] lookup(
        t,
        k,
    ) == lookup(s, k) by {
        lemma_lookup_front(s, k);
        lemma_lookup_front(t, k);
    }
}

/// What is settled below a cut and what is merged above it make the merge
/// of the whole.
proof fn lemma_merged_compose<K: Ord, V, W>(
    a: Seq<(Interval<K>, V)>,
    b: Seq<(Interval<K>, W)>,
    a2: Seq<(Interval<K>, V)>,
    b2: Seq<(Interval<K>, W)>,
    front: Seq<(Interval<K>, MergedValue<V, W>)>,
    rest: Seq<(Interval<K>, MergedValue<V, W>)>,
    m: Cut<K>,
    c: Cut<K>,
)
    requires
        total_order::<K>(),
        sorted(front),
        all_below(front, m),
        all_above(front, c),
        cut_le(c, m),
        sorted(rest),
        all_above(rest, m),
        forall|k: K|
            cut_lt(Cut::Before(k), m) ==> #[trigger] lookup(front, k) == merge_at(
                lookup(a, k),
                lookup(b, k),
            ),
        forall|k: K|
            cut_le(m, Cut::Before(k)) ==> #[trigger] lookup(a2, k) == lookup(a, k),
        forall|k: K|
            cut_le(m, Cut::Before(k)) ==> #[trigger] lookup(b2, k) == lookup(b, k),
        forall|k: K| #[trigger] lookup(rest, k) == merge_at(lookup(a2, k), lookup(b2, k)),
    ensures
        sorted(front + rest),
        all_above(front + rest, c),
        forall|k: K| #[trigger] lookup(front + rest, k) == merge_at(lookup(a, k), lookup(b, k)),
{
    lemma_sorted_concat(front, rest, m);
    lemma_all_above_weaken(rest, m, c);
    assert forall|i: int| 0 <= i < (front + rest).len() implies cut_le(
        c,
        (#[trigger] (front + rest)[i]).0.lo(),
    ) by {
        if i < front.len() {
            assert(cut_le(c, front[i].0.lo()));
        } else {
            assert(cut_le(c, rest[i - front.len()].0.lo()));
        }
    }
    assert forall|k: K| #[trigger]
        lookup(front + rest, k) == merge_at(lookup(a, k), lookup(b, k)) by {
        lemma_lookup_concat(front, rest, k);
        if cut_lt(Cut::Before(k), m) {
            lemma_lookup_before(rest, m, k);
            assert(lookup(front, k) == merge_at(lookup(a, k), lookup(b, k)));
        } else {
            lemma_lookup_beyond(front, m, k);
            assert(lookup(rest, k) == merge_at(lookup(a2, k), lookup(b2, k)));
            assert(lookup(a2, k) == lookup(a, k));
            assert(lookup(b2, k) == lookup(b, k));
        }
    }
}

/// The value of a key below a cut, in a sequence whose entries but the
/// first all begin above the cut: the first entry decides.
proof fn lemma_lookup_head<K: Ord, V>(s: Seq<(Interval<K>, V)>, m: Cut<K>, k: K)
    requires
        total_order::<K>(),
        sorted(s),
        s.len() > 0,
        cut_le(m, s[0].0.hi()),
        cut_lt(Cut::Before(k), m),
    ensures
        lookup(s, k) == if s[0].0.contains(k) {
            Some(s[0].1)
        } else {
            None
        },
{
    lemma_cut_order::<K>();
    lemma_lookup_front(s, k);
    lemma_sorted_skip(s);
    lemma_lookup_before(s.skip(1), s[0].0.hi(), k);
}

/// A whole entry that stops before the other sequence begins is settled.
proof fn lemma_front_single<K: Ord, V, W>(
    a: Seq<(Interval<K>, V)>,
    b: Seq<(Interval<K>, W)>,
    c: Cut<K>,
)
    requires
        total_order::<K>(),
        sorted(a),
        sorted(b),
        a.len() > 0,
        all_above(a, c),
        all_above(b, a[0].0.hi()),
    ensures
        ({
            let front = seq![(a[0].0, MergedValue::<V, W>::Left(a[0].1))];
            let m = a[0].0.hi();
            &&& sorted(front)
            &&& all_below(front, m)
            &&& all_above(front, c)
            &&& cut_le(c, m)
            &&& forall|k: K|
                cut_lt(Cut::Before(k), m) ==> #[trigger] lookup(front, k) == merge_at(
                    lookup(a, k),
                    lookup(b, k),
                )
            &&& forall|k: K|
                cut_le(m, Cut::Before(k)) ==> #[trigger] lookup(a.skip(1), k) == lookup(a, k)
        }),
{
    lemma_cut_order::<K>();
    let e = (a[0].0, MergedValue::<V, W>::Left(a[0].1));
    let front = seq![e];
    let m = a[0].0.hi();
    assert(!a[0].0.empty());
    assert(cut_le(c, a[0].0.lo()));
    assert(front =~= Seq::empty().push(e));
    assert forall|k: K| cut_lt(Cut::Before(k), m) implies #[trigger] lookup(front, k) == merge_at(
        lookup(a, k),
        lookup(b, k),
    ) by {
        lemma_lookup_push(Seq::empty(), e, k);
        lemma_lookup_head(a, m, k);
        lemma_lookup_before(b, m, k);
    }
    assert forall|k: K| cut_le(m, Cut::Before(k)) implies #[trigger] lookup(a.skip(1), k)
        == lookup(a, k) by {
        lemma_lookup_front(a, k);
    }
}

/// The same for a whole entry of the right sequence.
proof fn lemma_front_single_right<K: Ord, V, W>(
    a: Seq<(Interval<K>, V)>,
    b: Seq<(Interval<K>, W)>,
    c: Cut<K>,
)
    requires
        total_order::<K>(),
        sorted(a),
        sorted(b),
        b.len() > 0,
        all_above(b, c),
        all_above(a, b[0].0.hi()),
    ensures
        ({
            let front = seq![(b[0].0, MergedValue::<V, W>::Right(b[0].1))];
            let m = b[0].0.hi();
            &&& sorted(front)
            &&& all_below(front, m)
            &&& all_above(front, c)
            &&& cut_le(c, m)
            &&& forall|k: K|
                cut_lt(Cut::Before(k), m) ==> #[trigger] lookup(front, k) == merge_at(
                    lookup(a, k),
                    lookup(b, k),
                )
            &&& forall|k: K|
                cut_le(m, Cut::Before(k)) ==> #[trigger] lookup(b.skip(1), k) == lookup(b, k)
        }),
{
    lemma_cut_order::<K>();
    let e = (b[0].0, MergedValue::<V, W>::Right(b[0].1));
    let front = seq![e];
    let m = b[0].0.hi();
    assert(!b[0].0.empty());
    assert(cut_le(c, b[0].0.lo()));
    assert(front =~= Seq::empty().push(e));
    assert forall|k: K| cut_lt(Cut::Before(k), m) implies #[trigger] lookup(front, k) == merge_at(
        lookup(a, k),
        lookup(b, k),
    ) by {
        lemma_lookup_push(Seq::empty(), e, k);
        lemma_lookup_head(b, m, k);
        lemma_lookup_before(a, m, k);
    }
    assert forall|k: K| cut_le(m, Cut::Before(k)) implies #[trigger] lookup(b.skip(1), k)
        == lookup(b, k) by {
        lemma_lookup_front(b, k);
    }
}

/// Where the first entries overlap, what goes first is settled: the part
/// that one of them has alone, and the part that both have up to `m`, the
/// lower of the two ends.
proof fn lemma_front_overlap<K: Ord, V, W>(
    a: Seq<(Interval<K>, V)>,
    b: Seq<(Interval<K>, W)>,
    end: EndBound<K>,
    c: Cut<K>,
)
    requires
        total_order::<K>(),
        sorted(a),
        sorted(b),
        a.len() > 0,
        b.len() > 0,
        all_above(a, c),
        all_above(b, c),
        !a[0].0.below(b[0].0),
        !b[0].0.below(a[0].0),
        cut_le(end.cut(), a[0].0.hi()),
        cut_le(end.cut(), b[0].0.hi()),
        end.cut() == a[0].0.hi() || end.cut() == b[0].0.hi(),
    ensures
        ({
            let front = lead(a[0], b[0]).push(
                (
                    Interval { start: common_start(a[0].0, b[0].0), end },
                    MergedValue::Both(a[0].1, b[0].1),
                ),
            );
            let m = end.cut();
            &&& sorted(front)
            &&& all_below(front, m)
            &&& all_above(front, c)
            &&& cut_le(c, m)
            &&& forall|k: K|
                cut_lt(Cut::Before(k), m) ==> #[trigger] lookup(front, k) == merge_at(
                    lookup(a, k),
                    lookup(b, k),
                )
        }),
{
    lemma_cut_order::<K>();
    let i1 = a[0].0;
    let i2 = b[0].0;
    let m = end.cut();
    let ov = (Interval { start: common_start(i1, i2), end }, MergedValue::Both(a[0].1, b[0].1));
    let ld = lead(a[0], b[0]);
    let front = ld.push(ov);
    assert(!a[0].0.empty());
    assert(!b[0].0.empty());
    assert(cut_le(c, a[0].0.lo()));
    assert(cut_le(c, b[0].0.lo()));
    lemma_cut_ends(i1.lo());
    lemma_cut_ends(i2.lo());
    if cut_lt(i1.lo(), i2.lo()) {
        assert(EndBound::before(i2.start).cut() == i2.lo());
    }
    if cut_lt(i2.lo(), i1.lo()) {
        assert(EndBound::before(i1.start).cut() == i1.lo());
    }
    assert(!ov.0.empty());
    assert forall|i: int| 0 <= i < front.len() implies !(#[trigger] front[i]).0.empty() && cut_le(
        front[i].0.hi(),
        m,
    ) && cut_le(c, front[i].0.lo()) by {
        if i < ld.len() {
            assert(front[i] == ld[0]);
        }
    }
    assert forall|i: int, j: int| 0 <= i < j < front.len() implies (#[trigger] front[i]).0.below(
        (#[trigger] front[j]).0,
    ) by {
        assert(front[i] == ld[0]);
        assert(front[j] == ov);
    }
    assert forall|k: K| cut_lt(Cut::Before(k), m) implies #[trigger] lookup(front, k) == merge_at(
        lookup(a, k),
        lookup(b, k),
    ) by {
        lemma_lookup_push(ld, ov, k);
        if ld.len() > 0 {
            assert(ld =~= Seq::empty().push(ld[0]));
            lemma_lookup_push(Seq::empty(), ld[0], k);
        }
        lemma_lookup_head(a, m, k);
        lemma_lookup_head(b, m, k);
    }
}

/// Laid over one another, two sequences in order make a sequence in order
/// that begins where the lower of them begins. Every key has in it the
/// values that it has in the two, tagged by where they come from, and no
/// value where it has none in either.
pub proof fn lemma_merged<K: Ord, V, W>(
    a: Seq<(Interval<K>, V)>,
    b: Seq<(Interval<K>, W)>,
    c: Cut<K>,
)
    requires
        total_order::<K>(),
        sorted(a),
        sorted(b),
        all_above(a, c),
        all_above(b, c),
    ensures
        sorted(merged(a, b)),
        all_above(merged(a, b), c),
        forall|k: K| #[trigger] lookup(merged(a, b), k) == merge_at(lookup(a, k), lookup(b, k)),
    decreases a.len() + b.len(),
{
    if a.len() == 0 {
        lemma_tag_right::<K, V, W>(b, c);
    } else if b.len() == 0 {
        lemma_tag_left::<K, V, W>(a, c);
    } else {
        let i1 = a[0].0;
        let i2 = b[0].0;
        lemma_sorted_skip(a);
        lemma_sorted_skip(b);
        lemma_sorted_all_above_first(a);
        lemma_sorted_all_above_first(b);
        assert(!a[0].0.empty());
        assert(!b[0].0.empty());
        if i1.below(i2) {
            let front = seq![(i1, MergedValue::<V, W>::Left(a[0].1))];
            lemma_all_above_weaken(b, i2.lo(), i1.hi());
            lemma_front_single::<K, V, W>(a, b, c);
            lemma_merged(a.skip(1), b, i1.hi());
            lemma_merged_compose(a, b, a.skip(1), b, front, merged(a.skip(1), b), i1.hi(), c);
        } else if i2.below(i1) {
            let front = seq![(i2, MergedValue::<V, W>::Right(b[0].1))];
            lemma_all_above_weaken(a, i1.lo(), i2.hi());
            lemma_front_single_right::<K, V, W>(a, b, c);
            lemma_merged(a, b.skip(1), i2.hi());
            lemma_merged_compose(a, b, a, b.skip(1), front, merged(a, b.skip(1)), i2.hi(), c);
        } else {
            let both = MergedValue::Both(a[0].1, b[0].1);
            assert(forall|x: Cut<K>, y: Cut<K>|
                #![trigger cut_lt(x, y)]
                !(cut_lt(x, y) && cut_lt(y, x))) by {
                lemma_cut_order::<K>();
            }
            if cut_lt(i1.hi(), i2.hi()) {
                let m = i1.hi();
                let front = lead(a[0], b[0]).push(
                    (Interval { start: common_start(i1, i2), end: i1.end }, both),
                );
                let b2 = after_cut(b, i1.end);
                lemma_front_overlap(a, b, i1.end, c);
                lemma_after_cut(b, i1.end);
                assert forall|k: K| cut_le(m, Cut::Before(k)) implies #[trigger] lookup(
                    a.skip(1),
                    k,
                ) == lookup(a, k) by {
                    lemma_lookup_front(a, k);
                    lemma_cut_order::<K>();
                }
                lemma_merged(a.skip(1), b2, m);
                lemma_merged_compose(a, b, a.skip(1), b2, front, merged(a.skip(1), b2), m, c);
            } else if cut_lt(i2.hi(), i1.hi()) {
                let m = i2.hi();
                let front = lead(a[0], b[0]).push(
                    (Interval { start: common_start(i1, i2), end: i2.end }, both),
                );
                let a2 = after_cut(a, i2.end);
                lemma_front_overlap(a, b, i2.end, c);
                lemma_after_cut(a, i2.end);
                assert forall|k: K| cut_le(m, Cut::Before(k)) implies #[trigger] lookup(
                    b.skip(1),
                    k,
                ) == lookup(b, k) by {
                    lemma_lookup_front(b, k);
                    lemma_cut_order::<K>();
                }
                lemma_merged(a2, b.skip(1), m);
                lemma_merged_compose(a, b, a2, b.skip(1), front, merged(a2, b.skip(1)), m, c);
            } else {
                let m = i1.hi();
                let front = lead(a[0], b[0]).push(
                    (Interval { start: common_start(i1, i2), end: i1.end }, both),
                );
                lemma_front_overlap(a, b, i1.end, c);
                assert forall|k: K| cut_le(m, Cut::Before(k)) implies #[trigger] lookup(
                    a.skip(1),
                    k,
                ) == lookup(a, k) by {
                    lemma_lookup_front(a, k);
                    lemma_cut_order::<K>();
                }
                assert forall|k: K| cut_le(m, Cut::Before(k)) implies #[trigger] lookup(
                    b.skip(1),
                    k,
                ) == lookup(b, k) by {
                    lemma_lookup_front(b, k);
                    lemma_cut_order::<K>();
                }
                assert(all_above(b.skip(1), m)) by {
                    lemma_cut_order::<K>();
                    lemma_all_above_weaken(b.skip(1), i2.hi(), m);
                }
                lemma_merged(a.skip(1), b.skip(1), m);
                lemma_merged_compose(
                    a,
                    b,
                    a.skip(1),
                    b.skip(1),
                    front,
                    merged(a.skip(1), b.skip(1)),
                    m,
                    c,
                );
            }
        }
    }
}

} // verus!
