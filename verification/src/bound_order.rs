//! The order of bounds as `<`, `<=` and `partial_cmp` see it.
//!
//! Two bounds of the same role compare as the places where a range with
//! them begins, or stops. A start compares with an end as the range between
//! them asks: `Less` if the range holds more than one key's place, `Equal`
//! if both include the same key, so that the range is that key alone, and
//! `Greater` if the range is empty. A bound compares with a key as the key
//! asks: an excluded start at the key is `Greater` than it, an excluded end
//! at the key is `Less`.
use crate::bound::{cut_le, cut_lt, Bound, Cut, EndBound, StartBound};
use crate::order::{lt, total_order};
use core::cmp::Ordering;
use vstd::prelude::*;
use vstd::std_specs::cmp::{
    PartialEqSpecImpl, PartialOrdSpecImpl, OrdSpec, PartialEqSpec, PartialOrdSpec,
};

verus! {

/// The order of two keys, with `tie` in place of `Equal`.
pub open spec fn order_or<K: Ord>(x: K, y: K, tie: Ordering) -> Ordering {
    match x.cmp_spec(&y) {
        Ordering::Equal => tie,
        o => o,
    }
}

/// Compares two keys, and gives `tie` where they are equal.
fn compare_or<K: Ord>(x: &K, y: &K, tie: Ordering) -> (r: Ordering)
    ensures
        K::obeys_cmp_spec() ==> r == order_or(*x, *y, tie),
{
    match x.cmp(y) {
        Ordering::Equal => tie,
        o => o,
    }
}

impl<T: Ord> StartBound<T> {
    /// How the start compares with the start `other`: an unbounded start
    /// comes first, and at the same key an included start comes before an
    /// excluded one.
    pub open spec fn order_start(self, other: StartBound<T>) -> Ordering {
        match (self.0, other.0) {
            (Bound::Unbounded, Bound::Unbounded) => Ordering::Equal,
            (Bound::Unbounded, _) => Ordering::Less,
            (_, Bound::Unbounded) => Ordering::Greater,
            (Bound::Included(x), Bound::Included(y)) => x.cmp_spec(&y),
            (Bound::Excluded(x), Bound::Excluded(y)) => x.cmp_spec(&y),
            (Bound::Excluded(x), Bound::Included(y)) => order_or(x, y, Ordering::Greater),
            (Bound::Included(x), Bound::Excluded(y)) => order_or(x, y, Ordering::Less),
        }
    }

    /// How the start compares with the end `other`: `Equal` where both
    /// include the same key, `Greater` where they meet at a key that one
    /// of them excludes, `Less` where either has no bound.
    pub open spec fn order_end(self, other: EndBound<T>) -> Ordering {
        match (self.0, other.0) {
            (Bound::Unbounded, _) => Ordering::Less,
            (_, Bound::Unbounded) => Ordering::Less,
            (Bound::Included(x), Bound::Included(y)) => x.cmp_spec(&y),
            (Bound::Excluded(x), Bound::Excluded(y)) => order_or(x, y, Ordering::Greater),
            (Bound::Excluded(x), Bound::Included(y)) => order_or(x, y, Ordering::Greater),
            (Bound::Included(x), Bound::Excluded(y)) => order_or(x, y, Ordering::Greater),
        }
    }

    /// How the start compares with a key: an included start as its key
    /// does, an excluded start at the key as `Greater`, since the range
    /// begins above the key, and an unbounded start as `Less`.
    pub open spec fn order_key(self, k: T) -> Ordering {
        match self.0 {
            Bound::Unbounded => Ordering::Less,
            Bound::Included(x) => x.cmp_spec(&k),
            Bound::Excluded(x) => order_or(x, k, Ordering::Greater),
        }
    }
}

impl<T: Ord> EndBound<T> {
    /// How the end compares with the end `other`: an unbounded end comes
    /// last, and at the same key an excluded end comes before an included
    /// one.
    pub open spec fn order_end(self, other: EndBound<T>) -> Ordering {
        match (self.0, other.0) {
            (Bound::Unbounded, Bound::Unbounded) => Ordering::Equal,
            (Bound::Unbounded, _) => Ordering::Greater,
            (_, Bound::Unbounded) => Ordering::Less,
            (Bound::Included(x), Bound::Included(y)) => x.cmp_spec(&y),
            (Bound::Excluded(x), Bound::Excluded(y)) => x.cmp_spec(&y),
            (Bound::Excluded(x), Bound::Included(y)) => order_or(x, y, Ordering::Less),
            (Bound::Included(x), Bound::Excluded(y)) => order_or(x, y, Ordering::Greater),
        }
    }

    /// How the end compares with the start `other`: the mirror image of
    /// [`StartBound::order_end`].
    pub open spec fn order_start(self, other: StartBound<T>) -> Ordering {
        match (self.0, other.0) {
            (Bound::Unbounded, _) => Ordering::Greater,
            (_, Bound::Unbounded) => Ordering::Greater,
            (Bound::Included(x), Bound::Included(y)) => x.cmp_spec(&y),
            (Bound::Excluded(x), Bound::Excluded(y)) => order_or(x, y, Ordering::Less),
            (Bound::Excluded(x), Bound::Included(y)) => order_or(x, y, Ordering::Less),
            (Bound::Included(x), Bound::Excluded(y)) => order_or(x, y, Ordering::Less),
        }
    }

    /// How the end compares with a key: an included end as its key does,
    /// an excluded end at the key as `Less`, since the range stops below
    /// the key, and an unbounded end as `Greater`.
    pub open spec fn order_key(self, k: T) -> Ordering {
        match self.0 {
            Bound::Unbounded => Ordering::Greater,
            Bound::Included(x) => x.cmp_spec(&k),
            Bound::Excluded(x) => order_or(x, k, Ordering::Less),
        }
    }
}

impl<T: Ord> PartialEqSpecImpl<EndBound<T>> for StartBound<T> {
    open spec fn obeys_eq_spec() -> bool {
        T::obeys_eq_spec()
    }

    /// A start equals an end where both include the same key.
    open spec fn eq_spec(&self, other: &EndBound<T>) -> bool {
        match (self.0, other.0) {
            (Bound::Included(x), Bound::Included(y)) => x.eq_spec(&y),
            _ => false,
        }
    }
}

impl<T: Ord> PartialEq<EndBound<T>> for StartBound<T> {
    fn eq(&self, other: &EndBound<T>) -> (r: bool) {
        match (&self.0, &other.0) {
            (Bound::Included(x), Bound::Included(y)) => x == y,
            _ => false,
        }
    }
}

impl<T: Ord> PartialOrdSpecImpl<EndBound<T>> for StartBound<T> {
    open spec fn obeys_partial_cmp_spec() -> bool {
        T::obeys_cmp_spec()
    }

    open spec fn partial_cmp_spec(&self, other: &EndBound<T>) -> Option<Ordering> {
        Some(self.order_end(*other))
    }
}

impl<T: Ord> PartialOrd<EndBound<T>> for StartBound<T> {
    fn partial_cmp(&self, other: &EndBound<T>) -> (r: Option<Ordering>) {
        Some(
            match (&self.0, &other.0) {
                (Bound::Unbounded, _) => Ordering::Less,
                (_, Bound::Unbounded) => Ordering::Less,
                (Bound::Included(x), Bound::Included(y)) => x.cmp(y),
                (Bound::Excluded(x), Bound::Excluded(y)) => compare_or(x, y, Ordering::Greater),
                (Bound::Excluded(x), Bound::Included(y)) => compare_or(x, y, Ordering::Greater),
                (Bound::Included(x), Bound::Excluded(y)) => compare_or(x, y, Ordering::Greater),
            },
        )
    }
}

impl<T: Ord> PartialEqSpecImpl<StartBound<T>> for EndBound<T> {
    open spec fn obeys_eq_spec() -> bool {
        T::obeys_eq_spec()
    }

    /// An end equals a start where both include the same key.
    open spec fn eq_spec(&self, other: &StartBound<T>) -> bool {
        match (self.0, other.0) {
            (Bound::Included(x), Bound::Included(y)) => x.eq_spec(&y),
            _ => false,
        }
    }
}

impl<T: Ord> PartialEq<StartBound<T>> for EndBound<T> {
    fn eq(&self, other: &StartBound<T>) -> (r: bool) {
        match (&self.0, &other.0) {
            (Bound::Included(x), Bound::Included(y)) => x == y,
            _ => false,
        }
    }
}

impl<T: Ord> PartialOrdSpecImpl<StartBound<T>> for EndBound<T> {
    open spec fn obeys_partial_cmp_spec() -> bool {
        T::obeys_cmp_spec()
    }

    open spec fn partial_cmp_spec(&self, other: &StartBound<T>) -> Option<Ordering> {
        Some(self.order_start(*other))
    }
}

impl<T: Ord> PartialOrd<StartBound<T>> for EndBound<T> {
    fn partial_cmp(&self, other: &StartBound<T>) -> (r: Option<Ordering>) {
        Some(
            match (&self.0, &other.0) {
                (Bound::Unbounded, _) => Ordering::Greater,
                (_, Bound::Unbounded) => Ordering::Greater,
                (Bound::Included(x), Bound::Included(y)) => x.cmp(y),
                (Bound::Excluded(x), Bound::Excluded(y)) => compare_or(x, y, Ordering::Less),
                (Bound::Excluded(x), Bound::Included(y)) => compare_or(x, y, Ordering::Less),
                (Bound::Included(x), Bound::Excluded(y)) => compare_or(x, y, Ordering::Less),
            },
        )
    }
}

impl<T: Ord> PartialEqSpecImpl<T> for StartBound<T> {
    open spec fn obeys_eq_spec() -> bool {
        T::obeys_eq_spec()
    }

    /// A start equals a key where it includes that key.
    open spec fn eq_spec(&self, other: &T) -> bool {
        match self.0 {
            Bound::Included(x) => x.eq_spec(other),
            _ => false,
        }
    }
}

impl<T: Ord> PartialEq<T> for StartBound<T> {
    fn eq(&self, other: &T) -> (r: bool) {
        match &self.0 {
            Bound::Included(x) => x == other,
            _ => false,
        }
    }
}

impl<T: Ord> PartialOrdSpecImpl<T> for StartBound<T> {
    open spec fn obeys_partial_cmp_spec() -> bool {
        T::obeys_cmp_spec()
    }

    open spec fn partial_cmp_spec(&self, other: &T) -> Option<Ordering> {
        Some(self.order_key(*other))
    }
}

impl<T: Ord> PartialOrd<T> for StartBound<T> {
    fn partial_cmp(&self, other: &T) -> (r: Option<Ordering>) {
        Some(
            match &self.0 {
                Bound::Unbounded => Ordering::Less,
                Bound::Included(x) => x.cmp(other),
                Bound::Excluded(x) => compare_or(x, other, Ordering::Greater),
            },
        )
    }
}

impl<T: Ord> PartialEqSpecImpl<T> for EndBound<T> {
    open spec fn obeys_eq_spec() -> bool {
        T::obeys_eq_spec()
    }

    /// An end equals a key where it includes that key.
    open spec fn eq_spec(&self, other: &T) -> bool {
        match self.0 {
            Bound::Included(x) => x.eq_spec(other),
            _ => false,
        }
    }
}

impl<T: Ord> PartialEq<T> for EndBound<T> {
    fn eq(&self, other: &T) -> (r: bool) {
        match &self.0 {
            Bound::Included(x) => x == other,
            _ => false,
        }
    }
}

impl<T: Ord> PartialOrdSpecImpl<T> for EndBound<T> {
    open spec fn obeys_partial_cmp_spec() -> bool {
        T::obeys_cmp_spec()
    }

    open spec fn partial_cmp_spec(&self, other: &T) -> Option<Ordering> {
        Some(self.order_key(*other))
    }
}

impl<T: Ord> PartialOrd<T> for EndBound<T> {
    fn partial_cmp(&self, other: &T) -> (r: Option<Ordering>) {
        Some(
            match &self.0 {
                Bound::Unbounded => Ordering::Greater,
                Bound::Included(x) => x.cmp(other),
                Bound::Excluded(x) => compare_or(x, other, Ordering::Less),
            },
        )
    }
}

impl<T: Ord> PartialOrdSpecImpl for StartBound<T> {
    open spec fn obeys_partial_cmp_spec() -> bool {
        T::obeys_cmp_spec()
    }

    open spec fn partial_cmp_spec(&self, other: &StartBound<T>) -> Option<Ordering> {
        Some(self.order_start(*other))
    }
}

impl<T: Ord> PartialOrd for StartBound<T> {
    fn partial_cmp(&self, other: &StartBound<T>) -> (r: Option<Ordering>) {
        Some(
            match (&self.0, &other.0) {
                (Bound::Unbounded, Bound::Unbounded) => Ordering::Equal,
                (Bound::Unbounded, _) => Ordering::Less,
                (_, Bound::Unbounded) => Ordering::Greater,
                (Bound::Included(x), Bound::Included(y)) => x.cmp(y),
                (Bound::Excluded(x), Bound::Excluded(y)) => x.cmp(y),
                (Bound::Excluded(x), Bound::Included(y)) => compare_or(x, y, Ordering::Greater),
                (Bound::Included(x), Bound::Excluded(y)) => compare_or(x, y, Ordering::Less),
            },
        )
    }
}

impl<T: Ord> PartialOrdSpecImpl for EndBound<T> {
    open spec fn obeys_partial_cmp_spec() -> bool {
        T::obeys_cmp_spec()
    }

    open spec fn partial_cmp_spec(&self, other: &EndBound<T>) -> Option<Ordering> {
        Some(self.order_end(*other))
    }
}

impl<T: Ord> PartialOrd for EndBound<T> {
    fn partial_cmp(&self, other: &EndBound<T>) -> (r: Option<Ordering>) {
        Some(
            match (&self.0, &other.0) {
                (Bound::Unbounded, Bound::Unbounded) => Ordering::Equal,
                (Bound::Unbounded, _) => Ordering::Greater,
                (_, Bound::Unbounded) => Ordering::Less,
                (Bound::Included(x), Bound::Included(y)) => x.cmp(y),
                (Bound::Excluded(x), Bound::Excluded(y)) => x.cmp(y),
                (Bound::Excluded(x), Bound::Included(y)) => compare_or(x, y, Ordering::Less),
                (Bound::Included(x), Bound::Excluded(y)) => compare_or(x, y, Ordering::Greater),
            },
        )
    }
}

/// What `cmp` says of two keys is what [`lt`] says of them.
proof fn lemma_cmp_is_lt<K: Ord>(x: K, y: K)
    requires
        total_order::<K>(),
    ensures
        x.cmp_spec(&y) == Ordering::Less <==> lt(x, y),
        x.cmp_spec(&y) == Ordering::Greater <==> lt(y, x),
{
    crate::order::lemma_cmp_mirror(x, y);
}

/// Two bounds of the same role compare as the places where a range with
/// them begins, or stops.
pub proof fn law_same_role_order<T: Ord>(
    s1: StartBound<T>,
    s2: StartBound<T>,
    e1: EndBound<T>,
    e2: EndBound<T>,
)
    requires
        total_order::<T>(),
    ensures
        s1.order_start(s2) == Ordering::Less <==> cut_lt(s1.cut(), s2.cut()),
        s1.order_start(s2) == Ordering::Greater <==> cut_lt(s2.cut(), s1.cut()),
        e1.order_end(e2) == Ordering::Less <==> cut_lt(e1.cut(), e2.cut()),
        e1.order_end(e2) == Ordering::Greater <==> cut_lt(e2.cut(), e1.cut()),
{
    reveal(cut_lt);
    match (s1.0, s2.0) {
        (Bound::Included(x), Bound::Included(y)) => lemma_cmp_is_lt(x, y),
        (Bound::Excluded(x), Bound::Excluded(y)) => lemma_cmp_is_lt(x, y),
        (Bound::Excluded(x), Bound::Included(y)) => lemma_cmp_is_lt(x, y),
        (Bound::Included(x), Bound::Excluded(y)) => lemma_cmp_is_lt(x, y),
        _ => {},
    }
    match (e1.0, e2.0) {
        (Bound::Included(x), Bound::Included(y)) => lemma_cmp_is_lt(x, y),
        (Bound::Excluded(x), Bound::Excluded(y)) => lemma_cmp_is_lt(x, y),
        (Bound::Excluded(x), Bound::Included(y)) => lemma_cmp_is_lt(x, y),
        (Bound::Included(x), Bound::Excluded(y)) => lemma_cmp_is_lt(x, y),
        _ => {},
    }
}

/// A start is `Greater` than an end exactly where the range between the
/// two is empty, and the end is then `Less` than the start.
pub proof fn law_cross_role_order<T: Ord>(s: StartBound<T>, e: EndBound<T>)
    requires
        total_order::<T>(),
    ensures
        s.order_end(e) == Ordering::Greater <==> cut_le(e.cut(), s.cut()),
        e.order_start(s) == Ordering::Less <==> cut_le(e.cut(), s.cut()),
        s.order_end(e) == Ordering::Equal <==> e.order_start(s) == Ordering::Equal,
        s.order_end(e) == Ordering::Equal ==> s.0 is Included && e.0 is Included,
{
    reveal(cut_lt);
    match (s.0, e.0) {
        (Bound::Included(x), Bound::Included(y)) => {
            lemma_cmp_is_lt(x, y);
            lemma_cmp_is_lt(y, x);
        },
        (Bound::Excluded(x), Bound::Excluded(y)) => {
            lemma_cmp_is_lt(x, y);
            lemma_cmp_is_lt(y, x);
        },
        (Bound::Excluded(x), Bound::Included(y)) => {
            lemma_cmp_is_lt(x, y);
            lemma_cmp_is_lt(y, x);
        },
        (Bound::Included(x), Bound::Excluded(y)) => {
            lemma_cmp_is_lt(x, y);
            lemma_cmp_is_lt(y, x);
        },
        _ => {},
    }
}

/// A start is `Greater` than a key exactly where a range with that start
/// begins above the key; an end is `Less` than a key exactly where a range
/// with that end stops below the key.
pub proof fn lemma_key_order<T: Ord>(s: StartBound<T>, e: EndBound<T>, k: T)
    requires
        total_order::<T>(),
    ensures
        s.order_key(k) != Ordering::Greater <==> cut_le(s.cut(), Cut::Before(k)),
        e.order_key(k) != Ordering::Less <==> cut_lt(Cut::Before(k), e.cut()),
{
    reveal(cut_lt);
    match s.0 {
        Bound::Included(x) => lemma_cmp_is_lt(x, k),
        Bound::Excluded(x) => lemma_cmp_is_lt(x, k),
        _ => {},
    }
    match e.0 {
        Bound::Included(x) => lemma_cmp_is_lt(x, k),
        Bound::Excluded(x) => lemma_cmp_is_lt(x, k),
        _ => {},
    }
}

} // verus!
