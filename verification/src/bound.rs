//! The two ends of a range, and where each lies among the keys.
//!
//! A range's start and end are both written with a [`Bound`], but the same
//! bound means different things in the two roles: a range that starts
//! "excluding 5" begins just above 5, one that ends "excluding 5" stops just
//! below it. A [`Cut`] is such a place between keys, and every comparison of
//! bounds is a comparison of cuts.
use crate::order::{copy_of, faithful_clone, is_lt, le, lt, total_order};
use vstd::prelude::*;

verus! {

/// One end of a range of keys.
#[derive(Copy, Clone, Eq, PartialEq, Debug, Hash)]
pub enum Bound<T> {
    /// The range reaches up to the value, and holds it.
    Included(T),
    /// The range reaches up to the value, and does not hold it.
    Excluded(T),
    /// The range has no end on this side.
    Unbounded,
}

/// A place between keys: below all of them, just below or just above one of
/// them, or above all of them.
pub enum Cut<K> {
    NegInf,
    Before(K),
    After(K),
    PosInf,
}

/// The cut `a` lies strictly below the cut `b`.
#[verifier::opaque]
pub open spec fn cut_lt<K: Ord>(a: Cut<K>, b: Cut<K>) -> bool {
    match (a, b) {
        (_, Cut::NegInf) => false,
        (Cut::NegInf, _) => true,
        (Cut::PosInf, _) => false,
        (_, Cut::PosInf) => true,
        (Cut::Before(x), Cut::Before(y)) => lt(x, y),
        (Cut::Before(x), Cut::After(y)) => le(x, y),
        (Cut::After(x), Cut::Before(y)) => lt(x, y),
        (Cut::After(x), Cut::After(y)) => lt(x, y),
    }
}

/// The cut `a` lies below the cut `b`, or at the same place.
pub open spec fn cut_le<K: Ord>(a: Cut<K>, b: Cut<K>) -> bool {
    !cut_lt(b, a)
}

/// No cut lies below itself, and no two cuts lie each below the other.
pub proof fn lemma_cut_lt_asymmetric<K: Ord>(a: Cut<K>, b: Cut<K>)
    requires
        total_order::<K>(),
    ensures
        !(cut_lt(a, b) && cut_lt(b, a)),
{
    reveal(cut_lt);
    match (a, b) {
        (Cut::Before(x), Cut::Before(y)) => crate::order::lemma_lt_asymmetric(x, y),
        (Cut::After(x), Cut::After(y)) => crate::order::lemma_lt_asymmetric(x, y),
        _ => {},
    }
}

/// Every way in which two steps up the cuts combine into one.
pub proof fn lemma_cut_chain<K: Ord>(a: Cut<K>, b: Cut<K>, c: Cut<K>)
    requires
        total_order::<K>(),
    ensures
        cut_lt(a, b) ==> cut_le(a, b),
        cut_lt(b, c) ==> cut_le(b, c),
        cut_lt(a, c) ==> cut_le(a, c),
        cut_lt(a, b) && cut_lt(b, c) ==> cut_lt(a, c),
        cut_le(a, b) && cut_le(b, c) ==> cut_le(a, c),
        cut_lt(a, b) && cut_le(b, c) ==> cut_lt(a, c),
        cut_le(a, b) && cut_lt(b, c) ==> cut_lt(a, c),
{
    reveal(cut_lt);
    lemma_cut_lt_asymmetric(a, b);
    lemma_cut_lt_asymmetric(b, c);
    lemma_cut_lt_asymmetric(a, c);
    if has_key(a) && has_key(b) && has_key(c) {
        crate::order::lemma_chain(key_of(a), key_of(b), key_of(c));
    }
}

/// The order of the cuts, stated of all of them at once: `cut_lt` is a strict
/// weak order.
pub proof fn lemma_cut_order<K: Ord>()
    requires
        total_order::<K>(),
    ensures
        forall|a: Cut<K>, b: Cut<K>| #![trigger cut_lt(a, b)] !(cut_lt(a, b) && cut_lt(b, a)),
        forall|a: Cut<K>, b: Cut<K>, c: Cut<K>|
            #![trigger cut_lt(a, b), cut_lt(b, c)]
            cut_lt(a, b) && cut_lt(b, c) ==> cut_lt(a, c),
        forall|a: Cut<K>, b: Cut<K>, c: Cut<K>|
            #![trigger cut_lt(b, a), cut_lt(c, b)]
            !cut_lt(b, a) && !cut_lt(c, b) ==> !cut_lt(c, a),
        forall|a: Cut<K>, b: Cut<K>, c: Cut<K>|
            #![trigger cut_lt(a, b), cut_lt(c, b)]
            cut_lt(a, b) && !cut_lt(c, b) ==> cut_lt(a, c),
        forall|a: Cut<K>, b: Cut<K>, c: Cut<K>|
            #![trigger cut_lt(b, a), cut_lt(b, c)]
            !cut_lt(b, a) && cut_lt(b, c) ==> cut_lt(a, c),
{
    assert forall|a: Cut<K>, b: Cut<K>|
        #![trigger cut_lt(a, b)]
        !(cut_lt(a, b) && cut_lt(b, a)) by {
        lemma_cut_lt_asymmetric(a, b);
    }
    assert forall|a: Cut<K>, b: Cut<K>, c: Cut<K>|
        #![trigger cut_lt(a, b), cut_lt(b, c)]
        cut_lt(a, b) && cut_lt(b, c) implies cut_lt(a, c) by {
        lemma_cut_chain(a, b, c);
    }
    assert forall|a: Cut<K>, b: Cut<K>, c: Cut<K>|
        #![trigger cut_lt(b, a), cut_lt(c, b)]
        !cut_lt(b, a) && !cut_lt(c, b) implies !cut_lt(c, a) by {
        lemma_cut_chain(a, b, c);
    }
    assert forall|a: Cut<K>, b: Cut<K>, c: Cut<K>|
        #![trigger cut_lt(a, b), cut_lt(c, b)]
        cut_lt(a, b) && !cut_lt(c, b) implies cut_lt(a, c) by {
        lemma_cut_chain(a, b, c);
    }
    assert forall|a: Cut<K>, b: Cut<K>, c: Cut<K>|
        #![trigger cut_lt(b, a), cut_lt(b, c)]
        !cut_lt(b, a) && cut_lt(b, c) implies cut_lt(a, c) by {
        lemma_cut_chain(a, b, c);
    }
}

/// Below the lowest cut and above the highest there is nothing.
pub proof fn lemma_cut_ends<K: Ord>(c: Cut<K>)
    ensures
        !cut_lt(c, Cut::NegInf),
        !cut_lt(Cut::PosInf, c),
        c != Cut::<K>::NegInf ==> cut_lt(Cut::NegInf, c),
        c != Cut::<K>::PosInf ==> cut_lt(c, Cut::PosInf),
{
    reveal(cut_lt);
}

/// A key lies between the cut just below it and the cut just above it, and
/// no cut lies between those two.
pub proof fn lemma_cut_beside<K: Ord>(k: K, c: Cut<K>)
    requires
        total_order::<K>(),
    ensures
        cut_lt(Cut::Before(k), Cut::After(k)),
        cut_lt(Cut::Before(k), c) <==> cut_le(Cut::After(k), c),
{
    reveal(cut_lt);
    crate::order::lemma_lt_asymmetric(k, k);
    if has_key(c) {
        crate::order::lemma_lt_asymmetric(k, key_of(c));
    }
}

/// The key beside which a cut lies; arbitrary for the two infinite cuts.
pub open spec fn key_of<K>(c: Cut<K>) -> K {
    match c {
        Cut::Before(k) => k,
        Cut::After(k) => k,
        _ => arbitrary(),
    }
}

/// The cut lies beside a key.
pub open spec fn has_key<K>(c: Cut<K>) -> bool {
    c is Before || c is After
}

/// Where a range starts.
#[derive(Copy, Clone, Eq, PartialEq, Debug, Hash)]
pub struct StartBound<T>(pub Bound<T>);

/// Where a range ends.
#[derive(Copy, Clone, Eq, PartialEq, Debug, Hash)]
pub struct EndBound<T>(pub Bound<T>);

impl<T> StartBound<T> {
    /// The place where a range with this start begins: an included value is
    /// reached from just below it, an excluded one is left just above it.
    pub open spec fn cut(self) -> Cut<T> {
        match self.0 {
            Bound::Unbounded => Cut::NegInf,
            Bound::Included(v) => Cut::Before(v),
            Bound::Excluded(v) => Cut::After(v),
        }
    }

    /// The start bound of the range that begins where a range with the end
    /// bound `e` stops. There is none for an unbounded end.
    pub open spec fn after(e: EndBound<T>) -> StartBound<T> {
        match e.0 {
            Bound::Included(v) => StartBound(Bound::Excluded(v)),
            Bound::Excluded(v) => StartBound(Bound::Included(v)),
            Bound::Unbounded => arbitrary(),
        }
    }

    /// Turns the end of one range into the start of the range that follows
    /// it without a gap: what was included is now excluded, and the reverse.
    pub fn from_end(e: EndBound<T>) -> (r: StartBound<T>)
        requires
            !(e.0 is Unbounded),
        ensures
            r == StartBound::after(e),
            r.cut() == e.cut(),
    {
        match e.0 {
            Bound::Included(v) => StartBound(Bound::Excluded(v)),
            Bound::Excluded(v) => StartBound(Bound::Included(v)),
            Bound::Unbounded => unreached(),
        }
    }
}

impl<T> EndBound<T> {
    /// The place where a range with this end stops: an included value is
    /// left just above it, an excluded one is reached from just below it.
    pub open spec fn cut(self) -> Cut<T> {
        match self.0 {
            Bound::Unbounded => Cut::PosInf,
            Bound::Included(v) => Cut::After(v),
            Bound::Excluded(v) => Cut::Before(v),
        }
    }

    /// The end bound of the range that stops where a range with the start
    /// bound `s` begins. There is none for an unbounded start.
    pub open spec fn before(s: StartBound<T>) -> EndBound<T> {
        match s.0 {
            Bound::Included(v) => EndBound(Bound::Excluded(v)),
            Bound::Excluded(v) => EndBound(Bound::Included(v)),
            Bound::Unbounded => arbitrary(),
        }
    }

    /// Turns the start of one range into the end of the range that precedes
    /// it without a gap: what was included is now excluded, and the reverse.
    pub fn from_start(s: StartBound<T>) -> (r: EndBound<T>)
        requires
            !(s.0 is Unbounded),
        ensures
            r == EndBound::before(s),
            r.cut() == s.cut(),
    {
        match s.0 {
            Bound::Included(v) => EndBound(Bound::Excluded(v)),
            Bound::Excluded(v) => EndBound(Bound::Included(v)),
            Bound::Unbounded => unreached(),
        }
    }
}

/// A copy of a bound.
pub fn copy_bound<T: Clone>(b: &Bound<T>) -> (r: Bound<T>)
    requires
        faithful_clone::<T>(),
    ensures
        r == *b,
{
    match b {
        Bound::Included(v) => Bound::Included(copy_of(v)),
        Bound::Excluded(v) => Bound::Excluded(copy_of(v)),
        Bound::Unbounded => Bound::Unbounded,
    }
}

/// The side of a key on which a cut lies, for the comparisons below.
enum Side {
    Below,
    Above,
}

/// Whether the cut on `sa` of `a` lies strictly below the cut on `sb` of `b`.
fn beside_lt<K: Ord>(a: &K, sa: Side, b: &K, sb: Side) -> (r: bool)
    requires
        total_order::<K>(),
    ensures
        r == cut_lt(side_cut(*a, sa), side_cut(*b, sb)),
{
    proof {
        reveal(cut_lt);
    }
    match (sa, sb) {
        (Side::Below, Side::Above) => !is_lt(b, a),
        _ => is_lt(a, b),
    }
}

spec fn side_cut<K>(k: K, s: Side) -> Cut<K> {
    match s {
        Side::Below => Cut::Before(k),
        Side::Above => Cut::After(k),
    }
}

/// Whether the first range starts strictly before the second.
pub fn start_lt_start<K: Ord>(a: &StartBound<K>, b: &StartBound<K>) -> (r: bool)
    requires
        total_order::<K>(),
    ensures
        r == cut_lt(a.cut(), b.cut()),
{
    proof {
        reveal(cut_lt);
    }
    match (&a.0, &b.0) {
        (_, Bound::Unbounded) => false,
        (Bound::Unbounded, _) => true,
        (Bound::Included(x), Bound::Included(y)) => beside_lt(x, Side::Below, y, Side::Below),
        (Bound::Included(x), Bound::Excluded(y)) => beside_lt(x, Side::Below, y, Side::Above),
        (Bound::Excluded(x), Bound::Included(y)) => beside_lt(x, Side::Above, y, Side::Below),
        (Bound::Excluded(x), Bound::Excluded(y)) => beside_lt(x, Side::Above, y, Side::Above),
    }
}

/// Whether the first range ends strictly before the second.
pub fn end_lt_end<K: Ord>(a: &EndBound<K>, b: &EndBound<K>) -> (r: bool)
    requires
        total_order::<K>(),
    ensures
        r == cut_lt(a.cut(), b.cut()),
{
    proof {
        reveal(cut_lt);
    }
    match (&a.0, &b.0) {
        (Bound::Unbounded, _) => false,
        (_, Bound::Unbounded) => true,
        (Bound::Included(x), Bound::Included(y)) => beside_lt(x, Side::Above, y, Side::Above),
        (Bound::Included(x), Bound::Excluded(y)) => beside_lt(x, Side::Above, y, Side::Below),
        (Bound::Excluded(x), Bound::Included(y)) => beside_lt(x, Side::Below, y, Side::Above),
        (Bound::Excluded(x), Bound::Excluded(y)) => beside_lt(x, Side::Below, y, Side::Below),
    }
}

/// Whether a range with the start `s` begins strictly before a range with
/// the end `e` stops, that is, whether the range from `s` to `e` holds a place.
pub fn start_lt_end<K: Ord>(s: &StartBound<K>, e: &EndBound<K>) -> (r: bool)
    requires
        total_order::<K>(),
    ensures
        r == cut_lt(s.cut(), e.cut()),
{
    proof {
        reveal(cut_lt);
    }
    match (&s.0, &e.0) {
        (Bound::Unbounded, _) => true,
        (_, Bound::Unbounded) => true,
        (Bound::Included(x), Bound::Included(y)) => beside_lt(x, Side::Below, y, Side::Above),
        (Bound::Included(x), Bound::Excluded(y)) => beside_lt(x, Side::Below, y, Side::Below),
        (Bound::Excluded(x), Bound::Included(y)) => beside_lt(x, Side::Above, y, Side::Above),
        (Bound::Excluded(x), Bound::Excluded(y)) => beside_lt(x, Side::Above, y, Side::Below),
    }
}

/// Whether a range with the end `e` stops strictly before a range with the
/// start `s` begins, so that a place lies between the two.
pub fn end_lt_start<K: Ord>(e: &EndBound<K>, s: &StartBound<K>) -> (r: bool)
    requires
        total_order::<K>(),
    ensures
        r == cut_lt(e.cut(), s.cut()),
{
    proof {
        reveal(cut_lt);
    }
    match (&e.0, &s.0) {
        (Bound::Unbounded, _) => false,
        (_, Bound::Unbounded) => false,
        (Bound::Included(x), Bound::Included(y)) => beside_lt(x, Side::Above, y, Side::Below),
        (Bound::Included(x), Bound::Excluded(y)) => beside_lt(x, Side::Above, y, Side::Above),
        (Bound::Excluded(x), Bound::Included(y)) => beside_lt(x, Side::Below, y, Side::Below),
        (Bound::Excluded(x), Bound::Excluded(y)) => beside_lt(x, Side::Below, y, Side::Above),
    }
}

/// Whether a range with the start `s` begins at or below the key.
pub fn start_le_key<K: Ord>(s: &StartBound<K>, k: &K) -> (r: bool)
    requires
        total_order::<K>(),
    ensures
        r == cut_le(s.cut(), Cut::Before(*k)),
{
    proof {
        reveal(cut_lt);
    }
    match &s.0 {
        Bound::Unbounded => true,
        Bound::Included(x) => !beside_lt(k, Side::Below, x, Side::Below),
        Bound::Excluded(x) => !beside_lt(k, Side::Below, x, Side::Above),
    }
}

/// Whether a range with the start `s` begins strictly below the key, so
/// that it holds a place below it.
pub fn start_lt_key<K: Ord>(s: &StartBound<K>, k: &K) -> (r: bool)
    requires
        total_order::<K>(),
    ensures
        r == cut_lt(s.cut(), Cut::Before(*k)),
{
    proof {
        reveal(cut_lt);
    }
    match &s.0 {
        Bound::Unbounded => true,
        Bound::Included(x) => beside_lt(x, Side::Below, k, Side::Below),
        Bound::Excluded(x) => beside_lt(x, Side::Above, k, Side::Below),
    }
}

/// Whether a range with the end `e` stops above the key.
pub fn key_lt_end<K: Ord>(k: &K, e: &EndBound<K>) -> (r: bool)
    requires
        total_order::<K>(),
    ensures
        r == cut_lt(Cut::Before(*k), e.cut()),
{
    proof {
        reveal(cut_lt);
    }
    match &e.0 {
        Bound::Unbounded => true,
        Bound::Included(x) => beside_lt(k, Side::Below, x, Side::Above),
        Bound::Excluded(x) => beside_lt(k, Side::Below, x, Side::Below),
    }
}

} // verus!
