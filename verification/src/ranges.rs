//! The range expressions of the language, read as [`Interval`]s.
use crate::bound::{Bound, EndBound, StartBound};
use crate::interval::Interval;
use core::ops::{Range, RangeFrom, RangeFull, RangeInclusive, RangeTo, RangeToInclusive};
use vstd::prelude::*;
use vstd::std_specs::convert::FromSpecImpl;

verus! {

/// `core::ops::RangeFrom`, the type of `a..`, with its one public field
/// `start`.
#[verifier::external_type_specification]
#[verifier::reject_recursive_types(Idx)]
pub struct ExRangeFrom<Idx>(RangeFrom<Idx>);

/// `core::ops::RangeTo`, the type of `..b`, with its one public field `end`.
#[verifier::external_type_specification]
#[verifier::reject_recursive_types(Idx)]
pub struct ExRangeTo<Idx>(RangeTo<Idx>);

/// `core::ops::RangeToInclusive`, the type of `..=b`, with its one public
/// field `end`.
#[verifier::external_type_specification]
#[verifier::reject_recursive_types(Idx)]
pub struct ExRangeToInclusive<Idx>(RangeToInclusive<Idx>);

/// `core::ops::RangeFull`, the type of `..`; it holds nothing.
#[verifier::external_type_specification]
#[verifier::external_body]
pub struct ExRangeFull(RangeFull);

/// `RangeInclusive::into_inner` hands out the two bounds the range was made
/// with, the lower one first.
pub assume_specification<Idx>[ RangeInclusive::<Idx>::into_inner ](r: RangeInclusive<Idx>) -> (ret:
    (Idx, Idx))
    ensures
        ret.0 == r@.start,
        ret.1 == r@.end,
;

impl<T> FromSpecImpl<Range<T>> for Interval<T> {
    open spec fn obeys_from_spec() -> bool {
        true
    }

    /// `a..b` holds `a` and stops short of `b`.
    open spec fn from_spec(r: Range<T>) -> Self {
        Interval {
            start: StartBound(Bound::Included(r.start)),
            end: EndBound(Bound::Excluded(r.end)),
        }
    }
}

impl<T> From<Range<T>> for Interval<T> {
    fn from(r: Range<T>) -> (iv: Self) {
        Interval::new(Bound::Included(r.start), Bound::Excluded(r.end))
    }
}

impl<T> FromSpecImpl<RangeInclusive<T>> for Interval<T> {
    open spec fn obeys_from_spec() -> bool {
        true
    }

    /// `a..=b` holds both `a` and `b`.
    open spec fn from_spec(r: RangeInclusive<T>) -> Self {
        Interval {
            start: StartBound(Bound::Included(r@.start)),
            end: EndBound(Bound::Included(r@.end)),
        }
    }
}

impl<T> From<RangeInclusive<T>> for Interval<T> {
    fn from(r: RangeInclusive<T>) -> (iv: Self) {
        let (start, end) = r.into_inner();
        Interval::new(Bound::Included(start), Bound::Included(end))
    }
}

impl<T> FromSpecImpl<RangeFrom<T>> for Interval<T> {
    open spec fn obeys_from_spec() -> bool {
        true
    }

    /// `a..` holds `a` and everything above it.
    open spec fn from_spec(r: RangeFrom<T>) -> Self {
        Interval { start: StartBound(Bound::Included(r.start)), end: EndBound(Bound::Unbounded) }
    }
}

impl<T> From<RangeFrom<T>> for Interval<T> {
    fn from(r: RangeFrom<T>) -> (iv: Self) {
        Interval::new(Bound::Included(r.start), Bound::Unbounded)
    }
}

impl<T> FromSpecImpl<RangeTo<T>> for Interval<T> {
    open spec fn obeys_from_spec() -> bool {
        true
    }

    /// `..b` holds everything below `b`.
    open spec fn from_spec(r: RangeTo<T>) -> Self {
        Interval { start: StartBound(Bound::Unbounded), end: EndBound(Bound::Excluded(r.end)) }
    }
}

impl<T> From<RangeTo<T>> for Interval<T> {
    fn from(r: RangeTo<T>) -> (iv: Self) {
        Interval::new(Bound::Unbounded, Bound::Excluded(r.end))
    }
}

impl<T> FromSpecImpl<RangeToInclusive<T>> for Interval<T> {
    open spec fn obeys_from_spec() -> bool {
        true
    }

    /// `..=b` holds `b` and everything below it.
    open spec fn from_spec(r: RangeToInclusive<T>) -> Self {
        Interval { start: StartBound(Bound::Unbounded), end: EndBound(Bound::Included(r.end)) }
    }
}

impl<T> From<RangeToInclusive<T>> for Interval<T> {
    fn from(r: RangeToInclusive<T>) -> (iv: Self) {
        Interval::new(Bound::Unbounded, Bound::Included(r.end))
    }
}

impl<T> FromSpecImpl<RangeFull> for Interval<T> {
    open spec fn obeys_from_spec() -> bool {
        true
    }

    /// `..` holds every key.
    open spec fn from_spec(r: RangeFull) -> Self {
        Interval { start: StartBound(Bound::Unbounded), end: EndBound(Bound::Unbounded) }
    }
}

impl<T> From<RangeFull> for Interval<T> {
    fn from(r: RangeFull) -> (iv: Self) {
        Interval::new(Bound::Unbounded, Bound::Unbounded)
    }
}

} // verus!
