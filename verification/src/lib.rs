//! Maps from ranges of keys to values.
//!
//! An [`IntervalMap`] holds ranges that do not overlap, each with a value.
//! A key has the value of the range that holds it. Ranges can be put in
//! where nothing is yet, written over what is there, or taken out; two maps
//! can be worked into one; and a map can be turned into the map of its gaps.
//!
//! The entries of a map are a sequence ([`table`]), and every operation is
//! first a function on such sequences ([`carving`], [`bulk`], [`merging`],
//! [`inverting`]). The operations of [`IntervalMap`] compute those
//! functions, and [`laws`] says what they mean key by key.

pub mod bound;
pub mod bound_order;
pub mod bulk;
pub mod carving;
pub mod interval;
pub mod interval_map;
pub mod inverting;
pub mod laws;
pub mod merging;
pub mod order;
pub mod ranges;
pub mod table;

pub use self::interval::Interval;
pub use self::interval_map::IntervalMap;
