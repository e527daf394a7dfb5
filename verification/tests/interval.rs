use interval_map::bound::Bound;
use interval_map::Interval;
use std::cmp::Ordering;

#[test]
fn partial_cmp() {
    assert_eq!(
        Interval::new(Bound::Excluded(0), Bound::Excluded(1)).partial_cmp(&0),
        Some(Ordering::Greater)
    );
}
