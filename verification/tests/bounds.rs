use interval_map::bound::Bound::{Excluded, Included, Unbounded};
use interval_map::bound::{
    end_lt_end, end_lt_start, key_lt_end, start_le_key, start_lt_end, start_lt_key, start_lt_start,
    EndBound, StartBound,
};
use interval_map::Interval;
use std::cmp::Ordering;

#[test]
fn same_role_bounds_order_by_value() {
    assert_eq!(
        StartBound(Included(1)).partial_cmp(&StartBound(Included(2))),
        Some(Ordering::Less)
    );
    assert_eq!(
        StartBound(Excluded(3)).partial_cmp(&StartBound(Excluded(2))),
        Some(Ordering::Greater)
    );
    assert_eq!(EndBound(Included(2)).partial_cmp(&EndBound(Included(2))), Some(Ordering::Equal));
    assert_eq!(EndBound(Excluded(1)).partial_cmp(&EndBound(Excluded(2))), Some(Ordering::Less));
}

#[test]
fn at_one_value_an_excluded_start_comes_after_an_included_one() {
    assert_eq!(
        StartBound(Excluded(5)).partial_cmp(&StartBound(Included(5))),
        Some(Ordering::Greater)
    );
    assert_eq!(
        StartBound(Included(5)).partial_cmp(&StartBound(Excluded(5))),
        Some(Ordering::Less)
    );
    assert!(StartBound(Included(5)) < StartBound(Excluded(5)));
    assert!(start_lt_start(&StartBound(Included(5)), &StartBound(Excluded(5))));
    assert!(!start_lt_start(&StartBound(Excluded(5)), &StartBound(Included(5))));
}

#[test]
fn at_one_value_an_excluded_end_comes_before_an_included_one() {
    assert_eq!(EndBound(Excluded(5)).partial_cmp(&EndBound(Included(5))), Some(Ordering::Less));
    assert_eq!(
        EndBound(Included(5)).partial_cmp(&EndBound(Excluded(5))),
        Some(Ordering::Greater)
    );
    assert!(end_lt_end(&EndBound(Excluded(5)), &EndBound(Included(5))));
    assert!(!end_lt_end(&EndBound(Included(5)), &EndBound(Excluded(5))));
}

#[test]
fn a_start_against_an_end_at_one_value() {
    assert_eq!(StartBound(Included(5)).partial_cmp(&EndBound(Included(5))), Some(Ordering::Equal));
    assert_eq!(
        StartBound(Included(5)).partial_cmp(&EndBound(Excluded(5))),
        Some(Ordering::Greater)
    );
    assert_eq!(
        StartBound(Excluded(5)).partial_cmp(&EndBound(Included(5))),
        Some(Ordering::Greater)
    );
    assert_eq!(
        StartBound(Excluded(5)).partial_cmp(&EndBound(Excluded(5))),
        Some(Ordering::Greater)
    );
    assert_eq!(EndBound(Included(5)).partial_cmp(&StartBound(Included(5))), Some(Ordering::Equal));
    assert_eq!(EndBound(Excluded(5)).partial_cmp(&StartBound(Included(5))), Some(Ordering::Less));
    assert_eq!(EndBound(Included(5)).partial_cmp(&StartBound(Excluded(5))), Some(Ordering::Less));
    assert!(StartBound(Included(5)) == EndBound(Included(5)));
    assert!(StartBound(Included(5)) != EndBound(Excluded(5)));
    assert!(start_lt_end(&StartBound(Included(5)), &EndBound(Included(5))));
    assert!(!start_lt_end(&StartBound(Included(5)), &EndBound(Excluded(5))));
    assert!(!end_lt_start(&EndBound(Included(5)), &StartBound(Excluded(5))));
    assert!(end_lt_start(&EndBound(Excluded(5)), &StartBound(Excluded(5))));
    assert!(end_lt_start(&EndBound(Included(4)), &StartBound(Included(5))));
}

#[test]
fn unbounded_is_infinity_on_its_side() {
    assert_eq!(
        StartBound(Unbounded).partial_cmp(&StartBound(Included(i32::MIN))),
        Some(Ordering::Less)
    );
    assert_eq!(
        EndBound(Unbounded).partial_cmp(&EndBound(Included(i32::MAX))),
        Some(Ordering::Greater)
    );
    assert_eq!(
        StartBound::<i32>(Unbounded).partial_cmp(&StartBound(Unbounded)),
        Some(Ordering::Equal)
    );
    assert_eq!(
        StartBound::<i32>(Unbounded).partial_cmp(&EndBound(Unbounded)),
        Some(Ordering::Less)
    );
    assert_eq!(StartBound(Unbounded).partial_cmp(&7), Some(Ordering::Less));
    assert_eq!(EndBound(Unbounded).partial_cmp(&7), Some(Ordering::Greater));
}

#[test]
fn a_bound_against_a_key() {
    assert_eq!(StartBound(Included(5)).partial_cmp(&5), Some(Ordering::Equal));
    assert_eq!(StartBound(Excluded(5)).partial_cmp(&5), Some(Ordering::Greater));
    assert_eq!(StartBound(Excluded(5)).partial_cmp(&6), Some(Ordering::Less));
    assert_eq!(EndBound(Included(5)).partial_cmp(&5), Some(Ordering::Equal));
    assert_eq!(EndBound(Excluded(5)).partial_cmp(&5), Some(Ordering::Less));
    assert_eq!(EndBound(Excluded(5)).partial_cmp(&4), Some(Ordering::Greater));
    assert!(StartBound(Included(5)) == 5);
    assert!(StartBound(Excluded(5)) != 5);
    assert!(EndBound(Included(5)) == 5);
    assert!(start_le_key(&StartBound(Included(5)), &5));
    assert!(!start_le_key(&StartBound(Excluded(5)), &5));
    assert!(!start_lt_key(&StartBound(Included(5)), &5));
    assert!(start_lt_key(&StartBound(Included(4)), &5));
    assert!(key_lt_end(&5, &EndBound(Included(5))));
    assert!(!key_lt_end(&5, &EndBound(Excluded(5))));
}

#[test]
fn turning_a_bound_into_the_other_role_flips_it() {
    assert_eq!(StartBound::from_end(EndBound(Included(5))), StartBound(Excluded(5)));
    assert_eq!(StartBound::from_end(EndBound(Excluded(5))), StartBound(Included(5)));
    assert_eq!(EndBound::from_start(StartBound(Included(5))), EndBound(Excluded(5)));
    assert_eq!(EndBound::from_start(StartBound(Excluded(5))), EndBound(Included(5)));
}

#[test]
fn a_range_against_a_key() {
    let iv = Interval::from(3..7);
    assert_eq!(iv.partial_cmp(&2), Some(Ordering::Greater));
    assert_eq!(iv.partial_cmp(&3), Some(Ordering::Equal));
    assert_eq!(iv.partial_cmp(&6), Some(Ordering::Equal));
    assert_eq!(iv.partial_cmp(&7), Some(Ordering::Less));
    assert!(iv == 4);
    assert!(iv != 7);
    assert!(iv.contains_key(&3));
    assert!(!iv.contains_key(&7));
    assert_eq!(iv.start_bound(), Included(&3));
    assert_eq!(iv.end_bound(), Excluded(&7));
}

#[test]
fn taking_one_range_out_of_another() {
    let whole = Interval::from(0..10);
    assert_eq!(whole.remove(&Interval::from(20..30)), (Some(whole), None));
    assert_eq!(whole.remove(&Interval::from(-5..0)), (None, Some(whole)));
    assert_eq!(
        whole.remove(&Interval::from(3..=5)),
        (
            Some(Interval::new(Included(0), Excluded(3))),
            Some(Interval::new(Excluded(5), Excluded(10)))
        )
    );
    assert_eq!(
        whole.remove(&Interval::from(..4)),
        (None, Some(Interval::new(Included(4), Excluded(10))))
    );
    assert_eq!(
        whole.remove(&Interval::from(4..)),
        (Some(Interval::new(Included(0), Excluded(4))), None)
    );
    assert_eq!(whole.remove(&Interval::from(..)), (None, None));
}

#[test]
fn ranges_of_the_language_become_intervals() {
    assert_eq!(Interval::from(1..2), Interval::new(Included(1), Excluded(2)));
    assert_eq!(Interval::from(1..=2), Interval::new(Included(1), Included(2)));
    assert_eq!(Interval::from(1..), Interval::new(Included(1), Unbounded));
    assert_eq!(Interval::from(..2), Interval::new(Unbounded, Excluded(2)));
    assert_eq!(Interval::from(..=2), Interval::new(Unbounded, Included(2)));
    assert_eq!(Interval::<i32>::from(..), Interval::new(Unbounded, Unbounded));
}
