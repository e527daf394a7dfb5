use interval_map::bound::Bound::{Excluded, Included, Unbounded};
use interval_map::interval_map::MergedValue;
use interval_map::{Interval, IntervalMap};

fn sample() -> IntervalMap<i32, i32> {
    IntervalMap::from_iter(vec![(10..20, 1), (30..40, 2), (50..60, 3)])
}

#[test]
fn split_off_at_a_key_inside_an_entry_cuts_the_entry() {
    let mut left = sample();
    let right = left.split_off(35);
    assert_eq!(left, IntervalMap::from_iter(vec![(10..20, 1), (30..35, 2)]));
    assert_eq!(right, IntervalMap::from_iter(vec![(35..40, 2), (50..60, 3)]));
}

#[test]
fn split_off_at_the_start_of_an_entry_moves_it_whole() {
    let mut left = sample();
    let right = left.split_off(30);
    assert_eq!(left, IntervalMap::from_iter(vec![(10..20, 1)]));
    assert_eq!(right, IntervalMap::from_iter(vec![(30..40, 2), (50..60, 3)]));
}

#[test]
fn split_off_between_entries() {
    let mut left = sample();
    let right = left.split_off(25);
    assert_eq!(left, IntervalMap::from_iter(vec![(10..20, 1)]));
    assert_eq!(right, IntervalMap::from_iter(vec![(30..40, 2), (50..60, 3)]));
    let mut all = sample();
    let none = all.split_off(100);
    assert_eq!(all, sample());
    assert!(none.is_empty());
    let mut nothing = sample();
    let everything = nothing.split_off(0);
    assert!(nothing.is_empty());
    assert_eq!(everything, sample());
}

#[test]
fn range_gives_the_entries_that_overlap() {
    let map = sample();
    assert_eq!(map.range(35..55), &map.inner()[1..3]);
    assert_eq!(map.range(32..34), &map.inner()[1..2]);
    assert_eq!(map.range(20..30).len(), 0);
    assert_eq!(map.range(..).len(), 3);
    assert_eq!(map.range(15..=30), &map.inner()[0..2]);
    assert_eq!(map.range(15..30), &map.inner()[0..1]);
    assert_eq!(map.range(60..).len(), 0);
    assert_eq!(map.range(..=10), &map.inner()[0..1]);
    assert_eq!(map.range(..10).len(), 0);
    assert_eq!(map.range(10..20), &map.inner()[0..1]);
    assert_eq!(map.range(Interval::new(Excluded(12), Excluded(12))).len(), 0);
    assert_eq!(map.range_bounds(&Interval::new(Included(0), Unbounded)), (0, 3));
}

#[test]
fn remove_cuts_entries_back() {
    let mut map = sample();
    map.remove(15..35);
    assert_eq!(map, IntervalMap::from_iter(vec![(10..15, 1), (35..40, 2), (50..60, 3)]));
    map.remove(52..54);
    assert_eq!(
        map,
        IntervalMap::from_iter(vec![(10..15, 1), (35..40, 2), (50..52, 3), (54..60, 3)])
    );
    map.remove(..);
    assert!(map.is_empty());
}

#[test]
fn empty_ranges_change_nothing() {
    let mut map = sample();
    map.insert(25..25, 9);
    map.overwrite(35..30, 9);
    map.remove(Interval::new(Excluded(15), Excluded(15)));
    assert_eq!(map, sample());
}

#[test]
fn a_single_key_is_a_range() {
    let mut map = sample();
    map.insert(25..=25, 9);
    assert_eq!(map.get(&25), Some(&9));
    assert_eq!(map.get(&24), None);
    assert_eq!(map.get(&26), None);
    assert!(!Interval::new(Included(5), Included(5)).is_empty());
    assert!(Interval::new(Included(5), Excluded(5)).is_empty());
    assert!(Interval::new(Excluded(5), Included(5)).is_empty());
    assert!(Interval::new(Included(6), Included(5)).is_empty());
}

#[test]
fn overwrite_inside_an_entry_splits_it() {
    let mut map = sample();
    map.overwrite(12..18, 7);
    assert_eq!(
        map,
        IntervalMap::from_iter(vec![(10..12, 1), (12..18, 7), (18..20, 1), (30..40, 2), (50..60, 3)])
    );
    map.overwrite(0..100, 8);
    assert_eq!(map, IntervalMap::from_iter(vec![(0..100, 8)]));
}

#[test]
fn touching_entries_with_equal_values_stay_apart() {
    let mut map = IntervalMap::default();
    map.insert(0..5, 1);
    map.insert(5..10, 1);
    assert_eq!(map.len(), 2);
}

#[test]
fn invert_of_the_empty_map_is_everything() {
    let mut map: IntervalMap<i32, i32> = IntervalMap::new();
    map.invert(1);
    assert_eq!(map.inner(), &[(Interval::new(Unbounded, Unbounded), 1)][..]);
    map.invert(2);
    assert!(map.is_empty());
}

#[test]
fn invert_keeps_touching_entries_without_a_gap() {
    let mut map = IntervalMap::from_iter(vec![(10..20, 1), (20..30, 2)]);
    map.insert(40.., 3);
    map.invert(0);
    let mut want = IntervalMap::default();
    want.insert(..10, 0);
    want.insert(30..40, 0);
    assert_eq!(map, want);
    assert_eq!(map.get(&30), Some(&0));
    assert_eq!(map.get(&20), None);
}

#[test]
fn merge_with_an_empty_map_tags_one_side() {
    let map = sample();
    let none: IntervalMap<i32, u8> = IntervalMap::new();
    let left = map.merge(&none);
    assert_eq!(left.len(), 3);
    assert_eq!(left.get(&15), Some(&MergedValue::Left(1)));
    let right = none.merge(&map);
    assert_eq!(right.get(&15), Some(&MergedValue::Right(1)));
    assert_eq!(right.get(&25), None);
}

#[test]
fn append_into_an_empty_map_takes_the_other() {
    let mut map: IntervalMap<i32, i32> = IntervalMap::new();
    let mut other = sample();
    map.append(&mut other);
    assert_eq!(map, sample());
    assert!(other.is_empty());
}

#[test]
fn from_iter_lets_the_first_entry_win() {
    let map = IntervalMap::from_iter(vec![(0..10, 1), (5..15, 2)]);
    assert_eq!(map, IntervalMap::from_iter(vec![(0..10, 1), (10..15, 2)]));
    let mut more = sample();
    more.extend(vec![(Interval::from(0..35), 9), (Interval::from(0..100), 8)]);
    assert_eq!(more.get(&5), Some(&9));
    assert_eq!(more.get(&15), Some(&1));
    assert_eq!(more.get(&45), Some(&8));
}

fn in_order(map: &IntervalMap<i32, i32>) -> bool {
    IntervalMap::from_inner(map.clone().into_inner()).is_ok()
}

fn other() -> IntervalMap<i32, i32> {
    IntervalMap::from_iter(vec![(5..15, -1), (18..32, -2), (40..50, -3), (58..70, -4)])
}

#[test]
fn every_operation_leaves_the_entries_in_order() {
    let mut map = sample();
    assert!(in_order(&map));
    map.insert(0..100, 9);
    assert!(in_order(&map));
    map.overwrite(15..=35, 8);
    assert!(in_order(&map));
    map.remove(33..57);
    assert!(in_order(&map));
    let mut more = other();
    map.append(&mut more);
    assert!(in_order(&map));
    assert!(in_order(&more));
    let right = map.split_off(44);
    assert!(in_order(&map));
    assert!(in_order(&right));
    map.invert(0);
    assert!(in_order(&map));
    map.insert_impl(Interval::new(Excluded(3), Included(3)), 1);
    assert!(in_order(&map));
    let merged = sample().merge(&other());
    assert!(IntervalMap::from_inner(merged.into_inner()).is_ok());
}

#[test]
fn after_overwrite_every_key_of_the_range_has_the_value() {
    let mut map = sample();
    map.overwrite_impl(Interval::new(Excluded(15), Included(52)), 7);
    for k in 0..70 {
        let want = if 15 < k && k <= 52 { Some(7) } else { sample().get(&k).copied() };
        assert_eq!(map.get(&k).copied(), want, "at {}", k);
    }
}

#[test]
fn after_remove_no_key_of_the_range_has_a_value() {
    let mut map = sample();
    map.remove_impl(Interval::new(Included(15), Excluded(52)));
    for k in 0..70 {
        let want = if 15 <= k && k < 52 { None } else { sample().get(&k).copied() };
        assert_eq!(map.get(&k).copied(), want, "at {}", k);
    }
}

#[test]
fn insert_keeps_what_is_there_and_fills_the_rest() {
    let mut map = sample();
    map.insert(15..=52, 7);
    for k in 0..70 {
        let want = match sample().get(&k) {
            Some(v) => Some(*v),
            None => {
                if 15 <= k && k <= 52 {
                    Some(7)
                } else {
                    None
                }
            }
        };
        assert_eq!(map.get(&k).copied(), want, "at {}", k);
    }
    assert_eq!(
        map,
        IntervalMap::from_iter(vec![(10..20, 1), (20..30, 7), (30..40, 2), (40..50, 7), (50..60, 3)])
    );
}

#[test]
fn merge_holds_at_every_key_what_the_two_maps_hold() {
    let a = sample();
    let b = other();
    let merged = a.merge(&b);
    for k in 0..75 {
        let want = match (a.get(&k), b.get(&k)) {
            (Some(x), Some(y)) => Some(MergedValue::Both(*x, *y)),
            (Some(x), None) => Some(MergedValue::Left(*x)),
            (None, Some(y)) => Some(MergedValue::Right(*y)),
            (None, None) => None,
        };
        assert_eq!(merged.get(&k).copied(), want, "at {}", k);
    }
}

#[test]
fn append_prefers_the_map_that_takes_the_other_in() {
    let a = sample();
    let b = other();
    let mut joined = sample();
    let mut rest = other();
    joined.append(&mut rest);
    assert!(rest.is_empty());
    for k in 0..75 {
        let want = a.get(&k).or(b.get(&k)).copied();
        assert_eq!(joined.get(&k).copied(), want, "at {}", k);
    }
}

#[test]
fn invert_holds_a_value_exactly_where_there_was_none() {
    let a = sample();
    let mut gaps = sample();
    gaps.invert(0);
    for k in -5..75 {
        assert_eq!(gaps.get(&k).is_some(), a.get(&k).is_none(), "at {}", k);
    }
    let mut back = gaps.clone();
    back.invert(5);
    for k in -5..75 {
        assert_eq!(back.get(&k).is_some(), a.get(&k).is_some(), "at {}", k);
    }
}

#[test]
fn a_map_that_holds_every_key_takes_nothing_in() {
    let mut full: IntervalMap<i32, i32> = IntervalMap::new();
    full.insert(.., 0);
    let mut more = other();
    full.append(&mut more);
    assert_eq!(full.inner(), &[(Interval::new(Unbounded, Unbounded), 0)][..]);
    let mut again = full.clone();
    full.append(&mut again);
    assert_eq!(full.len(), 1);
}

#[test]
fn split_off_gives_each_key_to_one_side() {
    let whole = sample();
    let mut left = sample();
    let right = left.split_off(33);
    for k in 0..70 {
        if k < 33 {
            assert_eq!(left.get(&k), whole.get(&k));
            assert_eq!(right.get(&k), None);
        } else {
            assert_eq!(left.get(&k), None);
            assert_eq!(right.get(&k), whole.get(&k));
        }
    }
}
