use interval_map::bound::Bound::Included;
use interval_map::interval_map::Entry;
use interval_map::{Interval, IntervalMap};

fn sample() -> IntervalMap<i32, i32> {
    IntervalMap::from_iter(vec![(10..20, 1), (30..40, 2), (50..60, 3)])
}

#[test]
fn lookups_agree_with_each_other() {
    let map = sample();
    assert_eq!(map.get(&35), Some(&2));
    assert_eq!(map.get_key_value(&35), Some((&Interval::from(30..40), &2)));
    assert!(map.contains_key(&35));
    assert_eq!(*map.index(&35), 2);
    assert_eq!(map.get(&25), None);
    assert_eq!(map.get_key_value(&25), None);
    assert!(!map.contains_key(&25));
    assert_eq!(map.first_key_value(), Some((&Interval::from(10..20), &1)));
    assert_eq!(map.last_key_value(), Some((&Interval::from(50..60), &3)));
    let none: IntervalMap<i32, i32> = IntervalMap::new();
    assert_eq!(none.first_key_value(), None);
    assert_eq!(none.last_key_value(), None);
    assert_eq!(none.get(&1), None);
}

#[test]
fn get_mut_changes_the_value_in_place() {
    let mut map = sample();
    *map.get_mut(&15).unwrap() = 9;
    assert_eq!(map.get(&15), Some(&9));
    assert_eq!(map.get(&10), Some(&9));
    assert_eq!(map.get(&35), Some(&2));
    assert!(map.get_mut(&25).is_none());
}

#[test]
fn a_vacant_entry_makes_an_entry_for_one_key() {
    let mut map = sample();
    match map.entry(25) {
        Entry::Vacant(v) => {
            assert_eq!(v.key(), &Interval::new(Included(25), Included(25)));
            *v.insert(7) += 1;
        }
        Entry::Occupied(_) => panic!("nothing holds 25"),
    }
    assert_eq!(map.len(), 4);
    assert_eq!(map.get(&25), Some(&8));
    assert_eq!(map.get(&24), None);
    assert_eq!(map.get(&26), None);
    assert_eq!(map.inner()[1], (Interval::new(Included(25), Included(25)), 8));
}

#[test]
fn an_occupied_entry_reads_and_changes_its_value() {
    let mut map = sample();
    match map.entry(35) {
        Entry::Occupied(mut o) => {
            assert_eq!(o.key(), &Interval::from(30..40));
            assert_eq!(o.get(), &2);
            *o.get_mut() = 5;
            assert_eq!(o.insert(6), 5);
            assert_eq!(o.remove_entry(), (Interval::from(30..40), 6));
        }
        Entry::Vacant(_) => panic!("30..40 holds 35"),
    }
    assert_eq!(map, IntervalMap::from_iter(vec![(10..20, 1), (50..60, 3)]));
    match map.entry(15) {
        Entry::Occupied(o) => assert_eq!(o.remove(), 1),
        Entry::Vacant(_) => panic!("10..20 holds 15"),
    }
    assert_eq!(map.len(), 1);
}

#[test]
fn or_insert_keeps_what_is_there() {
    let mut map = sample();
    assert_eq!(*map.entry(35).or_insert(9), 2);
    assert_eq!(*map.entry(25).or_insert(9), 9);
    assert_eq!(*map.entry(26).or_insert_with(|| 10), 10);
    assert_eq!(*map.entry(26).or_insert_with(|| 11), 10);
    assert_eq!(*map.entry(27).or_default(), 0);
    assert_eq!(map.entry(27).key(), &Interval::new(Included(27), Included(27)));
    assert_eq!(map.entry(15).key(), &Interval::from(10..20));
    assert_eq!(*map.entry(15).and_modify(|v| *v += 100).or_insert(0), 101);
    assert_eq!(*map.entry(28).and_modify(|v| *v += 100).or_insert(4), 4);
    assert_eq!(map.len(), 7);
}

#[test]
fn first_and_last_entry() {
    let mut map = sample();
    assert_eq!(map.first_entry().unwrap().remove(), 1);
    assert_eq!(map.last_entry().unwrap().remove_entry(), (Interval::from(50..60), 3));
    *map.first_entry().unwrap().into_mut() = 8;
    assert_eq!(map, IntervalMap::from_iter(vec![(30..40, 8)]));
    map.clear();
    assert!(map.first_entry().is_none());
    assert!(map.last_entry().is_none());
}

#[test]
fn the_entries_come_out_in_order() {
    let mut map = sample();
    assert_eq!(
        map.keys(),
        vec![&Interval::from(10..20), &Interval::from(30..40), &Interval::from(50..60)]
    );
    assert_eq!(map.values(), vec![&1, &2, &3]);
    assert_eq!(map.iter()[2], (&Interval::from(50..60), &3));
    assert_eq!(map.inner().len(), 3);
    assert_eq!(map.len(), 3);
    let all = map.drain();
    assert_eq!(all.len(), 3);
    assert!(map.is_empty());
    assert_eq!(IntervalMap::from_inner_unchecked(all).into_inner()[0], (Interval::from(10..20), 1));
}

#[test]
fn from_inner_takes_only_entries_in_order() {
    let good = vec![(Interval::from(0..5), 1), (Interval::from(5..10), 2)];
    assert_eq!(IntervalMap::from_inner(good.clone()).unwrap().into_inner(), good);
    let overlapping = vec![(Interval::from(0..6), 1), (Interval::from(5..10), 2)];
    assert_eq!(IntervalMap::from_inner(overlapping.clone()), Err(overlapping));
    let unordered = vec![(Interval::from(5..10), 2), (Interval::from(0..5), 1)];
    assert!(IntervalMap::from_inner(unordered).is_err());
    let with_empty = vec![(Interval::from(0..5), 1), (Interval::from(7..7), 2)];
    assert!(IntervalMap::from_inner(with_empty).is_err());
    assert!(IntervalMap::<i32, i32>::from_inner(vec![]).is_ok());
}

#[test]
fn room_does_not_change_the_entries() {
    let mut map: IntervalMap<i32, i32> = IntervalMap::with_capacity(8);
    assert!(map.capacity() >= 8);
    assert!(map.is_empty());
    map.insert(0..1, 1);
    map.reserve(100);
    assert!(map.capacity() >= 101);
    assert!(map.try_reserve(10).is_ok());
    map.shrink_to(50);
    assert!(map.capacity() >= 50);
    map.shrink_to_fit();
    assert!(map.capacity() >= 1);
    assert_eq!(map, IntervalMap::from_iter(vec![(0..1, 1)]));
}

#[test]
fn values_can_be_changed_in_place() {
    let mut map = sample();
    for v in map.values_mut() {
        *v *= 10;
    }
    assert_eq!(map, IntervalMap::from_iter(vec![(10..20, 10), (30..40, 20), (50..60, 30)]));
    for (iv, v) in map.iter_mut() {
        if iv.contains_key(&35) {
            *v = 0;
        }
    }
    assert_eq!(map.get(&35), Some(&0));
    assert_eq!(map.get(&15), Some(&10));
    for (_, v) in map.range_mut(35..55) {
        *v += 1;
    }
    assert_eq!(map, IntervalMap::from_iter(vec![(10..20, 10), (30..40, 1), (50..60, 31)]));
    assert_eq!(map.range_mut(20..30).len(), 0);
    assert_eq!(map.range_mut(..).len(), 3);
}
