use interval_map::bound::Bound::{Excluded, Included, Unbounded};
use interval_map::interval_map::MergedValue::{Both, Left, Right};
use interval_map::{Interval, IntervalMap};

#[test]
fn interval_map() {
    let mut map = IntervalMap::default();
    map.insert(10..20, 100);
    map.insert(30..40, 200);
    map.insert(0..=25, 300);
    map.insert(60.., 400);
    map.overwrite(70..80, 500);
    assert_eq!(map.get(&std::i32::MIN), None);
    assert_eq!(map.get(&-1), None);
    assert_eq!(map.get(&0), Some(&300));
    assert_eq!(map.get(&9), Some(&300));
    assert_eq!(map.get(&10), Some(&100));
    assert_eq!(map.get(&19), Some(&100));
    assert_eq!(map.get(&20), Some(&300));
    assert_eq!(map.get(&25), Some(&300));
    assert_eq!(map.get(&26), None);
    assert_eq!(map.get(&29), None);
    assert_eq!(map.get(&30), Some(&200));
    assert_eq!(map.get(&39), Some(&200));
    assert_eq!(map.get(&40), None);
    assert_eq!(map.get(&60), Some(&400));
    assert_eq!(map.get(&69), Some(&400));
    assert_eq!(map.get(&70), Some(&500));
    assert_eq!(map.get(&79), Some(&500));
    assert_eq!(map.get(&80), Some(&400));
    assert_eq!(map.get(&std::i32::MAX), Some(&400));
}

#[test]
fn append() {
    let mut map1 = IntervalMap::default();
    map1.insert(10..20, 100);
    map1.insert(30..40, 200);
    map1.insert(50..60, 300);
    map1.insert(70..80, 400);
    map1.insert(90..100, 500);
    map1.insert(110..120, 600);
    map1.insert(130..140, 700);
    let mut map2 = IntervalMap::default();
    map2.insert(45..55, -100);
    map2.insert(65..105, -200);
    map2.insert(115..125, -300);
    map2.insert(135..145, -400);
    map2.insert(145..155, -500);
    map1.append(&mut map2);
    assert_eq!(
        map1,
        IntervalMap::from_iter(vec![
            (10..20, 100),
            (30..40, 200),
            (45..50, -100),
            (50..60, 300),
            (65..70, -200),
            (70..80, 400),
            (80..90, -200),
            (90..100, 500),
            (100..105, -200),
            (110..120, 600),
            (115..125, -300),
            (130..140, 700),
            (135..145, -400),
            (145..155, -500),
        ])
    )
}

#[test]
fn append1() {
    let mut map1 = IntervalMap::default();
    map1.insert(.., 0);
    let mut map2 = IntervalMap::default();
    map2.insert(..5, 1);
    map2.insert(5..=5, 2);
    map1.append(&mut map2);
    let mut map3 = IntervalMap::default();
    map3.insert(.., 0);
    assert_eq!(map1, map3)
}

#[test]
fn merge() {
    let mut map1 = IntervalMap::default();
    map1.insert(10..20, 100);
    map1.insert(30..40, 200);
    map1.insert(50..60, 300);
    map1.insert(70..80, 400);
    map1.insert(90..100, 500);
    map1.insert(110..120, 600);
    map1.insert(130..140, 700);
    let mut map2 = IntervalMap::default();
    map2.insert(45..55, -100);
    map2.insert(65..105, -200);
    map2.insert(115..125, -300);
    map2.insert(135..145, -400);
    map2.insert(145..155, -500);
    assert_eq!(
        map1.merge(&map2),
        IntervalMap::from_iter(vec![
            (10..20, Left(100)),
            (30..40, Left(200)),
            (45..50, Right(-100)),
            (50..55, Both(300, -100)),
            (55..60, Left(300)),
            (65..70, Right(-200)),
            (70..80, Both(400, -200)),
            (80..90, Right(-200)),
            (90..100, Both(500, -200)),
            (100..105, Right(-200)),
            (110..115, Left(600)),
            (115..120, Both(600, -300)),
            (120..125, Right(-300)),
            (130..135, Left(700)),
            (135..140, Both(700, -400)),
            (140..145, Right(-400)),
            (145..155, Right(-500)),
        ])
    )
}

#[test]
fn invert() {
    let mut map1 = IntervalMap::default();
    map1.insert(10..20, 100);
    map1.insert(30..40, 200);
    map1.insert(50..60, 300);
    map1.insert(70..80, 400);
    map1.insert(90..100, 500);
    map1.insert(110..120, 600);
    map1.insert(130..140, 700);
    map1.invert(42);
    let mut map2 = IntervalMap::default();
    map2.insert(..10, 42);
    map2.insert(Interval::new(Included(20), Excluded(30)), 42);
    map2.insert(Interval::new(Included(40), Excluded(50)), 42);
    map2.insert(Interval::new(Included(60), Excluded(70)), 42);
    map2.insert(Interval::new(Included(80), Excluded(90)), 42);
    map2.insert(Interval::new(Included(100), Excluded(110)), 42);
    map2.insert(Interval::new(Included(120), Excluded(130)), 42);
    map2.insert(Interval::new(Included(140), Unbounded), 42);
    assert_eq!(map1, map2)
}
