use interval_map::bound::Bound;
use interval_map::interval_map::MergedValue;
use interval_map::{Interval, IntervalMap};

const LOW: i32 = -2;
const HIGH: i32 = 42;

struct Lcg(u64);

impl Lcg {
    fn next(&mut self, below: u32) -> u32 {
        self.0 = self.0.wrapping_mul(6364136223846793005).wrapping_add(1442695040888963407);
        ((self.0 >> 33) as u32) % below
    }

    fn bound(&mut self) -> Bound<i32> {
        let v = self.next(40) as i32;
        match self.next(5) {
            0 => Bound::Unbounded,
            1 | 2 => Bound::Included(v),
            _ => Bound::Excluded(v),
        }
    }

    fn interval(&mut self) -> Interval<i32> {
        Interval::new(self.bound(), self.bound())
    }
}

fn holds(iv: &Interval<i32>, k: i32) -> bool {
    let above_start = match iv.start.0 {
        Bound::Unbounded => true,
        Bound::Included(v) => v <= k,
        Bound::Excluded(v) => v < k,
    };
    let below_end = match iv.end.0 {
        Bound::Unbounded => true,
        Bound::Included(v) => k <= v,
        Bound::Excluded(v) => k < v,
    };
    above_start && below_end
}

fn table(map: &IntervalMap<i32, u32>) -> Vec<Option<u32>> {
    (LOW..HIGH).map(|k| map.get(&k).copied()).collect()
}

fn in_order<V: Clone>(map: &IntervalMap<i32, V>) -> bool {
    IntervalMap::from_inner(map.clone().into_inner()).is_ok()
}

fn random_map(rng: &mut Lcg) -> IntervalMap<i32, u32> {
    let mut map = IntervalMap::new();
    for _ in 0..rng.next(6) {
        let iv = rng.interval();
        let v = rng.next(1000);
        map.insert(iv, v);
    }
    map
}

#[test]
fn the_operations_agree_with_a_table_of_keys() {
    let mut rng = Lcg(7);
    for round in 0..400 {
        let mut map = random_map(&mut rng);
        assert!(in_order(&map), "round {}", round);
        let before = table(&map);
        let iv = rng.interval();
        let v = 5000 + rng.next(1000);
        match rng.next(7) {
            0 => {
                map.insert(iv, v);
                for (i, k) in (LOW..HIGH).enumerate() {
                    let want = before[i].or(if holds(&iv, k) { Some(v) } else { None });
                    assert_eq!(map.get(&k).copied(), want, "insert, round {}, key {}", round, k);
                }
            }
            1 => {
                map.overwrite(iv, v);
                for (i, k) in (LOW..HIGH).enumerate() {
                    let want = if holds(&iv, k) { Some(v) } else { before[i] };
                    assert_eq!(map.get(&k).copied(), want, "overwrite, round {}, key {}", round, k);
                }
            }
            2 => {
                map.remove(iv);
                for (i, k) in (LOW..HIGH).enumerate() {
                    let want = if holds(&iv, k) { None } else { before[i] };
                    assert_eq!(map.get(&k).copied(), want, "remove, round {}, key {}", round, k);
                }
            }
            3 => {
                let mut other = random_map(&mut rng);
                let theirs = table(&other);
                map.append(&mut other);
                assert!(other.is_empty());
                for (i, k) in (LOW..HIGH).enumerate() {
                    let want = before[i].or(theirs[i]);
                    assert_eq!(map.get(&k).copied(), want, "append, round {}, key {}", round, k);
                }
            }
            4 => {
                let other = random_map(&mut rng);
                let theirs = table(&other);
                let merged = map.merge(&other);
                assert!(in_order(&merged), "merge, round {}", round);
                for (i, k) in (LOW..HIGH).enumerate() {
                    let want = match (before[i], theirs[i]) {
                        (Some(x), Some(y)) => Some(MergedValue::Both(x, y)),
                        (Some(x), None) => Some(MergedValue::Left(x)),
                        (None, Some(y)) => Some(MergedValue::Right(y)),
                        (None, None) => None,
                    };
                    assert_eq!(merged.get(&k).copied(), want, "merge, round {}, key {}", round, k);
                }
            }
            5 => {
                map.invert(v);
                for (i, k) in (LOW..HIGH).enumerate() {
                    let want = if before[i].is_none() { Some(v) } else { None };
                    assert_eq!(map.get(&k).copied(), want, "invert, round {}, key {}", round, k);
                }
            }
            _ => {
                let at = rng.next(40) as i32;
                let right = map.split_off(at);
                assert!(in_order(&right), "split_off, round {}", round);
                for (i, k) in (LOW..HIGH).enumerate() {
                    let (l, r) = if k < at { (before[i], None) } else { (None, before[i]) };
                    assert_eq!(map.get(&k).copied(), l, "split_off, round {}, key {}", round, k);
                    assert_eq!(right.get(&k).copied(), r, "split_off, round {}, key {}", round, k);
                }
            }
        }
        assert!(in_order(&map), "round {}", round);
    }
}

#[test]
fn range_finds_what_a_walk_over_all_entries_finds() {
    let mut rng = Lcg(11);
    for round in 0..400 {
        let map = random_map(&mut rng);
        let query = rng.interval();
        let want: Vec<_> = map
            .inner()
            .iter()
            .filter(|(iv, _)| (LOW - 1..HIGH + 1).any(|k| holds(iv, k) && holds(&query, k)))
            .collect();
        let found: Vec<_> = map
            .range(query)
            .iter()
            .filter(|(iv, _)| (LOW - 1..HIGH + 1).any(|k| holds(iv, k) && holds(&query, k)))
            .collect();
        assert_eq!(found, want, "round {}", round);
    }
}
