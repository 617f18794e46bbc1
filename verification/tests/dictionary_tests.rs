use dictionary::Dictionary;
use dictionary::DictKey;
use dictionary::FREE_SLOT;
use dictionary::NOT_FOUND;

#[allow(non_snake_case)]
#[test]
fn testInteger() {
    let mut dictionary: Dictionary<i32> = Dictionary::new(4);
    assert_eq!(dictionary.map(&5), 0);
    assert_eq!(dictionary.map(&0), 1);
    assert_eq!(dictionary.map(&2), 2); // resize should happen
    assert_eq!(dictionary.map(&1234), 3);
    assert_eq!(dictionary.map(&5), 0); // key already exists
    assert_eq!(dictionary.map(&3), 4);
    assert_eq!(dictionary.map(&1), 5);

    assert_eq!(dictionary.get_position(&5), 0);
    assert_eq!(dictionary.get_position(&0), 1);
    assert_eq!(dictionary.get_position(&2), 2);
    assert_eq!(dictionary.get_position(&1234), 3);
    assert_eq!(dictionary.get_position(&3), 4);
    assert_eq!(dictionary.get_position(&1), 5);
    assert_eq!(dictionary.get_position(&11111), FREE_SLOT); // does not exist
}

#[derive(Clone, Debug, PartialEq)]
struct Point {
    x: i32,
    y: i32,
}

impl Point {
    fn new(x: i32, y: i32) -> Point {
        Point { x, y }
    }
}

impl DictKey for Point {
    // the ghost counterpart of key_hash; Verus erases it, so it is never run
    fn spec_hash(&self) -> u64 {
        self.key_hash()
    }

    fn key_hash(&self) -> u64 {
        let mut s = std::collections::hash_map::DefaultHasher::new();
        std::hash::Hasher::write_i32(&mut s, self.x);
        std::hash::Hasher::write_i32(&mut s, self.y);
        std::hash::Hasher::finish(&s)
    }

    fn key_eq(&self, other: &Self) -> bool {
        self.x == other.x && self.y == other.y
    }

    fn dup(&self) -> Self {
        self.clone()
    }
}

#[allow(non_snake_case)]
#[test]
fn testStruct() {
    let points = vec![
        Point::new(0, 0),
        Point::new(1, 1),
        Point::new(2, 2),
        Point::new(3, 3),
        Point::new(4, 4),
        Point::new(5, 5),
    ];

    let mut dictionary: Dictionary<Point> = Dictionary::new(4);
    let mut index = 0;
    for p in points.iter() {
        assert_eq!(dictionary.map(p), index);
        index += 1;
    }

    assert_eq!(dictionary.map(&points[0]), 0); // key already exists

    index = 0;
    for p in points.iter() {
        assert_eq!(dictionary.get_position(p), index as i64);
        index += 1;
    }

    assert_eq!(dictionary.get_position(&Point::new(123, 123)), FREE_SLOT); // does not exist
}

#[test]
fn scenario_from_capacity_four() {
    let mut dictionary: Dictionary<u64> = Dictionary::new(4);
    assert_eq!(dictionary.map(&5), 0);
    assert_eq!(dictionary.map(&0), 1);
    assert_eq!(dictionary.map(&2), 2); // guard trips before this insert: resize to 8
    assert_eq!(dictionary.map(&1234), 3);
    assert_eq!(dictionary.map(&5), 0); // already present, unchanged
    assert_eq!(dictionary.map(&3), 4);
    assert_eq!(dictionary.map(&1), 5);
    assert_eq!(dictionary.get_position(&5), 0);
    assert_eq!(dictionary.get_position(&11111), NOT_FOUND);
    assert_eq!(dictionary.read(1), Some(&0));
    assert_eq!(dictionary.read(99), None);
}

#[test]
fn idempotent_map_leaves_size_alone() {
    let mut dictionary: Dictionary<u64> = Dictionary::new(8);
    assert_eq!(dictionary.map(&10), 0);
    assert_eq!(dictionary.map(&20), 1);
    assert_eq!(dictionary.map(&10), 0);
    assert_eq!(dictionary.map(&10), 0);
    assert_eq!(dictionary.map(&20), 1);
    // a fresh key still gets the next address: the repeats inserted nothing
    assert_eq!(dictionary.map(&30), 2);
    assert_eq!(dictionary.read(3), None);
}

#[test]
fn distinct_keys_get_distinct_addresses() {
    let mut dictionary: Dictionary<u64> = Dictionary::new(2);
    let keys: Vec<u64> = vec![7, 21, 99, 1024, 3, 0, u64::MAX, 12345678901234567];
    let mut addresses: Vec<u64> = Vec::new();
    for k in keys.iter() {
        addresses.push(dictionary.map(k));
    }
    for i in 0..addresses.len() {
        for j in 0..addresses.len() {
            if i != j {
                assert_ne!(addresses[i], addresses[j]);
            }
        }
    }
}

#[test]
fn addresses_are_dense() {
    let mut dictionary: Dictionary<u64> = Dictionary::new(4);
    let n: u64 = 100;
    let mut addresses: Vec<u64> = Vec::new();
    for k in 0..n {
        addresses.push(dictionary.map(&(k * 1000 + 7)));
    }
    let mut sorted = addresses.clone();
    sorted.sort();
    for a in 0..n {
        assert_eq!(sorted[a as usize], a);
    }
}

#[test]
fn round_trip_every_key() {
    let mut dictionary: Dictionary<u64> = Dictionary::new(4);
    let keys: Vec<u64> = vec![5, 0, 2, 1234, 3, 1, 11112, 900000000];
    let mut addresses: Vec<u64> = Vec::new();
    for k in keys.iter() {
        addresses.push(dictionary.map(k));
    }
    for (k, a) in keys.iter().zip(addresses.iter()) {
        assert_eq!(dictionary.read(*a), Some(k));
        assert_eq!(dictionary.get_position(k), *a as i64);
    }
}

#[test]
fn absent_keys_and_positions() {
    let mut dictionary: Dictionary<u64> = Dictionary::new(4);
    assert_eq!(dictionary.get_position(&42), NOT_FOUND);
    assert_eq!(dictionary.read(0), None);
    dictionary.map(&42);
    assert_eq!(dictionary.get_position(&43), NOT_FOUND);
    assert_eq!(dictionary.read(1), None);
    assert_eq!(dictionary.read(u64::MAX), None);
}

#[test]
fn resizes_keep_round_trips() {
    // capacity 1 forces a rebuild on the very first insert, and 200 distinct
    // keys cross the 50%-load threshold many times over
    let mut dictionary: Dictionary<u64> = Dictionary::new(1);
    let n: u64 = 200;
    for k in 0..n {
        assert_eq!(dictionary.map(&(k * 3)), k);
    }
    for k in 0..n {
        assert_eq!(dictionary.get_position(&(k * 3)), k as i64);
        assert_eq!(dictionary.read(k), Some(&(k * 3)));
    }
    assert_eq!(dictionary.get_position(&1), NOT_FOUND);
    assert_eq!(dictionary.read(n), None);
}
