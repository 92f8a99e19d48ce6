use avl::map::Bound;
use avl::map::Entry;
use avl::AvlTreeMap;
use avl::AvlTreeSet;

use rand::rngs::StdRng;
use rand::seq::SliceRandom;
use rand::Rng;
use rand::SeedableRng;

const N: i64 = 1_000;

fn map_debug_string<V: Clone + std::fmt::Debug>(map: &AvlTreeMap<V>) -> String {
    let mut s = String::from("{");
    let mut sep = "";
    let mut iter = map.iter();
    while let Some((k, v)) = iter.next() {
        s.push_str(&format!("{}{}: {:?}", sep, k, v));
        sep = ", ";
    }
    s.push('}');
    s
}

fn set_debug_string(set: &AvlTreeSet) -> String {
    let mut s = String::from("{");
    let mut sep = "";
    let mut iter = set.iter();
    while let Some(k) = iter.next() {
        s.push_str(&format!("{}{}", sep, k));
        sep = ", ";
    }
    s.push('}');
    s
}

#[test]
fn test_new() {
    let map_i32: AvlTreeMap<()> = AvlTreeMap::new();
    assert!(map_i32.is_empty());
    map_i32.check_consistency();
    assert_eq!(map_debug_string(&map_i32), String::from("{}"));

    let mut map_i8 = AvlTreeMap::<&str>::new();
    assert!(map_i8.is_empty());
    map_i8.insert(0, "foo");
    map_i8.insert(1, "bar");
    map_i8.insert(2, "baz");
    map_i8.check_consistency();
    assert_eq!(
        map_debug_string(&map_i8),
        String::from(r#"{0: "foo", 1: "bar", 2: "baz"}"#)
    );
    assert_eq!(*map_i8.index(&1), "bar");

    let map_string: AvlTreeMap<String> = AvlTreeMap::default();
    assert!(map_string.is_empty());
    map_string.check_consistency();

    let set_i32: AvlTreeSet = AvlTreeSet::new();
    assert!(set_i32.is_empty());
    assert_eq!(set_debug_string(&set_i32), String::from("{}"));

    let mut set_i8 = AvlTreeSet::new();
    assert!(set_i8.is_empty());
    set_i8.insert(1);
    set_i8.insert(2);
    set_i8.insert(0);
    set_i8.check_consistency();
    assert_eq!(set_debug_string(&set_i8), String::from("{0, 1, 2}"));
}

#[test]
fn test_rebalance() {
    {
        //     3          2
        //    /          / \
        //   2     =>   1   3
        //  /
        // 1
        let mut map = AvlTreeMap::new();
        map.insert(3, ());
        map.insert(2, ());
        map.insert(1, ());
        map.check_consistency();
        assert_eq!(map.height(), 1);
    }
    {
        //     3              3          2
        //    / \            /          / \
        //   2   4   =>     2     =>   1   3
        //  /              /
        // 1              1
        let mut map = AvlTreeMap::new();
        map.insert(3, ());
        map.insert(2, ());
        map.insert(4, ());
        map.insert(1, ());
        map.check_consistency();
        assert_eq!(map.height(), 2);
        map.remove(&4);
        map.check_consistency();
        assert_eq!(map.height(), 1);
    }
    {
        //   3          2
        //  /          / \
        // 1     =>   1   3
        //  \
        //   2
        let mut map = AvlTreeMap::new();
        map.insert(3, ());
        map.insert(1, ());
        map.insert(2, ());
        map.check_consistency();
        assert_eq!(map.height(), 1);
    }
    {
        //   3            3          2
        //  / \          /          / \
        // 1   4   =>   1     =>   1   3
        //  \            \
        //   2            2
        let mut map = AvlTreeMap::new();
        map.insert(3, ());
        map.insert(1, ());
        map.insert(4, ());
        map.insert(2, ());
        map.check_consistency();
        assert_eq!(map.height(), 2);
        map.remove(&4);
        map.check_consistency();
        assert_eq!(map.height(), 1);
    }
    {
        // 1              2
        //  \            / \
        //   2     =>   1   3
        //    \
        //     3
        let mut map = AvlTreeMap::new();
        map.insert(1, ());
        map.insert(2, ());
        map.insert(3, ());
        map.check_consistency();
        assert_eq!(map.height(), 1);
    }
    {
        //   1            1              2
        //  / \            \            / \
        // 0   2     =>     2     =>   1   3
        //      \            \
        //       3            3
        let mut map = AvlTreeMap::new();
        map.insert(1, ());
        map.insert(0, ());
        map.insert(2, ());
        map.insert(3, ());
        map.check_consistency();
        assert_eq!(map.height(), 2);
        map.remove(&0);
        map.check_consistency();
        assert_eq!(map.height(), 1);
    }
    {
        // 1            2
        //  \          / \
        //   3   =>   1   3
        //  /
        // 2
        let mut map = AvlTreeMap::new();
        map.insert(1, ());
        map.insert(3, ());
        map.insert(2, ());
        map.check_consistency();
        assert_eq!(map.height(), 1);
    }
    {
        //   1          1            2
        //  / \          \          / \
        // 0   3   =>     3   =>   1   3
        //    /          /
        //   2          2
        let mut map = AvlTreeMap::new();
        map.insert(1, ());
        map.insert(0, ());
        map.insert(3, ());
        map.insert(2, ());
        map.check_consistency();
        assert_eq!(map.height(), 2);
        map.remove(&0);
        map.check_consistency();
        assert_eq!(map.height(), 1);
    }
}

#[test]
fn test_insert() {
    let mut rng = StdRng::seed_from_u64(0);
    let mut values: Vec<i64> = (0..N).map(|_| rng.gen::<i32>() as i64).collect();

    let mut map = AvlTreeMap::new();
    for value in &values {
        assert!(map.insert(*value, *value).is_none());
        map.check_consistency();
    }
    assert!(map.len() == values.len());

    values.sort();
    values.dedup();

    for value in &values {
        assert_eq!(map.insert(*value, *value), Some(*value));
        assert!(map.contains_key(value));
    }
    assert!(map.len() == values.len());
}

#[test]
fn test_insert_sorted_range() {
    let mut map = AvlTreeMap::new();
    for value in 0..N {
        assert!(map.insert(value, value).is_none());
        map.check_consistency();
    }
    assert!(map.len() == N as usize);
    assert!(map.get(&-42).is_none());
}

#[test]
fn test_insert_shuffled_range() {
    let mut values: Vec<i64> = (0..N).collect();
    let mut rng = StdRng::seed_from_u64(0);
    values.shuffle(&mut rng);

    let mut map = AvlTreeMap::new();
    for value in &values {
        assert!(map.insert(*value, "foo").is_none());
        map.check_consistency();
    }
    assert!(map.len() == values.len());

    for value in &values {
        assert_eq!(map.insert(*value, "bar"), Some("foo"));
    }
    assert!(map.len() == values.len());
    assert!(map.get(&-42).is_none());
}

#[test]
fn test_get() {
    let mut rng = StdRng::seed_from_u64(0);
    let values: Vec<i64> = (0..N).map(|_| rng.gen::<i32>() as i64).collect();

    let mut map = AvlTreeMap::new();
    assert!(map.get(&42).is_none());
    for value in &values {
        map.insert(*value, value.wrapping_add(1));
    }

    for value in &values {
        let got = map.get(value);
        assert_eq!(got, Some(&(*value + 1)));
        let got = map.get_key_value(value);
        assert_eq!(got, Some((*value, &(value.wrapping_add(1)))));
    }
}

#[test]
#[should_panic]
fn test_index_panic() {
    let mut map = AvlTreeMap::new();
    map.insert(1, "foo");
    map.insert(42, "bar");
    map.insert(512, "baz");
    map.index(&13);
}

#[test]
fn test_clear() {
    let mut rng = StdRng::seed_from_u64(0);
    let mut values: Vec<i64> = (0..N).map(|_| rng.gen::<i32>() as i64).collect();
    values.sort();
    values.dedup();

    let mut map = AvlTreeMap::new();
    for value in &values {
        map.insert(*value, String::from("foo"));
    }
    assert!(!map.is_empty());
    assert!(map.len() == values.len());

    map.clear();
    assert!(map.is_empty());
    assert!(map.len() == 0);

    for value in &values {
        assert!(map.insert(*value, String::from("bar")).is_none());
    }
    assert!(!map.is_empty());
    assert!(map.len() == values.len());
    map.check_consistency();
}

#[test]
fn test_remove() {
    let mut rng = StdRng::seed_from_u64(0);
    let mut values: Vec<i64> = (0..N).map(|_| rng.gen::<i32>() as i64).collect();
    values.sort();
    values.dedup();

    let mut map = AvlTreeMap::new();
    for value in &values {
        map.insert(*value, 42);
    }

    values.shuffle(&mut rng);
    for value in &values {
        assert!(map.get(value).is_some());
        assert_eq!(map.remove(value), Some(42));
        assert!(map.get(value).is_none());
        map.check_consistency();
    }
    assert!(map.is_empty());
    assert!(map.len() == 0);
}

#[test]
fn test_append() {
    let mut rng = StdRng::seed_from_u64(0);
    let n = N & 1;
    let mut values: Vec<i64> = (0..n).map(|_| rng.gen::<i32>() as i64).collect();

    let mut map = AvlTreeMap::new();
    let mut map2 = AvlTreeMap::new();
    for chunk in values.chunks_exact(2) {
        map.insert(chunk[0], "foo");
        map2.insert(chunk[1], "bar");
    }

    values.sort();
    values.dedup();

    map.append(&mut map2);
    assert!(map2.is_empty());
    let mut map_keys = map.keys();
    for value in values {
        assert_eq!(map_keys.next(), Some(value));
    }

    let mut set1 = AvlTreeSet::new();
    let mut set2 = AvlTreeSet::new();
    for v in 0..10 {
        set2.insert(v);
    }
    set1.append(&mut set2);
    assert_eq!(set_debug_string(&set1), "{0, 1, 2, 3, 4, 5, 6, 7, 8, 9}");
    assert!(set2.is_empty());
}

#[test]
fn test_map_entry() {
    let mut map: AvlTreeMap<&str> = AvlTreeMap::new();
    let labels = ["foo", "bar"];
    for (i, key) in (0..100).step_by(10).enumerate() {
        map.insert(key, labels[i % 2]);
    }

    let occupied = map.entry(40);
    assert_eq!(
        format!(
            "Entry(OccupiedEntry {{ key: {}, value: {:?} }})",
            occupied.key(),
            map.index(&40)
        ),
        r#"Entry(OccupiedEntry { key: 40, value: "foo" })"#
    );
    assert_eq!(occupied.key(), 40);
    if let Entry::Occupied(occupied_entry) = occupied {
        assert_eq!(occupied_entry.key(), 40);
        assert_eq!(*occupied_entry.get(&map), "foo");
    } else {
        panic!("should be occupied");
    }

    let vacant = map.entry(42);
    assert_eq!(
        format!("Entry(OccupiedEntry {{ key: {} }})", vacant.key()),
        r"Entry(OccupiedEntry { key: 42 })"
    );
    assert_eq!(vacant.key(), 42);
    if let Entry::Vacant(vacant_entry) = vacant {
        assert_eq!(vacant_entry.key(), 42);
        vacant_entry.insert(&mut map, "baz");
        map.insert(42, "boom");
    } else {
        panic!("should be vacant");
    }
    assert_eq!(*map.index(&42), "boom");

    let e = map.entry(50);
    e.or_insert(&mut map, "baz");
    assert_eq!(map.get(&50), Some(&"bar"));
    if let Entry::Occupied(o) = map.entry(50) {
        o.remove(&mut map);
    }
    assert_eq!(map.get(&50), None);
    let e = map.entry(50);
    e.or_insert(&mut map, "baz");
    assert_eq!(map.get(&50), Some(&"baz"));
}

#[test]
fn test_map_iter() {
    let mut rng = StdRng::seed_from_u64(0);
    let mut values: Vec<i64> = (0..N).map(|_| rng.gen::<i32>() as i64).collect();

    let mut map = AvlTreeMap::new();
    for value in &values {
        map.insert(*value, value.wrapping_add(42));
    }

    values.sort();
    values.dedup();

    // Non-mutable iterators.
    let mut map_iter = map.iter();
    for value in &values {
        let kv = map_iter.next();
        assert!(kv.is_some());
        let (key, mapped) = kv.unwrap();
        assert_eq!(key, *value);
        assert_eq!(mapped, value.wrapping_add(42));
    }
    assert!(map_iter.next().is_none());

    let mut key_iter = map.keys();
    for value in &values {
        let key = key_iter.next();
        assert!(key.is_some());
        let key = key.unwrap();
        assert_eq!(key, *value);
    }
    assert!(key_iter.next().is_none());

    let mut mapped_iter = map.values();
    for value in &values {
        let mapped = mapped_iter.next();
        assert!(mapped.is_some());
        let mapped = mapped.unwrap();
        assert_eq!(mapped, value.wrapping_add(42));
    }
    assert!(mapped_iter.next().is_none());

    // Consuming iterator over a copy of the tree.
    let mut value_iter = values.iter();
    let mut consuming = map.clone_tree().into_iter();
    while let Some((key, mapped)) = consuming.next() {
        let value = value_iter.next();
        assert!(value.is_some());
        let value = value.unwrap();
        assert_eq!(key, *value);
        assert_eq!(mapped, value.wrapping_add(42));
    }
    assert!(value_iter.next().is_none());

    let mut into_iter = map.clone_tree().into_iter();
    for _ in 0..N / 10 {
        into_iter.next();
    }

    // Reverse iterator.
    let mut values_iter = values.iter();
    let mut map_iter = map.iter();
    for _ in 1..=10 {
        values_iter.next();
        values_iter.next_back();
        map_iter.next();
        map_iter.next_back();
    }
    while let Some(value) = values_iter.next_back() {
        let kv = map_iter.next_back();
        assert_eq!(kv, Some((*value, value.wrapping_add(42))));
    }

    // Owning reverse iterator.
    let mut values_iter = values.iter();
    let mut map_iter = map.clone_tree().into_iter();
    for _ in 1..=10 {
        values_iter.next();
        values_iter.next_back();
        map_iter.next();
        map_iter.next_back();
    }
    while let Some(value) = values_iter.next_back() {
        let kv = map_iter.next_back();
        assert_eq!(kv, Some((*value, value.wrapping_add(42))));
    }
}

#[test]
fn test_map_range_iter() {
    let mut rng = StdRng::seed_from_u64(0);
    let mut values: Vec<i64> = (0..N).map(|_| rng.gen::<i32>() as i64).collect();

    let mut map = AvlTreeMap::new();
    for value in &values {
        map.insert(*value, value.wrapping_add(42));
    }

    values.sort();
    values.dedup();

    let start_idx = (N / 4) as usize;
    let end_idx = (N - N / 4) as usize;

    let mut range = map.range(
        Bound::Included(values[start_idx]),
        Bound::Excluded(values[end_idx]),
    );
    for value in &values[start_idx..end_idx] {
        let kv = range.next();
        assert!(kv.is_some());
        let (key, mapped) = kv.unwrap();
        assert_eq!(key, *value);
        assert_eq!(mapped, value.wrapping_add(42));
    }
    assert!(range.next().is_none());

    let mut range = map.range(
        Bound::Excluded(values[start_idx]),
        Bound::Included(values[end_idx]),
    );
    for value in &values[start_idx + 1..=end_idx] {
        let kv = range.next();
        assert!(kv.is_some());
        let (key, mapped) = kv.unwrap();
        assert_eq!(key, *value);
        assert_eq!(mapped, value.wrapping_add(42));
    }
    assert!(range.next().is_none());

    let mut range = map.range(
        Bound::Included(values[start_idx]),
        Bound::Included(values[start_idx]),
    );
    let kv = range.next();
    assert!(kv.is_some());
    let (key, mapped) = kv.unwrap();
    assert_eq!(key, values[start_idx]);
    assert_eq!(mapped, values[start_idx].wrapping_add(42));
    assert!(range.next().is_none());

    let mut range = map.range(
        Bound::Included(values[start_idx]),
        Bound::Excluded(values[start_idx]),
    );
    assert!(range.next().is_none());

    let mut range = map.range(
        Bound::Excluded(values[start_idx]),
        Bound::Included(values[start_idx]),
    );
    assert!(range.next().is_none());

    let mut range = map.range(
        Bound::Excluded(values[start_idx]),
        Bound::Excluded(values[start_idx + 1]),
    );
    assert!(range.next().is_none());
}
