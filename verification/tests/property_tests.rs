use avl::map::Bound;
use avl::tree::Tree;
use avl::AvlTreeMap;
use avl::AvlTreeSet;

use rand::rngs::StdRng;
use rand::seq::SliceRandom;
use rand::Rng;
use rand::SeedableRng;

#[test]
fn test_single_right_rotation_height() {
    // Scenario: inserting 3, 2, 1 in that order forces one right rotation
    // and leaves a tree of height 1.
    let mut map = AvlTreeMap::new();
    map.insert(3, ());
    map.insert(2, ());
    map.insert(1, ());
    map.check_consistency();
    assert_eq!(map.height(), 1);
    assert_eq!(map.len(), 3);
}

#[test]
fn test_get_after_remove() {
    // Scenario: a removed key is gone, the others stay.
    let mut map = AvlTreeMap::new();
    map.insert(0, "zero");
    map.insert(1, "one");
    map.insert(2, "two");
    assert_eq!(map.get(&1), Some(&"one"));
    map.remove(&1);
    assert!(map.get(&1).is_none());
    assert_eq!(map.get(&0), Some(&"zero"));
    assert_eq!(map.get(&2), Some(&"two"));
}

#[test]
fn test_intersection_multiples() {
    // Scenario: multiples of 2 intersected with multiples of 3 are exactly
    // the multiples of 6, in ascending order.
    let n: i64 = 200;
    let mut evens = AvlTreeSet::new();
    let mut thirds = AvlTreeSet::new();
    for x in 0..=n {
        evens.insert(2 * x);
    }
    for x in 0..=n {
        thirds.insert(3 * x);
    }
    let mut inter = evens.intersection(&thirds);
    let mut expected: i64 = 0;
    while let Some(v) = inter.next() {
        assert_eq!(v, expected);
        assert!(v % 6 == 0);
        expected += 6;
    }
    assert_eq!(expected, 2 * n + 6 - (2 * n) % 6);
}

#[test]
fn test_random_insert_remove_consistency() {
    // Scenario: build a map from 1000 random keys, remove them in shuffled
    // order, and after each removal check the key is gone and the tree is
    // still consistent.
    let mut rng = StdRng::seed_from_u64(7);
    let mut keys: Vec<i64> = (0..1000).map(|_| rng.gen::<i32>() as i64).collect();
    let mut map = AvlTreeMap::new();
    for k in &keys {
        map.insert(*k, *k);
        map.check_consistency();
    }
    keys.sort();
    keys.dedup();
    keys.shuffle(&mut rng);
    for k in &keys {
        assert!(map.remove(k).is_some());
        assert!(map.get(k).is_none());
        map.check_consistency();
    }
    assert!(map.is_empty());
}

#[test]
fn test_ascending_height_bound() {
    // Balance bound: after n ascending insertions the height is positive
    // and below n divided by two.
    let n: i64 = 1000;
    let mut map = AvlTreeMap::new();
    for k in 0..n {
        map.insert(k, ());
    }
    let h = map.height() as i64;
    assert!(h > 0);
    assert!(h < n / 2);
    // An AVL tree of 1000 keys is in fact at most 13 levels deep.
    assert!(h <= 13);
}

#[test]
fn test_empty_ranges() {
    // Boundary behavior: a range from a key to the same key with one bound
    // excluded holds nothing, whichever side is excluded.
    let mut map = AvlTreeMap::new();
    for k in 0..100 {
        map.insert(k, k);
    }
    let mut r = map.range(Bound::Included(50), Bound::Excluded(50));
    assert!(r.next().is_none());
    let mut r = map.range(Bound::Excluded(50), Bound::Included(50));
    assert!(r.next().is_none());
    let mut r = map.range(Bound::Unbounded, Bound::Excluded(0));
    assert!(r.next().is_none());
    let mut r = map.range(Bound::Excluded(99), Bound::Unbounded);
    assert!(r.next().is_none());
}

#[test]
fn test_round_trip_sorted_iteration() {
    // Round trip: inserting keys in any order yields strictly ascending
    // iteration; removing every key leaves an empty, consistent tree.
    let keys = [5, 3, 8, 1, 4, 7, 9, 2, 6, 0];
    let mut map = AvlTreeMap::new();
    for k in keys {
        map.insert(k, k * 10);
    }
    let mut it = map.keys();
    let mut prev: Option<i64> = None;
    while let Some(k) = it.next() {
        if let Some(p) = prev {
            assert!(p < k);
        }
        prev = Some(k);
    }
    for k in keys {
        assert_eq!(map.remove(&k), Some(k * 10));
    }
    assert!(map.is_empty());
    map.check_consistency();
}

#[test]
fn test_duplicate_insert() {
    // Idempotent duplicate insert: the second insert returns the previous
    // value and changes neither the length nor the height.
    let mut map = AvlTreeMap::new();
    for k in 0..100 {
        map.insert(k, k);
    }
    let len_before = map.len();
    let height_before = map.height();
    assert_eq!(map.insert(42, 4242), Some(42));
    assert_eq!(map.len(), len_before);
    assert_eq!(map.height(), height_before);
    assert_eq!(map.get(&42), Some(&4242));
}

#[test]
fn test_map_append_overlap() {
    // Append: a key present on both sides keeps the value moved over.
    let mut a = AvlTreeMap::new();
    let mut b = AvlTreeMap::new();
    a.insert(1, "one");
    a.insert(2, "left");
    b.insert(2, "right");
    b.insert(3, "three");
    a.append(&mut b);
    assert!(b.is_empty());
    assert_eq!(a.len(), 3);
    assert_eq!(a.get(&1), Some(&"one"));
    assert_eq!(a.get(&2), Some(&"right"));
    assert_eq!(a.get(&3), Some(&"three"));
}

#[test]
fn test_remove_entry_and_values() {
    let mut map = AvlTreeMap::new();
    map.insert(10, "ten");
    map.insert(20, "twenty");
    assert_eq!(map.remove_entry(&10), Some((10, "ten")));
    assert_eq!(map.remove_entry(&10), None);
    let mut vals = map.values();
    assert_eq!(vals.next(), Some("twenty"));
    assert_eq!(vals.next(), None);
}

#[test]
fn test_clone_tree_independent() {
    let mut map = AvlTreeMap::new();
    for k in 0..50 {
        map.insert(k, k + 1);
    }
    let copy = map.clone_tree();
    copy.check_consistency();
    assert_eq!(copy.len(), 50);
    assert_eq!(copy.height(), map.height());
    map.remove(&25);
    assert_eq!(copy.get(&25), Some(&26));
    assert!(map.get(&25).is_none());
}

#[test]
fn test_traversal_orders() {
    // A fixed tree: inserting 2, 1, 3 gives the balanced tree with 2 at the
    // root, so the traversal orders are known exactly.
    let mut map = AvlTreeMap::new();
    map.insert(2, ());
    map.insert(1, ());
    map.insert(3, ());
    assert_eq!(map.preorder(), vec![2, 1, 3]);
    assert_eq!(map.inorder(), vec![1, 2, 3]);
    assert_eq!(map.postorder(), vec![1, 3, 2]);
}

#[test]
fn test_tree_front() {
    let mut tree = Tree::new();
    assert!(tree.is_empty());
    assert!(tree.insert(2));
    assert!(tree.insert(1));
    assert!(tree.insert(3));
    assert!(!tree.insert(2));
    tree.check_consistency();
    assert_eq!(tree.len(), 3);
    assert_eq!(tree.height(), 1);
    assert_eq!(tree.get(&1), Some(1));
    assert_eq!(tree.get(&4), None);
    assert_eq!(tree.preorder(), vec![2, 1, 3]);
    assert_eq!(tree.postorder(), vec![1, 3, 2]);
    assert!(tree.remove(&1));
    assert!(!tree.remove(&1));
    tree.check_consistency();
    tree.clear();
    assert!(tree.is_empty());
    assert_eq!(tree.len(), 0);
    assert_eq!(Tree::default().len(), 0);
}

#[test]
fn test_plain_set_front() {
    let mut set = avl::set::AvlTreeSet::new();
    assert!(set.is_empty());
    assert!(set.insert(4));
    assert!(set.insert(2));
    assert!(!set.insert(4));
    set.check_consistency();
    assert_eq!(set.len(), 2);
    assert!(set.contains(&2));
    assert_eq!(set.get(&4), Some(4));
    assert_eq!(set.take(&2), Some(2));
    assert_eq!(set.take(&2), None);
    let mut other = avl::set::AvlTreeSet::new();
    other.insert(7);
    set.append(&mut other);
    assert!(other.is_empty());
    let mut it = set.iter();
    assert_eq!(it.next(), Some(4));
    assert_eq!(it.next(), Some(7));
    assert_eq!(it.next(), None);
    let mut r = set.range(Bound::Included(5), Bound::Unbounded);
    assert_eq!(r.next(), Some(7));
    assert_eq!(r.next(), None);
    let mut c = set.into_iter();
    assert_eq!(c.next_back(), Some(7));
    assert_eq!(c.next_back(), Some(4));
    assert_eq!(c.next_back(), None);
    let e: avl::set::AvlTreeSet = Default::default();
    assert!(e.is_empty());
}

#[test]
fn test_subset_superset() {
    let mut a = AvlTreeSet::new();
    let mut b = AvlTreeSet::new();
    for v in [1, 3, 5] {
        a.insert(v);
    }
    for v in [0, 1, 2, 3, 4, 5] {
        b.insert(v);
    }
    assert!(a.is_subset(&b));
    assert!(!b.is_subset(&a));
    assert!(b.is_superset(&a));
    assert!(!a.is_superset(&b));
    assert!(a.is_subset(&a));
    let empty = AvlTreeSet::new();
    assert!(empty.is_subset(&a));
    assert!(a.is_superset(&empty));
    assert!(empty.is_disjoint(&a));
}

#[test]
fn test_set_algebra_small_exact() {
    let mut a = AvlTreeSet::new();
    let mut b = AvlTreeSet::new();
    for v in [1, 2, 3, 4] {
        a.insert(v);
    }
    for v in [3, 4, 5, 6] {
        b.insert(v);
    }
    let mut u = a.union(&b);
    let mut got: Vec<i64> = Vec::new();
    while let Some(v) = u.next() {
        got.push(v);
    }
    assert_eq!(got, vec![1, 2, 3, 4, 5, 6]);

    let mut i = a.intersection(&b);
    let mut got: Vec<i64> = Vec::new();
    while let Some(v) = i.next() {
        got.push(v);
    }
    assert_eq!(got, vec![3, 4]);

    let mut d = a.difference(&b);
    let mut got: Vec<i64> = Vec::new();
    while let Some(v) = d.next() {
        got.push(v);
    }
    assert_eq!(got, vec![1, 2]);

    let mut s = a.symmetric_difference(&b);
    let mut got: Vec<i64> = Vec::new();
    while let Some(v) = s.next() {
        got.push(v);
    }
    assert_eq!(got, vec![1, 2, 5, 6]);
}

#[test]
fn test_entry_or_insert_with() {
    let mut map = AvlTreeMap::new();
    map.insert(1, 100);
    let e = map.entry(1);
    e.or_insert_with(&mut map, || 999);
    assert_eq!(map.get(&1), Some(&100));
    let e = map.entry(2);
    e.or_insert_with(&mut map, || 222);
    assert_eq!(map.get(&2), Some(&222));
    let e = map.entry(3);
    assert_eq!(e.key(), 3);
    if let avl::map::Entry::Vacant(v) = e {
        assert_eq!(v.into_key(), 3);
    } else {
        panic!("should be vacant");
    }
    if let avl::map::Entry::Occupied(o) = map.entry(2) {
        assert_eq!(*o.get(&map), 222);
    } else {
        panic!("should be occupied");
    }
}

#[test]
fn test_peek_and_double_ended() {
    let mut map = AvlTreeMap::new();
    for k in [2, 1, 3] {
        map.insert(k, k * 2);
    }
    let mut it = map.iter();
    assert_eq!(it.peek(), Some(&(1, 2)));
    assert_eq!(it.next(), Some((1, 2)));
    assert_eq!(it.next_back(), Some((3, 6)));
    assert_eq!(it.peek(), Some(&(2, 4)));
    assert_eq!(it.next(), Some((2, 4)));
    assert_eq!(it.peek(), None);
    assert_eq!(it.next(), None);
    assert_eq!(it.next_back(), None);

    let mut r = map.range(Bound::Unbounded, Bound::Unbounded);
    assert_eq!(r.peek(), Some(&(1, 2)));
    assert_eq!(r.next_back(), Some((3, 6)));
    assert_eq!(r.next_back(), Some((2, 4)));
    assert_eq!(r.next_back(), Some((1, 2)));
    assert_eq!(r.next_back(), None);

    let mut ks = map.keys();
    assert_eq!(ks.next_back(), Some(3));
    assert_eq!(ks.next(), Some(1));
    assert_eq!(ks.next(), Some(2));
    assert_eq!(ks.next(), None);
}

#[test]
fn test_set_split_off_boundaries() {
    let mut set = AvlTreeSet::new();
    for v in [1, 2, 3] {
        set.insert(v);
    }
    let hi = set.split_off(&4);
    assert!(hi.is_empty());
    assert_eq!(set.len(), 3);
    let all = set.split_off(&-10);
    assert!(set.is_empty());
    assert_eq!(all.len(), 3);
}
