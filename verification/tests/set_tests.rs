use avl::map::set::Difference;
use avl::map::set::Intersection;
use avl::map::set::SymmetricDifference;
use avl::map::Bound;
use avl::AvlTreeSet;

use rand::rngs::StdRng;
use rand::seq::SliceRandom;
use rand::Rng;
use rand::SeedableRng;

const N: i64 = 1_000;

fn set_debug_string(set: &AvlTreeSet) -> String {
    let mut s = String::from("{");
    let mut sep = "";
    let mut iter = set.iter();
    while let Some(k) = iter.next() {
        s.push_str(&format!("{}{}", sep, k));
        sep = ", ";
    }
    s.push('}');
    s
}

fn intersection_debug_string(mut it: Intersection) -> String {
    let mut s = String::from("Intersection{");
    let mut sep = "";
    while let Some(k) = it.next() {
        s.push_str(&format!("{}{}", sep, k));
        sep = ", ";
    }
    s.push('}');
    s
}

fn difference_debug_string(mut it: Difference) -> String {
    let mut s = String::from("Difference{");
    let mut sep = "";
    while let Some(k) = it.next() {
        s.push_str(&format!("{}{}", sep, k));
        sep = ", ";
    }
    s.push('}');
    s
}

fn symmetric_difference_debug_string(mut it: SymmetricDifference) -> String {
    let mut s = String::from("SymmetricDifference{");
    let mut sep = "";
    while let Some(k) = it.next() {
        s.push_str(&format!("{}{}", sep, k));
        sep = ", ";
    }
    s.push('}');
    s
}

fn collect_set(values: &[i64]) -> AvlTreeSet {
    let mut set = AvlTreeSet::new();
    for v in values {
        set.insert(*v);
    }
    set
}

fn collect_range_set(range: std::ops::Range<i64>) -> AvlTreeSet {
    let mut set = AvlTreeSet::new();
    for v in range {
        set.insert(v);
    }
    set
}

#[test]
fn test_split() {
    let mut set = AvlTreeSet::new();
    for v in [0, 3, 15, 42, 100, 100, 101, 100, 101, 102, 103, 115, 116, 1000] {
        set.insert(v);
    }
    let offsplit = set.split_off(&115);
    assert_eq!(set_debug_string(&offsplit), "{115, 116, 1000}");
    assert_eq!(set_debug_string(&set), "{0, 3, 15, 42, 100, 101, 102, 103}");
    let offsplit = set.split_off(&104);
    assert_eq!(set_debug_string(&offsplit), "{}");
    assert_eq!(set_debug_string(&set), "{0, 3, 15, 42, 100, 101, 102, 103}");
    let offsplit = set.split_off(&0);
    assert_eq!(
        set_debug_string(&offsplit),
        "{0, 3, 15, 42, 100, 101, 102, 103}"
    );
    assert_eq!(set_debug_string(&set), "{}");
}

#[test]
fn test_set() {
    let mut rng = StdRng::seed_from_u64(0);
    let mut values: Vec<i64> = (0..N).map(|_| rng.gen_range(1..=N)).collect();

    let mut set = AvlTreeSet::new();
    for value in &values {
        set.insert(*value);
    }
    set.check_consistency();

    for value in &values {
        let got = set.get(value);
        assert_eq!(got, Some(*value));
    }

    values.shuffle(&mut rng);
    values.resize(values.len() / 2, 0);
    for value in &values {
        set.remove(value);
    }
    set.check_consistency();
}

#[test]
fn test_set_iter() {
    let mut rng = StdRng::seed_from_u64(0);
    let mut values: Vec<i64> = (0..N).map(|_| rng.gen::<i32>() as i64).collect();

    let mut set = AvlTreeSet::new();
    for value in &values {
        set.insert(*value);
    }

    values.sort();
    values.dedup();

    let mut set_iter = set.iter();
    for value in &values {
        let value_in_set = set_iter.next();
        assert!(value_in_set.is_some());
        let value_in_set = value_in_set.unwrap();
        assert_eq!(value_in_set, *value);
    }
    assert!(set_iter.next().is_none());

    let mut value_iter = values.iter();
    let mut consuming = set.into_iter();
    while let Some(key) = consuming.next() {
        let value = value_iter.next();
        assert!(value.is_some());
        let value = value.unwrap();
        assert_eq!(key, *value);
    }
    assert!(value_iter.next().is_none());

    // Iteration over ranges of a small set.
    let mut set = AvlTreeSet::new();
    for v in 1..4 {
        set.insert(v);
    }
    for v in 4..8 {
        set.insert(v);
    }
    for v in [8, 9] {
        set.insert(v);
    }

    let mut s = String::from("[");
    let mut sep = "";
    let mut iter = set.iter();
    while let Some(k) = iter.next() {
        s.push_str(&format!("{}{}", sep, k));
        sep = ", ";
    }
    s.push(']');
    assert_eq!(s, "[1, 2, 3, 4, 5, 6, 7, 8, 9]");

    let mut s = String::from("[");
    let mut sep = "";
    let mut range = set.range(Bound::Included(3), Bound::Excluded(8));
    while let Some(k) = range.next() {
        s.push_str(&format!("{}{}", sep, k));
        sep = ", ";
    }
    s.push(']');
    assert_eq!(s, "[3, 4, 5, 6, 7]");

    let mut s = String::from("[");
    let mut sep = "";
    let mut range = set.range(Bound::Included(3), Bound::Included(8));
    while let Some(k) = range.next() {
        s.push_str(&format!("{}{}", sep, k));
        sep = ", ";
    }
    s.push(']');
    assert_eq!(s, "[3, 4, 5, 6, 7, 8]");

    let mut s = String::from("[");
    let mut sep = "";
    let mut range = set.range(Bound::Included(3), Bound::Included(3));
    while let Some(k) = range.next() {
        s.push_str(&format!("{}{}", sep, k));
        sep = ", ";
    }
    s.push(']');
    assert_eq!(s, "[3]");

    let mut s = String::from("[");
    let mut sep = "";
    let mut range = set.range(Bound::Included(3), Bound::Excluded(3));
    while let Some(k) = range.next() {
        s.push_str(&format!("{}{}", sep, k));
        sep = ", ";
    }
    s.push(']');
    assert_eq!(s, "[]");
}

#[test]
fn test_set_ops() {
    let s1: AvlTreeSet = {
        let mut s = AvlTreeSet::new();
        for x in 0..N {
            s.insert(2 * x);
        }
        s
    };
    let s2: AvlTreeSet = {
        let mut s = AvlTreeSet::new();
        for x in 0..N {
            s.insert(3 * x);
        }
        s
    };

    let mut values: Vec<i64> = Vec::new();
    let mut it = s1.iter();
    while let Some(v) = it.next() {
        values.push(v);
    }
    let mut it = s2.iter();
    while let Some(v) = it.next() {
        values.push(v);
    }
    values.sort_unstable();
    values.dedup();

    let mut union = s1.union(&s2);
    for value in &values {
        assert_eq!(union.next(), Some(*value));
    }
    assert!(union.next().is_none());

    let mut inter = s1.intersection(&s2);
    while let Some(value) = inter.next() {
        assert!(value % 2 == 0 && value % 3 == 0);
    }
    assert_eq!(
        intersection_debug_string(
            collect_range_set(0..N).intersection(&collect_set(&[42, 43, 44, 45]))
        ),
        "Intersection{42, 43, 44, 45}"
    );
    assert_eq!(
        intersection_debug_string(
            collect_range_set(0..1000).intersection(&collect_set(&[-1, 42, 500, 1000, 1001]))
        ),
        "Intersection{42, 500}"
    );

    let mut diff = s1.difference(&s2);
    while let Some(value) = diff.next() {
        assert!(value % 2 == 0 && value % 3 != 0);
    }
    assert_eq!(
        difference_debug_string({
            let big = collect_range_set(0..1000);
            let mut mid = AvlTreeSet::new();
            for v in 5..=995 {
                mid.insert(v);
            }
            let d = big.difference(&mid);
            d
        }),
        "Difference{0, 1, 2, 3, 4, 996, 997, 998, 999}"
    );

    let mut sym = s1.symmetric_difference(&s2);
    while let Some(value) = sym.next() {
        assert!(s1.contains(&value) || s2.contains(&value));
        assert!(!(s1.contains(&value) && s2.contains(&value)));
    }
    assert_eq!(
        symmetric_difference_debug_string({
            let big = collect_range_set(0..1000);
            let mut mid = AvlTreeSet::new();
            for v in 5..=995 {
                mid.insert(v);
            }
            let d = big.symmetric_difference(&mid);
            d
        }),
        "SymmetricDifference{0, 1, 2, 3, 4, 996, 997, 998, 999}"
    );
    assert_eq!(
        symmetric_difference_debug_string({
            let big = collect_range_set(0..1000);
            let mut mid = AvlTreeSet::new();
            for v in 5..=995 {
                mid.insert(v);
            }
            let d = mid.symmetric_difference(&big);
            d
        }),
        "SymmetricDifference{0, 1, 2, 3, 4, 996, 997, 998, 999}"
    );

    assert!(collect_set(&[0, 1, 2, 2, 4, 8, 9, 10, 12, 19])
        .is_disjoint(&collect_set(&[3, 5, 7, 11, 13, 15, 15])));
    assert!(!collect_set(&[0, 1, 2, 4, 8, 9, 9, 10, 12, 19])
        .is_disjoint(&collect_set(&[3, 5, 7, 7, 11, 12, 13])));
}
