use b_tree::map::BTreeMap;

fn hallo() -> String {
    "Hallo".to_string()
}

fn demo_map() -> BTreeMap<String> {
    let mut tree: BTreeMap<String> = BTreeMap::with_order(3).unwrap();
    for k in [5, 10, 100, 4, 0, 1000, 2, -5] {
        assert_eq!(tree.insert(k, hallo()), None);
    }
    tree
}

/// A permutation of 0..n that is far from sorted.
fn scrambled(n: i64) -> Vec<i64> {
    (0..n).map(|i| (i * 7919) % n).collect()
}

#[test]
fn root_splits_once_in_demo_inserts() {
    let mut tree: BTreeMap<String> = BTreeMap::with_order(3).unwrap();
    for k in [5, 10, 100, 4, 0] {
        assert_eq!(tree.insert(k, hallo()), None);
        assert!(tree.root_is_leaf());
    }
    assert_eq!(tree.keys(), vec![0, 4, 5, 10, 100]);
    assert_eq!(tree.insert(1000, hallo()), None);
    assert!(!tree.root_is_leaf());
    assert_eq!(tree.insert(2, hallo()), None);
    assert_eq!(tree.insert(-5, hallo()), None);
    assert!(!tree.root_is_leaf());
    assert_eq!(tree.keys(), vec![-5, 0, 2, 4, 5, 10, 100, 1000]);
}

#[test]
fn demo_removals_shrink_to_leaf_root() {
    let mut tree = demo_map();
    assert_eq!(tree.remove(&5), Some(hallo()));
    assert_eq!(tree.keys(), vec![-5, 0, 2, 4, 10, 100, 1000]);
    assert_eq!(tree.remove(&10), Some(hallo()));
    assert_eq!(tree.keys(), vec![-5, 0, 2, 4, 100, 1000]);
    assert_eq!(tree.remove(&2), Some(hallo()));
    assert_eq!(tree.keys(), vec![-5, 0, 4, 100, 1000]);
    assert_eq!(tree.remove(&1000), Some(hallo()));
    assert_eq!(tree.keys(), vec![-5, 0, 4, 100]);
    assert_eq!(tree.remove(&-5), Some(hallo()));
    assert_eq!(tree.keys(), vec![0, 4, 100]);
    assert!(tree.root_is_leaf());
    assert!(tree.get(&100).is_some());
    assert!(tree.get(&-5).is_none());
}

#[test]
fn user_names_example() {
    let mut user_names = BTreeMap::new();
    user_names.insert(1, "John");
    user_names.insert(10, "Steve");
    user_names.insert(5, "Stefanie");
    assert_eq!(user_names.remove(&5), Some("Stefanie"));
    assert_eq!(user_names.remove(&2), None);
    assert_eq!(user_names.get(&1), Some(&"John"));
    assert_eq!(user_names.get(&2), None);
}

#[test]
fn degree_below_two_is_refused() {
    assert!(BTreeMap::<u8>::with_order(0).is_err());
    assert!(BTreeMap::<u8>::with_order(1).is_err());
    assert_eq!(BTreeMap::<u8>::with_order(1).err(), Some("min_childs needs to be at least 2!"));
    assert!(BTreeMap::<u8>::with_order(2).is_ok());
    assert!(BTreeMap::<u8>::with_order(usize::MAX).is_ok());
}

#[test]
fn new_map_is_empty_leaf() {
    let tree: BTreeMap<u8> = BTreeMap::new();
    assert!(tree.keys().is_empty());
    assert!(tree.root_is_leaf());
    assert_eq!(tree.get(&0), None);
}

#[test]
fn insert_existing_key_returns_previous_value() {
    let mut tree = demo_map();
    assert_eq!(tree.insert(100, "neu".to_string()), Some(hallo()));
    assert_eq!(tree.get(&100), Some(&"neu".to_string()));
    assert_eq!(tree.insert(100, "drei".to_string()), Some("neu".to_string()));
    assert_eq!(tree.keys(), vec![-5, 0, 2, 4, 5, 10, 100, 1000]);
}

#[test]
fn get_returns_most_recent_insert() {
    let mut tree: BTreeMap<i64> = BTreeMap::with_order(2).unwrap();
    for k in scrambled(300) {
        tree.insert(k, k);
    }
    for k in scrambled(300) {
        if k % 3 == 0 {
            assert_eq!(tree.insert(k, -k), Some(k));
        }
    }
    for k in 0..300 {
        let want = if k % 3 == 0 { -k } else { k };
        assert_eq!(tree.get(&k), Some(&want));
    }
    assert_eq!(tree.get(&300), None);
    assert_eq!(tree.keys(), (0..300).collect::<Vec<i64>>());
}

#[test]
fn remove_absent_key_changes_nothing() {
    let mut tree = demo_map();
    assert_eq!(tree.remove(&7), None);
    assert_eq!(tree.keys(), vec![-5, 0, 2, 4, 5, 10, 100, 1000]);
    assert_eq!(tree.remove(&4), Some(hallo()));
    assert_eq!(tree.remove(&4), None);
    assert_eq!(tree.keys(), vec![-5, 0, 2, 5, 10, 100, 1000]);
    let mut empty: BTreeMap<u8> = BTreeMap::new();
    assert_eq!(empty.remove(&1), None);
    assert!(empty.keys().is_empty());
}

#[test]
fn full_drain_leaves_empty_leaf_root() {
    for t in [2usize, 3, 6] {
        let mut tree: BTreeMap<i64> = BTreeMap::with_order(t).unwrap();
        let n: i64 = 500;
        for k in scrambled(n) {
            assert_eq!(tree.insert(k, k * 2), None);
        }
        assert!(!tree.root_is_leaf());
        for k in (0..n).rev() {
            assert_eq!(tree.remove(&((k * 31) % n)), Some(((k * 31) % n) * 2));
        }
        assert!(tree.keys().is_empty());
        assert!(tree.root_is_leaf());
        assert_eq!(tree.insert(1, 1), None);
        assert_eq!(tree.keys(), vec![1]);
    }
}

#[test]
fn keys_stay_sorted_under_mixed_operations() {
    let mut tree: BTreeMap<i64> = BTreeMap::with_order(2).unwrap();
    let mut model = std::collections::BTreeMap::new();
    for step in 0..2000i64 {
        let k = (step * 37 + 11) % 97;
        if step % 3 == 2 {
            assert_eq!(tree.remove(&k), model.remove(&k));
        } else {
            assert_eq!(tree.insert(k, step), model.insert(k, step));
        }
        if step % 50 == 0 {
            assert_eq!(tree.keys(), model.keys().copied().collect::<Vec<i64>>());
        }
    }
    for k in 0..97 {
        assert_eq!(tree.get(&k), model.get(&k));
    }
}

#[test]
fn extreme_keys() {
    let mut tree: BTreeMap<u8> = BTreeMap::with_order(2).unwrap();
    tree.insert(i64::MAX, 1);
    tree.insert(i64::MIN, 2);
    tree.insert(0, 3);
    tree.insert(-1, 4);
    assert_eq!(tree.keys(), vec![i64::MIN, -1, 0, i64::MAX]);
    assert_eq!(tree.remove(&i64::MIN), Some(2));
    assert_eq!(tree.get(&i64::MAX), Some(&1));
}
