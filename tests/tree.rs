use b_tree::tree::Tree;

#[test]
fn tree_insert_search_remove() {
    let mut tree: Tree<String> = Tree::new(3);
    for k in [5, 10, 100, 4, 0, 1000, 2, -5] {
        tree.insert(k, format!("v{}", k));
    }
    assert_eq!(tree.search(&1000), Some(&"v1000".to_string()));
    assert_eq!(tree.search(&-5), Some(&"v-5".to_string()));
    assert_eq!(tree.search(&3), None);
    tree.insert(4, "again".to_string());
    assert_eq!(tree.search(&4), Some(&"again".to_string()));
    assert_eq!(tree.remove(&5), Some("v5".to_string()));
    assert_eq!(tree.remove(&5), None);
    assert_eq!(tree.search(&5), None);
    assert_eq!(tree.search(&10), Some(&"v10".to_string()));
}

#[test]
fn tree_insert_of_promoted_key_replaces_value() {
    let mut tree: Tree<i64> = Tree::new(2);
    for k in 0..64 {
        tree.insert(k, k);
    }
    for k in 0..64 {
        tree.insert(k, k + 100);
    }
    for k in 0..64 {
        assert_eq!(tree.search(&k), Some(&(k + 100)));
    }
    for k in 0..64 {
        assert_eq!(tree.remove(&k), Some(k + 100));
    }
    assert_eq!(tree.search(&0), None);
}
