use btree::{BTree, BTreeNode};

fn sample_tree() -> BTree {
    let mut t = BTree::new(3);
    t.insert(10);
    t.insert(20);
    t.insert(5);
    t.insert(6);
    t.insert(12);
    t.insert(30);
    t.insert(7);
    t.insert(17);
    t
}

#[test]
fn test_btree_insertion_and_search() {
    let t = sample_tree();

    println!("Traversal of the constructed tree is {:?}", t.traverse());

    assert!(t.search(6), "6 should be present");
    assert!(!t.search(15), "15 should not be present");
}

#[test]
fn test_btree_delete_leaf_node() {
    let mut t = sample_tree();

    let initial_keys = t.get_total_keys();
    assert!(t.delete(7), "7 should be deleted successfully");
    assert!(!t.search(7), "7 should not be present after deletion");
    assert_eq!(
        t.get_total_keys(),
        initial_keys - 1,
        "Total keys should decrease by 1"
    );
}

#[test]
fn test_btree_delete_internal_node() {
    let mut t = sample_tree();

    let initial_keys = t.get_total_keys();
    assert!(t.delete(10), "10 should be deleted successfully");
    assert!(!t.search(10), "10 should not be present after deletion");
    assert_eq!(
        t.get_total_keys(),
        initial_keys - 1,
        "Total keys should decrease by 1"
    );

    assert!(t.search(5), "5 should still be present");
    assert!(t.search(20), "20 should still be present");
}

#[test]
fn test_btree_delete_nonexistent_key() {
    let mut t = BTree::new(3);

    t.insert(10);
    t.insert(20);
    t.insert(5);

    let initial_keys = t.get_total_keys();
    assert!(!t.delete(99), "99 should not be deleted (does not exist)");
    assert_eq!(
        t.get_total_keys(),
        initial_keys,
        "Total keys should remain the same"
    );
}

#[test]
fn test_btree_delete_multiple_keys() {
    let mut t = sample_tree();

    let initial_keys = t.get_total_keys();

    assert!(t.delete(6), "6 should be deleted");
    assert!(t.delete(12), "12 should be deleted");
    assert!(t.delete(30), "30 should be deleted");

    assert!(!t.search(6), "6 should not be present");
    assert!(!t.search(12), "12 should not be present");
    assert!(!t.search(30), "30 should not be present");
    assert_eq!(
        t.get_total_keys(),
        initial_keys - 3,
        "Total keys should decrease by 3"
    );

    assert!(t.search(10), "10 should still be present");
    assert!(t.search(20), "20 should still be present");
    assert!(t.search(5), "5 should still be present");
}

#[test]
fn test_btree_delete_all_keys() {
    let mut t = BTree::new(3);

    t.insert(10);
    t.insert(20);
    t.insert(5);

    assert!(t.delete(10), "10 should be deleted");
    assert!(t.delete(20), "20 should be deleted");
    assert!(t.delete(5), "5 should be deleted");

    assert_eq!(t.get_total_keys(), 0, "Total keys should be 0");
    assert!(!t.search(10), "10 should not be present");
    assert!(!t.search(20), "20 should not be present");
    assert!(!t.search(5), "5 should not be present");
}

#[test]
fn test_btree_delete_with_merge() {
    let mut t = BTree::new(3);

    for k in 1..=10 {
        t.insert(k);
    }

    let initial_keys = t.get_total_keys();

    assert!(t.delete(5), "5 should be deleted");
    assert!(!t.search(5), "5 should not be present after deletion");
    assert_eq!(
        t.get_total_keys(),
        initial_keys - 1,
        "Total keys should decrease by 1"
    );

    assert!(t.search(1), "1 should still be present");
    assert!(t.search(10), "10 should still be present");
}

#[test]
fn test_btree_delete_root_becomes_empty() {
    let mut t = sample_tree();

    let root_key = if t.search(10) { 10 } else { 5 };

    assert!(t.delete(root_key), "Root key should be deleted");
    assert!(
        !t.search(root_key),
        "Root key should not be present after deletion"
    );

    let remaining_keys = t.get_total_keys();
    assert!(remaining_keys > 0, "Tree should still have keys");
}

#[test]
fn test_btree_delete_sequential() {
    let mut t = BTree::new(3);

    for i in 1..=20 {
        t.insert(i);
    }

    let initial_keys = t.get_total_keys();
    assert_eq!(initial_keys, 20, "Should have 20 keys initially");

    for i in 1..=10 {
        assert!(t.delete(i), "Key {} should be deleted", i);
        assert!(!t.search(i), "Key {} should not be present", i);
    }

    assert_eq!(t.get_total_keys(), 10, "Should have 10 keys remaining");

    for i in 11..=20 {
        assert!(t.search(i), "Key {} should still be present", i);
    }
}

#[test]
fn test_btree_delete_reverse_sequential() {
    let mut t = BTree::new(3);

    for i in 1..=10 {
        t.insert(i);
    }

    for i in (1..=10).rev() {
        assert!(t.delete(i), "Key {} should be deleted", i);
        assert!(!t.search(i), "Key {} should not be present", i);
    }

    assert_eq!(t.get_total_keys(), 0, "Should have 0 keys remaining");
}

#[test]
fn node_level_operations() {
    let mut n = BTreeNode::new(2, true);
    assert_eq!(n.keys_len(), 0);
    assert_eq!(n.first_key(), None);
    n.insert_not_full(4);
    n.insert_not_full(2);
    n.insert_not_full(3);
    assert!(n.is_full());
    assert_eq!(n.keys(), vec![2, 3, 4]);
    assert_eq!(n.get_key(1), Some(3));
    assert_eq!(n.get_key(3), None);
    assert_eq!(n.first_key(), Some(2));
    assert!(n.leaf());
    assert!(n.search(3).is_some());
    assert!(n.search(5).is_none());
    assert!(n.delete(3));
    assert!(!n.delete(3));
    assert_eq!(n.traverse(), vec![2, 4]);
}

#[test]
fn scenario_delete_leaf_key_leaves_seven() {
    let mut t = sample_tree();
    assert_eq!(t.get_total_keys(), 8);
    assert!(t.delete(7));
    assert!(!t.search(7));
    assert_eq!(t.get_total_keys(), 7);
}

#[test]
fn scenario_delete_internal_key_after_leaf_key() {
    let mut t = sample_tree();
    assert!(t.delete(7));
    let root = t.get_structure().expect("tree has a root");
    assert!(root.keys.contains(&10), "10 sits in an internal node");
    assert!(!root.is_leaf);
    assert!(t.delete(10));
    assert!(!t.search(10));
    assert!(t.search(5));
    assert!(t.search(20));
    assert_eq!(t.get_total_keys(), 6);
}

#[test]
fn scenario_merge_path_leaves_nine() {
    let mut t = BTree::new(3);
    for k in 1..=10 {
        t.insert(k);
    }
    assert!(t.delete(5));
    assert!(!t.search(5));
    assert!(t.search(1));
    assert!(t.search(10));
    assert_eq!(t.get_total_keys(), 9);
    assert_eq!(t.traverse(), vec![1, 2, 3, 4, 6, 7, 8, 9, 10]);
}

#[test]
fn present_keys_are_found_until_deleted() {
    let mut t = BTree::new(2);
    for k in [8, 3, 12, 1, 5, 9, 14, 2] {
        t.insert(k);
    }
    assert!(t.delete(3));
    t.insert(4);
    for k in [8, 12, 1, 5, 9, 14, 2, 4] {
        assert!(t.search(k), "{} should be present", k);
    }
    assert!(!t.search(3));
}

#[test]
fn traversal_is_increasing() {
    let mut t = BTree::new(2);
    for k in [50, -3, 17, 0, 99, -40, 23, 8, 61, 4, -7] {
        t.insert(k);
    }
    let keys = t.traverse();
    assert_eq!(keys, vec![-40, -7, -3, 0, 4, 8, 17, 23, 50, 61, 99]);
    for w in keys.windows(2) {
        assert!(w[0] <= w[1]);
    }
}

#[test]
fn missing_key_leaves_structure_unchanged() {
    let mut t = sample_tree();
    let before = t.get_structure().expect("root");
    assert!(!t.delete(15));
    let after = t.get_structure().expect("root");
    assert_eq!(before.keys, after.keys);
    assert_eq!(before.children.len(), after.children.len());
    for (a, b) in before.children.iter().zip(after.children.iter()) {
        assert_eq!(a.keys, b.keys);
    }
    assert_eq!(t.get_total_keys(), 8);
}

#[test]
fn round_trip_empties_the_tree() {
    let mut t = BTree::new(3);
    let keys: Vec<i32> = (0..200).map(|i| (i * 37) % 200 - 100).collect();
    for &k in &keys {
        t.insert(k);
    }
    assert_eq!(t.get_total_keys(), 200);
    let order: Vec<i32> = (0..200).map(|i| (i * 73) % 200 - 100).collect();
    for &k in &order {
        assert!(t.delete(k), "{} should be deleted", k);
    }
    assert_eq!(t.get_total_keys(), 0);
    assert_eq!(t.get_height(), 0);
    assert!(t.get_structure().is_none());
    for &k in &keys {
        assert!(!t.search(k));
    }
}

#[test]
fn duplicate_insert_is_ignored() {
    let mut t = BTree::new(2);
    t.insert(5);
    t.insert(5);
    t.insert(5);
    assert_eq!(t.get_total_keys(), 1);
    assert!(t.delete(5));
    assert!(!t.search(5));
    assert_eq!(t.get_total_keys(), 0);
}

#[test]
fn degree_below_two_is_rejected() {
    assert!(BTree::try_new(0).is_err());
    match BTree::try_new(1) {
        Err(e) => assert_eq!(e.t, 1),
        Ok(_) => panic!("degree 1 must be rejected"),
    }
    assert!(BTree::try_new(usize::MAX).is_err());
    let t = BTree::try_new(2).ok().expect("degree 2 is valid");
    assert_eq!(t.get_total_keys(), 0);
}

#[test]
fn height_grows_and_shrinks() {
    let mut t = BTree::new(2);
    assert_eq!(t.get_height(), 0);
    t.insert(1);
    assert_eq!(t.get_height(), 1);
    t.insert(2);
    t.insert(3);
    assert_eq!(t.get_height(), 1);
    t.insert(4);
    assert_eq!(t.get_height(), 2);
    let root = t.get_structure().expect("root");
    assert_eq!(root.keys, vec![2]);
    assert_eq!(root.children.len(), 2);
    assert_eq!(root.children[0].keys, vec![1]);
    assert_eq!(root.children[1].keys, vec![3, 4]);
    assert!(root.children[0].is_leaf);
    assert!(t.delete(1));
    assert_eq!(t.get_height(), 2);
    assert_eq!(t.get_structure().expect("root").keys, vec![3]);
    assert!(t.delete(2));
    assert_eq!(t.get_height(), 1);
    assert_eq!(t.traverse(), vec![3, 4]);
}

#[test]
fn extreme_keys_and_many_levels() {
    let mut t = BTree::new(2);
    t.insert(i32::MAX);
    t.insert(i32::MIN);
    for k in 0..500 {
        t.insert(k);
    }
    assert_eq!(t.get_total_keys(), 502);
    assert!(t.get_height() >= 5);
    assert!(t.search(i32::MAX));
    assert!(t.search(i32::MIN));
    for k in (0..500).step_by(2) {
        assert!(t.delete(k));
    }
    assert_eq!(t.get_total_keys(), 252);
    let keys = t.traverse();
    assert_eq!(keys[0], i32::MIN);
    assert_eq!(keys[keys.len() - 1], i32::MAX);
    assert!(!t.delete(0));
}

#[test]
fn node_split_and_add_child() {
    let mut full = BTreeNode::new(2, true);
    for k in [10, 20, 30] {
        full.insert_not_full(k);
    }
    assert!(full.is_full());
    let mut parent = BTreeNode::new(2, false);
    parent.add_child(Box::new(full));
    parent.split_child(0);
    assert_eq!(parent.keys(), vec![20]);
    assert_eq!(parent.children().len(), 2);
    assert_eq!(parent.children()[0].keys(), vec![10]);
    assert_eq!(parent.children()[1].keys(), vec![30]);
    parent.insert_not_full(25);
    assert_eq!(parent.traverse(), vec![10, 20, 25, 30]);
    assert!(parent.search(25).is_some());
    assert_eq!(parent.search(30).map(|n| n.keys()), Some(vec![25, 30]));
}

#[test]
fn child_access_by_index() {
    let mut parent = BTreeNode::new(2, false);
    let mut leaf = BTreeNode::new(2, true);
    leaf.insert_not_full(7);
    parent.add_child(Box::new(leaf));
    assert!(parent.get_child_mut(1).is_none());
    let child = parent.get_child_mut(0).expect("child 0 exists");
    child.insert_not_full(3);
    assert_eq!(parent.children()[0].keys(), vec![3, 7]);
    assert_eq!(parent.traverse(), vec![3, 7]);
}

fn check_node(
    node: &btree::NodeSnapshot,
    t: usize,
    is_root: bool,
    lo: Option<i32>,
    hi: Option<i32>,
    depth: usize,
    leaf_depth: &mut Option<usize>,
) -> usize {
    assert!(node.keys.len() <= 2 * t - 1, "too many keys");
    if !is_root {
        assert!(node.keys.len() >= t - 1, "too few keys");
    }
    for w in node.keys.windows(2) {
        assert!(w[0] < w[1], "keys out of order");
    }
    for &k in &node.keys {
        if let Some(l) = lo {
            assert!(k > l);
        }
        if let Some(h) = hi {
            assert!(k < h);
        }
    }
    if node.is_leaf {
        assert!(node.children.is_empty());
        match leaf_depth {
            Some(d) => assert_eq!(*d, depth, "leaves at different depths"),
            None => *leaf_depth = Some(depth),
        }
        node.keys.len()
    } else {
        assert_eq!(node.children.len(), node.keys.len() + 1);
        let mut total = node.keys.len();
        for (i, c) in node.children.iter().enumerate() {
            let clo = if i == 0 { lo } else { Some(node.keys[i - 1]) };
            let chi = if i == node.keys.len() { hi } else { Some(node.keys[i]) };
            total += check_node(c, t, false, clo, chi, depth + 1, leaf_depth);
        }
        total
    }
}

fn check_tree(tree: &BTree, t: usize) {
    match tree.get_structure() {
        Some(root) => {
            assert!(!root.keys.is_empty());
            let mut leaf_depth = None;
            let n = check_node(&root, t, true, None, None, 1, &mut leaf_depth);
            assert_eq!(n, tree.get_total_keys());
            assert_eq!(leaf_depth, Some(tree.get_height()));
        }
        None => {
            assert_eq!(tree.get_total_keys(), 0);
            assert_eq!(tree.get_height(), 0);
        }
    }
}

#[test]
fn invariants_hold_through_mixed_operations() {
    for t in 2..=4 {
        let mut tree = BTree::new(t);
        let mut present = std::collections::BTreeSet::new();
        let mut state: u64 = 0x2545_f491_4f6c_dd1d;
        for _ in 0..2000 {
            state = state.wrapping_mul(6364136223846793005).wrapping_add(1442695040888963407);
            let k = ((state >> 33) % 300) as i32 - 150;
            if (state >> 20) % 3 == 0 {
                assert_eq!(tree.delete(k), present.remove(&k));
            } else {
                tree.insert(k);
                present.insert(k);
            }
            assert_eq!(tree.search(k), present.contains(&k));
            check_tree(&tree, t);
        }
        let expected: Vec<i32> = present.iter().copied().collect();
        assert_eq!(tree.traverse(), expected);
    }
}

#[test]
fn scenario_shape_after_inserts() {
    let t = sample_tree();
    let root = t.get_structure().expect("root");
    assert_eq!(root.keys, vec![10]);
    assert!(!root.is_leaf);
    assert_eq!(root.children.len(), 2);
    assert_eq!(root.children[0].keys, vec![5, 6, 7]);
    assert_eq!(root.children[1].keys, vec![12, 17, 20, 30]);
    assert!(root.children[0].is_leaf && root.children[1].is_leaf);
    assert!(root.children[0].children.is_empty());
    assert_eq!(t.get_height(), 2);
    assert_eq!(t.get_total_keys(), 8);
}

#[test]
fn internal_delete_prefers_predecessor_then_successor() {
    // root [10], children [5,6,7] and [12,17,20,30]: the left child has t keys,
    // so 10 is replaced by its predecessor 7.
    let mut t = sample_tree();
    assert!(t.delete(10));
    let root = t.get_structure().expect("root");
    assert_eq!(root.keys, vec![7]);
    assert_eq!(root.children[0].keys, vec![5, 6]);
    // now the left child has t - 1 keys and the right one more: successor 12.
    assert!(t.delete(7));
    let root = t.get_structure().expect("root");
    assert_eq!(root.keys, vec![12]);
    assert_eq!(root.children[1].keys, vec![17, 20, 30]);
}

#[test]
fn fill_borrows_from_left_before_right() {
    let mut t = BTree::new(2);
    for k in [10, 20, 30, 5, 15, 25, 1, 35] {
        t.insert(k);
    }
    let root = t.get_structure().expect("root");
    assert_eq!(root.keys, vec![10, 20]);
    assert_eq!(root.children[0].keys, vec![1, 5]);
    assert_eq!(root.children[1].keys, vec![15]);
    assert_eq!(root.children[2].keys, vec![25, 30, 35]);
    // child [15] is short and both neighbours could lend: the left one does.
    assert!(t.delete(15));
    let root = t.get_structure().expect("root");
    assert_eq!(root.keys, vec![5, 20]);
    assert_eq!(root.children[0].keys, vec![1]);
    assert_eq!(root.children[1].keys, vec![10]);
    assert_eq!(root.children[2].keys, vec![25, 30, 35]);
}
