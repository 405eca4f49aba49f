use data_structures::tree_avl::TreeAVL;

#[test]
fn rotate_right_three_elements() {
    let mut x: TreeAVL<i32> = TreeAVL::new();
    x.insert(10);
    x.insert(7);
    x.insert(5);
    assert_eq!(x.root().unwrap().key, 7);
    assert_eq!(x.root().unwrap().left.as_ref().unwrap().key, 5);
    assert_eq!(x.root().unwrap().right.as_ref().unwrap().key, 10);
}

#[test]
fn rotate_left_three_elements() {
    let mut x: TreeAVL<i32> = TreeAVL::new();
    x.insert(5);
    x.insert(7);
    x.insert(10);
    assert_eq!(x.root().unwrap().key, 7);
    assert_eq!(x.root().unwrap().left.as_ref().unwrap().key, 5);
    assert_eq!(x.root().unwrap().right.as_ref().unwrap().key, 10);
}

#[test]
fn rotate_right_then_left_three_elements() {
    let mut x: TreeAVL<i32> = TreeAVL::new();
    x.insert(5);
    x.insert(10);
    x.insert(7);
    assert_eq!(x.root().unwrap().key, 7);
    assert_eq!(x.root().unwrap().left.as_ref().unwrap().key, 5);
    assert_eq!(x.root().unwrap().right.as_ref().unwrap().key, 10);
}

#[test]
fn rotate_left_then_right_three_elements() {
    let mut x: TreeAVL<i32> = TreeAVL::new();
    x.insert(10);
    x.insert(5);
    x.insert(7);
    assert_eq!(x.root().unwrap().key, 7);
    assert_eq!(x.root().unwrap().left.as_ref().unwrap().key, 5);
    assert_eq!(x.root().unwrap().right.as_ref().unwrap().key, 10);
}

#[test]
fn rotate_right_complete_case() {
    let mut x: TreeAVL<i32> = TreeAVL::new();
    x.insert(100);
    x.insert(40);
    x.insert(150);
    x.insert(200);
    x.insert(50);
    x.insert(26);
    x.insert(27);
    x.insert(25);
    x.insert(24);
    let root = x.root().unwrap();
    assert_eq!(root.key, 100);
    assert_eq!(root.right.as_ref().unwrap().key, 150);
    assert_eq!(root.right.as_ref().unwrap().right.as_ref().unwrap().key, 200);
    assert_eq!(root.left.as_ref().unwrap().key, 26);
    assert_eq!(root.left.as_ref().unwrap().right.as_ref().unwrap().key, 40);
    assert_eq!(root.left.as_ref().unwrap().left.as_ref().unwrap().key, 25);
    assert_eq!(
        root.left.as_ref().unwrap().left.as_ref().unwrap().left.as_ref().unwrap().key,
        24
    );
    assert_eq!(
        root.left.as_ref().unwrap().right.as_ref().unwrap().left.as_ref().unwrap().key,
        27
    );
    assert_eq!(
        root.left.as_ref().unwrap().right.as_ref().unwrap().right.as_ref().unwrap().key,
        50
    );
}

#[test]
fn rotate_left_complete_case() {
    let mut x: TreeAVL<i32> = TreeAVL::new();
    x.insert(100);
    x.insert(99);
    x.insert(150);
    x.insert(98);
    x.insert(125);
    x.insert(200);
    x.insert(175);
    x.insert(250);
    x.insert(300);
    let root = x.root().unwrap();
    assert_eq!(root.key, 100);
    assert_eq!(root.left.as_ref().unwrap().key, 99);
    assert_eq!(root.left.as_ref().unwrap().left.as_ref().unwrap().key, 98);
    assert_eq!(root.right.as_ref().unwrap().key, 200);
    assert_eq!(root.right.as_ref().unwrap().left.as_ref().unwrap().key, 150);
    assert_eq!(
        root.right.as_ref().unwrap().left.as_ref().unwrap().left.as_ref().unwrap().key,
        125
    );
    assert_eq!(
        root.right.as_ref().unwrap().left.as_ref().unwrap().right.as_ref().unwrap().key,
        175
    );
    assert_eq!(root.right.as_ref().unwrap().right.as_ref().unwrap().key, 250);
    assert_eq!(
        root.right.as_ref().unwrap().right.as_ref().unwrap().right.as_ref().unwrap().key,
        300
    );
}

#[test]
fn delete_leaf() {
    let mut x = TreeAVL::new();
    x.insert(5);
    x.insert(4);
    x.insert(6);

    x.remove(4);
    assert!(x.root().unwrap().left.is_none());
}

#[test]
fn delete_only_one_child() {
    let mut x = TreeAVL::new();
    x.insert(5);
    x.insert(4);

    x.remove(5);
    assert_eq!(x.root().unwrap().key, 4);
}

#[test]
fn delete_two_childs_balanced() {
    let mut x = TreeAVL::new();
    x.insert(5);
    x.insert(4);
    x.insert(6);

    x.remove(5);
    assert_eq!(x.root().unwrap().key, 6);
}

#[test]
fn delete_two_childs_unbalanced() {
    let mut x = TreeAVL::new();
    x.insert(5);
    x.insert(4);
    x.insert(6);
    x.insert(3);
    x.remove(6);
    assert_eq!(x.root().unwrap().key, 4);
}

#[test]
fn contains() {
    let mut x = TreeAVL::new();
    x.insert(5);
    x.insert(4);
    x.insert(6);
    assert!(x.contains(6));
}

#[test]
fn two_child_deletion_promotes_successor() {
    let mut x = TreeAVL::new();
    x.insert(5);
    x.insert(4);
    x.insert(6);
    x.remove(5);
    let root = x.root().unwrap();
    assert_eq!(root.key, 6);
    assert_eq!(root.left.as_ref().unwrap().key, 4);
    assert!(root.right.is_none());
    assert_eq!(root.height, 1);
    assert_eq!(x.size(), 2);
    assert_eq!(x.height(), 1);
    assert!(!x.contains(5));
}

#[test]
fn remove_from_empty_tree_is_a_no_op() {
    let mut x: TreeAVL<i32> = TreeAVL::new();
    x.remove(3);
    assert_eq!(x.size(), 0);
    assert!(x.is_empty());
    assert!(x.root().is_none());
}

#[test]
fn remove_absent_key_keeps_shape() {
    let mut x = TreeAVL::new();
    for k in [50, 30, 70, 20, 40] {
        x.insert(k);
    }
    x.remove(45);
    assert_eq!(x.size(), 5);
    let root = x.root().unwrap();
    assert_eq!(root.key, 50);
    assert_eq!(root.height, 2);
    assert_eq!(root.left.as_ref().unwrap().key, 30);
    assert_eq!(root.left.as_ref().unwrap().left.as_ref().unwrap().key, 20);
    assert_eq!(root.left.as_ref().unwrap().right.as_ref().unwrap().key, 40);
    assert_eq!(root.right.as_ref().unwrap().key, 70);
}

#[test]
fn duplicate_insert_changes_nothing() {
    let mut x = TreeAVL::new();
    x.insert(2);
    x.insert(1);
    x.insert(3);
    x.insert(2);
    assert_eq!(x.size(), 3);
    assert_eq!(x.height(), 1);
    let root = x.root().unwrap();
    assert_eq!(root.key, 2);
    assert_eq!(root.left.as_ref().unwrap().key, 1);
    assert_eq!(root.right.as_ref().unwrap().key, 3);
}

#[test]
fn size_counts_distinct_keys() {
    let mut x = TreeAVL::new();
    for k in [8, 3, 8, 10, 1, 3, 14] {
        x.insert(k);
    }
    assert_eq!(x.size(), 5);
    x.remove(3);
    x.remove(3);
    x.remove(99);
    assert_eq!(x.size(), 4);
    assert!(!x.contains(3));
    assert!(x.contains(14));
}

#[test]
fn insert_all_then_remove_all_empties_tree() {
    let mut x = TreeAVL::new();
    for k in 0..64 {
        x.insert((k * 37) % 64);
    }
    assert_eq!(x.size(), 64);
    assert!(x.height() <= 7);
    for k in (0..64).rev() {
        x.remove((k * 11) % 64);
    }
    assert!(x.is_empty());
    assert_eq!(x.size(), 0);
}

#[test]
fn ascending_inserts_stay_balanced() {
    let mut x = TreeAVL::new();
    for k in 1..=7 {
        x.insert(k);
    }
    let root = x.root().unwrap();
    assert_eq!(root.key, 4);
    assert_eq!(root.left.as_ref().unwrap().key, 2);
    assert_eq!(root.right.as_ref().unwrap().key, 6);
    assert_eq!(x.height(), 2);
}

#[test]
fn height_of_single_node_and_empty_tree() {
    let mut x = TreeAVL::new();
    assert_eq!(x.height(), 0);
    x.insert(1);
    assert_eq!(x.height(), 0);
    x.insert(2);
    assert_eq!(x.height(), 1);
}

#[test]
fn clear_empties_tree() {
    let mut x = TreeAVL::new();
    x.insert(1);
    x.insert(2);
    x.clear();
    assert!(x.is_empty());
    assert_eq!(x.size(), 0);
    assert!(!x.contains(1));
}

#[test]
fn deletion_rotates_at_several_ancestors() {
    let mut x = TreeAVL::new();
    for k in [8, 5, 11, 3, 7, 10, 12, 2, 4, 6, 9, 1] {
        x.insert(k);
    }
    x.remove(12);
    assert_eq!(x.size(), 11);
    for k in [1, 2, 3, 4, 5, 6, 7, 8, 9, 10, 11] {
        assert!(x.contains(k));
    }
    assert_eq!(x.root().unwrap().key, 5);
    assert_eq!(x.height(), 3);
}

#[test]
fn other_integer_key_types() {
    let mut wide: TreeAVL<u64> = TreeAVL::new();
    for k in [u64::MAX, 0, 1 << 40] {
        wide.insert(k);
    }
    assert_eq!(wide.root().unwrap().key, 1 << 40);
    assert!(wide.contains(u64::MAX));

    let mut signed: TreeAVL<i64> = TreeAVL::new();
    signed.insert(-5);
    signed.insert(i64::MIN);
    signed.insert(5);
    assert_eq!(signed.root().unwrap().key, -5);
    assert_eq!(signed.root().unwrap().left.as_ref().unwrap().key, i64::MIN);

    let mut index: TreeAVL<usize> = TreeAVL::new();
    index.insert(3);
    index.insert(3);
    assert_eq!(index.size(), 1);

    let mut small: TreeAVL<u32> = TreeAVL::new();
    small.insert(2);
    small.remove(2);
    assert!(small.is_empty());
}
