use in512_labs::tree::{Tree, TreeOpError};

/// The tree that the insertions of 15, 10, 20, 8, 12, 18, 30, 16, 19 build, in that order.
fn sample() -> Tree<i32> {
    let mut bst = Tree::new();
    for value in [15, 10, 20, 8, 12, 18, 30, 16, 19] {
        bst.insert(value).expect("Failed to insert");
    }
    bst
}

/// The tree that holds `value` at its root, `left` to its left and `right` to its right.
/// The value at the root of `left` must be smaller than `value`, that of `right` greater.
fn node(left: Tree<i32>, value: i32, right: Tree<i32>) -> Tree<i32> {
    let mut tree = Tree::leaf(value);
    let (mut left, mut right) = (left, right);
    if left != Tree::new() {
        tree.add_to_end(&mut left).expect("Failed to merge");
    }
    if right != Tree::new() {
        tree.add_to_end(&mut right).expect("Failed to merge");
    }
    tree
}

fn shape(tree: &Tree<i32>) -> String {
    format!("{:?}", tree)
}

#[test]
fn lib_empty() {
    let bst: Tree<i32> = Tree::new();
    assert_eq!(bst, Tree::<i32>::new());
}

#[test]
fn inserts() {
    let mut bst = Tree::new();
    assert!(bst.insert(2).is_ok());
}

#[test]
fn leaf() {
    let mut bst = Tree::new();
    bst.insert(2).expect("Failed to insert");
    assert_eq!(bst, Tree::leaf(2));
}

#[test]
fn contain() {
    let mut bst = Tree::new();
    bst.insert(2).expect("Failed to insert");
    bst.insert(23).expect("Failed to insert");
    bst.insert(20).expect("Failed to insert");
    assert_eq!(bst.contains(23), true);
    assert_eq!(bst.contains(29), false);
}

#[test]
fn remove() {
    let mut bst = Tree::new();
    bst.insert(2).expect("Failed to insert");
    bst.insert(23).expect("Failed to insert");
    bst.insert(20).expect("Failed to insert");
    assert!(bst.delete(&2).is_ok());
    assert!(bst.delete(&23).is_ok());
    assert!(bst.delete(&2).is_err());
}

#[test]
fn default_is_empty() {
    let bst: Tree<i32> = Tree::default();
    assert_eq!(shape(&bst), "Tree(None)");
    assert!(!bst.contains(0));
}

#[test]
fn leaf_has_one_node() {
    assert_eq!(
        shape(&Tree::leaf(2)),
        "Tree(Some(Node { value: 2, left: Tree(None), right: Tree(None) }))"
    );
}

#[test]
fn equality_looks_at_the_roots_only() {
    let mut a = Tree::new();
    let mut b = Tree::new();
    a.insert(5).unwrap();
    a.insert(3).unwrap();
    b.insert(5).unwrap();
    b.insert(8).unwrap();
    assert_eq!(a, b);
    assert_ne!(a, Tree::leaf(3));
    assert_ne!(a, Tree::new());
    assert_ne!(Tree::new(), a);
}

#[test]
fn insert_goes_left_and_right() {
    let mut bst = Tree::new();
    bst.insert(2).unwrap();
    bst.insert(3).unwrap();
    bst.insert(1).unwrap();
    assert_eq!(shape(&bst), shape(&node(Tree::leaf(1), 2, Tree::leaf(3))));
    assert_eq!(
        shape(&bst),
        "Tree(Some(Node { value: 2, \
         left: Tree(Some(Node { value: 1, left: Tree(None), right: Tree(None) })), \
         right: Tree(Some(Node { value: 3, left: Tree(None), right: Tree(None) })) }))"
    );
}

#[test]
fn second_insert_fails_and_changes_nothing() {
    let mut bst = sample();
    let before = shape(&bst);
    assert_eq!(bst.insert(20), Err(TreeOpError::ValueAlreadyExists));
    assert_eq!(shape(&bst), before);
    assert_eq!(bst.insert(21), Ok(()));
    assert_eq!(bst.insert(21), Err(TreeOpError::ValueAlreadyExists));
}

#[test]
fn inserted_values_are_contained_until_deleted() {
    let mut bst = sample();
    for value in [15, 10, 20, 8, 12, 18, 30, 16, 19] {
        assert!(bst.contains(value));
    }
    for value in [0, 9, 11, 17, 21, 31] {
        assert!(!bst.contains(value));
    }
    assert_eq!(bst.delete(&12), Ok(()));
    assert!(!bst.contains(12));
    for value in [15, 10, 20, 8, 18, 30, 16, 19] {
        assert!(bst.contains(value));
    }
}

#[test]
fn delete_of_a_missing_value_changes_nothing() {
    let mut bst = sample();
    let before = shape(&bst);
    assert_eq!(bst.delete(&17), Err(TreeOpError::NoValue));
    assert_eq!(shape(&bst), before);
    let mut empty: Tree<i32> = Tree::new();
    assert_eq!(empty.delete(&1), Err(TreeOpError::NoValue));
}

#[test]
fn delete_takes_the_greatest_value_of_the_left_subtree() {
    let mut bst = sample();
    assert_eq!(bst.insert(20), Err(TreeOpError::ValueAlreadyExists));
    assert_eq!(bst.delete(&20), Ok(()));
    let left = node(Tree::leaf(8), 10, Tree::leaf(12));
    let right = node(node(Tree::leaf(16), 18, Tree::new()), 19, Tree::leaf(30));
    assert_eq!(shape(&bst), shape(&node(left, 15, right)));
    assert!(bst.contains(19) && bst.contains(18) && bst.contains(16));
    assert!(!bst.contains(20));
    assert_eq!(bst.delete(&20), Err(TreeOpError::NoValue));
}

#[test]
fn delete_splices_the_left_child_of_the_predecessor() {
    let mut bst = Tree::new();
    for value in [50, 30, 70, 20, 40, 35, 32] {
        bst.insert(value).unwrap();
    }
    assert_eq!(bst.delete(&50), Ok(()));
    let left = node(Tree::leaf(20), 30, node(Tree::leaf(32), 35, Tree::new()));
    assert_eq!(shape(&bst), shape(&node(left, 40, Tree::leaf(70))));
}

#[test]
fn delete_without_left_subtree_promotes_the_right_subtree() {
    let mut bst = Tree::new();
    for value in [5, 9, 7, 11] {
        bst.insert(value).unwrap();
    }
    assert_eq!(bst.delete(&5), Ok(()));
    assert_eq!(shape(&bst), shape(&node(Tree::leaf(7), 9, Tree::leaf(11))));
    assert_eq!(bst.delete(&7), Ok(()));
    assert_eq!(bst.delete(&11), Ok(()));
    assert_eq!(bst.delete(&9), Ok(()));
    assert_eq!(shape(&bst), "Tree(None)");
}

#[test]
fn inorder_predecessor_removes_the_rightmost_node() {
    let mut bst = sample();
    assert_eq!(bst.inorder_predecessor(), Some(30));
    assert_eq!(bst.inorder_predecessor(), Some(20));
    let left = node(Tree::leaf(8), 10, Tree::leaf(12));
    let right = node(Tree::leaf(16), 18, Tree::leaf(19));
    assert_eq!(shape(&bst), shape(&node(left, 15, right)));
    let mut empty: Tree<i32> = Tree::new();
    assert_eq!(empty.inorder_predecessor(), None);
    let mut single = Tree::leaf(4);
    assert_eq!(single.inorder_predecessor(), Some(4));
    assert_eq!(shape(&single), "Tree(None)");
}

#[test]
fn values_come_out_in_decreasing_order() {
    let mut bst = sample();
    let mut seen = Vec::new();
    while let Some(value) = bst.inorder_predecessor() {
        seen.push(value);
    }
    assert_eq!(seen, vec![30, 20, 19, 18, 16, 15, 12, 10, 8]);
}

#[test]
fn add_to_end_moves_the_whole_donor() {
    let mut bst = Tree::new();
    bst.insert(10).unwrap();
    bst.insert(5).unwrap();
    let mut donor = Tree::new();
    for value in [20, 15, 25] {
        donor.insert(value).unwrap();
    }
    assert_eq!(bst.add_to_end(&mut donor), Ok(()));
    assert_eq!(shape(&donor), "Tree(None)");
    let grafted = node(Tree::leaf(15), 20, Tree::leaf(25));
    assert_eq!(shape(&bst), shape(&node(Tree::leaf(5), 10, grafted)));
    for value in [5, 10, 15, 20, 25] {
        assert!(bst.contains(value));
    }
}

#[test]
fn add_to_end_into_an_empty_tree_takes_the_donor() {
    let mut bst: Tree<i32> = Tree::new();
    let mut donor = sample();
    let before = shape(&donor);
    assert_eq!(bst.add_to_end(&mut donor), Ok(()));
    assert_eq!(shape(&bst), before);
    assert_eq!(shape(&donor), "Tree(None)");
}

#[test]
fn add_to_end_refuses_an_empty_donor() {
    let mut bst = sample();
    let before = shape(&bst);
    let mut donor: Tree<i32> = Tree::new();
    assert_eq!(bst.add_to_end(&mut donor), Err(TreeOpError::NoneTree));
    assert_eq!(shape(&bst), before);
    assert_eq!(shape(&donor), "Tree(None)");
}

#[test]
fn add_to_end_refuses_a_duplicate_root_and_keeps_both_trees() {
    let mut bst = sample();
    let before = shape(&bst);
    let mut donor = Tree::new();
    for value in [18, 17, 40] {
        donor.insert(value).unwrap();
    }
    let donor_before = shape(&donor);
    assert_eq!(bst.add_to_end(&mut donor), Err(TreeOpError::ValueAlreadyExists));
    assert_eq!(shape(&bst), before);
    assert_eq!(shape(&donor), donor_before);
}

#[test]
fn add_to_end_compares_the_root_of_the_donor_only() {
    let mut bst = Tree::new();
    bst.insert(10).unwrap();
    let mut donor = Tree::new();
    for value in [5, 50] {
        donor.insert(value).unwrap();
    }
    assert_eq!(bst.add_to_end(&mut donor), Ok(()));
    assert_eq!(shape(&bst), shape(&node(node(Tree::new(), 5, Tree::leaf(50)), 10, Tree::new())));
    assert!(bst.contains(5));
    assert!(!bst.contains(50));
}
