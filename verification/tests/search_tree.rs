use in512_labs::search_tree::BinarySearchTree;

fn sample() -> BinarySearchTree<u32> {
    let mut tree = BinarySearchTree::new();
    for value in [15, 10, 20, 8, 12, 18, 30, 16, 19] {
        tree.push(value);
    }
    tree
}

fn drawing(tree: &BinarySearchTree<u32>, spacing: u32) -> Vec<(u32, Option<u32>)> {
    tree.rows(spacing).into_iter().map(|(depth, elem)| (depth, *elem)).collect()
}

#[test]
fn an_empty_tree_holds_nothing() {
    let tree: BinarySearchTree<u32> = BinarySearchTree::new();
    assert!(!tree.contains(0));
    assert!(!tree.contains(42));
    assert_eq!(format!("{:?}", tree), "BinarySearchTree { elem: None, left: None, right: None }");
}

#[test]
fn a_leaf_holds_its_element() {
    let tree = BinarySearchTree::leaf(7u32);
    assert!(tree.contains(7));
    assert!(!tree.contains(8));
    assert_eq!(
        format!("{:?}", tree),
        "BinarySearchTree { elem: Some(7), left: None, right: None }"
    );
}

#[test]
fn pushed_values_are_contained() {
    let tree = sample();
    for value in [15, 10, 20, 8, 12, 18, 30, 16, 19] {
        assert!(tree.contains(value));
    }
    for value in [0, 9, 11, 17, 21, 42] {
        assert!(!tree.contains(value));
    }
}

#[test]
fn the_first_push_fills_the_root() {
    let mut tree = BinarySearchTree::new();
    tree.push(3u32);
    assert_eq!(format!("{:?}", tree), format!("{:?}", BinarySearchTree::leaf(3u32)));
}

#[test]
fn smaller_values_go_left_and_the_others_right() {
    let mut tree = BinarySearchTree::new();
    tree.push(2u32);
    tree.push(1);
    tree.push(3);
    assert_eq!(
        format!("{:?}", tree),
        "BinarySearchTree { elem: Some(2), \
         left: Some(BinarySearchTree { elem: Some(1), left: None, right: None }), \
         right: Some(BinarySearchTree { elem: Some(3), left: None, right: None }) }"
    );
}

#[test]
fn equal_values_go_right() {
    let mut tree = BinarySearchTree::new();
    tree.push(2u32);
    tree.push(2);
    tree.push(2);
    assert!(tree.contains(2));
    assert_eq!(drawing(&tree, 0), vec![(2, Some(2)), (1, Some(2)), (0, Some(2))]);
}

#[test]
fn rows_go_from_the_right_to_the_left() {
    let tree = sample();
    assert_eq!(
        drawing(&tree, 0),
        vec![
            (2, Some(30)),
            (1, Some(20)),
            (3, Some(19)),
            (2, Some(18)),
            (3, Some(16)),
            (0, Some(15)),
            (2, Some(12)),
            (1, Some(10)),
            (2, Some(8)),
        ]
    );
}

#[test]
fn rows_start_at_the_given_depth() {
    let mut tree = BinarySearchTree::new();
    tree.push(2u32);
    tree.push(1);
    tree.push(3);
    assert_eq!(drawing(&tree, 5), vec![(6, Some(3)), (5, Some(2)), (6, Some(1))]);
    assert_eq!(
        drawing(&tree, u32::MAX - 1),
        vec![(u32::MAX, Some(3)), (u32::MAX - 1, Some(2)), (u32::MAX, Some(1))]
    );
}

#[test]
fn an_empty_tree_is_drawn_as_one_row() {
    let tree: BinarySearchTree<u32> = BinarySearchTree::new();
    assert_eq!(drawing(&tree, 0), vec![(0, None)]);
    assert_eq!(drawing(&tree, u32::MAX), vec![(u32::MAX, None)]);
}
