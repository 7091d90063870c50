use bintree::BinaryTree;
use bintree::TreeError;

/// Count the nodes of a tree by walking it.
fn count_nodes(t: &BinaryTree<i32>) -> usize {
    let left = match &t.left {
        Some(l) => count_nodes(l),
        None => 0,
    };
    let right = match &t.right {
        Some(r) => count_nodes(r),
        None => 0,
    };
    1 + left + right
}

#[test]
fn create_new_tree() {
    let tree = BinaryTree::new(1);

    assert_eq!(tree.value, 1);
}

#[test]
fn insert_left() {
    let tree = BinaryTree::new(1).left(BinaryTree::new(2));

    if let Some(node) = tree.left {
        assert_eq!(node.value, 2);
    }

    assert_eq!(tree.right, None);
}

#[test]
fn insert_right() {
    let tree = BinaryTree::new(1).right(BinaryTree::new(2));

    if let Some(node) = tree.right {
        assert_eq!(node.value, 2);
    }

    assert_eq!(tree.left, None);
}

#[test]
fn insert() {
    let mut tree = BinaryTree::new(1);
    tree.insert(2);
    tree.insert(3);
    tree.insert(4);
    tree.insert(5);

    assert_eq!(
        tree,
        BinaryTree::new(1)
            .left(
                BinaryTree::new(2)
                    .left(BinaryTree::new(4))
                    .right(BinaryTree::new(5))
            )
            .right(BinaryTree::new(3))
    );

    tree.insert(6);

    assert_eq!(
        tree,
        BinaryTree::new(1)
            .left(
                BinaryTree::new(2)
                    .left(BinaryTree::new(4))
                    .right(BinaryTree::new(5))
            )
            .right(BinaryTree::new(3).left(BinaryTree::new(6)))
    )
}

#[test]
fn create_new_tree_from() {
    let tree = BinaryTree::from(&[1, 2, 3, 4, 5, 6]).unwrap();

    assert_eq!(
        tree,
        BinaryTree::new(1)
            .left(
                BinaryTree::new(2)
                    .left(BinaryTree::new(4))
                    .right(BinaryTree::new(5))
            )
            .right(BinaryTree::new(3).left(BinaryTree::new(6)))
    )
}

#[test]
fn build_from_empty_sequence_fails() {
    let r: Result<BinaryTree<i32>, TreeError> = BinaryTree::from(&[]);

    assert!(matches!(r, Err(TreeError::EmptyInput)));
}

#[test]
fn build_from_single_value() {
    let tree = BinaryTree::from(&[5]).unwrap();

    assert_eq!(tree.value, 5);
    assert_eq!(tree.left, None);
    assert_eq!(tree.right, None);
}

#[test]
fn insert_into_single_node_goes_left() {
    let mut tree = BinaryTree::new(1);
    tree.insert(2);

    assert_eq!(tree.value, 1);
    assert_eq!(tree.left, Some(Box::new(BinaryTree::new(2))));
    assert_eq!(tree.right, None);
}

#[test]
fn attach_overwrites_and_keeps_other_side() {
    let tree = BinaryTree::new(1)
        .left(BinaryTree::new(2))
        .right(BinaryTree::new(3));

    assert_eq!(tree.left.as_ref().unwrap().value, 2);
    assert_eq!(tree.right.as_ref().unwrap().value, 3);

    let overwritten = tree.left(BinaryTree::new(9));

    assert_eq!(overwritten.left.as_ref().unwrap().value, 9);
    assert_eq!(overwritten.right.as_ref().unwrap().value, 3);
    assert_eq!(overwritten.value, 1);
}

#[test]
fn duplicate_values_always_add_nodes() {
    let mut tree = BinaryTree::new(7);
    assert_eq!(count_nodes(&tree), 1);

    tree.insert(7);
    assert_eq!(count_nodes(&tree), 2);

    tree.insert(7);
    assert_eq!(count_nodes(&tree), 3);

    assert_eq!(
        tree,
        BinaryTree::new(7)
            .left(BinaryTree::new(7))
            .right(BinaryTree::new(7))
    );
}

#[test]
fn same_sequence_gives_equal_trees() {
    let a = BinaryTree::from(&[1, 2, 3, 4, 5]).unwrap();
    let b = BinaryTree::from(&[1, 2, 3, 4, 5]).unwrap();

    assert_eq!(a, b);
}

#[test]
fn reordered_sequence_gives_different_trees() {
    let a = BinaryTree::from(&[1, 2, 3]).unwrap();
    let b = BinaryTree::from(&[2, 1, 3]).unwrap();

    assert_ne!(a, b);
}
