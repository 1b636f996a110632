use lab01::trees::{BinTree, TreeNode};

#[test]
fn tree_node_new() {
    let c = 'a';

    assert_eq!(
        TreeNode::new(c),
        TreeNode {
            element: c,
            left_tree: BinTree::Empty,
            right_tree: BinTree::Empty
        }
    )
}

#[test]
fn tree_node_from() {
    let c = 'a';
    let left = BinTree::Empty;
    let right = BinTree::Empty;

    assert_eq!(
        TreeNode::from(c, left.clone(), right.clone()),
        TreeNode {
            element: c,
            left_tree: left,
            right_tree: right
        }
    )
}

#[test]
fn bin_tree_new() {
    assert_eq!(BinTree::<char>::new(), BinTree::Empty);
}

#[test]
fn bin_tree_from_element() {
    let element = 'a';

    match BinTree::from_element(element) {
        BinTree::Empty => panic!(),
        BinTree::NonEmpty(v) => {
            assert_eq!(v.element, element);
            assert_eq!(v.left_tree, BinTree::Empty);
            assert_eq!(v.right_tree, BinTree::Empty);
        }
    }
}

#[test]
fn bin_tree_from_element_with_left() {
    let (element, left) = ('a', 'b');

    match BinTree::from_element_with_left(element, left) {
        BinTree::Empty => panic!(),
        BinTree::NonEmpty(v) => {
            assert_eq!(v.element, element);
            assert_eq!(v.left_tree, BinTree::from_element(left));
            assert_eq!(v.right_tree, BinTree::Empty);
        }
    }
}

#[test]
fn bin_tree_from_element_with_right() {
    let (element, right) = ('a', 'b');

    match BinTree::from_element_with_right(element, right) {
        BinTree::Empty => panic!(),
        BinTree::NonEmpty(v) => {
            assert_eq!(v.element, element);
            assert_eq!(v.left_tree, BinTree::Empty);
            assert_eq!(v.right_tree, BinTree::from_element(right));
        }
    }
}

#[test]
fn bin_tree_from_elements() {
    let (element, left, right) = ('a', 'b', 'c');

    match BinTree::from_elements(element, left, right) {
        BinTree::Empty => panic!(),
        BinTree::NonEmpty(v) => {
            assert_eq!(v.element, element);
            assert_eq!(v.left_tree, BinTree::from_element(left));
            assert_eq!(v.right_tree, BinTree::from_element(right));
        }
    }
}

#[test]
fn bin_tree_is_empty() {
    assert_eq!(BinTree::<char>::Empty.is_empty(), true);
    assert_eq!(BinTree::from_element('a').is_empty(), false);
}

#[test]
fn bin_tree_clone_keeps_shape_and_elements() {
    let tree = BinTree::from(
        1,
        BinTree::from_element_with_left(2, 3),
        BinTree::from_element_with_right(4, 5),
    );
    assert_eq!(tree.clone(), tree);
    let node = TreeNode::from('x', BinTree::from_element('y'), BinTree::Empty);
    assert_eq!(node.clone(), node);
}
