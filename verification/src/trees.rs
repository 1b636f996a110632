//! A plain binary tree.

use vstd::prelude::*;

verus! {

/// A binary tree that is either empty or a boxed node.
#[derive(PartialEq, Debug)]
pub enum BinTree<T> {
    Empty,
    NonEmpty(Box<TreeNode<T>>),
}

/// A node: an element and two subtrees.
#[derive(PartialEq, Debug)]
pub struct TreeNode<T> {
    pub element: T,
    pub left_tree: BinTree<T>,
    pub right_tree: BinTree<T>,
}

impl<T> BinTree<T> {
    /// The empty tree.
    pub fn new() -> (tree: Self)
        ensures
            tree is Empty,
    {
        BinTree::Empty
    }

    /// The tree with `element` at its root above the two given subtrees.
    pub fn from(element: T, left_tree: BinTree<T>, right_tree: BinTree<T>) -> (tree: Self)
        ensures
            tree == BinTree::NonEmpty(Box::new(TreeNode { element, left_tree, right_tree })),
    {
        BinTree::NonEmpty(Box::new(TreeNode::from(element, left_tree, right_tree)))
    }

    /// The tree of one node.
    pub fn from_element(element: T) -> (tree: Self)
        ensures
            tree == BinTree::NonEmpty(
                Box::new(
                    TreeNode { element, left_tree: BinTree::Empty, right_tree: BinTree::Empty },
                ),
            ),
    {
        BinTree::NonEmpty(Box::new(TreeNode::new(element)))
    }

    /// The tree of three nodes: `element` above two leaves.
    pub fn from_elements(element: T, left_element: T, right_element: T) -> (tree: Self)
        ensures
            tree == BinTree::NonEmpty(
                Box::new(
                    TreeNode {
                        element,
                        left_tree: BinTree::NonEmpty(
                            Box::new(
                                TreeNode {
                                    element: left_element,
                                    left_tree: BinTree::Empty,
                                    right_tree: BinTree::Empty,
                                },
                            ),
                        ),
                        right_tree: BinTree::NonEmpty(
                            Box::new(
                                TreeNode {
                                    element: right_element,
                                    left_tree: BinTree::Empty,
                                    right_tree: BinTree::Empty,
                                },
                            ),
                        ),
                    },
                ),
            ),
    {
        BinTree::from(
            element,
            BinTree::from_element(left_element),
            BinTree::from_element(right_element),
        )
    }

    /// `element` above a single leaf on the left.
    pub fn from_element_with_left(element: T, left_element: T) -> (tree: Self)
        ensures
            tree == BinTree::NonEmpty(
                Box::new(
                    TreeNode {
                        element,
                        left_tree: BinTree::NonEmpty(
                            Box::new(
                                TreeNode {
                                    element: left_element,
                                    left_tree: BinTree::Empty,
                                    right_tree: BinTree::Empty,
                                },
                            ),
                        ),
                        right_tree: BinTree::Empty,
                    },
                ),
            ),
    {
        BinTree::from(element, BinTree::from_element(left_element), BinTree::Empty)
    }

    /// `element` above a single leaf on the right.
    pub fn from_element_with_right(element: T, right_element: T) -> (tree: Self)
        ensures
            tree == BinTree::NonEmpty(
                Box::new(
                    TreeNode {
                        element,
                        left_tree: BinTree::Empty,
                        right_tree: BinTree::NonEmpty(
                            Box::new(
                                TreeNode {
                                    element: right_element,
                                    left_tree: BinTree::Empty,
                                    right_tree: BinTree::Empty,
                                },
                            ),
                        ),
                    },
                ),
            ),
    {
        BinTree::from(element, BinTree::Empty, BinTree::from_element(right_element))
    }

    /// Whether the tree has no node.
    pub fn is_empty(&self) -> (empty: bool)
        ensures
            empty == (*self is Empty),
    {
        match *self {
            BinTree::Empty => true,
            _ => false,
        }
    }
}

impl<T: Clone> BinTree<T> {
    /// `copy` has the shape of `self`, and each element of `copy` is a clone
    /// of the element at the same place in `self`.
    pub open spec fn cloned_as(self, copy: Self) -> bool
        decreases self,
    {
        match (self, copy) {
            (BinTree::Empty, BinTree::Empty) => true,
            (BinTree::NonEmpty(a), BinTree::NonEmpty(b)) => {
                &&& cloned::<T>(a.element, b.element)
                &&& a.left_tree.cloned_as(b.left_tree)
                &&& a.right_tree.cloned_as(b.right_tree)
            },
            _ => false,
        }
    }

    fn duplicate(&self) -> (copy: Self)
        ensures
            self.cloned_as(copy),
        decreases *self,
    {
        match self {
            BinTree::Empty => BinTree::Empty,
            BinTree::NonEmpty(node) => {
                let left_tree = node.left_tree.duplicate();
                let right_tree = node.right_tree.duplicate();
                BinTree::NonEmpty(
                    Box::new(TreeNode { element: node.element.clone(), left_tree, right_tree }),
                )
            },
        }
    }
}

impl<T: Clone> Clone for BinTree<T> {
    fn clone(&self) -> (copy: Self)
        ensures
            self.cloned_as(copy),
    {
        self.duplicate()
    }
}

impl<T> TreeNode<T> {
    /// A node without children.
    pub fn new(element: T) -> (node: Self)
        ensures
            node == (TreeNode { element, left_tree: BinTree::Empty, right_tree: BinTree::Empty }),
    {
        TreeNode { element, left_tree: BinTree::Empty, right_tree: BinTree::Empty }
    }

    /// A node with the given children.
    pub fn from(element: T, left: BinTree<T>, right: BinTree<T>) -> (node: Self)
        ensures
            node == (TreeNode { element, left_tree: left, right_tree: right }),
    {
        TreeNode { element, left_tree: left, right_tree: right }
    }
}

impl<T: Clone> Clone for TreeNode<T> {
    fn clone(&self) -> (copy: Self)
        ensures
            cloned::<T>(self.element, copy.element),
            self.left_tree.cloned_as(copy.left_tree),
            self.right_tree.cloned_as(copy.right_tree),
    {
        TreeNode {
            element: self.element.clone(),
            left_tree: self.left_tree.duplicate(),
            right_tree: self.right_tree.duplicate(),
        }
    }
}

} // verus!
