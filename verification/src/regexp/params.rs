//! The position sets of a syntax tree.

use super::ast::{Symbol, TreeNode};
use super::ops::OperatorKind;
use crate::trees::{BinTree, TreeNode as Node};
use super::ast::{fringe, well_formed};
use super::vals::Value;
use crate::types::PosSet;
use crate::utils;
use vstd::prelude::*;

verus! {

/// What is known of a node of a syntax tree: whether its subtree matches the
/// empty word, the positions that a word it matches can begin and end with,
/// and the positions handed down to it that can come next.
#[derive(PartialEq, Eq, Debug)]
pub struct Params {
    pub is_nullable: bool,
    pub first_pos: PosSet,
    pub last_pos: PosSet,
    pub follow_pos: PosSet,
}

/// `Params` with its sets as mathematical sets.
pub struct ParamsView {
    pub is_nullable: bool,
    pub first_pos: Set<usize>,
    pub last_pos: Set<usize>,
    pub follow_pos: Set<usize>,
}

impl View for Params {
    type V = ParamsView;

    open spec fn view(&self) -> ParamsView {
        ParamsView {
            is_nullable: self.is_nullable,
            first_pos: self.first_pos@,
            last_pos: self.last_pos@,
            follow_pos: self.follow_pos@,
        }
    }
}

impl Clone for Params {
    fn clone(&self) -> (copy: Self)
        ensures
            copy@ == self@,
    {
        Params {
            is_nullable: self.is_nullable,
            first_pos: self.first_pos.clone(),
            last_pos: self.last_pos.clone(),
            follow_pos: self.follow_pos.clone(),
        }
    }
}

/// The tree of the views of the nodes of `tree`.
pub open spec fn views(tree: BinTree<Params>) -> BinTree<ParamsView>
    decreases tree,
{
    match tree {
        BinTree::Empty => BinTree::Empty,
        BinTree::NonEmpty(node) => BinTree::NonEmpty(
            Box::new(
                Node {
                    element: node.element@,
                    left_tree: views(node.left_tree),
                    right_tree: views(node.right_tree),
                },
            ),
        ),
    }
}

/// A copy of a tree of position sets holds the same sets.
pub proof fn lemma_cloned_views(tree: BinTree<Params>, copy: BinTree<Params>)
    requires
        tree.cloned_as(copy),
    ensures
        views(tree) == views(copy),
    decreases tree,
{
    match (tree, copy) {
        (BinTree::NonEmpty(a), BinTree::NonEmpty(b)) => {
            lemma_cloned_views(a.left_tree, b.left_tree);
            lemma_cloned_views(a.right_tree, b.right_tree);
        },
        _ => {},
    }
}

/// Whether no node of `tree` holds a parenthesis.
pub open spec fn plain(tree: BinTree<TreeNode>) -> bool
    decreases tree,
{
    match tree {
        BinTree::Empty => true,
        BinTree::NonEmpty(node) => {
            &&& match node.element.1 {
                Symbol::Value(_) => true,
                Symbol::Operator(operator) => operator.spec_is_unary() || operator.spec_is_binary(),
            }
            &&& plain(node.left_tree)
            &&& plain(node.right_tree)
        },
    }
}

/// Whether the subtree matches the empty word. The empty tree does, and so
/// does `*`; a leaf does not; `.` does where both sides do, `|` where one does.
pub open spec fn nullable(tree: BinTree<TreeNode>) -> bool
    decreases tree,
{
    match tree {
        BinTree::Empty => true,
        BinTree::NonEmpty(node) => match node.element.1 {
            Symbol::Value(_) => false,
            Symbol::Operator(operator) => match operator.kind {
                OperatorKind::Closure => true,
                OperatorKind::Concatenation => nullable(node.left_tree) && nullable(
                    node.right_tree,
                ),
                OperatorKind::Alteration => nullable(node.left_tree) || nullable(node.right_tree),
                _ => true,
            },
        },
    }
}

/// The positions with which a word that the subtree matches can begin.
pub open spec fn first_pos(tree: BinTree<TreeNode>) -> Set<usize>
    decreases tree,
{
    match tree {
        BinTree::Empty => Set::empty(),
        BinTree::NonEmpty(node) => match node.element.1 {
            Symbol::Value(_) => set![node.element.0],
            Symbol::Operator(operator) => match operator.kind {
                OperatorKind::Closure => first_pos(node.left_tree),
                OperatorKind::Concatenation => if nullable(node.left_tree) {
                    first_pos(node.left_tree).union(first_pos(node.right_tree))
                } else {
                    first_pos(node.left_tree)
                },
                OperatorKind::Alteration => first_pos(node.left_tree).union(
                    first_pos(node.right_tree),
                ),
                _ => Set::empty(),
            },
        },
    }
}

/// The positions with which a word that the subtree matches can end.
pub open spec fn last_pos(tree: BinTree<TreeNode>) -> Set<usize>
    decreases tree,
{
    match tree {
        BinTree::Empty => Set::empty(),
        BinTree::NonEmpty(node) => match node.element.1 {
            Symbol::Value(_) => set![node.element.0],
            Symbol::Operator(operator) => match operator.kind {
                OperatorKind::Closure => last_pos(node.left_tree),
                OperatorKind::Concatenation => if nullable(node.right_tree) {
                    last_pos(node.left_tree).union(last_pos(node.right_tree))
                } else {
                    last_pos(node.right_tree)
                },
                OperatorKind::Alteration => last_pos(node.left_tree).union(
                    last_pos(node.right_tree),
                ),
                _ => Set::empty(),
            },
        },
    }
}

/// The follow set of the root of `tree`, where `left` and `right` are the sets
/// handed down to it: a leaf takes `right`, `|` takes `left`, `.` takes the
/// first positions of its right side with the last positions of its left
/// side, and `*` takes `left` with the first and last positions of its operand.
pub open spec fn follow_pos(tree: BinTree<TreeNode>, left: Set<usize>, right: Set<usize>) -> Set<
    usize,
> {
    match tree {
        BinTree::Empty => Set::empty(),
        BinTree::NonEmpty(node) => match node.element.1 {
            Symbol::Value(_) => right,
            Symbol::Operator(operator) => match operator.kind {
                OperatorKind::Closure => left.union(
                    first_pos(node.left_tree).union(last_pos(node.left_tree)),
                ),
                OperatorKind::Concatenation => first_pos(node.right_tree).union(
                    last_pos(node.left_tree),
                ),
                OperatorKind::Alteration => left,
                _ => Set::empty(),
            },
        },
    }
}

/// The node above the two subtrees.
pub open spec fn above<T>(element: T, left_tree: BinTree<T>, right_tree: BinTree<T>) -> BinTree<T> {
    BinTree::NonEmpty(Box::new(Node { element, left_tree, right_tree }))
}

/// The tree of the first pass: a node for each node of `tree`, with whether it
/// is nullable and its first and last positions, and with an empty follow set.
/// The empty tree gives one node. Under `*` only the left subtree is kept.
pub open spec fn first_last(tree: BinTree<TreeNode>) -> BinTree<ParamsView>
    decreases tree,
{
    let element = ParamsView {
        is_nullable: nullable(tree),
        first_pos: first_pos(tree),
        last_pos: last_pos(tree),
        follow_pos: Set::empty(),
    };
    match tree {
        BinTree::Empty => above(element, BinTree::Empty, BinTree::Empty),
        BinTree::NonEmpty(node) => match node.element.1 {
            Symbol::Value(_) => above(element, BinTree::Empty, BinTree::Empty),
            Symbol::Operator(operator) => if operator.spec_is_unary() {
                above(element, first_last(node.left_tree), BinTree::Empty)
            } else {
                above(element, first_last(node.left_tree), first_last(node.right_tree))
            },
        },
    }
}

/// The tree of both passes: the tree of the first pass with the follow sets
/// filled in, where `left` and `right` are handed down to the root. Below `.`
/// the left side is handed the follow set and the last positions of the `.`
/// node, the right side the follow set and `right`; below `|` and `*` both
/// sets handed down are the follow set of the node. The node that stands for
/// an empty tree keeps an empty follow set.
pub open spec fn annotated(tree: BinTree<TreeNode>, left: Set<usize>, right: Set<usize>)
    -> BinTree<ParamsView>
    decreases tree,
{
    let follow = follow_pos(tree, left, right);
    let element = ParamsView {
        is_nullable: nullable(tree),
        first_pos: first_pos(tree),
        last_pos: last_pos(tree),
        follow_pos: follow,
    };
    match tree {
        BinTree::Empty => above(element, BinTree::Empty, BinTree::Empty),
        BinTree::NonEmpty(node) => match node.element.1 {
            Symbol::Value(_) => above(element, BinTree::Empty, BinTree::Empty),
            Symbol::Operator(operator) => match operator.kind {
                OperatorKind::Closure => above(
                    element,
                    annotated(node.left_tree, follow, follow),
                    BinTree::Empty,
                ),
                OperatorKind::Concatenation => above(
                    element,
                    annotated(node.left_tree, follow, last_pos(tree)),
                    annotated(node.right_tree, follow, right),
                ),
                _ => above(
                    element,
                    annotated(node.left_tree, follow, follow),
                    annotated(node.right_tree, follow, follow),
                ),
            },
        },
    }
}

/// The root of the tree of the first pass.
pub proof fn lemma_first_last_root(tree: BinTree<TreeNode>)
    ensures
        first_last(tree) matches BinTree::NonEmpty(node) && node.element == (ParamsView {
            is_nullable: nullable(tree),
            first_pos: first_pos(tree),
            last_pos: last_pos(tree),
            follow_pos: Set::empty(),
        }),
{
}

/// The root of the tree of both passes.
pub proof fn lemma_annotated_root(tree: BinTree<TreeNode>, left: Set<usize>, right: Set<usize>)
    ensures
        annotated(tree, left, right) matches BinTree::NonEmpty(node) && node.element == (ParamsView {
            is_nullable: nullable(tree),
            first_pos: first_pos(tree),
            last_pos: last_pos(tree),
            follow_pos: follow_pos(tree, left, right),
        }),
{
}

/// The first pass over a syntax tree: for each node, whether it is nullable,
/// and its first and last positions.
pub fn make_params_tree(syntax_tree: &BinTree<TreeNode>) -> (params_tree: BinTree<Params>)
    requires
        plain(*syntax_tree),
    ensures
        views(params_tree) == first_last(*syntax_tree),
    decreases *syntax_tree,
{
    assert(views(BinTree::<Params>::Empty) == BinTree::<ParamsView>::Empty);
    let current_node = match syntax_tree {
        BinTree::Empty => {
            return BinTree::from_element(
                Params {
                    is_nullable: true,
                    first_pos: utils::make_empty_set(),
                    last_pos: utils::make_empty_set(),
                    follow_pos: utils::make_empty_set(),
                },
            );
        },
        BinTree::NonEmpty(tree_node) => tree_node,
    };
    match current_node.element.1 {
        Symbol::Value(_) => {
            let first = utils::make_set_from_vec(vec![current_node.element.0]);
            let last = utils::make_set_from_vec(vec![current_node.element.0]);
            assert(first@ =~= set![current_node.element.0]) by {
                assert(seq![current_node.element.0][0] == current_node.element.0);
            }
            assert(last@ =~= set![current_node.element.0]) by {
                assert(seq![current_node.element.0][0] == current_node.element.0);
            }
            BinTree::from_element(
                Params {
                    is_nullable: false,
                    first_pos: first,
                    last_pos: last,
                    follow_pos: utils::make_empty_set(),
                },
            )
        },
        Symbol::Operator(operator) => {
            let left_tree = make_params_tree(&current_node.left_tree);
            proof {
                lemma_first_last_root(current_node.left_tree);
                lemma_first_last_root(current_node.right_tree);
            }
            let left_node = match left_tree {
                BinTree::NonEmpty(node) => node,
                BinTree::Empty => {
                    proof {
                        assert(false);
                    }
                    return BinTree::Empty;
                },
            };
            if operator.is_unary() {
                let params = Params {
                    is_nullable: true,
                    first_pos: left_node.element.first_pos.clone(),
                    last_pos: left_node.element.last_pos.clone(),
                    follow_pos: utils::make_empty_set(),
                };
                BinTree::from(params, BinTree::NonEmpty(left_node), BinTree::Empty)
            } else {
                let right_tree = make_params_tree(&current_node.right_tree);
                let right_node = match right_tree {
                    BinTree::NonEmpty(node) => node,
                    BinTree::Empty => {
                        proof {
                            assert(false);
                        }
                        return BinTree::Empty;
                    },
                };
                let params = match operator.kind {
                    OperatorKind::Concatenation => Params {
                        is_nullable: left_node.element.is_nullable && right_node.element.is_nullable,
                        first_pos: if left_node.element.is_nullable {
                            utils::make_sets_union(
                                &left_node.element.first_pos,
                                &right_node.element.first_pos,
                            )
                        } else {
                            left_node.element.first_pos.clone()
                        },
                        last_pos: if right_node.element.is_nullable {
                            utils::make_sets_union(
                                &left_node.element.last_pos,
                                &right_node.element.last_pos,
                            )
                        } else {
                            right_node.element.last_pos.clone()
                        },
                        follow_pos: utils::make_empty_set(),
                    },
                    _ => Params {
                        is_nullable: left_node.element.is_nullable || right_node.element.is_nullable,
                        first_pos: utils::make_sets_union(
                            &left_node.element.first_pos,
                            &right_node.element.first_pos,
                        ),
                        last_pos: utils::make_sets_union(
                                &left_node.element.last_pos,
                                &right_node.element.last_pos,
                            ),
                        follow_pos: utils::make_empty_set(),
                    },
                };
                BinTree::from(
                    params,
                    BinTree::NonEmpty(left_node),
                    BinTree::NonEmpty(right_node),
                )
            }
        },
    }
}

/// The second pass: fills in the follow sets of a tree of the first pass,
/// where `left_follow_pos` and `right_follow_pos` are handed down to the root.
pub fn add_follow_pos(
    params_tree: &mut BinTree<Params>,
    syntax_tree: &BinTree<TreeNode>,
    left_follow_pos: &PosSet,
    right_follow_pos: &PosSet,
)
    requires
        plain(*syntax_tree),
        views(*old(params_tree)) == first_last(*syntax_tree),
    ensures
        views(*final(params_tree)) == annotated(
            *syntax_tree,
            left_follow_pos@,
            right_follow_pos@,
        ),
    decreases *syntax_tree,
{
    assert(views(BinTree::<Params>::Empty) == BinTree::<ParamsView>::Empty);
    let cur_syntax_node = match syntax_tree {
        BinTree::Empty => {
            return ;
        },
        BinTree::NonEmpty(tree_node) => tree_node,
    };
    proof {
        lemma_first_last_root(cur_syntax_node.left_tree);
        lemma_first_last_root(cur_syntax_node.right_tree);
    }
    match params_tree {
        BinTree::Empty => {},
        BinTree::NonEmpty(cur_params_node) => {
            match cur_syntax_node.element.1 {
                Symbol::Value(_) => {
                    cur_params_node.element.follow_pos = right_follow_pos.clone();
                },
                Symbol::Operator(operator) => {
                    let left_last = match &cur_params_node.left_tree {
                        BinTree::NonEmpty(node) => node.element.last_pos.clone(),
                        BinTree::Empty => utils::make_empty_set(),
                    };
                    let left_first = match &cur_params_node.left_tree {
                        BinTree::NonEmpty(node) => node.element.first_pos.clone(),
                        BinTree::Empty => utils::make_empty_set(),
                    };
                    match operator.kind {
                        OperatorKind::Concatenation => {
                            let right_first = match &cur_params_node.right_tree {
                                BinTree::NonEmpty(node) => node.element.first_pos.clone(),
                                BinTree::Empty => utils::make_empty_set(),
                            };
                            let follow = utils::make_sets_union(&right_first, &left_last);
                            let last = cur_params_node.element.last_pos.clone();
                            add_follow_pos(
                                &mut cur_params_node.left_tree,
                                &cur_syntax_node.left_tree,
                                &follow,
                                &last,
                            );
                            add_follow_pos(
                                &mut cur_params_node.right_tree,
                                &cur_syntax_node.right_tree,
                                &follow,
                                right_follow_pos,
                            );
                            cur_params_node.element.follow_pos = follow;
                        },
                        OperatorKind::Alteration => {
                            add_follow_pos(
                                &mut cur_params_node.left_tree,
                                &cur_syntax_node.left_tree,
                                left_follow_pos,
                                left_follow_pos,
                            );
                            add_follow_pos(
                                &mut cur_params_node.right_tree,
                                &cur_syntax_node.right_tree,
                                left_follow_pos,
                                left_follow_pos,
                            );
                            cur_params_node.element.follow_pos = left_follow_pos.clone();
                        },
                        _ => {
                            let follow = utils::make_sets_union(
                                left_follow_pos,
                                &utils::make_sets_union(&left_first, &left_last),
                            );
                            add_follow_pos(
                                &mut cur_params_node.left_tree,
                                &cur_syntax_node.left_tree,
                                &follow,
                                &follow,
                            );
                            cur_params_node.element.follow_pos = follow;
                        },
                    }
                },
            }
        },
    }
    proof {
        if let Symbol::Operator(operator) = cur_syntax_node.element.1 {
            if operator.kind is Concatenation {
                let before = (*old(params_tree))->NonEmpty_0;
                let after = (*params_tree)->NonEmpty_0;
                let follow = follow_pos(*syntax_tree, left_follow_pos@, right_follow_pos@);
                assert(views(before.left_tree) == first_last(cur_syntax_node.left_tree));
                assert(views(before.right_tree) == first_last(cur_syntax_node.right_tree));
                assert(views(after.left_tree) == annotated(
                    cur_syntax_node.left_tree,
                    follow,
                    last_pos(*syntax_tree),
                ));
                assert(views(after.right_tree) == annotated(
                    cur_syntax_node.right_tree,
                    follow,
                    right_follow_pos@,
                ));
            }
        }
    }
}

/// Whether `params_tree` has a node wherever the tree of an expression,
/// `syntax_tree`, has one.
pub open spec fn mirrors<P>(params_tree: BinTree<P>, syntax_tree: BinTree<TreeNode>) -> bool
    decreases syntax_tree,
{
    match syntax_tree {
        BinTree::Empty => false,
        BinTree::NonEmpty(node) => params_tree matches BinTree::NonEmpty(params) && match node.element.1 {
            Symbol::Value(_) => true,
            Symbol::Operator(operator) => if operator.spec_is_unary() {
                mirrors(params.left_tree, node.left_tree)
            } else if operator.spec_is_binary() {
                mirrors(params.left_tree, node.left_tree) && mirrors(
                    params.right_tree,
                    node.right_tree,
                )
            } else {
                false
            },
        },
    }
}

/// The leaves of `syntax_tree` from the left: of each its position, its symbol
/// and the follow set of the node at the same place in `params_tree`.
pub open spec fn leaves(syntax_tree: BinTree<TreeNode>, params_tree: BinTree<ParamsView>) -> Seq<
    (usize, Value, Set<usize>),
>
    decreases syntax_tree,
{
    match (syntax_tree, params_tree) {
        (BinTree::NonEmpty(node), BinTree::NonEmpty(params)) => match node.element.1 {
            Symbol::Value(value) => seq![(node.element.0, value, params.element.follow_pos)],
            Symbol::Operator(operator) => if operator.spec_is_unary() {
                leaves(node.left_tree, params.left_tree)
            } else {
                leaves(node.left_tree, params.left_tree) + leaves(
                    node.right_tree,
                    params.right_tree,
                )
            },
        },
        _ => Seq::empty(),
    }
}

/// The leaves that `extract_values` hands out, each as plain values.
pub open spec fn leaf_views(values: Seq<(usize, &Value, &PosSet)>) -> Seq<
    (usize, Value, Set<usize>),
> {
    values.map_values(|leaf: (usize, &Value, &PosSet)| (leaf.0, *leaf.1, leaf.2@))
}

/// The leaves of a syntax tree from the left, each with its position, its
/// symbol and its follow set.
pub fn extract_values<'a>(
    syntax_tree: &'a BinTree<TreeNode>,
    params_tree: &'a BinTree<Params>,
) -> (values: Vec<(usize, &'a Value, &'a PosSet)>)
    requires
        mirrors(*params_tree, *syntax_tree),
    ensures
        leaf_views(values@) == leaves(*syntax_tree, views(*params_tree)),
    decreases *syntax_tree,
{
    match (syntax_tree, params_tree) {
        (BinTree::NonEmpty(syntax_node), BinTree::NonEmpty(params_node)) => {
            match &syntax_node.element.1 {
                Symbol::Value(value) => {
                    let values = vec![
                        (syntax_node.element.0, value, &params_node.element.follow_pos),
                    ];
                    assert(leaf_views(values@) =~= leaves(*syntax_tree, views(*params_tree)));
                    values
                },
                Symbol::Operator(operator) => {
                    if operator.is_unary() {
                        extract_values(&syntax_node.left_tree, &params_node.left_tree)
                    } else {
                        let left = extract_values(&syntax_node.left_tree, &params_node.left_tree);
                        let right = extract_values(
                            &syntax_node.right_tree,
                            &params_node.right_tree,
                        );
                        let ghost l = left@;
                        let ghost r = right@;
                        let values = utils::merge_vectors(left, right);
                        assert(leaf_views(values@) =~= leaf_views(l) + leaf_views(r));
                        values
                    }
                },
            }
        },
        _ => Vec::new(),
    }
}

/// The tree of an expression holds no parenthesis.
pub proof fn lemma_well_formed_plain(tree: BinTree<TreeNode>)
    requires
        well_formed(tree),
    ensures
        plain(tree),
    decreases tree,
{
    assert(plain(BinTree::<TreeNode>::Empty));
    match tree {
        BinTree::Empty => {},
        BinTree::NonEmpty(node) => match node.element.1 {
            Symbol::Value(_) => {},
            Symbol::Operator(operator) => {
                if operator.spec_is_unary() {
                    lemma_well_formed_plain(node.left_tree);
                } else {
                    lemma_well_formed_plain(node.left_tree);
                    lemma_well_formed_plain(node.right_tree);
                }
            },
        },
    }
}

/// The tree of both passes has a node wherever the tree of an expression has.
pub proof fn lemma_annotated_mirrors(tree: BinTree<TreeNode>, left: Set<usize>, right: Set<usize>)
    requires
        well_formed(tree),
    ensures
        mirrors(annotated(tree, left, right), tree),
    decreases tree,
{
    let follow = follow_pos(tree, left, right);
    match tree {
        BinTree::Empty => {},
        BinTree::NonEmpty(node) => match node.element.1 {
            Symbol::Value(_) => {},
            Symbol::Operator(operator) => match operator.kind {
                OperatorKind::Closure => {
                    lemma_annotated_mirrors(node.left_tree, follow, follow);
                },
                OperatorKind::Concatenation => {
                    lemma_annotated_mirrors(node.left_tree, follow, last_pos(tree));
                    lemma_annotated_mirrors(node.right_tree, follow, right);
                },
                _ => {
                    lemma_annotated_mirrors(node.left_tree, follow, follow);
                    lemma_annotated_mirrors(node.right_tree, follow, follow);
                },
            },
        },
    }
}

/// A tree mirrors what the tree of its views mirrors.
pub proof fn lemma_views_mirror(params_tree: BinTree<Params>, syntax_tree: BinTree<TreeNode>)
    requires
        mirrors(views(params_tree), syntax_tree),
    ensures
        mirrors(params_tree, syntax_tree),
    decreases syntax_tree,
{
    match (syntax_tree, params_tree) {
        (BinTree::NonEmpty(node), BinTree::NonEmpty(params)) => match node.element.1 {
            Symbol::Value(_) => {},
            Symbol::Operator(operator) => {
                if operator.spec_is_unary() {
                    lemma_views_mirror(params.left_tree, node.left_tree);
                } else if operator.spec_is_binary() {
                    lemma_views_mirror(params.left_tree, node.left_tree);
                    lemma_views_mirror(params.right_tree, node.right_tree);
                }
            },
        },
        _ => {},
    }
}

/// The leaves that are handed out are the leaves of the syntax tree: as many,
/// and each with the position and the symbol of its leaf.
pub proof fn lemma_leaves_fringe(syntax_tree: BinTree<TreeNode>, params_tree: BinTree<ParamsView>)
    requires
        well_formed(syntax_tree),
        mirrors(params_tree, syntax_tree),
    ensures
        leaves(syntax_tree, params_tree).len() == fringe(syntax_tree).len(),
        forall|i: int|
            0 <= i < fringe(syntax_tree).len() ==> #[trigger] fringe(syntax_tree)[i] == TreeNode(
                leaves(syntax_tree, params_tree)[i].0,
                Symbol::Value(leaves(syntax_tree, params_tree)[i].1),
            ),
    decreases syntax_tree,
{
    match (syntax_tree, params_tree) {
        (BinTree::NonEmpty(node), BinTree::NonEmpty(params)) => match node.element.1 {
            Symbol::Value(_) => {},
            Symbol::Operator(operator) => {
                lemma_leaves_fringe(node.left_tree, params.left_tree);
                if operator.spec_is_unary() {
                    assert(fringe(node.right_tree) =~= Seq::<TreeNode>::empty());
                    assert(fringe(syntax_tree) =~= fringe(node.left_tree));
                } else {
                    lemma_leaves_fringe(node.right_tree, params.right_tree);
                }
            },
        },
        _ => {},
    }
}

} // verus!
