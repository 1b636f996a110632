//! Regular expressions: reading one, and the position sets of its syntax tree.

pub mod ast;
pub mod errs;
pub mod ops;
pub mod params;
pub mod vals;

use crate::fsm::error::ParserError;
use crate::trees::BinTree;
use crate::types::PosSet;
use vstd::prelude::*;
use vstd::string::StringExecFns;

verus! {

/// The end marker as a token.
pub open spec fn end_marker() -> ast::Symbol {
    ast::Symbol::Value(vals::Value { symbol: vals::SPECIAL_SYMBOL })
}

/// A postfix sequence with the end marker concatenated behind it.
pub open spec fn end_marked(given: Seq<ast::Symbol>) -> Seq<ast::Symbol> {
    given.push(end_marker()).push(
        ast::Symbol::Operator(ops::Operator { kind: ops::OperatorKind::Concatenation }),
    )
}

/// An expression in parentheses with the end marker behind it.
pub open spec fn augmented(text: Seq<char>) -> Seq<char> {
    seq!['('] + text + seq![')', '#']
}

/// Whether `tree` is a concatenation whose right side is the end marker.
pub open spec fn marked(tree: BinTree<ast::TreeNode>) -> bool {
    &&& tree matches BinTree::NonEmpty(node)
    &&& node.element.1 == ast::Symbol::Operator(
        ops::Operator { kind: ops::OperatorKind::Concatenation },
    )
    &&& node.right_tree matches BinTree::NonEmpty(right)
    &&& right.element.1 == end_marker()
}

/// The tree of an end-marked postfix sequence is well formed, and it is a
/// concatenation whose right side is the end marker.
pub proof fn lemma_end_marked(given: Seq<ast::Symbol>)
    requires
        ast::tree_of(given) is Ok,
    ensures
        ast::tree_of(end_marked(given)) matches Ok(tree) && ast::well_formed(tree) && marked(tree),
{
    let with_marker = given.push(end_marker());
    assert(with_marker.drop_last() =~= given);
    assert(end_marked(given).drop_last() =~= with_marker);
    let start = ast::built(given)->0;
    let middle = ast::place(start, end_marker())->0;
    assert(ast::built(with_marker) == Some(middle));
    assert(middle.trees.len() == 2);
    let operator = ops::Operator { kind: ops::OperatorKind::Concatenation };
    assert(ast::built(end_marked(given)) == ast::place(middle, ast::Symbol::Operator(operator)));
    assert(middle.trees[1] == ast::leaf(start.leaves + 1, vals::Value { symbol: vals::SPECIAL_SYMBOL }));
    ast::lemma_tree_of_well_formed(end_marked(given));
}

/// The leaves of a tree that ends with the end marker hold the end marker.
pub proof fn lemma_marked_leaves(tree: BinTree<ast::TreeNode>, left: Set<usize>, right: Set<usize>)
    requires
        ast::well_formed(tree),
        marked(tree),
    ensures
        params::leaves(tree, params::annotated(tree, left, right)).len() > 0,
        params::leaves(tree, params::annotated(tree, left, right)).last().1.symbol
            == vals::SPECIAL_SYMBOL,
{
    let node = tree->NonEmpty_0;
    let follow = params::follow_pos(tree, left, right);
    let on_left = params::leaves(
        node.left_tree,
        params::annotated(node.left_tree, follow, params::last_pos(tree)),
    );
    let on_right = params::leaves(node.right_tree, params::annotated(node.right_tree, follow, right));
    assert(on_right.len() == 1);
    assert(params::leaves(tree, params::annotated(tree, left, right)) =~= on_left + on_right);
}

/// A regular expression that was read: its text with the end marker, its
/// syntax tree and the position sets of the tree.
#[derive(PartialEq, Debug)]
pub struct RegExp {
    s: String,
    syntax_tree: ast::AbstractSyntaxTree,
    params_tree: BinTree<params::Params>,
}

impl RegExp {
    #[verifier::type_invariant]
    spec fn sound(&self) -> bool {
        &&& ast::well_formed(self.syntax_tree.spec_root())
        &&& marked(self.syntax_tree.spec_root())
        &&& ast::counted(self.syntax_tree.spec_root())
        &&& params::views(self.params_tree) == params::annotated(
            self.syntax_tree.spec_root(),
            Set::empty(),
            Set::empty(),
        )
    }

    /// The text: the expression in parentheses, with the end marker.
    pub closed spec fn spec_str(&self) -> Seq<char> {
        self.s@
    }

    /// The syntax tree.
    pub closed spec fn spec_tree(&self) -> BinTree<ast::TreeNode> {
        self.syntax_tree.spec_root()
    }

    /// The position sets of the syntax tree: both passes, with nothing handed
    /// down to the root.
    pub open spec fn spec_params(&self) -> BinTree<params::ParamsView> {
        params::annotated(self.spec_tree(), Set::empty(), Set::empty())
    }

    /// The leaves of the syntax tree from the left, each with its position,
    /// its symbol and its follow set.
    pub open spec fn spec_leaves(&self) -> Seq<(usize, vals::Value, Set<usize>)> {
        params::leaves(self.spec_tree(), self.spec_params())
    }

    /// The text: the expression in parentheses, with the end marker.
    pub fn str(&self) -> (text: &str)
        ensures
            text@ == self.spec_str(),
    {
        self.s.as_str()
    }

    /// The syntax tree, a concatenation whose right side is the end marker.
    /// The positions of its leaves count from 1, from the left.
    pub fn syntax_tree(&self) -> (tree: &ast::AbstractSyntaxTree)
        ensures
            tree.spec_root() == self.spec_tree(),
            ast::well_formed(self.spec_tree()),
            marked(self.spec_tree()),
            ast::counted(self.spec_tree()),
    {
        proof {
            use_type_invariant(self);
        }
        &self.syntax_tree
    }

    /// The position sets of the syntax tree.
    pub fn params_tree(&self) -> (tree: &BinTree<params::Params>)
        ensures
            params::views(*tree) == self.spec_params(),
            ast::well_formed(self.spec_tree()),
            marked(self.spec_tree()),
    {
        proof {
            use_type_invariant(self);
        }
        &self.params_tree
    }

    /// The leaves of the syntax tree from the left. Their positions count
    /// from 1, and the last one holds the end marker.
    pub fn extract_values(&self) -> (values: Vec<(usize, &vals::Value, &PosSet)>)
        ensures
            params::leaf_views(values@) == self.spec_leaves(),
            values@.len() > 0,
            values@.last().1.symbol == vals::SPECIAL_SYMBOL,
            forall|i: int| 0 <= i < values@.len() ==> (#[trigger] values@[i]).0 == i + 1,
    {
        proof {
            use_type_invariant(self);
            params::lemma_annotated_mirrors(
                self.syntax_tree.spec_root(),
                Set::empty(),
                Set::empty(),
            );
            params::lemma_views_mirror(self.params_tree, self.syntax_tree.spec_root());
            lemma_marked_leaves(self.syntax_tree.spec_root(), Set::empty(), Set::empty());
        }
        let values = params::extract_values(self.syntax_tree.root(), &self.params_tree);
        assert(params::leaf_views(values@).len() == values@.len());
        assert(params::leaf_views(values@).last().1 == *values@.last().1);
        proof {
            let tree = self.syntax_tree.spec_root();
            params::lemma_leaves_fringe(tree, params::views(self.params_tree));
            assert forall|i: int| 0 <= i < values@.len() implies (#[trigger] values@[i]).0 == i
                + 1 by {
                assert(params::leaf_views(values@)[i].0 == values@[i].0);
                assert(ast::fringe(tree)[i].0 == i + 1);
            }
        }
        values
    }

    /// Reads an expression. The end marker is concatenated behind its postfix
    /// form, and the tree and the position sets are those of that sequence.
    /// An expression that cannot be read is refused with the error of its
    /// conversion, whose index counts the characters of `s`.
    pub fn from_str(s: &str) -> (regexp: Result<Self, errs::ParseExpError>)
        ensures
            match ast::postfix_of(ast::lexemes_of(s@)) {
                Ok(given) => {
                    &&& regexp matches Ok(r)
                    &&& r.spec_str() == augmented(s@)
                    &&& ast::postfix_of(ast::lexemes_of(r.spec_str())) == Ok::<
                        Seq<ast::Symbol>,
                        errs::ParseExpError,
                    >(end_marked(given))
                    &&& ast::tree_of(end_marked(given)) == Ok::<BinTree<ast::TreeNode>, ParserError>(
                        r.spec_tree(),
                    )
                },
                Err(error) => regexp matches Err(e) && e == error,
            },
    {
        let augmented_regexp = augment_regexp(s);
        match ast::make_rpn(s) {
            Ok(symbols) => {
                let ghost given = symbols@;
                proof {
                    ast::lemma_postfix_builds_tree(ast::lexemes_of(s@));
                    lemma_end_marked(given);
                    lemma_augmented_postfix(s@);
                }
                let mut symbols = symbols;
                symbols.push_back(
                    ast::Symbol::Value(vals::Value { symbol: vals::SPECIAL_SYMBOL }),
                );
                symbols.push_back(ast::Symbol::Operator(ops::concatenation()));
                proof {
                    assert(symbols@.len() == symbols.len());
                    ast::lemma_tree_of_counted(symbols@);
                }
                match ast::AbstractSyntaxTree::from_tokens(symbols) {
                    Ok(t) => {
                        let params_tree = t.make_params_tree();
                        Ok(RegExp { s: augmented_regexp, params_tree, syntax_tree: t })
                    },
                    // A postfix form with the end marker always builds a tree.
                    Err(_) => Err(errs::ParseExpError::new(0)),
                }
            },
            Err(error) => Err(error),
        }
    }
}

impl Clone for RegExp {
    fn clone(&self) -> (copy: Self)
        ensures
            copy.spec_str() == self.spec_str(),
            copy.spec_tree() == self.spec_tree(),
    {
        proof {
            use_type_invariant(self);
        }
        let s = self.s.clone();
        let syntax_tree = self.syntax_tree.clone();
        let params_tree = self.params_tree.clone();
        proof {
            params::lemma_cloned_views(self.params_tree, params_tree);
        }
        RegExp { s, syntax_tree, params_tree }
    }
}

/// The expression in parentheses, with the end marker behind it.
pub fn augment_regexp(s: &str) -> (text: String)
    ensures
        text@ == augmented(s@),
{
    proof {
        reveal_strlit("(");
        reveal_strlit(")#");
    }
    let text = String::from_str("(").concat(s).concat(")#");
    assert(text@ =~= augmented(s@));
    text
}

/// The state of a conversion that began behind an opening parenthesis: the
/// parenthesis is held back below what `state` holds back.
pub open spec fn enclosed(state: ast::Conversion) -> ast::Conversion {
    ast::Conversion {
        held: seq![ops::Operator { kind: ops::OperatorKind::OpeningParenthesis }] + state.held,
        given: state.given,
        before: state.before,
    }
}

proof fn lemma_hold_enclosed(held: Seq<ops::Operator>, given: Seq<ast::Symbol>, incoming: ops::Operator)
    ensures
        ast::hold(
            seq![ops::Operator { kind: ops::OperatorKind::OpeningParenthesis }] + held,
            given,
            incoming,
        ) == (
            seq![ops::Operator { kind: ops::OperatorKind::OpeningParenthesis }] + ast::hold(
                held,
                given,
                incoming,
            ).0,
            ast::hold(held, given, incoming).1,
        ),
    decreases held.len(),
{
    let open = seq![ops::Operator { kind: ops::OperatorKind::OpeningParenthesis }];
    let below = open + held;
    if held.len() > 0 {
        assert(below.last() == held.last());
        assert(below.drop_last() =~= open + held.drop_last());
        if !(held.last().kind is OpeningParenthesis) && ast::yields(incoming, held.last()) {
            lemma_hold_enclosed(
                held.drop_last(),
                given.push(ast::Symbol::Operator(held.last())),
                incoming,
            );
        } else {
            assert(below.push(incoming) =~= open + held.push(incoming));
        }
    } else {
        assert(below =~= open);
        assert(below.push(incoming) =~= open + held.push(incoming));
    }
}

proof fn lemma_close_enclosed(held: Seq<ops::Operator>, given: Seq<ast::Symbol>)
    ensures
        ast::close(held, given) matches Some((h, g)) ==> ast::close(
            seq![ops::Operator { kind: ops::OperatorKind::OpeningParenthesis }] + held,
            given,
        ) == Some((seq![ops::Operator { kind: ops::OperatorKind::OpeningParenthesis }] + h, g)),
        ast::drain(held, given) matches Some(g) ==> ast::close(
            seq![ops::Operator { kind: ops::OperatorKind::OpeningParenthesis }] + held,
            given,
        ) == Some((Seq::<ops::Operator>::empty(), g)),
    decreases held.len(),
{
    let open = seq![ops::Operator { kind: ops::OperatorKind::OpeningParenthesis }];
    let below = open + held;
    if held.len() > 0 {
        assert(below.last() == held.last());
        assert(below.drop_last() =~= open + held.drop_last());
        if !(held.last().kind is OpeningParenthesis) {
            lemma_close_enclosed(held.drop_last(), given.push(ast::Symbol::Operator(held.last())));
        }
    } else {
        assert(below =~= open);
        assert(below.drop_last() =~= Seq::<ops::Operator>::empty());
    }
}

proof fn lemma_advance_enclosed(
    state: ast::Conversion,
    lexeme: Option<ast::Symbol>,
    index: nat,
    length: nat,
    shifted: nat,
    longer: nat,
)
    ensures
        ast::advance(state, lexeme, index, length) matches Ok(next) ==> ast::advance(
            enclosed(state),
            lexeme,
            shifted,
            longer,
        ) == Ok::<ast::Conversion, errs::ParseExpError>(enclosed(next)),
{
    let open = seq![ops::Operator { kind: ops::OperatorKind::OpeningParenthesis }];
    let concatenation = ops::Operator { kind: ops::OperatorKind::Concatenation };
    lemma_hold_enclosed(state.held, state.given, concatenation);
    lemma_close_enclosed(state.held, state.given);
    match lexeme {
        None => {},
        Some(ast::Symbol::Value(_)) => {},
        Some(ast::Symbol::Operator(operator)) => {
            lemma_hold_enclosed(state.held, state.given, operator);
            if operator.kind is OpeningParenthesis {
                let (held, given) = ast::join(state);
                assert((open + held).push(operator) =~= open + held.push(operator));
            }
        },
    }
}

proof fn lemma_convert_enclosed(
    lexemes: Seq<Option<ast::Symbol>>,
    around: Seq<Option<ast::Symbol>>,
    index: nat,
    state: ast::Conversion,
)
    requires
        around == seq![
            Some(
                ast::Symbol::Operator(ops::Operator { kind: ops::OperatorKind::OpeningParenthesis }),
            ),
        ] + lexemes + seq![
            Some(
                ast::Symbol::Operator(ops::Operator { kind: ops::OperatorKind::ClosingParenthesis }),
            ),
            Some(end_marker()),
        ],
        index <= lexemes.len(),
    ensures
        ast::convert_from(lexemes, index, state) matches Ok(given) ==> ast::convert_from(
            around,
            index + 1,
            enclosed(state),
        ) == Ok::<Seq<ast::Symbol>, errs::ParseExpError>(end_marked(given)),
    decreases lexemes.len() - index,
{
    let n = lexemes.len();
    if let Ok(given) = ast::convert_from(lexemes, index, state) {
        if index >= n {
            lemma_close_enclosed(state.held, state.given);
            let closing = ast::Symbol::Operator(
                ops::Operator { kind: ops::OperatorKind::ClosingParenthesis },
            );
            let concatenation = ops::Operator { kind: ops::OperatorKind::Concatenation };
            assert(around[n as int + 1] == Some(closing));
            assert(around[n as int + 2] == Some(end_marker()));
            let closed = ast::Conversion {
                held: Seq::empty(),
                given,
                before: ast::Before::Operand,
            };
            assert(ast::advance(enclosed(state), around[n as int + 1], n + 1, around.len()) == Ok::<
                ast::Conversion,
                errs::ParseExpError,
            >(closed));
            let ended = ast::Conversion {
                held: seq![concatenation],
                given: given.push(end_marker()),
                before: ast::Before::Operand,
            };
            assert(ast::hold(Seq::empty(), given, concatenation) == (
                Seq::<ops::Operator>::empty().push(concatenation),
                given,
            ));
            assert(Seq::<ops::Operator>::empty().push(concatenation) =~= seq![concatenation]);
            assert(ast::advance(closed, around[n as int + 2], n + 2, around.len()) == Ok::<
                ast::Conversion,
                errs::ParseExpError,
            >(ended));
            assert(ended.held.drop_last() =~= Seq::<ops::Operator>::empty());
            assert(ast::drain(
                ended.held.drop_last(),
                ended.given.push(ast::Symbol::Operator(concatenation)),
            ) == Some(end_marked(given)));
            assert(ast::finish(ended, around.len()) == Ok::<Seq<ast::Symbol>, errs::ParseExpError>(
                end_marked(given),
            ));
            assert(ast::convert_from(around, n + 3, ended) == ast::finish(ended, around.len()));
            assert(ast::convert_from(around, n + 2, closed) == ast::convert_from(
                around,
                n + 3,
                ended,
            ));
            assert(ast::convert_from(around, n + 1, enclosed(state)) == ast::convert_from(
                around,
                n + 2,
                closed,
            ));
        } else {
            assert(around[index as int + 1] == lexemes[index as int]);
            lemma_advance_enclosed(state, lexemes[index as int], index, n, index + 1, around.len());
            let next = ast::advance(state, lexemes[index as int], index, n)->Ok_0;
            lemma_convert_enclosed(lexemes, around, index + 1, next);
        }
    }
}

/// The postfix form of an expression in parentheses with the end marker
/// behind it is the postfix form of the expression with the end marker
/// concatenated behind it.
pub proof fn lemma_augmented_postfix(text: Seq<char>)
    ensures
        ast::postfix_of(ast::lexemes_of(text)) matches Ok(given) ==> ast::postfix_of(
            ast::lexemes_of(augmented(text)),
        ) == Ok::<Seq<ast::Symbol>, errs::ParseExpError>(end_marked(given)),
{
    let lexemes = ast::lexemes_of(text);
    let around = ast::lexemes_of(augmented(text));
    let opening = ops::Operator { kind: ops::OperatorKind::OpeningParenthesis };
    let framed = seq![Some(ast::Symbol::Operator(opening))] + lexemes + seq![
        Some(ast::Symbol::Operator(ops::Operator { kind: ops::OperatorKind::ClosingParenthesis })),
        Some(end_marker()),
    ];
    assert(around =~= framed) by {
        lemma_frame('(', ')', '#');
        assert forall|i: int| 0 <= i < around.len() implies around[i] == framed[i] by {
            if 1 <= i <= text.len() {
                assert(augmented(text)[i] == text[i - 1]);
            }
        }
    }
    let start = ast::Conversion {
        held: Seq::empty(),
        given: Seq::empty(),
        before: ast::Before::Nothing,
    };
    assert(Seq::<ops::Operator>::empty().push(opening) =~= seq![opening] + Seq::<
        ops::Operator,
    >::empty());
    assert(ast::advance(start, around[0], 0, around.len()) == Ok::<
        ast::Conversion,
        errs::ParseExpError,
    >(enclosed(start)));
    lemma_convert_enclosed(lexemes, around, 0, start);
}

/// What the parentheses and the end marker are read as.
proof fn lemma_frame(opening: char, closing: char, marker: char)
    requires
        opening == '(',
        closing == ')',
        marker == '#',
    ensures
        ast::lexeme_of(opening) == Some(
            ast::Symbol::Operator(ops::Operator { kind: ops::OperatorKind::OpeningParenthesis }),
        ),
        ast::lexeme_of(closing) == Some(
            ast::Symbol::Operator(ops::Operator { kind: ops::OperatorKind::ClosingParenthesis }),
        ),
        ast::lexeme_of(marker) == Some(end_marker()),
{
}

} // verus!
