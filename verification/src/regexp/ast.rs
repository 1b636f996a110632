//! From an expression to its postfix form and its syntax tree.

use super::errs::ParseExpError;
use super::ops::{operator_of, operator_of_char, Associativity, Operator, OperatorKind};
use super::ops;
use super::params;
use super::params::{annotated, lemma_well_formed_plain, views, Params};
use super::vals::{is_value_char, value_char, Value};
use crate::fsm::error::ParserError;
use crate::trees::{BinTree, TreeNode as Node};
use crate::types::{sole, Queue, Stack};
use crate::utils;
use vstd::prelude::*;
use vstd::string::StrSliceExecFns;

verus! {

/// The syntax tree of an expression, or the empty tree.
#[derive(PartialEq, Debug)]
pub struct AbstractSyntaxTree {
    root: BinTree<TreeNode>,
}

impl AbstractSyntaxTree {
    #[verifier::type_invariant]
    spec fn sound(&self) -> bool {
        self.root is Empty || well_formed(self.root)
    }

    /// The tree.
    pub closed spec fn spec_root(&self) -> BinTree<TreeNode> {
        self.root
    }

    /// The empty tree.
    pub fn new() -> (tree: Self)
        ensures
            tree.spec_root() is Empty,
    {
        AbstractSyntaxTree { root: BinTree::new() }
    }

    /// The tree, which is empty or the tree of an expression.
    pub fn root(&self) -> (root: &BinTree<TreeNode>)
        ensures
            *root == self.spec_root(),
            *root is Empty || well_formed(*root),
    {
        proof {
            use_type_invariant(self);
        }
        &self.root
    }

    /// The position sets of the tree: both passes, with nothing handed down
    /// to the root.
    pub fn make_params_tree(&self) -> (params_tree: BinTree<Params>)
        ensures
            views(params_tree) == annotated(self.spec_root(), Set::empty(), Set::empty()),
    {
        proof {
            use_type_invariant(self);
            if self.root is NonEmpty {
                lemma_well_formed_plain(self.root);
            }
        }
        let mut t = params::make_params_tree(&self.root);
        let empty_set = utils::make_empty_set();
        params::add_follow_pos(&mut t, &self.root, &empty_set, &empty_set);
        t
    }

    /// The syntax tree of a postfix sequence.
    pub fn from_tokens(symbols: Queue<Symbol>) -> (tree: Result<Self, ParserError>)
        ensures
            match tree_of(symbols@) {
                Ok(root) => tree matches Ok(t) && t.spec_root() == root,
                Err(_) => tree is Err,
            },
    {
        proof {
            lemma_tree_of_well_formed(symbols@);
        }
        match make_tree(symbols) {
            Ok(root) => Ok(AbstractSyntaxTree { root }),
            Err(error) => Err(error),
        }
    }

    /// Reads an expression: the tree of its postfix form.
    pub fn from_str(s: &str) -> (tree: Result<Self, ParseExpError>)
        ensures
            match postfix_of(lexemes_of(s@)) {
                Ok(given) => tree matches Ok(t) && tree_of(given) == Ok::<
                    BinTree<TreeNode>,
                    ParserError,
                >(t.spec_root()),
                Err(error) => tree matches Err(e) && e == error,
            },
    {
        match make_rpn(s) {
            Ok(symbols) => {
                proof {
                    lemma_postfix_builds_tree(lexemes_of(s@));
                }
                match make_tree(symbols) {
                    Ok(root) => Ok(AbstractSyntaxTree { root }),
                    // A postfix form always builds a tree.
                    Err(_) => Err(ParseExpError::new(0)),
                }
            },
            Err(error) => Err(error),
        }
    }
}

/// A copy of a syntax tree is the same tree.
pub proof fn lemma_cloned_tree(tree: BinTree<TreeNode>, copy: BinTree<TreeNode>)
    requires
        tree.cloned_as(copy),
    ensures
        tree == copy,
    decreases tree,
{
    match (tree, copy) {
        (BinTree::NonEmpty(a), BinTree::NonEmpty(b)) => {
            lemma_cloned_tree(a.left_tree, b.left_tree);
            lemma_cloned_tree(a.right_tree, b.right_tree);
        },
        _ => {},
    }
}

impl Clone for AbstractSyntaxTree {
    fn clone(&self) -> (copy: Self)
        ensures
            copy.spec_root() == self.spec_root(),
    {
        proof {
            use_type_invariant(self);
        }
        let root = self.root.clone();
        proof {
            lemma_cloned_tree(self.root, root);
        }
        AbstractSyntaxTree { root }
    }
}

/// A token of an expression: a symbol of the alphabet or an operator.
#[derive(PartialEq, Eq, Clone, Copy, Debug, Structural)]
pub enum Symbol {
    Value(Value),
    Operator(Operator),
}

impl Symbol {
    /// Reads a value token from the string of its symbol.
    pub fn from_value_str(s: &str) -> (symbol: Result<Symbol, ParseExpError>)
        ensures
            symbol == match sole(s@) {
                Some(c) if value_char(c) => Ok::<Symbol, ParseExpError>(
                    Symbol::Value(Value { symbol: c }),
                ),
                _ => Err(ParseExpError { index: 0 }),
            },
    {
        match Value::from_str(s) {
            Ok(value) => Ok(Symbol::Value(value)),
            Err(error) => Err(error),
        }
    }

    /// Reads an operator token from the string of its symbol.
    pub fn from_operator_str(s: &str) -> (symbol: Result<Symbol, ParseExpError>)
        ensures
            symbol == match sole(s@) {
                Some(c) => match operator_of(c) {
                    Some(op) => Ok::<Symbol, ParseExpError>(Symbol::Operator(op)),
                    None => Err(ParseExpError { index: 0 }),
                },
                None => Err(ParseExpError { index: 0 }),
            },
    {
        match Operator::from_str(s) {
            Ok(operator) => Ok(Symbol::Operator(operator)),
            Err(error) => Err(error),
        }
    }
}

/// What the character `c` of an expression is read as: a symbol, an operator,
/// or nothing where the character may not stand in an expression.
pub open spec fn lexeme_of(c: char) -> Option<Symbol> {
    if value_char(c) {
        Some(Symbol::Value(Value { symbol: c }))
    } else {
        match operator_of(c) {
            Some(op) => Some(Symbol::Operator(op)),
            None => None,
        }
    }
}

/// The characters of an expression, each as it is read.
pub open spec fn lexemes_of(text: Seq<char>) -> Seq<Option<Symbol>> {
    text.map_values(|c: char| lexeme_of(c))
}

/// Reads one character of an expression.
pub fn read_char(c: char) -> (lexeme: Option<Symbol>)
    ensures
        lexeme == lexeme_of(c),
{
    if is_value_char(c) {
        Some(Symbol::Value(Value { symbol: c }))
    } else {
        match operator_of_char(c) {
            Some(op) => Some(Symbol::Operator(op)),
            None => None,
        }
    }
}

/// Reads every character of an expression.
pub fn read_chars(s: &str) -> (lexemes: Vec<Option<Symbol>>)
    ensures
        lexemes@ == lexemes_of(s@),
{
    let n = s.unicode_len();
    let mut lexemes: Vec<Option<Symbol>> = Vec::new();
    let mut i: usize = 0;
    while i < n
        invariant
            n == s@.len(),
            i <= n,
            lexemes@ == lexemes_of(s@.take(i as int)),
        decreases n - i,
    {
        lexemes.push(read_char(s.get_char(i)));
        i += 1;
        assert(lexemes@ =~= lexemes_of(s@.take(i as int)));
    }
    assert(s@.take(n as int) =~= s@);
    lexemes
}

/// What stands directly before the place that the conversion has reached.
#[derive(PartialEq, Eq, Clone, Copy, Debug, Structural)]
pub enum Before {
    /// The start, `(` or an operator of two operands: an operand must follow.
    Nothing,
    /// A symbol or `)`: an operand is complete.
    Operand,
    /// `*`: an operand is complete, and no second `*` may follow.
    Closure,
}

/// The state of a conversion: the operators held back, the tokens given out,
/// and what stands before the next character.
pub struct Conversion {
    pub held: Seq<Operator>,
    pub given: Seq<Symbol>,
    pub before: Before,
}

/// Whether the operator `top`, held back, is given out before `incoming` is
/// held back: where `incoming` groups to the left, when `top` binds at least
/// as tightly, and where it groups to the right, when `top` binds tighter.
pub open spec fn yields(incoming: Operator, top: Operator) -> bool {
    if incoming.spec_associativity() is Left {
        incoming.kind == top.kind || incoming.spec_priority().0 < top.spec_priority().0
    } else {
        incoming.kind != top.kind && incoming.spec_priority().0 < top.spec_priority().0
    }
}

/// Gives out the operators at the top of `held` that yield to `incoming`, down
/// to the nearest `(`, and then holds `incoming` back.
pub open spec fn hold(held: Seq<Operator>, given: Seq<Symbol>, incoming: Operator) -> (
    Seq<Operator>,
    Seq<Symbol>,
)
    decreases held.len(),
{
    if held.len() > 0 && !(held.last().kind is OpeningParenthesis) && yields(
        incoming,
        held.last(),
    ) {
        hold(held.drop_last(), given.push(Symbol::Operator(held.last())), incoming)
    } else {
        (held.push(incoming), given)
    }
}

/// Gives out the operators above the nearest `(` and drops that `(`. Nothing
/// where no `(` is held.
pub open spec fn close(held: Seq<Operator>, given: Seq<Symbol>) -> Option<
    (Seq<Operator>, Seq<Symbol>),
>
    decreases held.len(),
{
    if held.len() == 0 {
        None
    } else if held.last().kind is OpeningParenthesis {
        Some((held.drop_last(), given))
    } else {
        close(held.drop_last(), given.push(Symbol::Operator(held.last())))
    }
}

/// Gives out every operator held. Nothing where a `(` is held.
pub open spec fn drain(held: Seq<Operator>, given: Seq<Symbol>) -> Option<Seq<Symbol>>
    decreases held.len(),
{
    if held.len() == 0 {
        Some(given)
    } else if held.last().kind is OpeningParenthesis {
        None
    } else {
        drain(held.drop_last(), given.push(Symbol::Operator(held.last())))
    }
}

/// The state after an operand begins: where an operand stands before it, the
/// concatenation that is not written is held back first.
pub open spec fn join(state: Conversion) -> (Seq<Operator>, Seq<Symbol>) {
    if state.before is Nothing {
        (state.held, state.given)
    } else {
        hold(state.held, state.given, Operator { kind: OperatorKind::Concatenation })
    }
}

/// One step of the conversion: the state after the character at `index`, read
/// as `lexeme`, of an expression of `length` characters; or the error.
pub open spec fn advance(state: Conversion, lexeme: Option<Symbol>, index: nat, length: nat)
    -> Result<Conversion, ParseExpError> {
    match lexeme {
        None => Err(ParseExpError { index: index as usize }),
        Some(Symbol::Value(value)) => {
            let (held, given) = join(state);
            Ok(Conversion { held, given: given.push(Symbol::Value(value)), before: Before::Operand })
        },
        Some(Symbol::Operator(operator)) => match operator.kind {
            OperatorKind::OpeningParenthesis => {
                let (held, given) = join(state);
                Ok(Conversion { held: held.push(operator), given, before: Before::Nothing })
            },
            OperatorKind::ClosingParenthesis => if state.before is Nothing {
                Err(ParseExpError { index: index as usize })
            } else {
                match close(state.held, state.given) {
                    Some((held, given)) => Ok(Conversion { held, given, before: Before::Operand }),
                    None => Err(ParseExpError { index: length as usize }),
                }
            },
            OperatorKind::Closure => if state.before is Operand {
                let (held, given) = hold(state.held, state.given, operator);
                Ok(Conversion { held, given, before: Before::Closure })
            } else {
                Err(ParseExpError { index: index as usize })
            },
            _ => if state.before is Nothing {
                Err(ParseExpError { index: index as usize })
            } else {
                let (held, given) = hold(state.held, state.given, operator);
                Ok(Conversion { held, given, before: Before::Nothing })
            },
        },
    }
}

/// The end of the conversion: every operator held is given out. An operand
/// must stand last, and no `(` may be left open.
pub open spec fn finish(state: Conversion, length: nat) -> Result<Seq<Symbol>, ParseExpError> {
    if state.before is Nothing {
        Err(ParseExpError { index: length as usize })
    } else {
        match drain(state.held, state.given) {
            Some(given) => Ok(given),
            None => Err(ParseExpError { index: length as usize }),
        }
    }
}

/// The conversion of the characters from `index` on, begun in `state`.
pub open spec fn convert_from(lexemes: Seq<Option<Symbol>>, index: nat, state: Conversion)
    -> Result<Seq<Symbol>, ParseExpError>
    decreases lexemes.len() - index,
{
    if index >= lexemes.len() {
        finish(state, lexemes.len())
    } else {
        match advance(state, lexemes[index as int], index, lexemes.len()) {
            Ok(next) => convert_from(lexemes, index + 1, next),
            Err(error) => Err(error),
        }
    }
}

/// The postfix form of an expression, given as its characters as they are read:
/// the result of the conversion from the first character on, with nothing held
/// and nothing given out.
///
/// The error names the first character, from the left, that may not stand
/// where it stands: one that is neither symbol nor operator, an operator that
/// lacks its operand, a `)` directly after `(`. It names the length of the
/// expression where a `)` closes nothing, where a `(` is left open, and where
/// the expression ends without an operand.
pub open spec fn postfix_of(lexemes: Seq<Option<Symbol>>) -> Result<Seq<Symbol>, ParseExpError> {
    convert_from(
        lexemes,
        0,
        Conversion { held: Seq::empty(), given: Seq::empty(), before: Before::Nothing },
    )
}

/// Whether `result` is `expected`, the queue taken by what it holds.
pub open spec fn is_postfix(
    result: Result<Queue<Symbol>, ParseExpError>,
    expected: Result<Seq<Symbol>, ParseExpError>,
) -> bool {
    match expected {
        Ok(given) => result matches Ok(queue) && queue@ == given,
        Err(error) => result matches Err(e) && e == error,
    }
}

fn yields_to(incoming: &Operator, top: &Operator) -> (popped: bool)
    ensures
        popped == yields(*incoming, *top),
{
    let lower = incoming.priority().0 < top.priority().0;
    match incoming.associativity() {
        Associativity::Left => incoming.kind == top.kind || lower,
        Associativity::Right => incoming.kind != top.kind && lower,
    }
}

fn hold_back(held: &mut Stack<Operator>, given: &mut Queue<Symbol>, incoming: Operator)
    ensures
        (final(held)@, final(given)@) == hold(old(held)@, old(given)@, incoming),
{
    loop
        invariant
            hold(held@, given@, incoming) == hold(old(held)@, old(given)@, incoming),
        ensures
            !(held@.len() > 0 && !(held@.last().kind is OpeningParenthesis) && yields(
                incoming,
                held@.last(),
            )),
            hold(held@, given@, incoming) == hold(old(held)@, old(given)@, incoming),
        decreases held@.len(),
    {
        if held.len() == 0 {
            break ;
        }
        let top = held[held.len() - 1];
        if top.is_opening_parenthesis() || !yields_to(&incoming, &top) {
            break ;
        }
        held.pop();
        given.push_back(Symbol::Operator(top));
    }
    held.push(incoming);
}

fn close_group(held: &mut Stack<Operator>, given: &mut Queue<Symbol>) -> (closed: bool)
    ensures
        match close(old(held)@, old(given)@) {
            Some((h, g)) => closed && final(held)@ == h && final(given)@ == g,
            None => !closed,
        },
{
    loop
        invariant
            close(held@, given@) == close(old(held)@, old(given)@),
        decreases held@.len(),
    {
        match held.pop() {
            None => {
                return false;
            },
            Some(top) => {
                if top.is_opening_parenthesis() {
                    return true;
                }
                given.push_back(Symbol::Operator(top));
            },
        }
    }
}

fn drain_held(held: &mut Stack<Operator>, given: &mut Queue<Symbol>) -> (drained: bool)
    ensures
        match drain(old(held)@, old(given)@) {
            Some(g) => drained && final(given)@ == g,
            None => !drained,
        },
{
    loop
        invariant
            drain(held@, given@) == drain(old(held)@, old(given)@),
        decreases held@.len(),
    {
        match held.pop() {
            None => {
                return true;
            },
            Some(top) => {
                if top.is_opening_parenthesis() {
                    return false;
                }
                given.push_back(Symbol::Operator(top));
            },
        }
    }
}

/// Converts an expression, given as its characters as they are read, to
/// postfix form.
pub fn convert(lexemes: &Vec<Option<Symbol>>) -> (result: Result<Queue<Symbol>, ParseExpError>)
    ensures
        is_postfix(result, postfix_of(lexemes@)),
{
    let length = lexemes.len();
    let mut held: Stack<Operator> = Vec::new();
    let mut given: Queue<Symbol> = Queue::new();
    let mut before = Before::Nothing;
    let mut index: usize = 0;
    while index < length
        invariant
            length == lexemes@.len(),
            index <= length,
            convert_from(
                lexemes@,
                index as nat,
                Conversion { held: held@, given: given@, before },
            ) == postfix_of(lexemes@),
        decreases length - index,
    {
        let ghost state = Conversion { held: held@, given: given@, before };
        match lexemes[index] {
            None => {
                return Err(ParseExpError::new(index));
            },
            Some(Symbol::Value(value)) => {
                match before {
                    Before::Nothing => {},
                    _ => {
                        hold_back(&mut held, &mut given, ops::concatenation());
                    },
                }
                given.push_back(Symbol::Value(value));
                before = Before::Operand;
            },
            Some(Symbol::Operator(operator)) => match operator.kind {
                OperatorKind::OpeningParenthesis => {
                    match before {
                        Before::Nothing => {},
                        _ => {
                            hold_back(&mut held, &mut given, ops::concatenation());
                        },
                    }
                    held.push(operator);
                    before = Before::Nothing;
                },
                OperatorKind::ClosingParenthesis => {
                    match before {
                        Before::Nothing => {
                            return Err(ParseExpError::new(index));
                        },
                        _ => {},
                    }
                    if !close_group(&mut held, &mut given) {
                        return Err(ParseExpError::new(length));
                    }
                    before = Before::Operand;
                },
                OperatorKind::Closure => {
                    match before {
                        Before::Operand => {},
                        _ => {
                            return Err(ParseExpError::new(index));
                        },
                    }
                    hold_back(&mut held, &mut given, operator);
                    before = Before::Closure;
                },
                _ => {
                    match before {
                        Before::Nothing => {
                            return Err(ParseExpError::new(index));
                        },
                        _ => {},
                    }
                    hold_back(&mut held, &mut given, operator);
                    before = Before::Nothing;
                },
            },
        }
        assert(advance(state, lexemes@[index as int], index as nat, length as nat) == Ok::<
            Conversion,
            ParseExpError,
        >(Conversion { held: held@, given: given@, before }));
        index += 1;
    }
    match before {
        Before::Nothing => {
            return Err(ParseExpError::new(length));
        },
        _ => {},
    }
    if !drain_held(&mut held, &mut given) {
        return Err(ParseExpError::new(length));
    }
    Ok(given)
}

/// Converts an expression to postfix form.
pub fn make_rpn(s: &str) -> (result: Result<Queue<Symbol>, ParseExpError>)
    ensures
        is_postfix(result, postfix_of(lexemes_of(s@))),
{
    let lexemes = read_chars(s);
    convert(&lexemes)
}

/// What a node of a syntax tree holds: the position of a leaf, counted from 1
/// in the order of the leaves from the left, or 0 in a node of an operator;
/// and the token.
#[derive(PartialEq, Eq, Clone, Copy, Debug, Structural)]
pub struct TreeNode(pub usize, pub Symbol);

/// The leaf of the symbol `value` at `position`.
pub open spec fn leaf(position: nat, value: Value) -> BinTree<TreeNode> {
    BinTree::NonEmpty(
        Box::new(
            Node {
                element: TreeNode(position as usize, Symbol::Value(value)),
                left_tree: BinTree::Empty,
                right_tree: BinTree::Empty,
            },
        ),
    )
}

/// The node of `operator` above the two subtrees.
pub open spec fn branch(operator: Operator, left: BinTree<TreeNode>, right: BinTree<TreeNode>)
    -> BinTree<TreeNode> {
    BinTree::NonEmpty(
        Box::new(
            Node {
                element: TreeNode(0, Symbol::Operator(operator)),
                left_tree: left,
                right_tree: right,
            },
        ),
    )
}

/// The state of building a tree from postfix: the stack of subtrees, its top
/// at the end, and the number of leaves made.
pub struct Build {
    pub trees: Seq<BinTree<TreeNode>>,
    pub leaves: nat,
}

/// The state after one token. A symbol becomes a leaf with the next position.
/// An operator takes its operands from the stack, the right one first, and
/// leaves its node there. Nothing where operands are missing, or where the
/// token is a parenthesis.
pub open spec fn place(build: Build, symbol: Symbol) -> Option<Build> {
    let n = build.trees.len() as int;
    match symbol {
        Symbol::Value(value) => Some(
            Build {
                trees: build.trees.push(leaf(build.leaves + 1, value)),
                leaves: build.leaves + 1,
            },
        ),
        Symbol::Operator(operator) => if operator.spec_is_unary() && n >= 1 {
            Some(
                Build {
                    trees: build.trees.take(n - 1).push(
                        branch(operator, build.trees[n - 1], BinTree::Empty),
                    ),
                    leaves: build.leaves,
                },
            )
        } else if operator.spec_is_binary() && n >= 2 {
            Some(
                Build {
                    trees: build.trees.take(n - 2).push(
                        branch(operator, build.trees[n - 2], build.trees[n - 1]),
                    ),
                    leaves: build.leaves,
                },
            )
        } else {
            None
        },
    }
}

/// The state after all the tokens of `symbols`, from the left.
pub open spec fn built(symbols: Seq<Symbol>) -> Option<Build>
    decreases symbols.len(),
{
    if symbols.len() == 0 {
        Some(Build { trees: Seq::empty(), leaves: 0 })
    } else {
        match built(symbols.drop_last()) {
            Some(build) => place(build, symbols.last()),
            None => None,
        }
    }
}

/// The syntax tree of a postfix sequence: the one tree that is left when all
/// tokens are placed. An error where a token cannot be placed, and where no
/// tree or more than one is left.
pub open spec fn tree_of(symbols: Seq<Symbol>) -> Result<BinTree<TreeNode>, ParserError> {
    match built(symbols) {
        Some(build) if build.trees.len() == 1 => Ok(build.trees[0]),
        _ => Err(ParserError),
    }
}

/// Builds the syntax tree of a postfix sequence.
pub fn make_tree(symbols: Queue<Symbol>) -> (tree: Result<BinTree<TreeNode>, ParserError>)
    ensures
        tree == tree_of(symbols@),
{
    let mut stack: Stack<BinTree<TreeNode>> = Vec::new();
    let mut index: usize = 0;
    let mut i: usize = 0;
    while i < symbols.len()
        invariant
            i <= symbols@.len(),
            index <= i,
            built(symbols@.take(i as int)) == Some(Build { trees: stack@, leaves: index as nat }),
        decreases symbols@.len() - i,
    {
        let symbol = symbols[i];
        proof {
            assert(symbols@.take(i + 1).drop_last() =~= symbols@.take(i as int));
            assert(symbols@.take(i + 1).last() == symbols@[i as int]);
        }
        match symbol {
            Symbol::Value(_) => {
                index += 1;
                stack.push(BinTree::from_element(TreeNode(index, symbol)));
            },
            Symbol::Operator(operator) => {
                if operator.is_unary() {
                    let ghost before = stack@;
                    match stack.pop() {
                        Some(operand) => {
                            stack.push(BinTree::from(TreeNode(0, symbol), operand, BinTree::Empty));
                            assert(stack@ =~= before.take(before.len() - 1).push(
                                branch(operator, before[before.len() - 1], BinTree::Empty),
                            ));
                        },
                        None => {
                            proof {
                                lemma_built_fails(symbols@, i as int + 1);
                            }
                            return Err(ParserError);
                        },
                    }
                } else if operator.is_binary() {
                    let ghost before = stack@;
                    if stack.len() < 2 {
                        proof {
                            lemma_built_fails(symbols@, i as int + 1);
                        }
                        return Err(ParserError);
                    }
                    let right = stack.pop();
                    let left = stack.pop();
                    match (left, right) {
                        (Some(left_node), Some(right_node)) => {
                            stack.push(BinTree::from(TreeNode(0, symbol), left_node, right_node));
                            assert(stack@ =~= before.take(before.len() - 2).push(
                                branch(operator, before[before.len() - 2], before[before.len() - 1]),
                            ));
                        },
                        _ => {
                            return Err(ParserError);
                        },
                    }
                } else {
                    proof {
                        lemma_built_fails(symbols@, i as int + 1);
                    }
                    return Err(ParserError);
                }
            },
        }
        i += 1;
    }
    assert(symbols@.take(symbols@.len() as int) =~= symbols@);
    if stack.len() != 1 {
        return Err(ParserError);
    }
    match stack.pop() {
        Some(tree) => Ok(tree),
        None => Err(ParserError),
    }
}

/// Where the tokens up to `end` cannot be placed, the whole sequence cannot.
pub proof fn lemma_built_fails(symbols: Seq<Symbol>, end: int)
    requires
        0 <= end <= symbols.len(),
        built(symbols.take(end)) is None,
    ensures
        built(symbols) is None,
    decreases symbols.len() - end,
{
    if end < symbols.len() {
        assert(symbols.take(end + 1).drop_last() =~= symbols.take(end));
        lemma_built_fails(symbols, end + 1);
    } else {
        assert(symbols.take(end) =~= symbols);
    }
}

/// Whether `tree` is the tree of an expression: a symbol stands in a leaf,
/// `*` above one subtree on the left, `|` and `.` above two, and every subtree
/// is of that form. No node holds a parenthesis.
pub open spec fn well_formed(tree: BinTree<TreeNode>) -> bool
    decreases tree,
{
    match tree {
        BinTree::Empty => false,
        BinTree::NonEmpty(node) => match node.element.1 {
            Symbol::Value(_) => node.left_tree is Empty && node.right_tree is Empty,
            Symbol::Operator(operator) => if operator.spec_is_unary() {
                well_formed(node.left_tree) && node.right_tree is Empty
            } else if operator.spec_is_binary() {
                well_formed(node.left_tree) && well_formed(node.right_tree)
            } else {
                false
            },
        },
    }
}

/// Every tree on the stack of a build is the tree of an expression.
pub proof fn lemma_built_well_formed(symbols: Seq<Symbol>)
    ensures
        built(symbols) matches Some(build) ==> forall|i: int|
            0 <= i < build.trees.len() ==> well_formed(#[trigger] build.trees[i]),
    decreases symbols.len(),
{
    if symbols.len() > 0 {
        lemma_built_well_formed(symbols.drop_last());
    }
}

/// The tree of a postfix sequence is the tree of an expression.
pub proof fn lemma_tree_of_well_formed(symbols: Seq<Symbol>)
    ensures
        tree_of(symbols) matches Ok(tree) ==> well_formed(tree),
{
    lemma_built_well_formed(symbols);
}

/// The number of operators of two operands among `held`.
pub open spec fn pending(held: Seq<Operator>) -> nat
    decreases held.len(),
{
    if held.len() == 0 {
        0
    } else {
        pending(held.drop_last()) + if held.last().spec_is_binary() {
            1nat
        } else {
            0nat
        }
    }
}

/// Whether no `)` is held back.
pub open spec fn no_closing(held: Seq<Operator>) -> bool {
    forall|i: int| 0 <= i < held.len() ==> !((#[trigger] held[i]).kind is ClosingParenthesis)
}

/// How many trees the tokens given out build beyond those that the operators
/// held back will take away; nothing where the tokens cannot be placed.
pub open spec fn surplus(held: Seq<Operator>, given: Seq<Symbol>) -> Option<int> {
    match built(given) {
        Some(build) => Some(build.trees.len() - pending(held)),
        None => None,
    }
}

/// Whether a conversion is on its way to one tree: no `)` is held back, and
/// the tokens given out build as many trees as the operators held back take
/// away, and one more where an operand is complete.
pub open spec fn balanced(state: Conversion) -> bool {
    &&& no_closing(state.held)
    &&& surplus(state.held, state.given) == Some(
        if state.before is Nothing {
            0int
        } else {
            1int
        },
    )
}

proof fn lemma_place_operator(held: Seq<Operator>, given: Seq<Symbol>)
    requires
        held.len() > 0,
        no_closing(held),
        !(held.last().kind is OpeningParenthesis),
        surplus(held, given) matches Some(d) && d >= 1,
    ensures
        surplus(held.drop_last(), given.push(Symbol::Operator(held.last()))) == surplus(
            held,
            given,
        ),
        no_closing(held.drop_last()),
{
    let top = held.last();
    assert(!(held[held.len() - 1].kind is ClosingParenthesis));
    assert(given.push(Symbol::Operator(top)).drop_last() =~= given);
    assert forall|i: int| 0 <= i < held.drop_last().len() implies !((
    #[trigger] held.drop_last()[i]).kind is ClosingParenthesis) by {
        assert(held.drop_last()[i] == held[i]);
    }
}

proof fn lemma_hold(held: Seq<Operator>, given: Seq<Symbol>, incoming: Operator)
    requires
        no_closing(held),
        incoming.spec_is_unary() || incoming.spec_is_binary(),
        surplus(held, given) matches Some(d) && d >= 1,
    ensures
        no_closing(hold(held, given, incoming).0),
        surplus(hold(held, given, incoming).0, hold(held, given, incoming).1) == Some(
            surplus(held, given)->0 - if incoming.spec_is_binary() {
                1int
            } else {
                0int
            },
        ),
    decreases held.len(),
{
    if held.len() > 0 && !(held.last().kind is OpeningParenthesis) && yields(
        incoming,
        held.last(),
    ) {
        lemma_place_operator(held, given);
        lemma_hold(held.drop_last(), given.push(Symbol::Operator(held.last())), incoming);
    } else {
        assert(held.push(incoming).drop_last() =~= held);
        assert forall|i: int| 0 <= i < held.push(incoming).len() implies !((
        #[trigger] held.push(incoming)[i]).kind is ClosingParenthesis) by {
            if i < held.len() {
                assert(held.push(incoming)[i] == held[i]);
            }
        }
    }
}

proof fn lemma_close(held: Seq<Operator>, given: Seq<Symbol>)
    requires
        no_closing(held),
        surplus(held, given) matches Some(d) && d >= 1,
    ensures
        close(held, given) matches Some((h, g)) ==> no_closing(h) && surplus(h, g) == surplus(
            held,
            given,
        ),
    decreases held.len(),
{
    if held.len() == 0 {
    } else if held.last().kind is OpeningParenthesis {
        assert forall|i: int| 0 <= i < held.drop_last().len() implies !((
        #[trigger] held.drop_last()[i]).kind is ClosingParenthesis) by {
            assert(held.drop_last()[i] == held[i]);
        }
    } else {
        lemma_place_operator(held, given);
        lemma_close(held.drop_last(), given.push(Symbol::Operator(held.last())));
    }
}

proof fn lemma_drain(held: Seq<Operator>, given: Seq<Symbol>)
    requires
        no_closing(held),
        surplus(held, given) matches Some(d) && d >= 1,
    ensures
        drain(held, given) matches Some(g) ==> surplus(Seq::empty(), g) == surplus(held, given),
    decreases held.len(),
{
    if held.len() == 0 {
        assert(held =~= Seq::empty());
    } else if held.last().kind is OpeningParenthesis {
    } else {
        lemma_place_operator(held, given);
        lemma_drain(held.drop_last(), given.push(Symbol::Operator(held.last())));
    }
}

proof fn lemma_join(state: Conversion)
    requires
        balanced(state),
    ensures
        no_closing(join(state).0),
        surplus(join(state).0, join(state).1) == Some(0int),
{
    if !(state.before is Nothing) {
        lemma_hold(state.held, state.given, Operator { kind: OperatorKind::Concatenation });
    }
}

proof fn lemma_advance(state: Conversion, lexeme: Option<Symbol>, index: nat, length: nat)
    requires
        balanced(state),
    ensures
        advance(state, lexeme, index, length) matches Ok(next) ==> balanced(next),
{
    match lexeme {
        None => {},
        Some(Symbol::Value(value)) => {
            lemma_join(state);
            let (held, given) = join(state);
            assert(given.push(Symbol::Value(value)).drop_last() =~= given);
        },
        Some(Symbol::Operator(operator)) => match operator.kind {
            OperatorKind::OpeningParenthesis => {
                lemma_join(state);
                let (held, given) = join(state);
                assert(held.push(operator).drop_last() =~= held);
                assert forall|i: int| 0 <= i < held.push(operator).len() implies !((
                #[trigger] held.push(operator)[i]).kind is ClosingParenthesis) by {
                    if i < held.len() {
                        assert(held.push(operator)[i] == held[i]);
                    }
                }
            },
            OperatorKind::ClosingParenthesis => {
                if !(state.before is Nothing) {
                    lemma_close(state.held, state.given);
                }
            },
            OperatorKind::Closure => {
                if state.before is Operand {
                    lemma_hold(state.held, state.given, operator);
                }
            },
            _ => {
                if !(state.before is Nothing) {
                    lemma_hold(state.held, state.given, operator);
                }
            },
        },
    }
}

proof fn lemma_convert_from(lexemes: Seq<Option<Symbol>>, index: nat, state: Conversion)
    requires
        balanced(state),
    ensures
        convert_from(lexemes, index, state) matches Ok(given) ==> tree_of(given) is Ok,
    decreases lexemes.len() - index,
{
    if index >= lexemes.len() {
        if !(state.before is Nothing) {
            lemma_drain(state.held, state.given);
        }
    } else {
        lemma_advance(state, lexemes[index as int], index, lexemes.len());
        match advance(state, lexemes[index as int], index, lexemes.len()) {
            Ok(next) => {
                lemma_convert_from(lexemes, index + 1, next);
            },
            Err(_) => {},
        }
    }
}

/// The postfix form of an expression builds a tree: one tree is left, and no
/// operator lacks an operand.
pub proof fn lemma_postfix_builds_tree(lexemes: Seq<Option<Symbol>>)
    ensures
        postfix_of(lexemes) matches Ok(given) ==> tree_of(given) matches Ok(tree) && well_formed(
            tree,
        ),
{
    let start = Conversion { held: Seq::empty(), given: Seq::empty(), before: Before::Nothing };
    lemma_convert_from(lexemes, 0, start);
    if let Ok(given) = postfix_of(lexemes) {
        lemma_tree_of_well_formed(given);
    }
}

/// The symbols among the tokens, in their order.
pub open spec fn values_of(symbols: Seq<Symbol>) -> Seq<Value>
    decreases symbols.len(),
{
    if symbols.len() == 0 {
        Seq::empty()
    } else {
        match symbols.last() {
            Symbol::Value(value) => values_of(symbols.drop_last()).push(value),
            Symbol::Operator(_) => values_of(symbols.drop_last()),
        }
    }
}

/// What the leaves of a tree hold, from the left.
pub open spec fn fringe(tree: BinTree<TreeNode>) -> Seq<TreeNode>
    decreases tree,
{
    match tree {
        BinTree::Empty => Seq::empty(),
        BinTree::NonEmpty(node) => match node.element.1 {
            Symbol::Value(_) => seq![node.element],
            Symbol::Operator(_) => fringe(node.left_tree) + fringe(node.right_tree),
        },
    }
}

/// What the leaves of the trees of a stack hold, from the bottom of the stack
/// and in each tree from the left.
pub open spec fn fringes(trees: Seq<BinTree<TreeNode>>) -> Seq<TreeNode>
    decreases trees.len(),
{
    if trees.len() == 0 {
        Seq::empty()
    } else {
        fringes(trees.drop_last()) + fringe(trees.last())
    }
}

/// The symbols as leaves, numbered from 1 in their order.
pub open spec fn numbered(values: Seq<Value>) -> Seq<TreeNode> {
    Seq::new(values.len(), |i: int| TreeNode((i + 1) as usize, Symbol::Value(values[i])))
}

/// The leaves of the trees of a build hold the symbols among the tokens in
/// their order, numbered from 1.
pub proof fn lemma_built_fringes(symbols: Seq<Symbol>)
    ensures
        built(symbols) matches Some(build) ==> build.leaves == values_of(symbols).len() && fringes(
            build.trees,
        ) == numbered(values_of(symbols)),
    decreases symbols.len(),
{
    if symbols.len() == 0 {
        assert(fringes(Seq::<BinTree<TreeNode>>::empty()) =~= numbered(Seq::<Value>::empty()));
    } else {
        lemma_built_fringes(symbols.drop_last());
        if let Some(before) = built(symbols.drop_last()) {
            if let Some(build) = built(symbols) {
                let n = before.trees.len() as int;
                let values = values_of(symbols.drop_last());
                assert(fringe(BinTree::<TreeNode>::Empty) =~= Seq::<TreeNode>::empty());
                match symbols.last() {
                    Symbol::Value(value) => {
                        assert(build.trees.drop_last() =~= before.trees);
                        assert(fringe(leaf(before.leaves + 1, value)) =~= seq![
                            TreeNode((before.leaves + 1) as usize, Symbol::Value(value)),
                        ]);
                        assert(fringes(build.trees) =~= numbered(values.push(value)));
                    },
                    Symbol::Operator(operator) => {
                        if operator.spec_is_unary() {
                            assert(build.trees.drop_last() =~= before.trees.drop_last());
                            assert(before.trees.take(n - 1) =~= before.trees.drop_last());
                            assert(fringe(build.trees.last()) =~= fringe(before.trees.last()));
                        } else {
                            let lower = before.trees.drop_last();
                            assert(build.trees.drop_last() =~= lower.drop_last());
                            assert(before.trees.take(n - 2) =~= lower.drop_last());
                            assert(lower.last() == before.trees[n - 2]);
                            assert(fringes(lower) == fringes(lower.drop_last()) + fringe(
                                lower.last(),
                            ));
                            assert(fringes(build.trees) =~= fringes(before.trees));
                        }
                    },
                }
            }
        }
    }
}

/// The leaves of the tree of a postfix sequence hold, from the left, the
/// symbols among the tokens in their order, and their positions count from 1.
pub proof fn lemma_tree_of_fringe(symbols: Seq<Symbol>)
    ensures
        tree_of(symbols) matches Ok(tree) ==> fringe(tree) == numbered(values_of(symbols)),
{
    lemma_built_fringes(symbols);
    if let Ok(tree) = tree_of(symbols) {
        let build = built(symbols)->0;
        assert(build.trees.drop_last() =~= Seq::<BinTree<TreeNode>>::empty());
        assert(fringes(build.trees.drop_last()) =~= Seq::<TreeNode>::empty());
        assert(fringes(build.trees) =~= fringe(tree));
    }
}

/// Whether the positions of the leaves of `tree` count from 1, from the left.
pub open spec fn counted(tree: BinTree<TreeNode>) -> bool {
    forall|i: int| 0 <= i < fringe(tree).len() ==> (#[trigger] fringe(tree)[i]).0 == i + 1
}

/// There are at most as many symbols among tokens as there are tokens.
pub proof fn lemma_values_of_len(symbols: Seq<Symbol>)
    ensures
        values_of(symbols).len() <= symbols.len(),
    decreases symbols.len(),
{
    if symbols.len() > 0 {
        lemma_values_of_len(symbols.drop_last());
    }
}

/// The positions of the leaves of the tree of a postfix sequence count from
/// 1, from the left.
pub proof fn lemma_tree_of_counted(symbols: Seq<Symbol>)
    requires
        symbols.len() <= usize::MAX,
    ensures
        tree_of(symbols) matches Ok(tree) ==> counted(tree),
{
    lemma_tree_of_fringe(symbols);
    lemma_values_of_len(symbols);
}

/// Whether a token may stand in a postfix form: a symbol that can stand as a
/// symbol, or an operator that is no parenthesis.
pub open spec fn proper(symbol: Symbol) -> bool {
    match symbol {
        Symbol::Value(value) => value.is_legal(),
        Symbol::Operator(operator) => operator.spec_is_unary() || operator.spec_is_binary(),
    }
}

/// Whether every token of `symbols` may stand in a postfix form.
pub open spec fn all_proper(symbols: Seq<Symbol>) -> bool {
    forall|i: int| 0 <= i < symbols.len() ==> proper(#[trigger] symbols[i])
}

/// Whether every operator held back is an operator or `(`.
pub open spec fn held_proper(held: Seq<Operator>) -> bool {
    forall|i: int|
        0 <= i < held.len() ==> (#[trigger] held[i]).spec_is_unary() || held[i].spec_is_binary()
            || held[i].kind is OpeningParenthesis
}

proof fn lemma_push_proper(given: Seq<Symbol>, symbol: Symbol)
    requires
        all_proper(given),
        proper(symbol),
    ensures
        all_proper(given.push(symbol)),
{
    assert forall|i: int| 0 <= i < given.push(symbol).len() implies proper(
        #[trigger] given.push(symbol)[i],
    ) by {
        if i < given.len() {
            assert(given.push(symbol)[i] == given[i]);
        }
    }
}

proof fn lemma_drop_held(held: Seq<Operator>)
    requires
        held_proper(held),
        held.len() > 0,
    ensures
        held_proper(held.drop_last()),
        held.last().kind is OpeningParenthesis || proper(Symbol::Operator(held.last())),
{
    assert(held[held.len() - 1].spec_is_unary() || held[held.len() - 1].spec_is_binary()
        || held[held.len() - 1].kind is OpeningParenthesis);
    assert forall|i: int| 0 <= i < held.drop_last().len() implies (
    #[trigger] held.drop_last()[i]).spec_is_unary() || held.drop_last()[i].spec_is_binary()
        || held.drop_last()[i].kind is OpeningParenthesis by {
        assert(held.drop_last()[i] == held[i]);
    }
}

proof fn lemma_push_held(held: Seq<Operator>, operator: Operator)
    requires
        held_proper(held),
        operator.spec_is_unary() || operator.spec_is_binary() || operator.kind is OpeningParenthesis,
    ensures
        held_proper(held.push(operator)),
{
    assert forall|i: int| 0 <= i < held.push(operator).len() implies (
    #[trigger] held.push(operator)[i]).spec_is_unary() || held.push(operator)[i].spec_is_binary()
        || held.push(operator)[i].kind is OpeningParenthesis by {
        if i < held.len() {
            assert(held.push(operator)[i] == held[i]);
        }
    }
}

proof fn lemma_hold_proper(held: Seq<Operator>, given: Seq<Symbol>, incoming: Operator)
    requires
        held_proper(held),
        all_proper(given),
        incoming.spec_is_unary() || incoming.spec_is_binary(),
    ensures
        held_proper(hold(held, given, incoming).0),
        all_proper(hold(held, given, incoming).1),
    decreases held.len(),
{
    if held.len() > 0 && !(held.last().kind is OpeningParenthesis) && yields(
        incoming,
        held.last(),
    ) {
        lemma_drop_held(held);
        lemma_push_proper(given, Symbol::Operator(held.last()));
        lemma_hold_proper(held.drop_last(), given.push(Symbol::Operator(held.last())), incoming);
    } else {
        lemma_push_held(held, incoming);
    }
}

proof fn lemma_close_proper(held: Seq<Operator>, given: Seq<Symbol>)
    requires
        held_proper(held),
        all_proper(given),
    ensures
        close(held, given) matches Some((h, g)) ==> held_proper(h) && all_proper(g),
        drain(held, given) matches Some(g) ==> all_proper(g),
    decreases held.len(),
{
    if held.len() > 0 {
        lemma_drop_held(held);
        if !(held.last().kind is OpeningParenthesis) {
            lemma_push_proper(given, Symbol::Operator(held.last()));
            lemma_close_proper(held.drop_last(), given.push(Symbol::Operator(held.last())));
        }
    }
}

proof fn lemma_convert_proper(lexemes: Seq<Option<Symbol>>, index: nat, state: Conversion)
    requires
        forall|i: int| 0 <= i < lexemes.len() ==> (#[trigger] lexemes[i] matches Some(symbol)
            ==> (symbol matches Symbol::Value(value) ==> value.is_legal())),
        held_proper(state.held),
        all_proper(state.given),
    ensures
        convert_from(lexemes, index, state) matches Ok(given) ==> all_proper(given),
    decreases lexemes.len() - index,
{
    let concatenation = Operator { kind: OperatorKind::Concatenation };
    lemma_close_proper(state.held, state.given);
    if index < lexemes.len() {
        if let Ok(next) = advance(state, lexemes[index as int], index, lexemes.len()) {
            lemma_hold_proper(state.held, state.given, concatenation);
            match lexemes[index as int] {
                None => {},
                Some(Symbol::Value(value)) => {
                    lemma_push_proper(join(state).1, Symbol::Value(value));
                },
                Some(Symbol::Operator(operator)) => {
                    if operator.kind is OpeningParenthesis {
                        lemma_push_held(join(state).0, operator);
                    } else if !(operator.kind is ClosingParenthesis) {
                        lemma_hold_proper(state.held, state.given, operator);
                    }
                },
            }
            lemma_convert_proper(lexemes, index + 1, next);
        }
    }
}

/// The postfix form of an expression holds symbols that can stand as symbols
/// and operators that are no parentheses, and nothing else.
pub proof fn lemma_postfix_proper(text: Seq<char>)
    ensures
        postfix_of(lexemes_of(text)) matches Ok(given) ==> all_proper(given),
{
    let lexemes = lexemes_of(text);
    assert forall|i: int| 0 <= i < lexemes.len() implies (#[trigger] lexemes[i] matches Some(symbol)
        ==> (symbol matches Symbol::Value(value) ==> value.is_legal())) by {
        lemma_read_legal(text[i]);
    }
    lemma_convert_proper(
        lexemes,
        0,
        Conversion { held: Seq::empty(), given: Seq::empty(), before: Before::Nothing },
    );
}

/// A character that is read as a symbol can stand as a symbol.
proof fn lemma_read_legal(c: char)
    ensures
        lexeme_of(c) matches Some(Symbol::Value(value)) ==> value.is_legal(),
{
}

} // verus!
