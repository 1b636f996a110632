//! The operators of an expression, with their precedence and associativity.

use super::errs::ParseExpError;
use crate::types::{sole, sole_char};
use std::cmp::Ordering;
use vstd::prelude::*;

verus! {

/// The side to which operators of one precedence group.
#[derive(PartialEq, Eq, Clone, Copy, Debug, Structural)]
pub enum Associativity {
    Left,
    Right,
}

/// A precedence: the higher number binds tighter.
#[derive(PartialEq, Eq, PartialOrd, Ord, Clone, Copy, Debug, Structural)]
pub struct Priority(pub u8);

/// Which operator it is.
#[derive(PartialEq, Eq, Clone, Copy, Debug, Structural)]
pub enum OperatorKind {
    /// `|`: one operand or the other.
    Alteration,
    /// `.`, mostly left unwritten: one operand after the other.
    Concatenation,
    /// `*`: the operand any number of times.
    Closure,
    /// `(`
    OpeningParenthesis,
    /// `)`
    ClosingParenthesis,
}

/// An operator. Its symbol, precedence and associativity follow from its kind.
#[derive(PartialEq, Eq, Clone, Copy, Debug, Structural)]
pub struct Operator {
    pub kind: OperatorKind,
}

/// The operator that `c` writes, if it writes one.
pub open spec fn operator_of(c: char) -> Option<Operator> {
    if c == '|' {
        Some(Operator { kind: OperatorKind::Alteration })
    } else if c == '.' {
        Some(Operator { kind: OperatorKind::Concatenation })
    } else if c == '*' {
        Some(Operator { kind: OperatorKind::Closure })
    } else if c == '(' {
        Some(Operator { kind: OperatorKind::OpeningParenthesis })
    } else if c == ')' {
        Some(Operator { kind: OperatorKind::ClosingParenthesis })
    } else {
        None
    }
}

/// The operator that the character `c` writes, if it writes one.
pub fn operator_of_char(c: char) -> (operator: Option<Operator>)
    ensures
        operator == operator_of(c),
{
    if c == '|' {
        Some(alteration())
    } else if c == '.' {
        Some(concatenation())
    } else if c == '*' {
        Some(closure())
    } else if c == '(' {
        Some(opening_parenthesis())
    } else if c == ')' {
        Some(closing_parenthesis())
    } else {
        None
    }
}

/// The operator `|`.
pub fn alteration() -> (operator: Operator)
    ensures
        operator == (Operator { kind: OperatorKind::Alteration }),
{
    Operator { kind: OperatorKind::Alteration }
}

/// The operator `.`.
pub fn concatenation() -> (operator: Operator)
    ensures
        operator == (Operator { kind: OperatorKind::Concatenation }),
{
    Operator { kind: OperatorKind::Concatenation }
}

/// The operator `*`.
pub fn closure() -> (operator: Operator)
    ensures
        operator == (Operator { kind: OperatorKind::Closure }),
{
    Operator { kind: OperatorKind::Closure }
}

/// The marker `(`.
pub fn opening_parenthesis() -> (operator: Operator)
    ensures
        operator == (Operator { kind: OperatorKind::OpeningParenthesis }),
{
    Operator { kind: OperatorKind::OpeningParenthesis }
}

/// The marker `)`.
pub fn closing_parenthesis() -> (operator: Operator)
    ensures
        operator == (Operator { kind: OperatorKind::ClosingParenthesis }),
{
    Operator { kind: OperatorKind::ClosingParenthesis }
}

impl Operator {
    /// The character that writes the operator.
    pub open spec fn spec_symbol(&self) -> char {
        match self.kind {
            OperatorKind::Alteration => '|',
            OperatorKind::Concatenation => '.',
            OperatorKind::Closure => '*',
            OperatorKind::OpeningParenthesis => '(',
            OperatorKind::ClosingParenthesis => ')',
        }
    }

    /// The precedence: the markers lowest, then `|`, then `.`, then `*`.
    pub open spec fn spec_priority(&self) -> Priority {
        match self.kind {
            OperatorKind::Alteration => Priority(1),
            OperatorKind::Concatenation => Priority(2),
            OperatorKind::Closure => Priority(3),
            OperatorKind::OpeningParenthesis => Priority(0),
            OperatorKind::ClosingParenthesis => Priority(0),
        }
    }

    /// `*` groups to the right, every other operator to the left.
    pub open spec fn spec_associativity(&self) -> Associativity {
        match self.kind {
            OperatorKind::Closure => Associativity::Right,
            _ => Associativity::Left,
        }
    }

    /// Whether the operator takes one operand.
    pub open spec fn spec_is_unary(&self) -> bool {
        self.kind is Closure
    }

    /// Whether the operator takes two operands.
    pub open spec fn spec_is_binary(&self) -> bool {
        self.kind is Alteration || self.kind is Concatenation
    }

    /// The symbol as a string of one character.
    pub fn symbol(&self) -> (symbol: &'static str)
        ensures
            sole(symbol@) == Some(self.spec_symbol()),
    {
        proof {
            reveal_strlit("|");
            reveal_strlit(".");
            reveal_strlit("*");
            reveal_strlit("(");
            reveal_strlit(")");
        }
        match self.kind {
            OperatorKind::Alteration => "|",
            OperatorKind::Concatenation => ".",
            OperatorKind::Closure => "*",
            OperatorKind::OpeningParenthesis => "(",
            OperatorKind::ClosingParenthesis => ")",
        }
    }

    /// The precedence.
    pub fn priority(&self) -> (priority: Priority)
        ensures
            priority == self.spec_priority(),
    {
        match self.kind {
            OperatorKind::Alteration => Priority(1),
            OperatorKind::Concatenation => Priority(2),
            OperatorKind::Closure => Priority(3),
            OperatorKind::OpeningParenthesis => Priority(0),
            OperatorKind::ClosingParenthesis => Priority(0),
        }
    }

    /// The associativity.
    pub fn associativity(&self) -> (associativity: Associativity)
        ensures
            associativity == self.spec_associativity(),
    {
        match self.kind {
            OperatorKind::Closure => Associativity::Right,
            _ => Associativity::Left,
        }
    }

    /// Whether this is the marker `(`.
    pub fn is_opening_parenthesis(&self) -> (opening: bool)
        ensures
            opening == (self.kind is OpeningParenthesis),
    {
        match self.kind {
            OperatorKind::OpeningParenthesis => true,
            _ => false,
        }
    }

    /// Whether this is the marker `)`.
    pub fn is_closing_parenthesis(&self) -> (closing: bool)
        ensures
            closing == (self.kind is ClosingParenthesis),
    {
        match self.kind {
            OperatorKind::ClosingParenthesis => true,
            _ => false,
        }
    }

    /// Whether the operator takes one operand.
    pub fn is_unary(&self) -> (unary: bool)
        ensures
            unary == self.spec_is_unary(),
    {
        match self.kind {
            OperatorKind::Closure => true,
            _ => false,
        }
    }

    /// Whether the operator takes two operands.
    pub fn is_binary(&self) -> (binary: bool)
        ensures
            binary == self.spec_is_binary(),
    {
        match self.kind {
            OperatorKind::Alteration => true,
            OperatorKind::Concatenation => true,
            _ => false,
        }
    }

    /// Reads an operator from the string of its symbol. Any other string is
    /// refused, with index 0.
    pub fn from_str(s: &str) -> (operator: Result<Operator, ParseExpError>)
        ensures
            operator == match sole(s@) {
                Some(c) => match operator_of(c) {
                    Some(op) => Ok::<Operator, ParseExpError>(op),
                    None => Err(ParseExpError { index: 0 }),
                },
                None => Err(ParseExpError { index: 0 }),
            },
    {
        match sole_char(s) {
            Some(c) => match operator_of_char(c) {
                Some(op) => Ok(op),
                None => Err(ParseExpError::new(0)),
            },
            None => Err(ParseExpError::new(0)),
        }
    }
}

impl PartialOrd for Operator {
    /// Operators are ordered by precedence. Two different operators of one
    /// precedence, which only the two markers are, do not compare.
    fn partial_cmp(&self, other: &Self) -> (order: Option<Ordering>) {
        let mine = self.priority().0;
        let theirs = other.priority().0;
        if self.kind == other.kind {
            Some(Ordering::Equal)
        } else if mine < theirs {
            Some(Ordering::Less)
        } else if mine > theirs {
            Some(Ordering::Greater)
        } else {
            None
        }
    }
}

impl vstd::std_specs::cmp::PartialOrdSpecImpl for Operator {
    open spec fn obeys_partial_cmp_spec() -> bool {
        true
    }

    open spec fn partial_cmp_spec(&self, other: &Self) -> Option<Ordering> {
        if self.kind == other.kind {
            Some(Ordering::Equal)
        } else if self.spec_priority().0 < other.spec_priority().0 {
            Some(Ordering::Less)
        } else if self.spec_priority().0 > other.spec_priority().0 {
            Some(Ordering::Greater)
        } else {
            None
        }
    }
}

/// Whether `s` is the symbol of an operator or of a parenthesis.
pub fn is_operator(s: &str) -> (found: bool)
    ensures
        found == (sole(s@) matches Some(c) && operator_of(c) is Some),
{
    match sole_char(s) {
        Some(c) => operator_of_char(c).is_some(),
        None => false,
    }
}

/// Whether `s` is the symbol of the operator that takes one operand.
pub fn is_unary_operator(s: &str) -> (found: bool)
    ensures
        found == (sole(s@) == Some('*')),
{
    match sole_char(s) {
        Some(c) => c == '*',
        None => false,
    }
}

/// Whether `s` is the symbol of an operator that takes two operands.
pub fn is_binary_operator(s: &str) -> (found: bool)
    ensures
        found == (sole(s@) == Some('|') || sole(s@) == Some('.')),
{
    match sole_char(s) {
        Some(c) => c == '|' || c == '.',
        None => false,
    }
}

/// Whether `s` is `(`.
pub fn is_opening_parenthesis(s: &str) -> (found: bool)
    ensures
        found == (sole(s@) == Some('(')),
{
    match sole_char(s) {
        Some(c) => c == '(',
        None => false,
    }
}

/// Whether `s` is `)`.
pub fn is_closing_parenthesis(s: &str) -> (found: bool)
    ensures
        found == (sole(s@) == Some(')')),
{
    match sole_char(s) {
        Some(c) => c == ')',
        None => false,
    }
}

/// Whether the operator groups to the left.
pub fn is_left_associative(operator: &Operator) -> (left: bool)
    ensures
        left == (operator.spec_associativity() is Left),
{
    match operator.associativity() {
        Associativity::Left => true,
        Associativity::Right => false,
    }
}

/// Whether the operator groups to the right.
pub fn is_right_associative(operator: &Operator) -> (right: bool)
    ensures
        right == (operator.spec_associativity() is Right),
{
    match operator.associativity() {
        Associativity::Left => false,
        Associativity::Right => true,
    }
}

} // verus!
