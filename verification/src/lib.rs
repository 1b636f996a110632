//! Direct construction of a minimal deterministic finite-state machine from a
//! regular expression.
//!
//! An expression is written over single symbols with `|` for one operand or
//! the other, `*` for any number of repetitions, parentheses, and
//! concatenation, which is mostly left unwritten. It is read in stages:
//!
//! 1. [`regexp::ast::make_rpn`] converts it to postfix form,
//! 2. [`regexp::ast::make_tree`] builds the syntax tree and numbers its leaves,
//! 3. [`regexp::params`] computes, for every node, whether it is nullable and
//!    its first, last and follow positions,
//! 4. [`fsm::dfsm::DFSM::from`] finds the states of the machine as sets of
//!    positions, and
//! 5. [`fsm::dfsm::DFSM::minimize`] joins the states that accept the same words.
//!
//! [`regexp::RegExp::from_str`] runs the first three stages on an expression
//! and puts the end marker `#` behind it.

pub mod fsm;
pub mod regexp;
pub mod trees;
pub mod types;
pub mod utils;
