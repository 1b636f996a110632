//! The symbols that an expression is written over.

use super::errs::ParseExpError;
use super::ops::{operator_of, operator_of_char};
use crate::types::{sole, sole_char};
use vstd::prelude::*;

verus! {

/// One symbol of the alphabet, or the end marker.
#[derive(PartialEq, Eq, PartialOrd, Clone, Copy, Debug, Structural)]
pub struct Value {
    pub symbol: char,
}

/// The symbol that stands for the empty word.
pub const EMPTY_SYMBOL: char = '\u{3b5}';

/// The end marker, which closes an augmented expression.
pub const SPECIAL_SYMBOL: char = '#';

/// What `char::is_alphabetic` returns for `c`: whether `c` has the Unicode
/// property Alphabetic.
pub uninterp spec fn alphabetic(c: char) -> bool;

/// `char::is_alphabetic` of std looks `c` up in the Unicode tables that it was
/// built with. The result depends on `c` alone and is known here only by its
/// name, `alphabetic(c)`.
pub assume_specification[ char::is_alphabetic ](c: char) -> (letter: bool)
    ensures
        letter == alphabetic(c),
;

/// Whether `c` can stand as a symbol, where `letter` says whether it is
/// alphabetic: it writes no operator, and is a letter, the end marker or the
/// symbol of the empty word.
pub open spec fn legal_symbol(c: char, letter: bool) -> bool {
    operator_of(c) is None && (c == SPECIAL_SYMBOL || c == EMPTY_SYMBOL || letter)
}

/// Whether `c` can stand as a symbol.
pub open spec fn value_char(c: char) -> bool {
    legal_symbol(c, alphabetic(c))
}

/// Whether `c` can stand as a symbol, where `letter` says whether it is
/// alphabetic.
pub fn is_legal_symbol(c: char, letter: bool) -> (legal: bool)
    ensures
        legal == legal_symbol(c, letter),
{
    operator_of_char(c).is_none() && (c == SPECIAL_SYMBOL || c == EMPTY_SYMBOL || letter)
}

/// Whether `c` can stand as a symbol.
pub fn is_value_char(c: char) -> (legal: bool)
    ensures
        legal == value_char(c),
{
    is_legal_symbol(c, c.is_alphabetic())
}

impl Value {
    /// The symbol of the empty word, as a string.
    pub const EMPTY: &'static str = "\u{3b5}";

    /// The end marker, as a string.
    pub const SPECIAL: &'static str = "#";

    /// Whether the symbol is one that `from_str` accepts.
    pub open spec fn is_legal(&self) -> bool {
        value_char(self.symbol)
    }

    /// The symbol of the empty word.
    pub fn new() -> (value: Self)
        ensures
            value.symbol == EMPTY_SYMBOL,
            value.is_legal(),
    {
        Value { symbol: EMPTY_SYMBOL }
    }

    /// Reads a symbol from a string of exactly one character that can stand
    /// as a symbol. Any other string is refused, with index 0.
    pub fn from_str(s: &str) -> (value: Result<Value, ParseExpError>)
        ensures
            value == match sole(s@) {
                Some(c) if value_char(c) => Ok::<Value, ParseExpError>(Value { symbol: c }),
                _ => Err(ParseExpError { index: 0 }),
            },
    {
        match sole_char(s) {
            Some(c) => if is_value_char(c) {
                Ok(Value { symbol: c })
            } else {
                Err(ParseExpError::new(0))
            },
            None => Err(ParseExpError::new(0)),
        }
    }

    /// Reads a symbol from a string that holds one.
    pub fn from_valid_str(s: &str) -> (value: Self)
        requires
            sole(s@) matches Some(c) && value_char(c),
        ensures
            sole(s@) == Some(value.symbol),
            value.is_legal(),
    {
        match sole_char(s) {
            Some(c) => Value { symbol: c },
            None => Value { symbol: SPECIAL_SYMBOL },
        }
    }

    /// The symbol.
    pub fn symbol(&self) -> (symbol: char)
        ensures
            symbol == self.symbol,
    {
        self.symbol
    }
}

/// Whether `s` is one character that can stand as a symbol.
pub fn is_value(s: &str) -> (found: bool)
    ensures
        found == (sole(s@) matches Some(c) && value_char(c)),
{
    match sole_char(s) {
        Some(c) => is_value_char(c),
        None => false,
    }
}

} // verus!
