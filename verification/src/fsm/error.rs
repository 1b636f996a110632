//! The error of a stage that was handed what the stage before it cannot make.

use vstd::prelude::*;

verus! {

/// A stage met an input that breaks what it relies on: a postfix sequence
/// that does not build one tree, or leaves without an end marker.
#[derive(PartialEq, Eq, Clone, Copy, Debug, Structural)]
pub struct ParserError;

impl ParserError {
    /// What `message` returns.
    pub open spec fn spec_message() -> Seq<char> {
        "invalid regular expression"@
    }

    /// The sentence that describes the error.
    pub fn message(&self) -> (text: &'static str)
        ensures
            text@ == Self::spec_message(),
    {
        "invalid regular expression"
    }
}

} // verus!
