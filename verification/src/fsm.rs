//! Finite-state machines built from regular expressions.

pub mod counting;
pub mod dfsm;
pub mod error;
pub mod machine;
pub mod partition;
pub mod quotient;
pub mod synthesis;
pub mod unique;
