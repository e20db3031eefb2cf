//! A verified execution engine for branching interactive narratives.
//!
//! A story is a set of named passages; each passage is an ordered tree of
//! lines (text, dialogue, choices, jumps, state mutations and nested
//! conditional branches).  The runner walks a passage's flattened line
//! sequence turn by turn, silently resolving zero-output transitions until
//! an observable line is reached.
use vstd::prelude::*;

pub mod comparator;
pub mod conditional;
pub mod operator;
pub mod runner;
pub mod state;
pub mod structs;
pub mod text;
pub mod value;

verus! {

/// The two failure kinds of the expression languages: a malformed token or
/// grammar, and an operation on values of differing kinds.
#[derive(Debug, Clone, Copy, PartialEq, Eq, Structural)]
pub enum ValidationError {
    ParseError,
    TypeMismatch,
}

} // verus!
