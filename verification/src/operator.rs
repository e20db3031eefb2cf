//! The closed vocabulary of state-mutation operators.
use vstd::prelude::*;
use crate::text::str_eq;
use crate::ValidationError;

verus! {

/// A mutation operator of the state-mutation language.
#[derive(Debug, Clone, Copy, PartialEq, Eq, Structural)]
pub enum Operator {
    ADD,
    SUB,
    SET,
}

impl Operator {
    /// The operator a token denotes: exactly the three tokens `+=`, `-=`,
    /// `=` are accepted; anything else is refused.
    pub open spec fn spec_parse(s: Seq<char>) -> Result<Operator, ValidationError> {
        if s == "+="@ {
            Ok(Operator::ADD)
        } else if s == "-="@ {
            Ok(Operator::SUB)
        } else if s == "="@ {
            Ok(Operator::SET)
        } else {
            Err(ValidationError::ParseError)
        }
    }

    /// Parses a mutation operator token.
    pub fn parse(op: &str) -> (r: Result<Operator, ValidationError>)
        ensures
            r == Self::spec_parse(op@),
    {
        if str_eq(op, "+=") {
            Ok(Operator::ADD)
        } else if str_eq(op, "-=") {
            Ok(Operator::SUB)
        } else if str_eq(op, "=") {
            Ok(Operator::SET)
        } else {
            Err(ValidationError::ParseError)
        }
    }
}

} // verus!
