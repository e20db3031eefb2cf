//! The closed vocabulary of condition comparators.
use vstd::prelude::*;
use crate::text::str_eq;
use crate::ValidationError;

verus! {

/// A comparison operator of the condition language.
#[derive(Debug, Clone, Copy, PartialEq, Eq, Structural)]
pub enum Comparator {
    EQ,
    NEQ,
    GT,
    GEQ,
    LT,
    LEQ,
}

impl Comparator {
    /// The comparator a token denotes: exactly the six tokens `==`, `!=`,
    /// `>`, `>=`, `<`, `<=` are accepted; anything else is refused.
    pub open spec fn spec_parse(s: Seq<char>) -> Result<Comparator, ValidationError> {
        if s == "=="@ {
            Ok(Comparator::EQ)
        } else if s == "!="@ {
            Ok(Comparator::NEQ)
        } else if s == ">"@ {
            Ok(Comparator::GT)
        } else if s == ">="@ {
            Ok(Comparator::GEQ)
        } else if s == "<"@ {
            Ok(Comparator::LT)
        } else if s == "<="@ {
            Ok(Comparator::LEQ)
        } else {
            Err(ValidationError::ParseError)
        }
    }

    /// Parses a comparator token.
    pub fn parse(op: &str) -> (r: Result<Comparator, ValidationError>)
        ensures
            r == Self::spec_parse(op@),
    {
        if str_eq(op, "==") {
            Ok(Comparator::EQ)
        } else if str_eq(op, "!=") {
            Ok(Comparator::NEQ)
        } else if str_eq(op, ">") {
            Ok(Comparator::GT)
        } else if str_eq(op, ">=") {
            Ok(Comparator::GEQ)
        } else if str_eq(op, "<") {
            Ok(Comparator::LT)
        } else if str_eq(op, "<=") {
            Ok(Comparator::LEQ)
        } else {
            Err(ValidationError::ParseError)
        }
    }
}

} // verus!
