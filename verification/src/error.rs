//! The ways in which an operation of the solver can end without a result.

use vstd::prelude::*;

verus! {

/// Why an operation did not produce a result.
#[derive(Clone, Copy, Debug, PartialEq, Eq, Structural)]
pub enum SimplexError {
    /// The text is not a linear expression or a constraint.
    ParseError,
    /// A row was to be solved for a variable whose coefficient is zero.
    DomainError,
    /// The objective can grow without limit.
    Unbounded,
    /// No pivot can improve the objective any further.
    AlreadyOptimal,
    /// The operation is not defined in the current state of the tableau.
    InvalidState,
    /// An exact result has a numerator or a denominator too large to be held.
    Overflow,
}

impl SimplexError {
    /// A short description of the error.
    pub fn message(&self) -> (r: &'static str)
        ensures
            r@ == match *self {
                SimplexError::ParseError => "malformed expression"@,
                SimplexError::DomainError => "variable has a zero coefficient"@,
                SimplexError::Unbounded => "unbounded"@,
                SimplexError::AlreadyOptimal => "already optimal"@,
                SimplexError::InvalidState => "invalid state"@,
                SimplexError::Overflow => "number out of range"@,
            },
    {
        match self {
            SimplexError::ParseError => "malformed expression",
            SimplexError::DomainError => "variable has a zero coefficient",
            SimplexError::Unbounded => "unbounded",
            SimplexError::AlreadyOptimal => "already optimal",
            SimplexError::InvalidState => "invalid state",
            SimplexError::Overflow => "number out of range",
        }
    }
}

} // verus!
