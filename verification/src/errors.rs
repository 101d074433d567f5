//! The closed set of failure kinds, each carrying the location where the
//! failure was detected.
use vstd::prelude::*;

use crate::location::Location;
use crate::tokens::TokenKind;

verus! {

/// Every way a tokenize or parse call can fail. The first failure aborts the
/// whole call; no partial result is returned.
#[derive(Debug, Clone, Copy, PartialEq, Eq, Structural)]
pub enum MomoaError {
    /// An illegal character for the current lexical context, at its own
    /// position.
    UnexpectedCharacter { c: char, loc: Location },
    /// Input ran out while a token or grammar production required more, at
    /// the position one past the last consumed character.
    UnexpectedEndOfInput { loc: Location },
    /// A node resulted that the grammar considered structurally invalid.
    /// Defensive: unreachable through the documented grammar.
    UnexpectedElement { loc: Location },
    /// A valid token in a grammatically invalid position, at its start.
    UnexpectedToken { unexpected: TokenKind, loc: Location },
    /// A specific required token kind was absent in favor of another.
    MissingExpectedToken { expected: TokenKind, unexpected: TokenKind, loc: Location },
}

impl MomoaError {
    /// The location at which the failure was detected, whatever its kind.
    pub open spec fn spec_loc(self) -> Location {
        match self {
            MomoaError::UnexpectedCharacter { loc, .. } => loc,
            MomoaError::UnexpectedEndOfInput { loc } => loc,
            MomoaError::UnexpectedElement { loc } => loc,
            MomoaError::UnexpectedToken { loc, .. } => loc,
            MomoaError::MissingExpectedToken { loc, .. } => loc,
        }
    }

    pub fn loc(&self) -> (r: Location)
        ensures
            r == self.spec_loc(),
    {
        match self {
            MomoaError::UnexpectedCharacter { loc, .. } => *loc,
            MomoaError::UnexpectedEndOfInput { loc } => *loc,
            MomoaError::UnexpectedElement { loc } => *loc,
            MomoaError::UnexpectedToken { loc, .. } => *loc,
            MomoaError::MissingExpectedToken { loc, .. } => *loc,
        }
    }
}

} // verus!
