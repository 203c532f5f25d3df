use vstd::prelude::*;

verus! {

/// The ways in which a request to the engine can be rejected.
#[derive(Clone, Copy, Debug, PartialEq, Eq, Structural)]
pub enum GameError {
    /// A square index outside `0..100`, or a dimension ordinal outside `0..10`.
    InvalidCoordinate,
    /// Text that is not a coordinate or a move in the engine's notation.
    InvalidNotation,
    /// A move whose origin holds none of the eight pieces.
    NoPieceAtSource,
}

impl GameError {
    /// A short human-readable description of the error.
    pub fn message(&self) -> (text: &'static str)
        ensures
            text@ == match *self {
                GameError::InvalidCoordinate => "invalid coordinate"@,
                GameError::InvalidNotation => "invalid notation"@,
                GameError::NoPieceAtSource => "no piece to move"@,
            },
    {
        match self {
            GameError::InvalidCoordinate => "invalid coordinate",
            GameError::InvalidNotation => "invalid notation",
            GameError::NoPieceAtSource => "no piece to move",
        }
    }
}

} // verus!
