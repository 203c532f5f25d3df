use vstd::prelude::*;
use vstd::std_specs::convert::{FromSpecImpl, TryFromSpecImpl};

use crate::coord::{Coord, Dim};
use crate::error::GameError;
use crate::notation::parse_coord;

verus! {

impl From<&Dim> for usize {
    /// The ordinal of the dimension.
    fn from(dim: &Dim) -> (i: usize) {
        dim.index()
    }
}

impl FromSpecImpl<&Dim> for usize {
    open spec fn obeys_from_spec() -> bool {
        true
    }

    open spec fn from_spec(dim: &Dim) -> usize {
        dim.ord() as usize
    }
}

impl From<&Coord> for usize {
    /// The index of the square.
    fn from(coord: &Coord) -> (i: usize) {
        coord.index()
    }
}

impl FromSpecImpl<&Coord> for usize {
    open spec fn obeys_from_spec() -> bool {
        true
    }

    open spec fn from_spec(coord: &Coord) -> usize {
        coord.idx() as usize
    }
}

impl TryFrom<usize> for Dim {
    type Error = GameError;

    /// The dimension with ordinal `idx`, or `InvalidCoordinate`.
    fn try_from(idx: usize) -> (r: Result<Dim, GameError>) {
        Dim::from_index(idx)
    }
}

impl TryFromSpecImpl<usize> for Dim {
    open spec fn obeys_try_from_spec() -> bool {
        true
    }

    open spec fn try_from_spec(idx: usize) -> Result<Dim, GameError> {
        if idx < 10 {
            Ok(Dim::of(idx as int))
        } else {
            Err(GameError::InvalidCoordinate)
        }
    }
}

impl TryFrom<usize> for Coord {
    type Error = GameError;

    /// The square with index `idx`, or `InvalidCoordinate`.
    fn try_from(idx: usize) -> (r: Result<Coord, GameError>) {
        Coord::from_index(idx)
    }
}

impl TryFromSpecImpl<usize> for Coord {
    open spec fn obeys_try_from_spec() -> bool {
        true
    }

    open spec fn try_from_spec(idx: usize) -> Result<Coord, GameError> {
        if idx < 100 {
            Ok(Coord::at(idx as int))
        } else {
            Err(GameError::InvalidCoordinate)
        }
    }
}

impl TryFrom<&str> for Coord {
    type Error = GameError;

    /// The square that `text` names, or `InvalidNotation`.
    fn try_from(text: &str) -> (r: Result<Coord, GameError>) {
        Coord::parse(text)
    }
}

impl TryFromSpecImpl<&str> for Coord {
    open spec fn obeys_try_from_spec() -> bool {
        true
    }

    open spec fn try_from_spec(text: &str) -> Result<Coord, GameError> {
        match parse_coord(text@) {
            Some(c) => Ok(c),
            None => Err(GameError::InvalidNotation),
        }
    }
}

} // verus!
