use vstd::prelude::*;

use crate::error::GameError;

verus! {

/// One of the ten positions along an axis of the board.
///
/// The same type serves for columns (`A` is the file `a`) and for rows
/// (`A` is the rank `1`).
#[derive(Clone, Copy, Debug, PartialEq, Eq, Structural)]
pub enum Dim {
    A,
    B,
    C,
    D,
    E,
    F,
    G,
    H,
    I,
    J,
}

impl Dim {
    /// The ordinal of the dimension, `0` for `A` up to `9` for `J`.
    pub open spec fn ord(self) -> int {
        match self {
            Dim::A => 0,
            Dim::B => 1,
            Dim::C => 2,
            Dim::D => 3,
            Dim::E => 4,
            Dim::F => 5,
            Dim::G => 6,
            Dim::H => 7,
            Dim::I => 8,
            Dim::J => 9,
        }
    }

    /// The dimension with ordinal `i`; meaningful for `0 <= i < 10`.
    pub open spec fn of(i: int) -> Dim {
        if i == 0 {
            Dim::A
        } else if i == 1 {
            Dim::B
        } else if i == 2 {
            Dim::C
        } else if i == 3 {
            Dim::D
        } else if i == 4 {
            Dim::E
        } else if i == 5 {
            Dim::F
        } else if i == 6 {
            Dim::G
        } else if i == 7 {
            Dim::H
        } else if i == 8 {
            Dim::I
        } else {
            Dim::J
        }
    }

    /// The values below `self`, nearest first.
    pub open spec fn below(self) -> Seq<Dim> {
        Seq::new(self.ord() as nat, |k: int| Dim::of(self.ord() - 1 - k))
    }

    /// The values above `self`, nearest first.
    pub open spec fn above(self) -> Seq<Dim> {
        Seq::new((9 - self.ord()) as nat, |k: int| Dim::of(self.ord() + 1 + k))
    }

    /// The ordinal of the dimension as a machine integer.
    pub fn index(&self) -> (i: usize)
        ensures
            i == self.ord(),
            i < 10,
    {
        match self {
            Dim::A => 0,
            Dim::B => 1,
            Dim::C => 2,
            Dim::D => 3,
            Dim::E => 4,
            Dim::F => 5,
            Dim::G => 6,
            Dim::H => 7,
            Dim::I => 8,
            Dim::J => 9,
        }
    }

    /// The dimension with ordinal `idx`, or `InvalidCoordinate` when `idx`
    /// is not below ten.
    pub fn from_index(idx: usize) -> (r: Result<Dim, GameError>)
        ensures
            idx < 10 ==> r == Ok::<Dim, GameError>(Dim::of(idx as int)),
            idx >= 10 ==> r == Err::<Dim, GameError>(GameError::InvalidCoordinate),
    {
        match idx {
            0 => Ok(Dim::A),
            1 => Ok(Dim::B),
            2 => Ok(Dim::C),
            3 => Ok(Dim::D),
            4 => Ok(Dim::E),
            5 => Ok(Dim::F),
            6 => Ok(Dim::G),
            7 => Ok(Dim::H),
            8 => Ok(Dim::I),
            9 => Ok(Dim::J),
            _ => Err(GameError::InvalidCoordinate),
        }
    }

    /// The dimension with ordinal `idx`, for an ordinal known to be valid.
    pub(crate) fn at(idx: usize) -> (d: Dim)
        requires
            idx < 10,
        ensures
            d == Dim::of(idx as int),
            d.ord() == idx,
    {
        match idx {
            0 => Dim::A,
            1 => Dim::B,
            2 => Dim::C,
            3 => Dim::D,
            4 => Dim::E,
            5 => Dim::F,
            6 => Dim::G,
            7 => Dim::H,
            8 => Dim::I,
            _ => Dim::J,
        }
    }

    /// The values below `self` in descending order, so that the nearest
    /// comes first.
    pub fn less_than(&self) -> (v: Vec<Dim>)
        ensures
            v@ == self.below(),
    {
        let n: usize = self.index();
        let mut v: Vec<Dim> = Vec::new();
        let mut k: usize = 0;
        while k < n
            invariant
                n == self.ord(),
                k <= n,
                v@.len() == k,
                forall|j: int| 0 <= j < k ==> v@[j] == Dim::of(n - 1 - j),
            decreases n - k,
        {
            v.push(Dim::at(n - 1 - k));
            k += 1;
        }
        assert(v@ =~= self.below());
        v
    }

    /// The values above `self` in ascending order, so that the nearest
    /// comes first.
    pub fn greater_than(&self) -> (v: Vec<Dim>)
        ensures
            v@ == self.above(),
    {
        let n: usize = self.index();
        let mut v: Vec<Dim> = Vec::new();
        let mut k: usize = n + 1;
        while k < 10
            invariant
                n == self.ord(),
                n + 1 <= k <= 10,
                v@.len() == k - n - 1,
                forall|j: int| 0 <= j < v@.len() ==> v@[j] == Dim::of(n + 1 + j),
            decreases 10 - k,
        {
            v.push(Dim::at(k));
            k += 1;
        }
        assert(v@ =~= self.above());
        v
    }
}

/// A square of the board: its column, then its row.
#[derive(Clone, Copy, Debug, PartialEq, Eq, Structural)]
pub struct Coord(pub Dim, pub Dim);

impl Coord {
    /// The index of the square, `row * 10 + column`.
    pub open spec fn idx(self) -> int {
        self.1.ord() * 10 + self.0.ord()
    }

    /// The square with index `i`; meaningful for `0 <= i < 100`.
    pub open spec fn at(i: int) -> Coord {
        Coord(Dim::of(i % 10), Dim::of(i / 10))
    }

    /// Encodes the square as its index.
    pub fn index(&self) -> (i: usize)
        ensures
            i == self.idx(),
            i < 100,
    {
        self.1.index() * 10 + self.0.index()
    }

    /// Decodes an index into its square, or fails with `InvalidCoordinate`
    /// when the index is not below one hundred.
    pub fn from_index(idx: usize) -> (r: Result<Coord, GameError>)
        ensures
            idx < 100 ==> r == Ok::<Coord, GameError>(Coord::at(idx as int)),
            idx >= 100 ==> r == Err::<Coord, GameError>(GameError::InvalidCoordinate),
    {
        if idx < 100 {
            Ok(Coord(Dim::at(idx % 10), Dim::at(idx / 10)))
        } else {
            Err(GameError::InvalidCoordinate)
        }
    }

    /// The square with index `idx`, for an index known to be valid.
    pub(crate) fn square(idx: usize) -> (c: Coord)
        requires
            idx < 100,
        ensures
            c == Coord::at(idx as int),
            c.idx() == idx,
    {
        Coord(Dim::at(idx % 10), Dim::at(idx / 10))
    }
}

/// Every dimension is the one named by its own ordinal, and the ordinal
/// lies in `0..10`.
pub proof fn dim_of_ord(d: Dim)
    ensures
        0 <= d.ord() < 10,
        Dim::of(d.ord()) == d,
{
}

/// Every ordinal in `0..10` is the ordinal of the dimension it names.
pub proof fn ord_of_dim(i: int)
    requires
        0 <= i < 10,
    ensures
        Dim::of(i).ord() == i,
{
}

/// Decoding an index and encoding the square again gives the index back.
pub proof fn index_round_trip(i: int)
    requires
        0 <= i < 100,
    ensures
        Coord::at(i).idx() == i,
{
}

/// Encoding a square and decoding the index again gives the square back,
/// and the index lies in `0..100`.
pub proof fn coord_round_trip(c: Coord)
    ensures
        0 <= c.idx() < 100,
        Coord::at(c.idx()) == c,
{
}

} // verus!
