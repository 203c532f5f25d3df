use vstd::prelude::*;

use crate::coord::{Coord, Dim};
use crate::error::GameError;

verus! {

/// What a square of the board holds.
#[derive(Clone, Copy, Debug, PartialEq, Eq, Structural)]
pub enum TileState {
    Empty,
    White,
    Black,
    Arrow,
}

/// A move: the square the piece leaves, the square it lands on, and the
/// square its arrow blocks.
#[derive(Clone, Copy, Debug, PartialEq, Eq, Structural)]
pub struct Move(pub Coord, pub Coord, pub Coord);

/// The mathematical content of a [`Board`]: the roster of the eight pieces
/// (slots `0..4` are White, slots `4..8` are Black) and the hundred tiles,
/// indexed by [`Coord::idx`].
pub struct BoardView {
    pub pieces: Seq<Coord>,
    pub tiles: Seq<TileState>,
}

/// The colour of the piece in roster slot `slot`.
pub open spec fn side_of(slot: int) -> TileState {
    if slot < 4 {
        TileState::White
    } else {
        TileState::Black
    }
}

/// The first roster slot at or after `from` whose piece stands on `origin`,
/// or the length of the roster when there is none.
pub open spec fn slot_from(pieces: Seq<Coord>, origin: Coord, from: int) -> int
    decreases pieces.len() - from,
{
    if from >= pieces.len() {
        pieces.len() as int
    } else if pieces[from] == origin {
        from
    } else {
        slot_from(pieces, origin, from + 1)
    }
}

/// The first roster slot whose piece stands on `origin`, or the length of
/// the roster when no piece stands there.
pub open spec fn slot_of(pieces: Seq<Coord>, origin: Coord) -> int {
    slot_from(pieces, origin, 0)
}

/// Whether some piece of the roster stands on `origin`.
pub open spec fn has_piece(pieces: Seq<Coord>, origin: Coord) -> bool {
    exists|s: int| 0 <= s < pieces.len() && pieces[s] == origin
}

/// The board after `m` is applied to `b`, for a move whose origin holds a
/// piece: the origin is cleared, the piece lands on the destination, and
/// the arrow blocks its square, in this order.
pub open spec fn applied(b: BoardView, m: Move) -> BoardView {
    let slot = slot_of(b.pieces, m.0);
    BoardView {
        pieces: b.pieces.update(slot, m.1),
        tiles: b.tiles.update(m.0.idx(), TileState::Empty).update(
            m.1.idx(),
            side_of(slot),
        ).update(m.2.idx(), TileState::Arrow),
    }
}

/// The roster of the starting position: White on a4, d1, g1, j4 and Black
/// on a7, d10, g10, j7.
pub open spec fn starting_pieces() -> Seq<Coord> {
    seq![
        Coord(Dim::A, Dim::D),
        Coord(Dim::D, Dim::A),
        Coord(Dim::G, Dim::A),
        Coord(Dim::J, Dim::D),
        Coord(Dim::A, Dim::G),
        Coord(Dim::D, Dim::J),
        Coord(Dim::G, Dim::J),
        Coord(Dim::J, Dim::G),
    ]
}

/// The tiles of a board that holds the pieces of `pieces` and nothing else.
pub open spec fn tiles_with(pieces: Seq<Coord>) -> Seq<TileState> {
    Seq::new(
        100,
        |i: int|
            if pieces[0].idx() == i || pieces[1].idx() == i || pieces[2].idx() == i
                || pieces[3].idx() == i {
                TileState::White
            } else if pieces[4].idx() == i || pieces[5].idx() == i || pieces[6].idx() == i
                || pieces[7].idx() == i {
                TileState::Black
            } else {
                TileState::Empty
            },
    )
}

/// The starting position.
pub open spec fn starting_position() -> BoardView {
    BoardView { pieces: starting_pieces(), tiles: tiles_with(starting_pieces()) }
}

/// The roster and the tiles agree: every piece stands on a tile of its own
/// colour, no two pieces share a square, and every White or Black tile is
/// the square of a piece.
pub open spec fn consistent(b: BoardView) -> bool {
    &&& b.pieces.len() == 8
    &&& b.tiles.len() == 100
    &&& forall|s: int| 0 <= s < 8 ==> b.tiles[(#[trigger] b.pieces[s]).idx()] == side_of(s)
    &&& forall|s: int, t: int|
        0 <= s < 8 && 0 <= t < 8 && s != t ==> #[trigger] b.pieces[s] != #[trigger] b.pieces[t]
    &&& forall|i: int|
        0 <= i < 100 && (#[trigger] b.tiles[i] == TileState::White || b.tiles[i]
            == TileState::Black) ==> has_piece(b.pieces, Coord::at(i))
}

/// A position of the game: the roster of the eight pieces and the state of
/// every tile.
#[derive(Clone, Copy, Debug, PartialEq, Eq)]
pub struct Board {
    pieces: [Coord; 8],
    tiles: [TileState; 100],
}

impl View for Board {
    type V = BoardView;

    closed spec fn view(&self) -> BoardView {
        BoardView { pieces: self.pieces@, tiles: self.tiles@ }
    }
}

/// Every board has eight roster slots and a hundred tiles.
pub broadcast proof fn board_shape(b: Board)
    ensures
        (#[trigger] b@).pieces.len() == 8,
        b@.tiles.len() == 100,
{
}

/// What `slot_from` finds is a slot at or after `from` that holds `origin`,
/// and no earlier slot at or after `from` does; it finds one exactly when
/// one exists.
pub proof fn slot_from_finds(pieces: Seq<Coord>, origin: Coord, from: int)
    requires
        0 <= from <= pieces.len(),
    ensures
        from <= slot_from(pieces, origin, from) <= pieces.len(),
        slot_from(pieces, origin, from) < pieces.len() ==> pieces[slot_from(pieces, origin, from)]
            == origin,
        forall|s: int| from <= s < slot_from(pieces, origin, from) ==> pieces[s] != origin,
    decreases pieces.len() - from,
{
    if from < pieces.len() && pieces[from] != origin {
        slot_from_finds(pieces, origin, from + 1);
    }
}

/// `slot_of` finds a slot exactly when a piece stands on `origin`.
pub proof fn slot_of_finds(pieces: Seq<Coord>, origin: Coord)
    ensures
        0 <= slot_of(pieces, origin) <= pieces.len(),
        has_piece(pieces, origin) <==> slot_of(pieces, origin) < pieces.len(),
        slot_of(pieces, origin) < pieces.len() ==> pieces[slot_of(pieces, origin)] == origin,
        forall|s: int| 0 <= s < slot_of(pieces, origin) ==> pieces[s] != origin,
{
    slot_from_finds(pieces, origin, 0);
}

impl Default for Board {
    /// The starting position.
    fn default() -> (board: Board)
        ensures
            board@ == starting_position(),
    {
        let pieces: [Coord; 8] = [
            Coord(Dim::A, Dim::D),
            Coord(Dim::D, Dim::A),
            Coord(Dim::G, Dim::A),
            Coord(Dim::J, Dim::D),
            Coord(Dim::A, Dim::G),
            Coord(Dim::D, Dim::J),
            Coord(Dim::G, Dim::J),
            Coord(Dim::J, Dim::G),
        ];
        let mut tiles: [TileState; 100] = [TileState::Empty;100];
        let mut slot: usize = 0;
        while slot < 8
            invariant
                slot <= 8,
                pieces@ == starting_pieces(),
                forall|i: int|
                    0 <= i < 100 ==> #[trigger] tiles@[i] == if exists|s: int|
                        0 <= s < slot && s < 4 && pieces@[s].idx() == i {
                        TileState::White
                    } else if exists|s: int| 4 <= s < slot && pieces@[s].idx() == i {
                        TileState::Black
                    } else {
                        TileState::Empty
                    },
            decreases 8 - slot,
        {
            let at: usize = pieces[slot].index();
            tiles[at] = if slot < 4 {
                TileState::White
            } else {
                TileState::Black
            };
            slot += 1;
        }
        let board = Board { pieces, tiles };
        assert(board@.pieces == starting_pieces());
        assert(board@.tiles =~= tiles_with(starting_pieces()));
        board
    }
}

impl Board {
    /// The state of the tile at `c`.
    pub fn tile(&self, c: &Coord) -> (t: TileState)
        ensures
            t == self@.tiles[c.idx()],
    {
        self.tiles[c.index()]
    }

    /// The square of the piece in roster slot `slot`.
    pub fn piece(&self, slot: usize) -> (c: Coord)
        requires
            slot < 8,
        ensures
            c == self@.pieces[slot as int],
    {
        self.pieces[slot]
    }

    /// The roster slot of the piece that stands on `origin`, if any; the
    /// first such slot where the roster names the square twice.
    pub fn slot_at(&self, origin: &Coord) -> (found: Option<usize>)
        ensures
            match found {
                Some(slot) => slot < 8 && slot == slot_of(self@.pieces, *origin),
                None => !has_piece(self@.pieces, *origin),
            },
    {
        let mut slot: usize = 0;
        while slot < 8
            invariant
                slot <= 8,
                forall|s: int| 0 <= s < slot ==> self@.pieces[s] != *origin,
            decreases 8 - slot,
        {
            if self.pieces[slot] == *origin {
                proof {
                    slot_of_finds(self@.pieces, *origin);
                }
                return Some(slot);
            }
            slot += 1;
        }
        None
    }

    /// Applies `mov` without judging its legality: the piece that stands on
    /// the origin leaves it, lands on the destination, and its arrow blocks
    /// the arrow square. Fails with `NoPieceAtSource`, leaving the board as
    /// it was, when no piece stands on the origin.
    pub fn apply_move(&mut self, mov: &Move) -> (r: Result<(), GameError>)
        ensures
            has_piece(old(self)@.pieces, mov.0) ==> r is Ok && final(self)@ == applied(
                old(self)@,
                *mov,
            ),
            !has_piece(old(self)@.pieces, mov.0) ==> r == Err::<(), GameError>(
                GameError::NoPieceAtSource,
            ) && final(self)@ == old(self)@,
    {
        match self.slot_at(&mov.0) {
            None => Err(GameError::NoPieceAtSource),
            Some(slot) => {
                self.tiles[mov.0.index()] = TileState::Empty;
                self.pieces[slot] = mov.1;
                self.tiles[mov.1.index()] = if slot < 4 {
                    TileState::White
                } else {
                    TileState::Black
                };
                self.tiles[mov.2.index()] = TileState::Arrow;
                proof {
                    slot_of_finds(old(self)@.pieces, mov.0);
                    assert(self@.pieces =~= applied(old(self)@, *mov).pieces);
                    assert(self@.tiles =~= applied(old(self)@, *mov).tiles);
                }
                Ok(())
            },
        }
    }

    /// The position reached from this one by `mov`, if a piece stands on
    /// the move's origin.
    pub fn after(&self, mov: &Move) -> (r: Result<Board, GameError>)
        ensures
            has_piece(self@.pieces, mov.0) ==> r is Ok && r->Ok_0@ == applied(self@, *mov),
            !has_piece(self@.pieces, mov.0) ==> r == Err::<Board, GameError>(
                GameError::NoPieceAtSource,
            ),
    {
        let mut next: Board = *self;
        match next.apply_move(mov) {
            Ok(()) => Ok(next),
            Err(e) => Err(e),
        }
    }
}

} // verus!
