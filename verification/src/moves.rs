use std::ops::Range;
use vstd::prelude::*;

use crate::board::{applied, board_shape, has_piece, Board, BoardView, Move, TileState};
use crate::coord::Coord;
use crate::geometry::MoveTable;
use crate::reach::{reachable, reachable_is_short, seen, ReachableIterator};

verus! {

/// The moves from `origin` to `dest` that shoot at `targets`, one for each
/// target and in the same order.
pub open spec fn with_arrows(origin: Coord, dest: Coord, targets: Seq<Coord>) -> Seq<Move> {
    Seq::new(targets.len(), |k: int| Move(origin, dest, targets[k]))
}

/// The squares that the piece from `origin` can shoot at once it stands on
/// `dest`: what one queen move from `dest` reaches when the square that the
/// piece left counts as empty.
pub open spec fn arrow_targets(tiles: Seq<TileState>, origin: Coord, dest: Coord) -> Seq<Coord> {
    reachable(seen(tiles, Some(origin)), dest)
}

/// The moves of the piece on `origin` that land on one of `dests`:
/// destination by destination, and for each destination arrow by arrow.
pub open spec fn moves_via(tiles: Seq<TileState>, origin: Coord, dests: Seq<Coord>) -> Seq<Move>
    decreases dests.len(),
{
    if dests.len() == 0 {
        Seq::empty()
    } else {
        with_arrows(origin, dests[0], arrow_targets(tiles, origin, dests[0])) + moves_via(
            tiles,
            origin,
            dests.drop_first(),
        )
    }
}

/// The legal moves of the piece that stands on `origin`, in the order in
/// which they are enumerated.
pub open spec fn piece_moves(tiles: Seq<TileState>, origin: Coord) -> Seq<Move> {
    moves_via(tiles, origin, reachable(tiles, origin))
}

/// The legal moves of the pieces in the roster slots `lo..hi`, slot by
/// slot.
pub open spec fn roster_moves(b: BoardView, lo: int, hi: int) -> Seq<Move>
    decreases hi - lo,
{
    if lo >= hi {
        Seq::empty()
    } else {
        piece_moves(b.tiles, b.pieces[lo]) + roster_moves(b, lo + 1, hi)
    }
}

/// The legal moves of one side: White's pieces fill the slots `0..4`,
/// Black's the slots `4..8`.
pub open spec fn side_moves(b: BoardView, white: bool) -> Seq<Move> {
    if white {
        roster_moves(b, 0, 4)
    } else {
        roster_moves(b, 4, 8)
    }
}

/// Each move of `moves` paired with the position that it leads to from `b`.
pub open spec fn with_boards(b: BoardView, moves: Seq<Move>) -> Seq<(Move, BoardView)> {
    Seq::new(moves.len(), |k: int| (moves[k], applied(b, moves[k])))
}

/// A piece has at most 72 destinations with at most 72 arrows each.
pub proof fn moves_via_is_short(tiles: Seq<TileState>, origin: Coord, dests: Seq<Coord>)
    ensures
        moves_via(tiles, origin, dests).len() <= 72 * dests.len(),
    decreases dests.len(),
{
    if dests.len() > 0 {
        reachable_is_short(seen(tiles, Some(origin)), dests[0], 0);
        moves_via_is_short(tiles, origin, dests.drop_first());
    }
}

/// A piece has at most 5184 moves.
pub proof fn piece_moves_is_short(tiles: Seq<TileState>, origin: Coord)
    ensures
        piece_moves(tiles, origin).len() <= 5184,
{
    reachable_is_short(tiles, origin, 0);
    moves_via_is_short(tiles, origin, reachable(tiles, origin));
}

/// The pieces of `hi - lo` slots have at most 5184 moves each.
pub proof fn roster_moves_is_short(b: BoardView, lo: int, hi: int)
    requires
        lo <= hi,
    ensures
        roster_moves(b, lo, hi).len() <= 5184 * (hi - lo),
    decreases hi - lo,
{
    if lo < hi {
        piece_moves_is_short(b.tiles, b.pieces[lo]);
        roster_moves_is_short(b, lo + 1, hi);
    }
}

/// Every move enumerated for a piece starts on the piece's square.
pub proof fn moves_via_start_at_origin(
    tiles: Seq<TileState>,
    origin: Coord,
    dests: Seq<Coord>,
    k: int,
)
    requires
        0 <= k < moves_via(tiles, origin, dests).len(),
    ensures
        moves_via(tiles, origin, dests)[k].0 == origin,
    decreases dests.len(),
{
    let first = with_arrows(origin, dests[0], arrow_targets(tiles, origin, dests[0]));
    if k >= first.len() {
        moves_via_start_at_origin(tiles, origin, dests.drop_first(), k - first.len());
    }
}

/// Every move enumerated for the slots `lo..hi` starts on the square of a
/// piece of the roster.
pub proof fn roster_moves_start_at_piece(b: BoardView, lo: int, hi: int, k: int)
    requires
        0 <= lo <= hi <= b.pieces.len(),
        0 <= k < roster_moves(b, lo, hi).len(),
    ensures
        has_piece(b.pieces, roster_moves(b, lo, hi)[k].0),
    decreases hi - lo,
{
    let first = piece_moves(b.tiles, b.pieces[lo]);
    if k < first.len() {
        moves_via_start_at_origin(b.tiles, b.pieces[lo], reachable(b.tiles, b.pieces[lo]), k);
        assert(b.pieces[lo] == roster_moves(b, lo, hi)[k].0);
    } else {
        roster_moves_start_at_piece(b, lo + 1, hi, k - first.len());
    }
}

/// A lazy enumeration of the legal moves of one piece: destination by
/// destination in the order of the reachable squares, and for each
/// destination every arrow in the order of the squares reachable from it
/// with the piece picked up.
#[derive(Clone, Copy)]
pub struct PieceMoveIterator<'a> {
    board: &'a Board,
    table: &'a MoveTable,
    origin: Coord,
    dests: ReachableIterator<'a>,
    dest: Coord,
    shots: ReachableIterator<'a>,
}

impl<'a> PieceMoveIterator<'a> {
    /// The moves that the enumeration has yet to yield, in order.
    pub closed spec fn remaining(&self) -> Seq<Move> {
        with_arrows(self.origin, self.dest, self.shots.remaining()) + moves_via(
            self.board@.tiles,
            self.origin,
            self.dests.remaining(),
        )
    }

    /// Starts the enumeration of the moves of the piece in roster slot
    /// `piece_idx`.
    pub fn new(board: &'a Board, table: &'a MoveTable, piece_idx: usize) -> (it: Self)
        requires
            piece_idx < 8,
        ensures
            it.remaining() == piece_moves(board@.tiles, board@.pieces[piece_idx as int]),
    {
        let origin: Coord = board.piece(piece_idx);
        let it = PieceMoveIterator {
            board,
            table,
            origin,
            dests: board.reachable_squares(table, &origin),
            dest: origin,
            shots: ReachableIterator::finished(board, table, &origin),
        };
        assert(it.remaining() =~= piece_moves(board@.tiles, origin));
        it
    }

    /// Yields the next move of the piece, or `None` once all have been
    /// yielded.
    pub fn next(&mut self) -> (r: Option<Move>)
        ensures
            old(self).remaining().len() == 0 ==> r is None && final(self).remaining()
                == old(self).remaining(),
            old(self).remaining().len() > 0 ==> r == Some(old(self).remaining()[0])
                && final(self).remaining() == old(self).remaining().drop_first(),
    {
        loop
            invariant
                self.board == old(self).board,
                self.table == old(self).table,
                self.origin == old(self).origin,
                self.remaining() == old(self).remaining(),
            decreases self.dests.remaining().len(),
        {
            let ghost before = self.remaining();
            let ghost shots_before = self.shots.remaining();
            match self.shots.next() {
                Some(arrow) => {
                    proof {
                        assert(before[0] == Move(self.origin, self.dest, arrow));
                        assert(self.remaining() =~= before.drop_first());
                    }
                    return Some(Move(self.origin, self.dest, arrow));
                },
                None => {},
            }
            let ghost dests_before = self.dests.remaining();
            match self.dests.next() {
                Some(dest) => {
                    self.dest = dest;
                    self.shots = ReachableIterator::new(
                        self.board,
                        self.table,
                        &dest,
                        Some(self.origin),
                    );
                    proof {
                        assert(before =~= moves_via(
                            self.board@.tiles,
                            self.origin,
                            dests_before,
                        ));
                        assert(self.remaining() =~= before);
                    }
                },
                None => {
                    assert(before =~= Seq::<Move>::empty());
                    return None;
                },
            }
        }
    }
}

/// A lazy enumeration of the legal moves of the pieces in a range of
/// roster slots: piece by piece, each piece's moves in its own order.
#[derive(Clone, Copy)]
pub struct MoveIterator<'a> {
    board: &'a Board,
    table: &'a MoveTable,
    next_slot: usize,
    end: usize,
    piece: PieceMoveIterator<'a>,
}

impl<'a> MoveIterator<'a> {
    #[verifier::type_invariant]
    spec fn wf(&self) -> bool {
        &&& self.next_slot <= self.end <= 8
        &&& self.piece.remaining().len() <= 5184
    }

    /// The position whose moves are enumerated.
    pub closed spec fn position(&self) -> BoardView {
        self.board@
    }

    /// The moves that the enumeration has yet to yield, in order.
    pub closed spec fn remaining(&self) -> Seq<Move> {
        self.piece.remaining() + roster_moves(self.board@, self.next_slot as int, self.end as int)
    }

    /// Starts the enumeration of the moves of the pieces in the slots of
    /// `range`, which must name at least one slot.
    pub fn new(board: &'a Board, table: &'a MoveTable, range: Range<usize>) -> (it: Self)
        requires
            range.start < range.end <= 8,
        ensures
            it.remaining() == roster_moves(board@, range.start as int, range.end as int),
            it.position() == board@,
    {
        proof {
            piece_moves_is_short(board@.tiles, board@.pieces[range.start as int]);
        }
        MoveIterator {
            board,
            table,
            next_slot: range.start + 1,
            end: range.end,
            piece: PieceMoveIterator::new(board, table, range.start),
        }
    }

    /// Yields the next move, or `None` once all have been yielded.
    pub fn next(&mut self) -> (r: Option<Move>)
        ensures
            final(self).position() == old(self).position(),
            old(self).remaining().len() == 0 ==> r is None && final(self).remaining()
                == old(self).remaining(),
            old(self).remaining().len() > 0 ==> r == Some(old(self).remaining()[0])
                && final(self).remaining() == old(self).remaining().drop_first(),
    {
        proof {
            use_type_invariant(&*self);
        }
        loop
            invariant
                self.wf(),
                self.board == old(self).board,
                self.table == old(self).table,
                self.remaining() == old(self).remaining(),
            decreases self.end - self.next_slot,
        {
            let ghost before = self.remaining();
            let mut piece = self.piece;
            match piece.next() {
                Some(mov) => {
                    self.piece = piece;
                    proof {
                        assert(self.remaining() =~= before.drop_first());
                    }
                    return Some(mov);
                },
                None => {},
            }
            if self.next_slot < self.end {
                proof {
                    piece_moves_is_short(self.board@.tiles, self.board@.pieces[self.next_slot as int]);
                }
                self.piece = PieceMoveIterator::new(self.board, self.table, self.next_slot);
                self.next_slot += 1;
                assert(self.remaining() =~= before);
            } else {
                assert(before =~= Seq::<Move>::empty());
                return None;
            }
        }
    }

    /// No more than 46656 moves are left to yield.
    proof fn remaining_is_short(&self)
        requires
            self.wf(),
        ensures
            self.remaining().len() <= 46656,
    {
        roster_moves_is_short(self.board@, self.next_slot as int, self.end as int);
    }

    /// Walks to the end and counts the moves that were left to yield.
    pub fn count(self) -> (n: usize)
        ensures
            n == self.remaining().len(),
    {
        let mut it = self;
        let mut n: usize = 0;
        proof {
            use_type_invariant(&it);
            it.remaining_is_short();
        }
        loop
            invariant
                n + it.remaining().len() == self.remaining().len(),
                self.remaining().len() <= 46656,
            ensures
                n == self.remaining().len(),
            decreases it.remaining().len(),
        {
            match it.next() {
                Some(_) => {
                    n += 1;
                },
                None => {
                    break ;
                },
            }
        }
        n
    }

    /// Walks to the end and collects the moves that were left to yield.
    pub fn collect(self) -> (v: Vec<Move>)
        ensures
            v@ == self.remaining(),
    {
        let mut it = self;
        let mut v: Vec<Move> = Vec::new();
        loop
            invariant
                v@ + it.remaining() == self.remaining(),
            ensures
                v@ == self.remaining(),
            decreases it.remaining().len(),
        {
            match it.next() {
                Some(mov) => {
                    proof {
                        let before = v@;
                        assert(before.push(mov) + it.remaining() =~= self.remaining());
                    }
                    v.push(mov);
                },
                None => {
                    assert(v@ + it.remaining() =~= v@);
                    break ;
                },
            }
        }
        v
    }
}

/// A lazy enumeration of the legal moves of the pieces in a range of
/// roster slots, each with the position that it leads to. Every position
/// is a fresh copy of the board with the move applied.
#[derive(Clone, Copy)]
pub struct MoveBoardIterator<'a> {
    board: &'a Board,
    moves: MoveIterator<'a>,
}

impl<'a> MoveBoardIterator<'a> {
    #[verifier::type_invariant]
    spec fn wf(&self) -> bool {
        &&& self.moves.position() == self.board@
        &&& forall|k: int|
            0 <= k < self.moves.remaining().len() ==> has_piece(
                self.board@.pieces,
                (#[trigger] self.moves.remaining()[k]).0,
            )
    }

    /// The moves and positions that the enumeration has yet to yield, in
    /// order.
    pub closed spec fn remaining(&self) -> Seq<(Move, BoardView)> {
        with_boards(self.board@, self.moves.remaining())
    }

    /// Starts the enumeration of the moves of the pieces in the slots of
    /// `range`, which must name at least one slot.
    pub fn new(board: &'a Board, table: &'a MoveTable, range: Range<usize>) -> (it: Self)
        requires
            range.start < range.end <= 8,
        ensures
            it.remaining() == with_boards(
                board@,
                roster_moves(board@, range.start as int, range.end as int),
            ),
    {
        proof {
            broadcast use board_shape;

            assert forall|k: int|
                0 <= k < roster_moves(
                    board@,
                    range.start as int,
                    range.end as int,
                ).len() implies has_piece(
                board@.pieces,
                (#[trigger] roster_moves(board@, range.start as int, range.end as int)[k]).0,
            ) by {
                roster_moves_start_at_piece(board@, range.start as int, range.end as int, k);
            }
        }
        MoveBoardIterator { board, moves: MoveIterator::new(board, table, range) }
    }

    /// Yields the next move with the position that it leads to, or `None`
    /// once all have been yielded.
    pub fn next(&mut self) -> (r: Option<(Move, Board)>)
        ensures
            old(self).remaining().len() == 0 ==> r is None && final(self).remaining()
                == old(self).remaining(),
            old(self).remaining().len() > 0 ==> final(self).remaining() == old(
                self,
            ).remaining().drop_first() && (r matches Some((mov, next)) && (mov, next@) == old(
                self,
            ).remaining()[0]),
    {
        proof {
            use_type_invariant(&*self);
        }
        let ghost before = self.moves.remaining();
        let mut moves = self.moves;
        match moves.next() {
            Some(mov) => {
                proof {
                    assert(mov == before[0]);
                    assert forall|k: int| 0 <= k < moves.remaining().len() implies has_piece(
                        self.board@.pieces,
                        (#[trigger] moves.remaining()[k]).0,
                    ) by {
                        assert(moves.remaining()[k] == before[k + 1]);
                    }
                }
                self.moves = moves;
                proof {
                    assert(self.remaining() =~= old(self).remaining().drop_first());
                }
                let next: Board = self.board.after(&mov).unwrap();
                Some((mov, next))
            },
            None => None,
        }
    }
}

impl Board {
    /// The legal moves of the pieces in the roster slots of `range`, which
    /// must name at least one slot, as a lazy enumeration.
    pub fn moves<'a>(&'a self, table: &'a MoveTable, range: Range<usize>) -> (it: MoveIterator<
        'a,
    >)
        requires
            range.start < range.end <= 8,
        ensures
            it.remaining() == roster_moves(self@, range.start as int, range.end as int),
            it.position() == self@,
    {
        MoveIterator::new(self, table, range)
    }

    /// White's legal moves, as a lazy enumeration.
    pub fn white_moves<'a>(&'a self, table: &'a MoveTable) -> (it: MoveIterator<'a>)
        ensures
            it.remaining() == side_moves(self@, true),
            it.position() == self@,
    {
        self.moves(table, 0..4)
    }

    /// Black's legal moves, as a lazy enumeration.
    pub fn black_moves<'a>(&'a self, table: &'a MoveTable) -> (it: MoveIterator<'a>)
        ensures
            it.remaining() == side_moves(self@, false),
            it.position() == self@,
    {
        self.moves(table, 4..8)
    }

    /// The legal moves of the pieces in the roster slots of `range`, which
    /// must name at least one slot, each with the position it leads to, as
    /// a lazy enumeration.
    pub fn moves_boards<'a>(&'a self, table: &'a MoveTable, range: Range<usize>) -> (it:
        MoveBoardIterator<'a>)
        requires
            range.start < range.end <= 8,
        ensures
            it.remaining() == with_boards(
                self@,
                roster_moves(self@, range.start as int, range.end as int),
            ),
    {
        MoveBoardIterator::new(self, table, range)
    }

    /// White's legal moves, each with the position it leads to, as a lazy
    /// enumeration.
    pub fn white_moves_boards<'a>(&'a self, table: &'a MoveTable) -> (it: MoveBoardIterator<'a>)
        ensures
            it.remaining() == with_boards(self@, side_moves(self@, true)),
    {
        self.moves_boards(table, 0..4)
    }

    /// Black's legal moves, each with the position it leads to, as a lazy
    /// enumeration.
    pub fn black_moves_boards<'a>(&'a self, table: &'a MoveTable) -> (it: MoveBoardIterator<'a>)
        ensures
            it.remaining() == with_boards(self@, side_moves(self@, false)),
    {
        self.moves_boards(table, 4..8)
    }
}

} // verus!
