use vstd::prelude::*;

use crate::board::{board_shape, Board, TileState};
use crate::coord::{coord_round_trip, Coord, Dim};
use crate::geometry::{ray, ray_stops_at_edge, ray_walks_outward, MoveTable};

verus! {

/// The index of the first square of `line`, at or after `from`, whose tile
/// is not empty; the length of `line` when every square from `from` on is
/// empty.
pub open spec fn first_blocked(tiles: Seq<TileState>, line: Seq<Coord>, from: int) -> int
    decreases line.len() - from,
{
    if from >= line.len() || tiles[line[from].idx()] != TileState::Empty {
        from
    } else {
        first_blocked(tiles, line, from + 1)
    }
}

/// The squares of `line` that a queen can slide onto: those before the
/// first square that is not empty.
pub open spec fn open_run(tiles: Seq<TileState>, line: Seq<Coord>) -> Seq<Coord> {
    line.take(first_blocked(tiles, line, 0))
}

/// The squares reachable from `origin` in the directions `dir..8`, one
/// direction after the other.
pub open spec fn reachable_from_dir(tiles: Seq<TileState>, origin: Coord, dir: int) -> Seq<Coord>
    decreases 8 - dir,
{
    if dir >= 8 {
        Seq::empty()
    } else {
        open_run(tiles, ray(origin, dir)) + reachable_from_dir(tiles, origin, dir + 1)
    }
}

/// The squares that one queen move from `origin` can reach on `tiles`:
/// direction by direction, and within a direction nearest first, each ray
/// stopping before the first tile that is not empty.
pub open spec fn reachable(tiles: Seq<TileState>, origin: Coord) -> Seq<Coord> {
    reachable_from_dir(tiles, origin, 0)
}

/// The tiles as a piece sees them once it has been picked up from
/// `lifted`: that square counts as empty.
pub open spec fn seen(tiles: Seq<TileState>, lifted: Option<Coord>) -> Seq<TileState> {
    match lifted {
        Some(l) => tiles.update(l.idx(), TileState::Empty),
        None => tiles,
    }
}

/// The first blocked index of a line is the same from whichever open
/// square before it the search starts; every square before it is empty and
/// the square at it, if any, is not.
pub proof fn first_blocked_from(tiles: Seq<TileState>, line: Seq<Coord>, from: int)
    requires
        0 <= from <= first_blocked(tiles, line, 0),
    ensures
        first_blocked(tiles, line, from) == first_blocked(tiles, line, 0),
        first_blocked(tiles, line, 0) <= line.len(),
        from < first_blocked(tiles, line, 0) ==> tiles[line[from].idx()] == TileState::Empty,
    decreases from,
{
    first_blocked_in_bounds(tiles, line, 0);
    if from > 0 {
        first_blocked_from(tiles, line, from - 1);
        assert(first_blocked(tiles, line, from - 1) == first_blocked(tiles, line, from));
    }
    if from < first_blocked(tiles, line, 0) {
        assert(first_blocked(tiles, line, from) != from);
    }
}

/// The first blocked index of a line lies within the line, at or after the
/// index where the search starts.
pub proof fn first_blocked_in_bounds(tiles: Seq<TileState>, line: Seq<Coord>, from: int)
    requires
        0 <= from <= line.len(),
    ensures
        from <= first_blocked(tiles, line, from) <= line.len(),
    decreases line.len() - from,
{
    if from < line.len() && tiles[line[from].idx()] == TileState::Empty {
        first_blocked_in_bounds(tiles, line, from + 1);
    }
}

/// Every square reachable from `origin` lies on one of its eight rays,
/// before the first blocked square of that ray.
pub proof fn reachable_lies_on_ray(tiles: Seq<TileState>, origin: Coord, from_dir: int, k: int)
    requires
        0 <= from_dir <= 8,
        0 <= k < reachable_from_dir(tiles, origin, from_dir).len(),
    ensures
        exists|dir: int, j: int|
            from_dir <= dir < 8 && 0 <= j < first_blocked(tiles, ray(origin, dir), 0)
                && reachable_from_dir(tiles, origin, from_dir)[k] == #[trigger] ray(
                origin,
                dir,
            )[j],
    decreases 8 - from_dir,
{
    if from_dir < 8 {
        let line = ray(origin, from_dir);
        first_blocked_in_bounds(tiles, line, 0);
        let n = first_blocked(tiles, line, 0);
        if k < n {
            assert(reachable_from_dir(tiles, origin, from_dir)[k] == ray(origin, from_dir)[k]);
        } else {
            reachable_lies_on_ray(tiles, origin, from_dir + 1, k - n);
            let (dir, j) = choose|dir: int, j: int|
                from_dir + 1 <= dir < 8 && 0 <= j < first_blocked(tiles, ray(origin, dir), 0)
                    && reachable_from_dir(tiles, origin, from_dir + 1)[k - n] == #[trigger] ray(
                    origin,
                    dir,
                )[j];
            assert(reachable_from_dir(tiles, origin, from_dir)[k] == ray(origin, dir)[j]);
        }
    }
}

/// A square of a ray that lies before the ray's first blocked square is
/// reachable.
pub proof fn ray_square_is_reachable(
    tiles: Seq<TileState>,
    origin: Coord,
    from: int,
    dir: int,
    j: int,
)
    requires
        0 <= from <= dir < 8,
        0 <= j < first_blocked(tiles, ray(origin, dir), 0),
    ensures
        reachable_from_dir(tiles, origin, from).contains(ray(origin, dir)[j]),
    decreases dir - from,
{
    let all = reachable_from_dir(tiles, origin, from);
    let run = open_run(tiles, ray(origin, from));
    first_blocked_in_bounds(tiles, ray(origin, from), 0);
    if from == dir {
        assert(all[j] == ray(origin, dir)[j]);
    } else {
        ray_square_is_reachable(tiles, origin, from + 1, dir, j);
        let rest = reachable_from_dir(tiles, origin, from + 1);
        let k = choose|k: int| 0 <= k < rest.len() && rest[k] == ray(origin, dir)[j];
        assert(all[run.len() + k] == rest[k]);
    }
}

/// A reachable square is empty and is not the origin.
pub proof fn reachable_is_empty_elsewhere(tiles: Seq<TileState>, origin: Coord, k: int)
    requires
        0 <= k < reachable(tiles, origin).len(),
    ensures
        tiles[reachable(tiles, origin)[k].idx()] == TileState::Empty,
        reachable(tiles, origin)[k] != origin,
{
    reachable_lies_on_ray(tiles, origin, 0, k);
    let (dir, j) = choose|dir: int, j: int|
        0 <= dir < 8 && 0 <= j < first_blocked(tiles, ray(origin, dir), 0) && reachable(
            tiles,
            origin,
        )[k] == #[trigger] ray(origin, dir)[j];
    first_blocked_from(tiles, ray(origin, dir), j);
    ray_walks_outward(origin, dir, j);
}

/// No more than nine squares are reachable in one direction, so no more
/// than seventy-two in all.
pub proof fn reachable_is_short(tiles: Seq<TileState>, origin: Coord, from_dir: int)
    requires
        0 <= from_dir <= 8,
    ensures
        reachable_from_dir(tiles, origin, from_dir).len() <= 9 * (8 - from_dir),
    decreases 8 - from_dir,
{
    if from_dir < 8 {
        first_blocked_in_bounds(tiles, ray(origin, from_dir), 0);
        ray_stops_at_edge(origin, from_dir);
        reachable_is_short(tiles, origin, from_dir + 1);
    }
}

/// Whether every tile is empty.
pub open spec fn all_empty(tiles: Seq<TileState>) -> bool {
    forall|i: int| 0 <= i < tiles.len() ==> tiles[i] == TileState::Empty
}

/// On a line of empty squares nothing blocks.
pub proof fn empty_line_is_open(tiles: Seq<TileState>, line: Seq<Coord>, from: int)
    requires
        tiles.len() == 100,
        all_empty(tiles),
        0 <= from <= line.len(),
    ensures
        first_blocked(tiles, line, from) == line.len(),
    decreases line.len() - from,
{
    if from < line.len() {
        coord_round_trip(line[from]);
        empty_line_is_open(tiles, line, from + 1);
    }
}

/// The number of squares that a queen reaches on an empty board from the
/// column `x` and the row `y`: all of its row and column, and its two
/// diagonals to the edge.
pub open spec fn queen_range(x: int, y: int) -> int {
    let least = |a: int, b: int|
        if a <= b {
            a
        } else {
            b
        };
    18 + least(x, y) + least(9 - x, 9 - y) + least(x, 9 - y) + least(9 - x, y)
}

/// On an empty board a queen reaches every square of its eight rays: the
/// squares on the edge, the corners among them, reach 27 squares and no
/// square reaches fewer; the four squares at the center reach 35 and no
/// square reaches more.
#[verifier::rlimit(30)]
pub proof fn empty_board_reach(tiles: Seq<TileState>, c: Coord)
    requires
        tiles.len() == 100,
        all_empty(tiles),
    ensures
        reachable(tiles, c).len() == queen_range(c.0.ord(), c.1.ord()),
        27 <= reachable(tiles, c).len() <= 35,
        reachable(tiles, c).len() == 27 <==> (c.0 == Dim::A || c.0
            == Dim::J || c.1 == Dim::A || c.1 == Dim::J),
        reachable(tiles, c).len() == 35 <==> ((c.0 == Dim::E || c.0
            == Dim::F) && (c.1 == Dim::E || c.1
            == Dim::F)),
{
    reveal_with_fuel(reachable_from_dir, 9);
    empty_line_is_open(tiles, ray(c, 0), 0);
    empty_line_is_open(tiles, ray(c, 1), 0);
    empty_line_is_open(tiles, ray(c, 2), 0);
    empty_line_is_open(tiles, ray(c, 3), 0);
    empty_line_is_open(tiles, ray(c, 4), 0);
    empty_line_is_open(tiles, ray(c, 5), 0);
    empty_line_is_open(tiles, ray(c, 6), 0);
    empty_line_is_open(tiles, ray(c, 7), 0);
}

/// A lazy walk over the squares that one queen move can reach from an
/// origin: direction by direction, nearest square first.
///
/// The walk may look at the board as it is, or as it is for a piece that
/// has been picked up from its square, which then counts as empty.
#[derive(Clone, Copy)]
pub struct ReachableIterator<'a> {
    board: &'a Board,
    table: &'a MoveTable,
    origin: Coord,
    lifted: Option<Coord>,
    dir: usize,
    idx: usize,
}

impl<'a> ReachableIterator<'a> {
    #[verifier::type_invariant]
    spec fn wf(&self) -> bool {
        &&& self.dir <= 8
        &&& self.dir < 8 ==> self.idx <= first_blocked(
            self.tiles(),
            ray(self.origin, self.dir as int),
            0,
        )
    }

    /// The tiles that the walk looks at.
    pub closed spec fn tiles(&self) -> Seq<TileState> {
        seen(self.board@.tiles, self.lifted)
    }

    /// The square that the walk starts from.
    pub closed spec fn origin(&self) -> Coord {
        self.origin
    }

    /// The squares that the walk has yet to yield, in order.
    pub closed spec fn remaining(&self) -> Seq<Coord> {
        if self.dir < 8 {
            open_run(self.tiles(), ray(self.origin, self.dir as int)).skip(self.idx as int)
                + reachable_from_dir(self.tiles(), self.origin, self.dir + 1)
        } else {
            Seq::empty()
        }
    }

    /// Starts a walk from `origin` over `board`; with `lifted` set, that
    /// square counts as empty.
    pub fn new(
        board: &'a Board,
        table: &'a MoveTable,
        origin: &Coord,
        lifted: Option<Coord>,
    ) -> (it: Self)
        ensures
            it.remaining() == reachable(seen(board@.tiles, lifted), *origin),
            it.tiles() == seen(board@.tiles, lifted),
            it.origin() == *origin,
    {
        proof {
            first_blocked_in_bounds(seen(board@.tiles, lifted), ray(*origin, 0), 0);
        }
        let it = ReachableIterator { board, table, origin: *origin, lifted, dir: 0, idx: 0 };
        proof {
            assert(open_run(it.tiles(), ray(*origin, 0)).skip(0) =~= open_run(
                it.tiles(),
                ray(*origin, 0),
            ));
        }
        it
    }

    /// A walk from `origin` that has nothing left to yield.
    pub(crate) fn finished(board: &'a Board, table: &'a MoveTable, origin: &Coord) -> (it: Self)
        ensures
            it.remaining() == Seq::<Coord>::empty(),
    {
        ReachableIterator { board, table, origin: *origin, lifted: None, dir: 8, idx: 0 }
    }

    /// Whether the walk may pass over `c`.
    fn passable(&self, c: &Coord) -> (open: bool)
        ensures
            open == (self.tiles()[c.idx()] == TileState::Empty),
    {
        proof {
            broadcast use board_shape;

            coord_round_trip(*c);
            if self.lifted is Some {
                coord_round_trip(self.lifted->0);
            }
        }
        match self.lifted {
            Some(l) => l == *c || self.board.tile(c) == TileState::Empty,
            None => self.board.tile(c) == TileState::Empty,
        }
    }

    /// Yields the next reachable square, or `None` once every direction has
    /// been walked.
    pub fn next(&mut self) -> (r: Option<Coord>)
        ensures
            final(self).tiles() == old(self).tiles(),
            final(self).origin() == old(self).origin(),
            old(self).remaining().len() == 0 ==> r is None && final(self).remaining()
                == old(self).remaining(),
            old(self).remaining().len() > 0 ==> r == Some(old(self).remaining()[0])
                && final(self).remaining() == old(self).remaining().drop_first(),
    {
        proof {
            use_type_invariant(&*self);
        }
        while self.dir < 8
            invariant
                self.wf(),
                self.board == old(self).board,
                self.table == old(self).table,
                self.origin == old(self).origin,
                self.lifted == old(self).lifted,
                self.remaining() == old(self).remaining(),
            decreases 8 - self.dir,
        {
            let line: &Vec<Coord> = self.table.ray(&self.origin, self.dir);
            proof {
                first_blocked_from(self.tiles(), line@, self.idx as int);
            }
            if self.idx < line.len() {
                let c: Coord = line[self.idx];
                if self.passable(&c) {
                    proof {
                        let run = open_run(self.tiles(), line@);
                        let rest = reachable_from_dir(self.tiles(), self.origin, self.dir + 1);
                        first_blocked_in_bounds(self.tiles(), line@, self.idx + 1);
                        assert(first_blocked(self.tiles(), line@, self.idx as int)
                            == first_blocked(self.tiles(), line@, self.idx + 1));
                        assert(self.remaining()[0] == c);
                        assert(self.remaining().drop_first() =~= run.skip(self.idx + 1) + rest);
                    }
                    self.idx += 1;
                    return Some(c);
                }
            }
            proof {
                let run = open_run(self.tiles(), line@);
                let rest = reachable_from_dir(self.tiles(), self.origin, self.dir + 1);
                assert(run.skip(self.idx as int) =~= Seq::<Coord>::empty());
                assert(self.remaining() =~= rest);
                if self.dir + 1 < 8 {
                    let next_line = ray(self.origin, self.dir + 1);
                    first_blocked_in_bounds(self.tiles(), next_line, 0);
                    assert(open_run(self.tiles(), next_line).skip(0) =~= open_run(
                        self.tiles(),
                        next_line,
                    ));
                }
            }
            self.idx = 0;
            self.dir += 1;
        }
        None
    }

    /// Walks to the end and collects what was left to yield.
    pub fn collect(self) -> (v: Vec<Coord>)
        ensures
            v@ == self.remaining(),
    {
        let mut it = self;
        let mut v: Vec<Coord> = Vec::new();
        proof {
            use_type_invariant(&it);
            it.remaining_is_short();
        }
        loop
            invariant
                v@ + it.remaining() == self.remaining(),
                v@.len() + it.remaining().len() <= 72,
            ensures
                v@ == self.remaining(),
            decreases it.remaining().len(),
        {
            match it.next() {
                Some(c) => {
                    proof {
                        let before = v@;
                        assert(before.push(c) + it.remaining() =~= self.remaining());
                    }
                    v.push(c);
                },
                None => {
                    assert(v@ + it.remaining() =~= v@);
                    break ;
                },
            }
        }
        v
    }

    /// No more than seventy-two squares are left to yield.
    proof fn remaining_is_short(&self)
        requires
            self.wf(),
        ensures
            self.remaining().len() <= 72,
    {
        if self.dir < 8 {
            first_blocked_in_bounds(self.tiles(), ray(self.origin, self.dir as int), 0);
            ray_stops_at_edge(self.origin, self.dir as int);
            reachable_is_short(self.tiles(), self.origin, self.dir + 1);
        }
    }
}

impl Board {
    /// The squares that one queen move from `coord` can reach on this
    /// board, as a lazy walk: direction by direction, nearest first, each
    /// ray stopping before the first tile that is not empty.
    pub fn reachable_squares<'a>(&'a self, table: &'a MoveTable, coord: &Coord) -> (it:
        ReachableIterator<'a>)
        ensures
            it.remaining() == reachable(self@.tiles, *coord),
            it.tiles() == self@.tiles,
            it.origin() == *coord,
    {
        ReachableIterator::new(self, table, coord, None)
    }
}

} // verus!
