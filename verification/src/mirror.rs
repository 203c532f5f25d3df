use vstd::arithmetic::mul::{lemma_mul_is_associative, lemma_mul_is_commutative};
use vstd::prelude::*;

use crate::board::{starting_position, BoardView, TileState};
use crate::coord::{coord_round_trip, index_round_trip, ord_of_dim, Coord, Dim};
use crate::geometry::ray;
use crate::heuristics::{
    area, hops_at, others, scale, side_squares, square_score, territory, weight, weighted,
    weighted_upto, weights,
};
use crate::moves::{arrow_targets, moves_via, piece_moves, roster_moves, side_moves};
use crate::tally::{tally, tally_concat};
use crate::territory::{
    enough_rounds, frontier, hops, is_reached, marks_after, marks_are_rounds, one_hop, touched,
};
use crate::reach::{
    first_blocked, first_blocked_in_bounds, open_run, ray_square_is_reachable, reachable,
    reachable_from_dir, reachable_lies_on_ray, seen,
};

verus! {

/// The square that mirrors `c` across the middle of the board: the same
/// column, the rows counted from the other end.
pub open spec fn flip(c: Coord) -> Coord {
    Coord(c.0, Dim::of(9 - c.1.ord()))
}

/// The direction that mirrors `dir`: up and down change places.
pub open spec fn turn(dir: int) -> int {
    if dir == 0 {
        0
    } else {
        8 - dir
    }
}

/// The tile that mirrors `t`: White and Black change places.
pub open spec fn recolour(t: TileState) -> TileState {
    match t {
        TileState::White => TileState::Black,
        TileState::Black => TileState::White,
        other => other,
    }
}

/// The tiles of the mirrored board.
pub open spec fn flip_tiles(tiles: Seq<TileState>) -> Seq<TileState> {
    Seq::new(100, |i: int| recolour(tiles[flip(Coord::at(i)).idx()]))
}

/// The squares that mirror those of `line`, in the same order.
pub open spec fn flip_all(line: Seq<Coord>) -> Seq<Coord> {
    Seq::new(line.len(), |k: int| flip(line[k]))
}

/// The position that mirrors `b`: every piece and arrow on the mirrored
/// square, and the two sides with their colours exchanged.
pub open spec fn mirrored(b: BoardView) -> BoardView {
    BoardView {
        pieces: Seq::new(
            8,
            |s: int|
                flip(
                    b.pieces[if s < 4 {
                        s + 4
                    } else {
                        s - 4
                    }],
                ),
        ),
        tiles: flip_tiles(b.tiles),
    }
}

/// Mirroring twice gives the square back, and the mirrored tiles hold at
/// the mirrored square what the tiles hold at the square, recoloured.
pub proof fn flip_basics(tiles: Seq<TileState>, c: Coord)
    requires
        tiles.len() == 100,
    ensures
        flip(flip(c)) == c,
        0 <= flip(c).idx() < 100,
        flip_tiles(tiles)[flip(c).idx()] == recolour(tiles[c.idx()]),
{
    coord_round_trip(c);
    coord_round_trip(flip(c));
}

/// The dimension that mirrors `d`: counted from the other end.
pub open spec fn flip_dim(d: Dim) -> Dim {
    Dim::of(9 - d.ord())
}

/// The values below the mirrored dimension mirror the values above the
/// dimension, and the other way round.
pub proof fn neighbours_flip(d: Dim)
    ensures
        flip_dim(d).below().len() == d.above().len(),
        flip_dim(d).above().len() == d.below().len(),
        forall|k: int|
            0 <= k < d.above().len() ==> (#[trigger] flip_dim(d).below()[k]) == flip_dim(
                d.above()[k],
            ),
        forall|k: int|
            0 <= k < d.below().len() ==> (#[trigger] flip_dim(d).above()[k]) == flip_dim(
                d.below()[k],
            ),
{
    let y = d.ord();
    ord_of_dim(9 - y);
    assert forall|k: int| 0 <= k < d.above().len() implies (#[trigger] flip_dim(d).below()[k])
        == flip_dim(d.above()[k]) by {
        ord_of_dim(y + 1 + k);
    }
    assert forall|k: int| 0 <= k < d.below().len() implies (#[trigger] flip_dim(d).above()[k])
        == flip_dim(d.below()[k]) by {
        ord_of_dim(y - 1 - k);
    }
}

/// The ray from the mirrored square in the mirrored direction is the
/// mirrored ray.
pub proof fn ray_flips(c: Coord, dir: int)
    requires
        0 <= dir < 8,
    ensures
        ray(flip(c), turn(dir)) == flip_all(ray(c, dir)),
{
    neighbours_flip(c.1);
    let here = ray(flip(c), turn(dir));
    let there = flip_all(ray(c, dir));
    let up = c.1.above();
    let down = c.1.below();
    let mirror_up = flip_dim(c.1).above();
    let mirror_down = flip_dim(c.1).below();
    assert(flip(c) == Coord(c.0, flip_dim(c.1)));
    if dir == 0 {
        assert(here =~= there);
    } else if dir == 1 {
        assert(here.len() == there.len());
        assert forall|k: int| 0 <= k < here.len() implies here[k] == there[k] by {
            assert(mirror_down[k] == flip_dim(up[k]));
        }
        assert(here =~= there);
    } else if dir == 2 {
        assert(here.len() == there.len());
        assert forall|k: int| 0 <= k < here.len() implies here[k] == there[k] by {
            assert(mirror_down[k] == flip_dim(up[k]));
        }
        assert(here =~= there);
    } else if dir == 3 {
        assert(here.len() == there.len());
        assert forall|k: int| 0 <= k < here.len() implies here[k] == there[k] by {
            assert(mirror_down[k] == flip_dim(up[k]));
        }
        assert(here =~= there);
    } else if dir == 4 {
        assert(here =~= there);
    } else if dir == 5 {
        assert(here.len() == there.len());
        assert forall|k: int| 0 <= k < here.len() implies here[k] == there[k] by {
            assert(mirror_up[k] == flip_dim(down[k]));
        }
        assert(here =~= there);
    } else if dir == 6 {
        assert(here.len() == there.len());
        assert forall|k: int| 0 <= k < here.len() implies here[k] == there[k] by {
            assert(mirror_up[k] == flip_dim(down[k]));
        }
        assert(here =~= there);
    } else {
        assert(here.len() == there.len());
        assert forall|k: int| 0 <= k < here.len() implies here[k] == there[k] by {
            assert(mirror_up[k] == flip_dim(down[k]));
        }
        assert(here =~= there);
    }
}

/// A mirrored line is blocked where the line is.
pub proof fn blocked_alike(tiles: Seq<TileState>, line: Seq<Coord>, from: int)
    requires
        tiles.len() == 100,
        0 <= from,
    ensures
        first_blocked(flip_tiles(tiles), flip_all(line), from) == first_blocked(tiles, line, from),
    decreases line.len() - from,
{
    if from < line.len() {
        flip_basics(tiles, line[from]);
        if tiles[line[from].idx()] == TileState::Empty {
            blocked_alike(tiles, line, from + 1);
        }
    }
}

/// In the mirrored direction the mirrored board lets a queen slide as far
/// as the board does.
pub proof fn run_flips(tiles: Seq<TileState>, c: Coord, dir: int)
    requires
        tiles.len() == 100,
        0 <= dir < 8,
    ensures
        open_run(flip_tiles(tiles), ray(flip(c), turn(dir))) == flip_all(
            open_run(tiles, ray(c, dir)),
        ),
{
    ray_flips(c, dir);
    blocked_alike(tiles, ray(c, dir), 0);
    first_blocked_in_bounds(tiles, ray(c, dir), 0);
    assert(open_run(flip_tiles(tiles), ray(flip(c), turn(dir))) =~= flip_all(
        open_run(tiles, ray(c, dir)),
    ));
}

/// The index of a square and of its mirror image, by column and row.
proof fn flip_by_ordinals(c: Coord)
    ensures
        0 <= c.0.ord() < 10,
        0 <= c.1.ord() < 10,
        c.idx() == c.1.ord() * 10 + c.0.ord(),
        flip(c).idx() == (9 - c.1.ord()) * 10 + c.0.ord(),
{
    ord_of_dim(9 - c.1.ord());
}

/// Picking up the mirrored piece from the mirrored board leaves the mirror
/// of what picking up the piece leaves.
pub proof fn seen_flips(tiles: Seq<TileState>, origin: Coord)
    requires
        tiles.len() == 100,
    ensures
        seen(flip_tiles(tiles), Some(flip(origin))) == flip_tiles(seen(tiles, Some(origin))),
{
    let here = seen(flip_tiles(tiles), Some(flip(origin)));
    let there = flip_tiles(seen(tiles, Some(origin)));
    flip_by_ordinals(origin);
    assert(here.len() == 100 && there.len() == 100);
    assert forall|i: int| 0 <= i < 100 implies here[i] == there[i] by {
        index_round_trip(i);
        let c = Coord::at(i);
        flip_by_ordinals(c);
        let j = flip(c).idx();
        assert(there[i] == recolour(seen(tiles, Some(origin))[j]));
        assert((i == flip(origin).idx()) == (j == origin.idx()));
        if j == origin.idx() {
            assert(here[i] == TileState::Empty);
            assert(seen(tiles, Some(origin))[j] == TileState::Empty);
        } else {
            assert(here[i] == flip_tiles(tiles)[i]);
            assert(seen(tiles, Some(origin))[j] == tiles[j]);
        }
    }
    assert(here =~= there);
}

/// The number of squares that a queen on `c` reaches in the directions
/// `dir..8`.
pub open spec fn reach_count(tiles: Seq<TileState>, c: Coord, dir: int) -> int
    decreases 8 - dir,
{
    if dir >= 8 {
        0
    } else {
        open_run(tiles, ray(c, dir)).len() + reach_count(tiles, c, dir + 1)
    }
}

proof fn reach_count_is_length(tiles: Seq<TileState>, c: Coord, dir: int)
    requires
        0 <= dir <= 8,
    ensures
        reachable_from_dir(tiles, c, dir).len() == reach_count(tiles, c, dir),
    decreases 8 - dir,
{
    if dir < 8 {
        reach_count_is_length(tiles, c, dir + 1);
    }
}

/// A queen reaches as many squares from the mirrored square of the
/// mirrored board as from the square of the board.
pub proof fn reach_flips(tiles: Seq<TileState>, c: Coord)
    requires
        tiles.len() == 100,
    ensures
        reachable(flip_tiles(tiles), flip(c)).len() == reachable(tiles, c).len(),
{
    reach_count_is_length(tiles, c, 0);
    reach_count_is_length(flip_tiles(tiles), flip(c), 0);
    reveal_with_fuel(reach_count, 9);
    run_flips(tiles, c, 0);
    run_flips(tiles, c, 1);
    run_flips(tiles, c, 2);
    run_flips(tiles, c, 3);
    run_flips(tiles, c, 4);
    run_flips(tiles, c, 5);
    run_flips(tiles, c, 6);
    run_flips(tiles, c, 7);
}

/// The moves that land on the squares of two lists, one after the other,
/// are the moves for the first list followed by those for the second.
pub proof fn moves_via_concat(tiles: Seq<TileState>, origin: Coord, a: Seq<Coord>, b: Seq<Coord>)
    ensures
        moves_via(tiles, origin, a + b) == moves_via(tiles, origin, a) + moves_via(
            tiles,
            origin,
            b,
        ),
    decreases a.len(),
{
    if a.len() == 0 {
        assert(a + b =~= b);
        assert(moves_via(tiles, origin, a) + moves_via(tiles, origin, b) =~= moves_via(
            tiles,
            origin,
            b,
        ));
    } else {
        assert((a + b).drop_first() =~= a.drop_first() + b);
        moves_via_concat(tiles, origin, a.drop_first(), b);
        assert(moves_via(tiles, origin, a + b) =~= moves_via(tiles, origin, a) + moves_via(
            tiles,
            origin,
            b,
        ));
    }
}

/// The mirrored piece has as many moves to the mirrored destinations as
/// the piece has to the destinations.
pub proof fn moves_via_flips(tiles: Seq<TileState>, origin: Coord, dests: Seq<Coord>)
    requires
        tiles.len() == 100,
    ensures
        moves_via(flip_tiles(tiles), flip(origin), flip_all(dests)).len() == moves_via(
            tiles,
            origin,
            dests,
        ).len(),
    decreases dests.len(),
{
    if dests.len() > 0 {
        seen_flips(tiles, origin);
        reach_flips(seen(tiles, Some(origin)), dests[0]);
        assert(flip_all(dests).drop_first() =~= flip_all(dests.drop_first()));
        moves_via_flips(tiles, origin, dests.drop_first());
    }
}

/// The number of moves of the piece on `origin` that start in one of the
/// directions `dir..8`.
pub open spec fn move_count(tiles: Seq<TileState>, origin: Coord, dir: int) -> int
    decreases 8 - dir,
{
    if dir >= 8 {
        0
    } else {
        moves_via(tiles, origin, open_run(tiles, ray(origin, dir))).len() + move_count(
            tiles,
            origin,
            dir + 1,
        )
    }
}

proof fn move_count_is_length(tiles: Seq<TileState>, origin: Coord, dir: int)
    requires
        0 <= dir <= 8,
    ensures
        moves_via(tiles, origin, reachable_from_dir(tiles, origin, dir)).len() == move_count(
            tiles,
            origin,
            dir,
        ),
    decreases 8 - dir,
{
    if dir < 8 {
        move_count_is_length(tiles, origin, dir + 1);
        moves_via_concat(
            tiles,
            origin,
            open_run(tiles, ray(origin, dir)),
            reachable_from_dir(tiles, origin, dir + 1),
        );
    }
}

proof fn run_moves_flip(tiles: Seq<TileState>, origin: Coord, dir: int)
    requires
        tiles.len() == 100,
        0 <= dir < 8,
    ensures
        moves_via(
            flip_tiles(tiles),
            flip(origin),
            open_run(flip_tiles(tiles), ray(flip(origin), turn(dir))),
        ).len() == moves_via(tiles, origin, open_run(tiles, ray(origin, dir))).len(),
{
    run_flips(tiles, origin, dir);
    moves_via_flips(tiles, origin, open_run(tiles, ray(origin, dir)));
}

/// The mirrored piece has as many moves on the mirrored board as the piece
/// has on the board.
pub proof fn piece_moves_flip(tiles: Seq<TileState>, origin: Coord)
    requires
        tiles.len() == 100,
    ensures
        piece_moves(flip_tiles(tiles), flip(origin)).len() == piece_moves(tiles, origin).len(),
{
    move_count_is_length(tiles, origin, 0);
    move_count_is_length(flip_tiles(tiles), flip(origin), 0);
    reveal_with_fuel(move_count, 9);
    run_moves_flip(tiles, origin, 0);
    run_moves_flip(tiles, origin, 1);
    run_moves_flip(tiles, origin, 2);
    run_moves_flip(tiles, origin, 3);
    run_moves_flip(tiles, origin, 4);
    run_moves_flip(tiles, origin, 5);
    run_moves_flip(tiles, origin, 6);
    run_moves_flip(tiles, origin, 7);
}

/// In the mirrored position each side has as many legal moves as the
/// other side has in the position.
pub proof fn mirror_swaps_mobility(b: BoardView, white: bool)
    requires
        b.pieces.len() == 8,
        b.tiles.len() == 100,
    ensures
        side_moves(mirrored(b), white).len() == side_moves(b, !white).len(),
{
    let m = mirrored(b);
    reveal_with_fuel(roster_moves, 5);
    piece_moves_flip(b.tiles, b.pieces[0]);
    piece_moves_flip(b.tiles, b.pieces[1]);
    piece_moves_flip(b.tiles, b.pieces[2]);
    piece_moves_flip(b.tiles, b.pieces[3]);
    piece_moves_flip(b.tiles, b.pieces[4]);
    piece_moves_flip(b.tiles, b.pieces[5]);
    piece_moves_flip(b.tiles, b.pieces[6]);
    piece_moves_flip(b.tiles, b.pieces[7]);
}

/// The starting position is its own mirror image.
pub proof fn starting_position_mirrors_itself()
    ensures
        mirrored(starting_position()) == starting_position(),
{
    let b = starting_position();
    let m = mirrored(b);
    assert(m.pieces =~= b.pieces);
    assert forall|i: int| 0 <= i < 100 implies m.tiles[i] == b.tiles[i] by {
        index_round_trip(i);
        let c = Coord::at(i);
        coord_round_trip(flip(c));
        ord_of_dim(9 - c.1.ord());
        assert(flip(c).idx() == (9 - i / 10) * 10 + i % 10);
    }
    assert(m.tiles =~= b.tiles);
}

/// A piece that can step onto an empty square and shoot from there at an
/// empty square has a move.
proof fn a_step_and_a_shot_make_a_move(
    tiles: Seq<TileState>,
    origin: Coord,
    dir: int,
    shot: int,
)
    requires
        0 <= dir < 8,
        0 <= shot < 8,
        ray(origin, dir).len() > 0,
        tiles[ray(origin, dir)[0].idx()] == TileState::Empty,
        ray(ray(origin, dir)[0], shot).len() > 0,
        seen(tiles, Some(origin))[ray(ray(origin, dir)[0], shot)[0].idx()] == TileState::Empty,
    ensures
        piece_moves(tiles, origin).len() > 0,
{
    let step = open_run(tiles, ray(origin, dir));
    let dest = ray(origin, dir)[0];
    let lifted = seen(tiles, Some(origin));
    first_blocked_in_bounds(tiles, ray(origin, dir), 1);
    assert(step.len() > 0 && step[0] == dest);
    first_blocked_in_bounds(lifted, ray(dest, shot), 1);
    assert(open_run(lifted, ray(dest, shot)).len() > 0);
    reach_count_is_length(lifted, dest, 0);
    reach_count_at_least(lifted, dest, 0, shot);
    assert(arrow_targets(tiles, origin, dest).len() > 0);
    assert(moves_via(tiles, origin, step).len() > 0);
    move_count_is_length(tiles, origin, 0);
    move_count_at_least(tiles, origin, 0, dir);
}

proof fn reach_count_at_least(tiles: Seq<TileState>, c: Coord, from: int, dir: int)
    requires
        0 <= from <= dir < 8,
    ensures
        reach_count(tiles, c, from) >= open_run(tiles, ray(c, dir)).len(),
        reach_count(tiles, c, from) >= 0,
    decreases 8 - from,
{
    reach_count_is_length(tiles, c, from);
    if from < dir {
        reach_count_at_least(tiles, c, from + 1, dir);
    } else {
        reach_count_is_length(tiles, c, from + 1);
    }
}

proof fn move_count_at_least(tiles: Seq<TileState>, origin: Coord, from: int, dir: int)
    requires
        0 <= from <= dir < 8,
    ensures
        move_count(tiles, origin, from) >= moves_via(
            tiles,
            origin,
            open_run(tiles, ray(origin, dir)),
        ).len(),
    decreases 8 - from,
{
    move_count_is_length(tiles, origin, from);
    if from < dir {
        move_count_at_least(tiles, origin, from + 1, dir);
    } else {
        move_count_is_length(tiles, origin, from + 1);
    }
}

/// At the start both sides have the same number of legal moves, and more
/// than none.
pub proof fn starting_sides_are_equally_mobile()
    ensures
        side_moves(starting_position(), true).len() == side_moves(
            starting_position(),
            false,
        ).len(),
        side_moves(starting_position(), true).len() > 0,
{
    let b = starting_position();
    starting_position_mirrors_itself();
    mirror_swaps_mobility(b, true);
    let a4 = b.pieces[0];
    assert(a4 == Coord(Dim::A, Dim::D));
    let a5 = Coord(Dim::A, Dim::E);
    let a6 = Coord(Dim::A, Dim::F);
    assert(ray(a4, 2).len() == 6 && ray(a4, 2)[0] == a5);
    assert(ray(a5, 2).len() == 5 && ray(a5, 2)[0] == a6);
    assert(a5.idx() == 40 && a6.idx() == 50 && a4.idx() == 30);
    assert(b.tiles[40] == TileState::Empty);
    assert(b.tiles[50] == TileState::Empty);
    a_step_and_a_shot_make_a_move(b.tiles, a4, 2, 2);
    reveal_with_fuel(roster_moves, 5);
}

/// Mirroring the tiles twice gives the tiles back.
pub proof fn flip_tiles_twice(tiles: Seq<TileState>)
    requires
        tiles.len() == 100,
    ensures
        flip_tiles(flip_tiles(tiles)) == tiles,
{
    assert forall|i: int| 0 <= i < 100 implies flip_tiles(flip_tiles(tiles))[i] == tiles[i] by {
        index_round_trip(i);
        let c = Coord::at(i);
        flip_basics(tiles, c);
        flip_basics(flip_tiles(tiles), flip(c));
        coord_round_trip(flip(c));
    }
    assert(flip_tiles(flip_tiles(tiles)) =~= tiles);
}

proof fn one_hop_carries_over(tiles: Seq<TileState>, p: Coord, c: Coord)
    requires
        tiles.len() == 100,
        reachable(tiles, p).contains(c),
    ensures
        reachable(flip_tiles(tiles), flip(p)).contains(flip(c)),
{
    let k = choose|k: int| 0 <= k < reachable(tiles, p).len() && reachable(tiles, p)[k] == c;
    reachable_lies_on_ray(tiles, p, 0, k);
    let (dir, j) = choose|dir: int, j: int|
        0 <= dir < 8 && 0 <= j < first_blocked(tiles, ray(p, dir), 0) && reachable_from_dir(
            tiles,
            p,
            0,
        )[k] == #[trigger] ray(p, dir)[j];
    ray_flips(p, dir);
    blocked_alike(tiles, ray(p, dir), 0);
    first_blocked_in_bounds(tiles, ray(p, dir), 0);
    assert(ray(flip(p), turn(dir))[j] == flip(c));
    ray_square_is_reachable(flip_tiles(tiles), flip(p), 0, turn(dir), j);
}

/// One queen move leads from the mirrored square to the mirrored square on
/// the mirrored board exactly when one leads from square to square on the
/// board.
pub proof fn one_hop_flips(tiles: Seq<TileState>, p: Coord, c: Coord)
    requires
        tiles.len() == 100,
    ensures
        reachable(flip_tiles(tiles), flip(p)).contains(flip(c)) == reachable(tiles, p).contains(c),
{
    if reachable(tiles, p).contains(c) {
        one_hop_carries_over(tiles, p, c);
    }
    if reachable(flip_tiles(tiles), flip(p)).contains(flip(c)) {
        one_hop_carries_over(flip_tiles(tiles), flip(p), flip(c));
        flip_tiles_twice(tiles);
        flip_basics(tiles, p);
        flip_basics(tiles, c);
    }
}

/// The squares that mirror those of `set`.
pub open spec fn flip_set(set: Set<Coord>) -> Set<Coord> {
    Set::new(|f: Coord| set.contains(flip(f)))
}

/// After any number of rounds, the expansion from the mirrored sources on
/// the mirrored board has marked the mirrored square as the expansion from
/// the sources has marked the square.
pub proof fn marks_flip(tiles: Seq<TileState>, sources: Set<Coord>, rounds: nat, c: Coord)
    requires
        tiles.len() == 100,
    ensures
        marks_after(flip_tiles(tiles), flip_set(sources), rounds)[flip(c).idx()] == marks_after(
            tiles,
            sources,
            rounds,
        )[c.idx()],
    decreases rounds,
{
    coord_round_trip(c);
    coord_round_trip(flip(c));
    if rounds > 0 {
        let level = (rounds - 1) as nat;
        let there = marks_after(tiles, sources, level);
        let here = marks_after(flip_tiles(tiles), flip_set(sources), level);
        let edge_there = frontier(sources, there, level);
        let edge_here = frontier(flip_set(sources), here, level);
        marks_flip(tiles, sources, level, c);
        if touched(tiles, edge_there, c) {
            let f = choose|f: Coord| #[trigger] edge_there.contains(f) && one_hop(tiles, f, c);
            marks_flip(tiles, sources, level, f);
            flip_basics(tiles, f);
            one_hop_flips(tiles, f, c);
            assert(edge_here.contains(flip(f)) && one_hop(flip_tiles(tiles), flip(f), flip(c)));
        }
        if touched(flip_tiles(tiles), edge_here, flip(c)) {
            let f = choose|f: Coord| #[trigger]
                edge_here.contains(f) && one_hop(flip_tiles(tiles), f, flip(c));
            marks_flip(tiles, sources, level, flip(f));
            flip_basics(tiles, f);
            one_hop_flips(tiles, flip(f), c);
            assert(edge_there.contains(flip(f)) && one_hop(tiles, flip(f), c));
        }
    }
}

/// The hop counts of the eight pieces with the two sides exchanged.
pub open spec fn swap_sides(hs: Seq<nat>) -> Seq<nat> {
    Seq::new(
        8,
        |p: int|
            hs[if p < 4 {
                p + 4
            } else {
                p - 4
            }],
    )
}

/// At the mirrored square of the mirrored position the pieces have the hop
/// counts that the pieces of the other side have at the square.
pub proof fn hops_at_flip(b: BoardView, c: Coord)
    requires
        b.pieces.len() == 8,
        b.tiles.len() == 100,
    ensures
        hops_at(mirrored(b), flip(c).idx()) == swap_sides(hops_at(b, c.idx())),
{
    let m = mirrored(b);
    assert forall|p: int| 0 <= p < 8 implies hops_at(m, flip(c).idx())[p] == swap_sides(
        hops_at(b, c.idx()),
    )[p] by {
        let q = if p < 4 {
            p + 4
        } else {
            p - 4
        };
        let piece = b.pieces[q];
        flip_basics(b.tiles, piece);
        assert(set![flip(piece)] =~= flip_set(set![piece])) by {
            assert forall|f: Coord| set![flip(piece)].contains(f) <==> flip_set(
                set![piece],
            ).contains(f) by {
                flip_basics(b.tiles, f);
            }
        }
        marks_flip(b.tiles, set![piece], enough_rounds(), c);
    }
    assert(hops_at(m, flip(c).idx()) =~= swap_sides(hops_at(b, c.idx())));
}

/// What a piece other than `p` contributes to the weight of `p`.
spec fn factor(hs: Seq<nat>, p: int, q: int) -> nat {
    if q != p && hs[q] > 0 {
        hs[q] * hs[q]
    } else {
        1
    }
}

proof fn others_is_a_product(hs: Seq<nat>, p: int)
    ensures
        others(hs, p, 8) == factor(hs, p, 0) * factor(hs, p, 1) * factor(hs, p, 2) * factor(
            hs,
            p,
            3,
        ) * factor(hs, p, 4) * factor(hs, p, 5) * factor(hs, p, 6) * factor(hs, p, 7),
{
    reveal_with_fuel(others, 9);
    let f0 = factor(hs, p, 0) as int;
    assert(1 * f0 == f0) by (nonlinear_arith);
}

/// With the sides exchanged, a piece has the weight of its counterpart.
proof fn weight_swaps(hs: Seq<nat>, p: int)
    requires
        hs.len() == 8,
        0 <= p < 8,
    ensures
        weight(swap_sides(hs), p) == weight(
            hs,
            if p < 4 {
                p + 4
            } else {
                p - 4
            },
        ),
{
    let q = if p < 4 {
        p + 4
    } else {
        p - 4
    };
    let sw = swap_sides(hs);
    others_is_a_product(hs, q);
    others_is_a_product(sw, p);
    let f0 = factor(hs, q, 0) as int;
    let f1 = factor(hs, q, 1) as int;
    let f2 = factor(hs, q, 2) as int;
    let f3 = factor(hs, q, 3) as int;
    let f4 = factor(hs, q, 4) as int;
    let f5 = factor(hs, q, 5) as int;
    let f6 = factor(hs, q, 6) as int;
    let f7 = factor(hs, q, 7) as int;
    assert(factor(sw, p, 0) == f4 && factor(sw, p, 1) == f5 && factor(sw, p, 2) == f6 && factor(
        sw,
        p,
        3,
    ) == f7);
    assert(factor(sw, p, 4) == f0 && factor(sw, p, 5) == f1 && factor(sw, p, 6) == f2 && factor(
        sw,
        p,
        7,
    ) == f3);
    let a = f0 * f1 * f2 * f3;
    let b = f4 * f5 * f6 * f7;
    assert(b * f0 * f1 * f2 * f3 == b * a) by {
        lemma_mul_is_associative(b, f0, f1);
        lemma_mul_is_associative(b, f0 * f1, f2);
        lemma_mul_is_associative(b, f0 * f1 * f2, f3);
    }
    assert(a * f4 * f5 * f6 * f7 == a * b) by {
        lemma_mul_is_associative(a, f4, f5);
        lemma_mul_is_associative(a, f4 * f5, f6);
        lemma_mul_is_associative(a, f4 * f5 * f6, f7);
    }
    lemma_mul_is_commutative(a, b);
}

/// With the sides exchanged, the score of a square changes its sign.
pub proof fn score_swaps(hs: Seq<nat>)
    requires
        hs.len() == 8,
    ensures
        square_score(swap_sides(hs)) == -square_score(hs),
{
    let sw = swap_sides(hs);
    reveal_with_fuel(weights, 5);
    weight_swaps(hs, 0);
    weight_swaps(hs, 1);
    weight_swaps(hs, 2);
    weight_swaps(hs, 3);
    weight_swaps(hs, 4);
    weight_swaps(hs, 5);
    weight_swaps(hs, 6);
    weight_swaps(hs, 7);
    let white = weights(hs, 0, 4) as int;
    let black = weights(hs, 4, 8) as int;
    assert(weights(sw, 0, 4) == black);
    assert(weights(sw, 4, 8) == white);
    assert(scale() * (black - white) == -(scale() * (white - black))) by (nonlinear_arith);
}

/// The sum of the scores of the first `n` squares of row `row`.
spec fn row_score(b: BoardView, row: int, n: int) -> int
    decreases n,
{
    if n <= 0 {
        0
    } else {
        row_score(b, row, n - 1) + square_score(hops_at(b, row * 10 + n - 1))
    }
}

/// The sum of the scores of the rows below `rows`.
spec fn rows_score(b: BoardView, rows: int) -> int
    decreases rows,
{
    if rows <= 0 {
        0
    } else {
        rows_score(b, rows - 1) + row_score(b, rows - 1, 10)
    }
}

proof fn weighted_by_rows(b: BoardView, row: int, n: int)
    requires
        0 <= row,
        0 <= n <= 10,
    ensures
        weighted_upto(b, row * 10 + n) == rows_score(b, row) + row_score(b, row, n),
    decreases row, n,
{
    if n > 0 {
        weighted_by_rows(b, row, n - 1);
    } else if row > 0 {
        weighted_by_rows(b, row - 1, 10);
    }
}

proof fn row_score_flips(b: BoardView, row: int, n: int)
    requires
        b.pieces.len() == 8,
        b.tiles.len() == 100,
        0 <= row < 10,
        0 <= n <= 10,
    ensures
        row_score(mirrored(b), row, n) == -row_score(b, 9 - row, n),
    decreases n,
{
    if n > 0 {
        row_score_flips(b, row, n - 1);
        let there = (9 - row) * 10 + n - 1;
        let c = Coord::at(there);
        index_round_trip(there);
        ord_of_dim(row);
        assert(flip(c).idx() == row * 10 + n - 1);
        hops_at_flip(b, c);
        score_swaps(hops_at(b, there));
    }
}

/// The value of the mirrored position is the value of the position with
/// the opposite sign: what favours White in the one favours Black as much
/// in the other.
pub proof fn mirror_negates_the_value(b: BoardView)
    requires
        b.pieces.len() == 8,
        b.tiles.len() == 100,
    ensures
        weighted(mirrored(b)) == -weighted(b),
{
    let m = mirrored(b);
    weighted_by_rows(b, 10, 0);
    weighted_by_rows(m, 10, 0);
    reveal_with_fuel(rows_score, 11);
    row_score_flips(b, 0, 10);
    row_score_flips(b, 1, 10);
    row_score_flips(b, 2, 10);
    row_score_flips(b, 3, 10);
    row_score_flips(b, 4, 10);
    row_score_flips(b, 5, 10);
    row_score_flips(b, 6, 10);
    row_score_flips(b, 7, 10);
    row_score_flips(b, 8, 10);
    row_score_flips(b, 9, 10);
}

/// At the start the position is worth nothing to either side.
pub proof fn starting_position_is_balanced()
    ensures
        weighted(starting_position()) == 0,
{
    starting_position_mirrors_itself();
    mirror_negates_the_value(starting_position());
}

/// The tally of the first `rows` rows of ten of a sequence.
spec fn rows_tally(s: Seq<nat>, rows: int) -> int
    decreases rows,
{
    if rows <= 0 {
        0
    } else {
        rows_tally(s, rows - 1) + tally(s.subrange((rows - 1) * 10, rows * 10), is_reached())
    }
}

proof fn tally_by_rows(s: Seq<nat>, rows: int)
    requires
        s.len() == 100,
        0 <= rows <= 10,
    ensures
        tally(s.take(rows * 10), is_reached()) == rows_tally(s, rows),
    decreases rows,
{
    if rows > 0 {
        tally_by_rows(s, rows - 1);
        let head = s.take((rows - 1) * 10);
        let row = s.subrange((rows - 1) * 10, rows * 10);
        assert(s.take(rows * 10) =~= head + row);
        tally_concat(head, row, is_reached());
    }
}

/// In the mirrored position each side reaches as many squares as the
/// other side reaches in the position, so the flood-fill territory changes
/// its sign.
pub proof fn mirror_negates_the_area(b: BoardView)
    requires
        b.pieces.len() == 8,
        b.tiles.len() == 100,
    ensures
        territory(mirrored(b), true) == territory(b, false),
        territory(mirrored(b), false) == territory(b, true),
        area(mirrored(b)) == -area(b),
{
    territory_flips(b, true);
    territory_flips(b, false);
}

/// The squares of one side in the mirrored position mirror the squares of
/// the other side in the position.
proof fn side_squares_flip(b: BoardView, white: bool)
    requires
        b.pieces.len() == 8,
        b.tiles.len() == 100,
    ensures
        side_squares(mirrored(b), white) == flip_set(side_squares(b, !white)),
{
    let m = mirrored(b);
    let lo = if white {
        0int
    } else {
        4int
    };
    let other = if white {
        4int
    } else {
        0int
    };
    let mine = m.pieces.subrange(lo, lo + 4);
    let theirs = b.pieces.subrange(other, other + 4);
    assert forall|f: Coord|
        side_squares(m, white).contains(f) <==> flip_set(side_squares(b, !white)).contains(
            f,
        ) by {
        flip_basics(b.tiles, f);
        if mine.contains(f) {
            let k = choose|k: int| 0 <= k < mine.len() && mine[k] == f;
            flip_basics(b.tiles, theirs[k]);
            assert(theirs[k] == flip(f));
        }
        if theirs.contains(flip(f)) {
            let k = choose|k: int| 0 <= k < theirs.len() && theirs[k] == flip(f);
            assert(mine[k] == f);
        }
    }
    assert(side_squares(m, white) =~= flip_set(side_squares(b, !white)));
}

/// The index of the square that mirrors the square with index `i`.
spec fn flip_index(i: int) -> int {
    (9 - i / 10) * 10 + i % 10
}

proof fn hops_flip(tiles: Seq<TileState>, sources: Set<Coord>, i: int)
    requires
        tiles.len() == 100,
        0 <= i < 100,
    ensures
        hops(flip_tiles(tiles), flip_set(sources))[i] == hops(tiles, sources)[flip_index(i)],
{
    let c = Coord::at(flip_index(i));
    index_round_trip(flip_index(i));
    ord_of_dim(i / 10);
    assert(flip(c).idx() == i);
    marks_flip(tiles, sources, enough_rounds(), c);
}

#[verifier::rlimit(30)]
proof fn reversed_rows_tally(g: Seq<nat>, h: Seq<nat>)
    requires
        g.len() == 100,
        h.len() == 100,
        forall|i: int| 0 <= i < 100 ==> #[trigger] g[i] == h[flip_index(i)],
    ensures
        tally(g, is_reached()) == tally(h, is_reached()),
{
    tally_by_rows(h, 10);
    tally_by_rows(g, 10);
    assert(h.take(100) =~= h);
    assert(g.take(100) =~= g);
    reveal_with_fuel(rows_tally, 11);
    assert(g.subrange(0, 10) =~= h.subrange(90, 100));
    assert(g.subrange(10, 20) =~= h.subrange(80, 90));
    assert(g.subrange(20, 30) =~= h.subrange(70, 80));
    assert(g.subrange(30, 40) =~= h.subrange(60, 70));
    assert(g.subrange(40, 50) =~= h.subrange(50, 60));
    assert(g.subrange(50, 60) =~= h.subrange(40, 50));
    assert(g.subrange(60, 70) =~= h.subrange(30, 40));
    assert(g.subrange(70, 80) =~= h.subrange(20, 30));
    assert(g.subrange(80, 90) =~= h.subrange(10, 20));
    assert(g.subrange(90, 100) =~= h.subrange(0, 10));
}

proof fn territory_flips(b: BoardView, white: bool)
    requires
        b.pieces.len() == 8,
        b.tiles.len() == 100,
    ensures
        territory(mirrored(b), white) == territory(b, !white),
{
    let m = mirrored(b);
    let there = side_squares(b, !white);
    side_squares_flip(b, white);
    let h = hops(b.tiles, there);
    let g = hops(m.tiles, flip_set(there));
    marks_are_rounds(b.tiles, there, enough_rounds());
    marks_are_rounds(m.tiles, flip_set(there), enough_rounds());
    assert forall|i: int| 0 <= i < 100 implies #[trigger] g[i] == h[flip_index(i)] by {
        hops_flip(b.tiles, there, i);
    }
    reversed_rows_tally(g, h);
}

} // verus!
