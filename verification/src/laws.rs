use vstd::prelude::*;

use crate::board::{
    applied, consistent, has_piece, side_of, slot_of, slot_of_finds, starting_position, BoardView,
    Move, TileState,
};
use crate::coord::{coord_round_trip, dim_of_ord, index_round_trip, Coord};
use crate::geometry::{ray, ray_stops_at_edge, ray_walks_outward, step_x, step_y};
use crate::moves::{
    arrow_targets, moves_via, piece_moves, roster_moves, side_moves, with_arrows,
};
use crate::reach::{
    first_blocked, first_blocked_from, first_blocked_in_bounds, ray_square_is_reachable,
    reachable, reachable_from_dir, reachable_is_empty_elsewhere, reachable_lies_on_ray, seen,
};
use crate::tally::{tally, tally_update};

verus! {

/// Whether a tile holds a piece or an arrow.
pub open spec fn is_filled() -> spec_fn(TileState) -> bool {
    |t: TileState| t != TileState::Empty
}

/// The roster slots of one side, as the bounds of a range.
pub open spec fn side_slots(white: bool) -> (int, int) {
    if white {
        (0, 4)
    } else {
        (4, 8)
    }
}

/// Whether `m` moves the piece of slot `slot` to a square that it reaches
/// and shoots at a square that it then reaches from there.
pub open spec fn moves_piece(b: BoardView, slot: int, m: Move) -> bool {
    &&& m.0 == b.pieces[slot]
    &&& reachable(b.tiles, m.0).contains(m.1)
    &&& arrow_targets(b.tiles, m.0, m.1).contains(m.2)
}

proof fn via_shape(tiles: Seq<TileState>, origin: Coord, dests: Seq<Coord>, m: Move)
    ensures
        moves_via(tiles, origin, dests).contains(m) <==> (m.0 == origin && dests.contains(m.1)
            && arrow_targets(tiles, origin, m.1).contains(m.2)),
    decreases dests.len(),
{
    let all = moves_via(tiles, origin, dests);
    if dests.len() > 0 {
        let first = with_arrows(origin, dests[0], arrow_targets(tiles, origin, dests[0]));
        let others = moves_via(tiles, origin, dests.drop_first());
        via_shape(tiles, origin, dests.drop_first(), m);
        if all.contains(m) {
            let k = choose|k: int| 0 <= k < all.len() && all[k] == m;
            if k < first.len() {
                assert(first[k] == m);
                assert(arrow_targets(tiles, origin, dests[0])[k] == m.2);
                assert(dests[0] == m.1);
            } else {
                assert(others[k - first.len()] == m);
                assert(others.contains(m));
                let w = choose|w: int|
                    0 <= w < dests.drop_first().len() && dests.drop_first()[w] == m.1;
                assert(dests[w + 1] == m.1);
            }
        }
        if m.0 == origin && dests.contains(m.1) && arrow_targets(tiles, origin, m.1).contains(m.2) {
            let w = choose|w: int| 0 <= w < dests.len() && dests[w] == m.1;
            if w == 0 {
                let targets = arrow_targets(tiles, origin, dests[0]);
                let j = choose|j: int| 0 <= j < targets.len() && targets[j] == m.2;
                assert(first[j] == m);
                assert(all[j] == m);
            } else {
                assert(dests.drop_first()[w - 1] == m.1);
                assert(dests.drop_first().contains(m.1));
                let k = choose|k: int| 0 <= k < others.len() && others[k] == m;
                assert(all[first.len() + k] == m);
            }
        }
    }
}

/// The moves enumerated for the slots `lo..hi` are exactly the moves that
/// take the piece of one of these slots to a square it reaches and shoot
/// at a square reached from there.
pub proof fn roster_moves_are_the_legal_moves(b: BoardView, lo: int, hi: int, m: Move)
    ensures
        roster_moves(b, lo, hi).contains(m) <==> exists|slot: int|
            lo <= slot < hi && #[trigger] moves_piece(b, slot, m),
    decreases hi - lo,
{
    let all = roster_moves(b, lo, hi);
    if lo < hi {
        let first = piece_moves(b.tiles, b.pieces[lo]);
        let others = roster_moves(b, lo + 1, hi);
        roster_moves_are_the_legal_moves(b, lo + 1, hi, m);
        via_shape(b.tiles, b.pieces[lo], reachable(b.tiles, b.pieces[lo]), m);
        if all.contains(m) {
            let k = choose|k: int| 0 <= k < all.len() && all[k] == m;
            if k < first.len() {
                assert(first[k] == m);
                assert(first.contains(m));
                assert(moves_piece(b, lo, m));
            } else {
                assert(others[k - first.len()] == m);
                assert(others.contains(m));
                let slot = choose|slot: int| lo + 1 <= slot < hi && #[trigger] moves_piece(b, slot, m);
                assert(lo <= slot < hi && moves_piece(b, slot, m));
            }
        }
        if exists|slot: int| lo <= slot < hi && #[trigger] moves_piece(b, slot, m) {
            let slot = choose|slot: int| lo <= slot < hi && #[trigger] moves_piece(b, slot, m);
            if slot == lo {
                assert(first.contains(m));
                let k = choose|k: int| 0 <= k < first.len() && first[k] == m;
                assert(all[k] == m);
            } else {
                assert(lo + 1 <= slot < hi && moves_piece(b, slot, m));
                assert(others.contains(m));
                let k = choose|k: int| 0 <= k < others.len() && others[k] == m;
                assert(all[first.len() + k] == m);
            }
        }
    }
}

/// The starting position is consistent.
pub proof fn starting_position_is_consistent()
    ensures
        consistent(starting_position()),
{
    let b = starting_position();
    assert forall|i: int|
        0 <= i < 100 && (#[trigger] b.tiles[i] == TileState::White || b.tiles[i]
            == TileState::Black) implies has_piece(b.pieces, Coord::at(i)) by {
        index_round_trip(i);
        let s = choose|s: int| 0 <= s < 8 && b.pieces[s].idx() == i;
        coord_round_trip(b.pieces[s]);
        assert(b.pieces[s] == Coord::at(i));
    }
}

/// What any move does to the tiles, legal or not: the arrow square holds
/// an arrow; the destination, unless the arrow fell on it, holds a piece of
/// the colour of the slot that moved; the origin, unless the piece stayed
/// or the arrow fell on it, is empty; every other tile is as it was.
pub proof fn a_move_sets_three_tiles(b: BoardView, m: Move)
    requires
        b.tiles.len() == 100,
    ensures
        applied(b, m).tiles.len() == 100,
        applied(b, m).tiles[m.2.idx()] == TileState::Arrow,
        m.1 != m.2 ==> applied(b, m).tiles[m.1.idx()] == side_of(slot_of(b.pieces, m.0)),
        m.0 != m.1 && m.0 != m.2 ==> applied(b, m).tiles[m.0.idx()] == TileState::Empty,
        forall|i: int|
            0 <= i < 100 && i != m.0.idx() && i != m.1.idx() && i != m.2.idx()
                ==> #[trigger] applied(b, m).tiles[i] == b.tiles[i],
{
    coord_round_trip(m.0);
    coord_round_trip(m.1);
    coord_round_trip(m.2);
}

/// What a legal move does to a consistent position: the destination holds
/// a piece of the side that moved, the arrow square holds an arrow, the
/// origin is empty unless the arrow was shot back onto it, one more tile
/// is filled than before, no arrow has gone, and the position is
/// consistent again.
#[verifier::rlimit(30)]
pub proof fn legal_move_fills_one_tile(b: BoardView, white: bool, m: Move)
    requires
        consistent(b),
        side_moves(b, white).contains(m),
    ensures
        applied(b, m).tiles[m.1.idx()] == if white {
            TileState::White
        } else {
            TileState::Black
        },
        applied(b, m).tiles[m.2.idx()] == TileState::Arrow,
        m.2 != m.0 ==> applied(b, m).tiles[m.0.idx()] == TileState::Empty,
        tally(applied(b, m).tiles, is_filled()) == tally(b.tiles, is_filled()) + 1,
        forall|i: int|
            0 <= i < 100 && b.tiles[i] == TileState::Arrow ==> #[trigger] applied(b, m).tiles[i]
                == TileState::Arrow,
        consistent(applied(b, m)),
{
    let (lo, hi) = side_slots(white);
    roster_moves_are_the_legal_moves(b, lo, hi, m);
    let slot = choose|slot: int| lo <= slot < hi && #[trigger] moves_piece(b, slot, m);
    let a = applied(b, m);
    let (o, d, r) = (m.0, m.1, m.2);
    coord_round_trip(o);
    coord_round_trip(d);
    coord_round_trip(r);
    slot_of_finds(b.pieces, o);
    assert(slot_of(b.pieces, o) == slot);
    let k = choose|k: int| 0 <= k < reachable(b.tiles, o).len() && reachable(b.tiles, o)[k] == d;
    reachable_is_empty_elsewhere(b.tiles, o, k);
    let lifted = seen(b.tiles, Some(o));
    let j = choose|j: int| 0 <= j < reachable(lifted, d).len() && reachable(lifted, d)[j] == r;
    reachable_is_empty_elsewhere(lifted, d, j);
    assert(b.tiles[d.idx()] == TileState::Empty);
    assert(r == o || b.tiles[r.idx()] == TileState::Empty);
    let t1 = b.tiles.update(o.idx(), TileState::Empty);
    let t2 = t1.update(d.idx(), side_of(slot));
    tally_update(b.tiles, is_filled(), o.idx(), TileState::Empty);
    tally_update(t1, is_filled(), d.idx(), side_of(slot));
    tally_update(t2, is_filled(), r.idx(), TileState::Arrow);
    assert(b.tiles[b.pieces[slot].idx()] == side_of(slot));
    assert forall|s: int| 0 <= s < 8 implies a.tiles[(#[trigger] a.pieces[s]).idx()] == side_of(
        s,
    ) by {
        if s != slot {
            let c = b.pieces[s];
            coord_round_trip(c);
            assert(b.tiles[c.idx()] == side_of(s));
            assert(b.pieces[s] != b.pieces[slot]);
        }
    }
    assert forall|s: int, t: int| 0 <= s < 8 && 0 <= t < 8 && s != t implies #[trigger] a.pieces[s]
        != #[trigger] a.pieces[t] by {
        let c = b.pieces[s];
        let e = b.pieces[t];
        assert(b.tiles[c.idx()] == side_of(s));
        assert(b.tiles[e.idx()] == side_of(t));
    }
    assert forall|i: int|
        0 <= i < 100 && (#[trigger] a.tiles[i] == TileState::White || a.tiles[i]
            == TileState::Black) implies has_piece(a.pieces, Coord::at(i)) by {
        index_round_trip(i);
        if i == d.idx() {
            assert(a.pieces[slot] == Coord::at(i));
        } else {
            assert(b.tiles[i] == a.tiles[i]);
            let s = choose|s: int| 0 <= s < b.pieces.len() && b.pieces[s] == Coord::at(i);
            assert(s != slot);
            assert(a.pieces[s] == Coord::at(i));
        }
    }
}

/// A side has no legal move exactly when no destination that one of its
/// pieces reaches has a square to shoot at; in particular when its pieces
/// reach no destination at all.
pub proof fn no_moves_means_no_destination(b: BoardView, lo: int, hi: int)
    ensures
        roster_moves(b, lo, hi).len() == 0 <==> forall|slot: int, k: int|
            lo <= slot < hi && 0 <= k < reachable(b.tiles, b.pieces[slot]).len()
                ==> (#[trigger] arrow_targets(
                b.tiles,
                b.pieces[slot],
                reachable(b.tiles, b.pieces[slot])[k],
            )).len() == 0,
    decreases hi - lo,
{
    let all = roster_moves(b, lo, hi);
    if all.len() > 0 {
        let m = all[0];
        assert(all.contains(m));
        roster_moves_are_the_legal_moves(b, lo, hi, m);
        let slot = choose|slot: int| lo <= slot < hi && #[trigger] moves_piece(b, slot, m);
        let dests = reachable(b.tiles, b.pieces[slot]);
        let k = choose|k: int| 0 <= k < dests.len() && dests[k] == m.1;
        let targets = arrow_targets(b.tiles, b.pieces[slot], dests[k]);
        let j = choose|j: int| 0 <= j < targets.len() && targets[j] == m.2;
        assert(targets.len() > 0);
    } else {
        assert forall|slot: int, k: int|
            lo <= slot < hi && 0 <= k < reachable(b.tiles, b.pieces[slot]).len() implies (
        #[trigger] arrow_targets(
            b.tiles,
            b.pieces[slot],
            reachable(b.tiles, b.pieces[slot])[k],
        )).len() == 0 by {
            let origin = b.pieces[slot];
            let dest = reachable(b.tiles, origin)[k];
            let targets = arrow_targets(b.tiles, origin, dest);
            if targets.len() > 0 {
                let m = Move(origin, dest, targets[0]);
                assert(reachable(b.tiles, origin).contains(dest));
                assert(targets.contains(targets[0]));
                assert(moves_piece(b, slot, m));
                roster_moves_are_the_legal_moves(b, lo, hi, m);
                assert(all.contains(m));
            }
        }
    }
}

/// The direction opposite to `dir`.
pub open spec fn opposite(dir: int) -> int {
    if dir < 4 {
        dir + 4
    } else {
        dir - 4
    }
}

/// The ray that leads back from a square of a ray begins with the square
/// before it on the ray, or with the origin of the ray for its first
/// square.
pub proof fn ray_leads_back(origin: Coord, dir: int, j: int)
    requires
        0 <= dir < 8,
        0 <= j < ray(origin, dir).len(),
    ensures
        ray(ray(origin, dir)[j], opposite(dir)).len() > 0,
        ray(ray(origin, dir)[j], opposite(dir))[0] == if j == 0 {
            origin
        } else {
            ray(origin, dir)[j - 1]
        },
{
    let here = ray(origin, dir)[j];
    let back = ray(here, opposite(dir));
    ray_walks_outward(origin, dir, j);
    ray_stops_at_edge(here, opposite(dir));
    coord_round_trip(origin);
    coord_round_trip(here);
    assert(step_x(opposite(dir)) == -step_x(dir) && step_y(opposite(dir)) == -step_y(dir));
    if j > 0 {
        ray_walks_outward(origin, dir, j - 1);
        coord_round_trip(ray(origin, dir)[j - 1]);
    }
    let before = if j == 0 {
        origin
    } else {
        ray(origin, dir)[j - 1]
    };
    assert(here.0.ord() == before.0.ord() + step_x(dir)) by (nonlinear_arith)
        requires
            here.0.ord() == origin.0.ord() + (j + 1) * step_x(dir),
            before.0.ord() == origin.0.ord() + j * step_x(dir),
    ;
    assert(here.1.ord() == before.1.ord() + step_y(dir)) by (nonlinear_arith)
        requires
            here.1.ord() == origin.1.ord() + (j + 1) * step_y(dir),
            before.1.ord() == origin.1.ord() + j * step_y(dir),
    ;
    assert(back.len() > 0) by {
        if back.len() == 0 {
            assert((0 + 1) * step_x(opposite(dir)) == step_x(opposite(dir))) by (nonlinear_arith);
            assert((0 + 1) * step_y(opposite(dir)) == step_y(opposite(dir))) by (nonlinear_arith);
        }
    }
    ray_walks_outward(here, opposite(dir), 0);
    assert((0 + 1) * step_x(opposite(dir)) == step_x(opposite(dir))) by (nonlinear_arith);
    assert((0 + 1) * step_y(opposite(dir)) == step_y(opposite(dir))) by (nonlinear_arith);
    coord_round_trip(back[0]);
    assert(back[0].0.ord() == before.0.ord() && back[0].1.ord() == before.1.ord());
    dim_of_ord(back[0].0);
    dim_of_ord(back[0].1);
    dim_of_ord(before.0);
    dim_of_ord(before.1);
}

/// Wherever a piece lands, it has a square to shoot at: the arrow can
/// always fly back along the way that the piece came.
pub proof fn a_destination_has_a_target(tiles: Seq<TileState>, origin: Coord, k: int)
    requires
        tiles.len() == 100,
        0 <= k < reachable(tiles, origin).len(),
    ensures
        arrow_targets(tiles, origin, reachable(tiles, origin)[k]).len() > 0,
{
    let dest = reachable(tiles, origin)[k];
    reachable_lies_on_ray(tiles, origin, 0, k);
    let (dir, j) = choose|dir: int, j: int|
        0 <= dir < 8 && 0 <= j < first_blocked(tiles, ray(origin, dir), 0) && reachable_from_dir(
            tiles,
            origin,
            0,
        )[k] == #[trigger] ray(origin, dir)[j];
    first_blocked_in_bounds(tiles, ray(origin, dir), 0);
    ray_leads_back(origin, dir, j);
    let lifted = seen(tiles, Some(origin));
    let back = ray(dest, opposite(dir));
    coord_round_trip(origin);
    coord_round_trip(back[0]);
    if j > 0 {
        first_blocked_from(tiles, ray(origin, dir), j - 1);
    }
    assert(lifted[back[0].idx()] == TileState::Empty);
    first_blocked_in_bounds(lifted, back, 1);
    assert(first_blocked(lifted, back, 0) >= 1);
    ray_square_is_reachable(lifted, dest, 0, opposite(dir), 0);
}

/// A side has no legal move exactly when none of its pieces reaches a
/// square.
pub proof fn no_moves_means_no_piece_can_step(b: BoardView, white: bool)
    requires
        b.tiles.len() == 100,
    ensures
        side_moves(b, white).len() == 0 <==> forall|slot: int|
            side_slots(white).0 <= slot < side_slots(white).1 ==> reachable(
                b.tiles,
                #[trigger] b.pieces[slot],
            ).len() == 0,
{
    let (lo, hi) = side_slots(white);
    no_moves_means_no_destination(b, lo, hi);
    if side_moves(b, white).len() == 0 {
        assert forall|slot: int| lo <= slot < hi implies reachable(
            b.tiles,
            #[trigger] b.pieces[slot],
        ).len() == 0 by {
            if reachable(b.tiles, b.pieces[slot]).len() > 0 {
                a_destination_has_a_target(b.tiles, b.pieces[slot], 0);
                assert(arrow_targets(
                    b.tiles,
                    b.pieces[slot],
                    reachable(b.tiles, b.pieces[slot])[0],
                ).len() == 0);
            }
        }
    }
}

/// Whether the piece on `c` is walled in: in every direction the next
/// square is off the board or not empty.
pub open spec fn walled_in(tiles: Seq<TileState>, c: Coord) -> bool {
    forall|dir: int|
        0 <= dir < 8 ==> (#[trigger] ray(c, dir)).len() == 0 || tiles[ray(c, dir)[0].idx()]
            != TileState::Empty
}

proof fn walled_in_reaches_nothing(tiles: Seq<TileState>, c: Coord, from_dir: int)
    requires
        walled_in(tiles, c),
        0 <= from_dir <= 8,
    ensures
        reachable_from_dir(tiles, c, from_dir).len() == 0,
    decreases 8 - from_dir,
{
    if from_dir < 8 {
        assert(ray(c, from_dir).len() == 0 || tiles[ray(c, from_dir)[0].idx()]
            != TileState::Empty);
        assert(first_blocked(tiles, ray(c, from_dir), 0) == 0);
        walled_in_reaches_nothing(tiles, c, from_dir + 1);
    }
}

/// A side whose pieces are all walled in has no legal move.
pub proof fn walled_in_side_has_no_moves(b: BoardView, white: bool)
    requires
        forall|slot: int|
            side_slots(white).0 <= slot < side_slots(white).1 ==> walled_in(
                b.tiles,
                #[trigger] b.pieces[slot],
            ),
    ensures
        side_moves(b, white).len() == 0,
{
    let (lo, hi) = side_slots(white);
    assert forall|slot: int, k: int|
        lo <= slot < hi && 0 <= k < reachable(b.tiles, b.pieces[slot]).len() implies (
    #[trigger] arrow_targets(b.tiles, b.pieces[slot], reachable(b.tiles, b.pieces[slot])[k])).len()
        == 0 by {
        walled_in_reaches_nothing(b.tiles, b.pieces[slot], 0);
    }
    no_moves_means_no_destination(b, lo, hi);
}

} // verus!
