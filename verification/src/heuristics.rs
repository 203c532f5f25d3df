use vstd::prelude::*;

use crate::board::{board_shape, Board, BoardView};
use crate::coord::Coord;
use crate::geometry::MoveTable;
use crate::moves::{roster_moves_is_short, side_moves};
use crate::tally::{tally, tally_push};
use crate::territory::{as_nats, hops, hops_from, is_reached};

verus! {

/// The mobility of a position: the number of White's legal moves less the
/// number of Black's.
pub open spec fn mobility(b: BoardView) -> int {
    side_moves(b, true).len() - side_moves(b, false).len()
}

/// The squares on which the pieces of one side stand.
pub open spec fn side_squares(b: BoardView, white: bool) -> Set<Coord> {
    if white {
        b.pieces.subrange(0, 4).to_set()
    } else {
        b.pieces.subrange(4, 8).to_set()
    }
}

/// The number of squares that some piece of one side reaches in any
/// number of queen moves over empty squares.
pub open spec fn territory(b: BoardView, white: bool) -> nat {
    tally(hops(b.tiles, side_squares(b, white)), is_reached())
}

/// The flood-fill territory of a position: the number of squares that
/// White's pieces reach less the number that Black's reach.
pub open spec fn area(b: BoardView) -> int {
    territory(b, true) - territory(b, false)
}

/// The number by which a square's share of territory is multiplied before
/// it is rounded to an integer: scores are counted in millionths of a
/// square.
pub open spec fn scale() -> int {
    1_000_000
}

/// The product of the squares of the hop counts `hs[q]` for the pieces
/// `q < upto` other than `p` that reach the square.
pub open spec fn others(hs: Seq<nat>, p: int, upto: int) -> nat
    decreases upto,
{
    if upto <= 0 {
        1
    } else {
        others(hs, p, upto - 1) * if upto - 1 != p && hs[upto - 1] > 0 {
            hs[upto - 1] * hs[upto - 1]
        } else {
            1
        }
    }
}

/// The weight of piece `p` on a square that the eight pieces reach in
/// `hs` hops: `1 / hs[p]^2` for a piece that reaches it, zero for one that
/// does not. To keep the weights whole, all eight are multiplied by the
/// product of the squared hop counts of the pieces that reach the square.
pub open spec fn weight(hs: Seq<nat>, p: int) -> nat {
    if hs[p] > 0 {
        others(hs, p, 8)
    } else {
        0
    }
}

/// The sum of the weights of the pieces `lo..hi`.
pub open spec fn weights(hs: Seq<nat>, lo: int, hi: int) -> nat
    decreases hi - lo,
{
    if lo >= hi {
        0
    } else {
        weights(hs, lo, hi - 1) + weight(hs, hi - 1)
    }
}

/// The quotient of `n` by a positive `d`, rounded towards zero.
pub open spec fn toward_zero(n: int, d: int) -> int {
    if n >= 0 {
        n / d
    } else {
        -((-n) / d)
    }
}

/// The score of a square that the eight pieces reach in `hs` hops: the
/// difference of White's and Black's summed weights over their total, in
/// millionths and rounded towards zero; zero where no piece reaches the
/// square.
pub open spec fn square_score(hs: Seq<nat>) -> int {
    let white = weights(hs, 0, 4);
    let black = weights(hs, 4, 8);
    if white + black == 0 {
        0
    } else {
        toward_zero(scale() * (white - black), (white + black) as int)
    }
}

/// The hop counts of the eight pieces at the square with index `i`, each
/// piece expanding on its own.
pub open spec fn hops_at(b: BoardView, i: int) -> Seq<nat> {
    Seq::new(8, |p: int| hops(b.tiles, set![b.pieces[p]])[i])
}

/// The sum of the scores of the squares with index below `n`.
pub open spec fn weighted_upto(b: BoardView, n: int) -> int
    decreases n,
{
    if n <= 0 {
        0
    } else {
        weighted_upto(b, n - 1) + square_score(hops_at(b, n - 1))
    }
}

/// The weighted-reachability territory of a position: the sum of the
/// scores of all hundred squares, in millionths of a square.
pub open spec fn weighted(b: BoardView) -> int {
    weighted_upto(b, 100)
}

/// The score of a square lies between minus one and plus one square.
pub proof fn square_score_is_bounded(hs: Seq<nat>)
    ensures
        -scale() <= square_score(hs) <= scale(),
{
    let white = weights(hs, 0, 4) as int;
    let black = weights(hs, 4, 8) as int;
    if white + black != 0 {
        let total = white + black;
        let lead = if white >= black {
            white - black
        } else {
            black - white
        };
        assert((lead * 1_000_000) / total <= 1_000_000 && (lead * 1_000_000) / total >= 0)
            by (nonlinear_arith)
            requires
                0 <= lead <= total,
                total > 0,
        ;
        assert(scale() * (white - black) == if white >= black {
            lead * 1_000_000
        } else {
            -(lead * 1_000_000)
        }) by (nonlinear_arith)
            requires
                scale() == 1_000_000,
                lead == if white >= black {
                    white - black
                } else {
                    black - white
                },
        ;
    }
}

/// The value of a position lies between minus and plus a hundred squares.
pub proof fn weighted_is_bounded(b: BoardView)
    ensures
        -100 * scale() <= weighted(b) <= 100 * scale(),
{
    weighted_upto_is_bounded(b, 100);
}

proof fn weighted_upto_is_bounded(b: BoardView, n: int)
    requires
        0 <= n,
    ensures
        -n * scale() <= weighted_upto(b, n) <= n * scale(),
    decreases n,
{
    if n > 0 {
        weighted_upto_is_bounded(b, n - 1);
        square_score_is_bounded(hops_at(b, n - 1));
    }
}

/// Mobility: the number of White's legal moves less the number of Black's.
/// Higher favours White.
pub fn moves_heuristic(board: &Board, table: &MoveTable) -> (h: i32)
    ensures
        h == mobility(board@),
{
    proof {
        roster_moves_is_short(board@, 0, 4);
        roster_moves_is_short(board@, 4, 8);
    }
    let white: usize = board.white_moves(table).count();
    let black: usize = board.black_moves(table).count();
    white as i32 - black as i32
}

/// The number of squares that a hop table marks as reached.
fn reached_squares(marks: &[u32; 100]) -> (n: u32)
    ensures
        n == tally(as_nats(marks@), is_reached()),
        n <= 100,
{
    let ghost all = as_nats(marks@);
    let mut n: u32 = 0;
    let mut i: usize = 0;
    while i < 100
        invariant
            i <= 100,
            all == as_nats(marks@),
            n == tally(all.take(i as int), is_reached()),
            n <= i,
        decreases 100 - i,
    {
        proof {
            tally_push(all.take(i as int), is_reached(), all[i as int]);
            assert(all.take(i as int).push(all[i as int]) =~= all.take(i + 1));
        }
        if marks[i] > 0 {
            n += 1;
        }
        i += 1;
    }
    assert(all.take(100) =~= all);
    n
}

/// The squares of the pieces in the roster slots `lo..hi`.
pub(crate) fn squares_of(board: &Board, lo: usize, hi: usize) -> (v: Vec<Coord>)
    requires
        lo <= hi <= 8,
    ensures
        v@ == board@.pieces.subrange(lo as int, hi as int),
{
    broadcast use board_shape;

    let mut v: Vec<Coord> = Vec::new();
    let mut s: usize = lo;
    while s < hi
        invariant
            lo <= s <= hi <= 8,
            board@.pieces.len() == 8,
            v@ == board@.pieces.subrange(lo as int, s as int),
        decreases hi - s,
    {
        v.push(board.piece(s));
        proof {
            assert(v@ =~= board@.pieces.subrange(lo as int, s + 1));
        }
        s += 1;
    }
    v
}

/// Flood-fill territory: the number of squares that White's pieces reach
/// in any number of queen moves over empty squares, less the number that
/// Black's pieces reach. Higher favours White.
pub fn area_heuristic(board: &Board, table: &MoveTable) -> (h: i32)
    ensures
        h == area(board@),
{
    let white: Vec<Coord> = squares_of(board, 0, 4);
    let black: Vec<Coord> = squares_of(board, 4, 8);
    let white_marks: [u32; 100] = hops_from(board, table, &white);
    let black_marks: [u32; 100] = hops_from(board, table, &black);
    let white_sum: u32 = reached_squares(&white_marks);
    let black_sum: u32 = reached_squares(&black_marks);
    white_sum as i32 - black_sum as i32
}

/// The largest value that the product of `n` squared hop counts can take,
/// no hop count being larger than a hundred.
spec fn limit(n: int) -> int
    decreases n,
{
    if n <= 0 {
        1
    } else {
        10000 * limit(n - 1)
    }
}

proof fn limit_grows(n: int)
    requires
        0 <= n,
    ensures
        1 <= limit(n) <= limit(n + 1),
    decreases n,
{
    if n > 0 {
        limit_grows(n - 1);
    }
}

proof fn limit_of_seven()
    ensures
        limit(7) == 10_000_000_000_000_000_000_000_000_000,
{
    reveal_with_fuel(limit, 8);
}

/// The weight of piece `p` on a square with the hop counts `hs`.
fn weight_of(hs: &[u32; 8], p: usize) -> (w: u128)
    requires
        p < 8,
        forall|q: int| 0 <= q < 8 ==> #[trigger] hs@[q] <= 100,
    ensures
        w == weight(as_nats(hs@), p as int),
        w <= limit(7),
{
    let ghost counts = as_nats(hs@);
    proof {
        limit_of_seven();
        limit_grows(7);
    }
    if hs[p] == 0 {
        assert(counts[p as int] == 0);
        return 0;
    }
    let mut product: u128 = 1;
    let mut q: usize = 0;
    while q < 8
        invariant
            q <= 8,
            p < 8,
            counts == as_nats(hs@),
            forall|k: int| 0 <= k < 8 ==> #[trigger] hs@[k] <= 100,
            product == others(counts, p as int, q as int),
            product <= limit(
                if q > p {
                    q - 1
                } else {
                    q as int
                },
            ),
            limit(7) == 10_000_000_000_000_000_000_000_000_000,
        decreases 8 - q,
    {
        let ghost steps: int = if q > p {
            q - 1
        } else {
            q as int
        };
        proof {
            limit_grows(steps);
            assert(counts[q as int] == hs@[q as int]);
            assert(hs@[q as int] <= 100);
        }
        if q != p && hs[q] > 0 {
            let h: u128 = hs[q] as u128;
            assert(h * h <= 10000) by (nonlinear_arith)
                requires
                    0 <= h <= 100,
            ;
            let factor: u128 = h * h;
            proof {
                limit_climbs(steps + 1, 7);
            }
            assert(product * factor <= limit(steps + 1)) by (nonlinear_arith)
                requires
                    0 <= product <= limit(steps),
                    0 <= factor <= 10000,
                    limit(steps + 1) == 10000 * limit(steps),
            ;
            product = product * factor;
        }
        q += 1;
    }
    assert(counts[p as int] > 0);
    product
}

proof fn limit_climbs(n: int, m: int)
    requires
        0 <= n <= m,
    ensures
        limit(n) <= limit(m),
    decreases m - n,
{
    if n < m {
        limit_grows(n);
        limit_climbs(n + 1, m);
    }
}

/// The score of a square with the hop counts `hs`, in millionths.
fn score_of(hs: &[u32; 8]) -> (v: i64)
    requires
        forall|q: int| 0 <= q < 8 ==> #[trigger] hs@[q] <= 100,
    ensures
        v == square_score(as_nats(hs@)),
        -1_000_000 <= v <= 1_000_000,
{
    let ghost counts = as_nats(hs@);
    proof {
        limit_of_seven();
    }
    let mut white: u128 = 0;
    let mut p: usize = 0;
    while p < 4
        invariant
            p <= 4,
            counts == as_nats(hs@),
            forall|q: int| 0 <= q < 8 ==> #[trigger] hs@[q] <= 100,
            white == weights(counts, 0, p as int),
            white <= p * limit(7),
            limit(7) == 10_000_000_000_000_000_000_000_000_000,
        decreases 4 - p,
    {
        let w: u128 = weight_of(hs, p);
        white = white + w;
        p += 1;
    }
    let mut black: u128 = 0;
    while p < 8
        invariant
            4 <= p <= 8,
            counts == as_nats(hs@),
            forall|q: int| 0 <= q < 8 ==> #[trigger] hs@[q] <= 100,
            black == weights(counts, 4, p as int),
            black <= (p - 4) * limit(7),
            limit(7) == 10_000_000_000_000_000_000_000_000_000,
        decreases 8 - p,
    {
        let w: u128 = weight_of(hs, p);
        black = black + w;
        p += 1;
    }
    let total: u128 = white + black;
    if total == 0 {
        return 0;
    }
    if white >= black {
        let lead: u128 = white - black;
        let share: u128 = lead * 1_000_000 / total;
        assert(share <= 1_000_000) by (nonlinear_arith)
            requires
                share == (lead * 1_000_000) / (total as int),
                0 <= lead <= total,
                total > 0,
        ;
        share as i64
    } else {
        let lead: u128 = black - white;
        let share: u128 = lead * 1_000_000 / total;
        assert(share <= 1_000_000) by (nonlinear_arith)
            requires
                share == (lead * 1_000_000) / (total as int),
                0 <= lead <= total,
                total > 0,
        ;
        assert(scale() * (white - black) == -(lead * 1_000_000)) by (nonlinear_arith)
            requires
                lead == black - white,
                scale() == 1_000_000,
        ;
        -(share as i64)
    }
}

/// Weighted-reachability territory. Every piece expands breadth-first on
/// its own; a square that a piece reaches in `h` hops gives the piece the
/// weight `1 / h^2`. The score of a square is the difference of White's
/// and Black's summed weights over their total, and the value of the
/// position is the sum of the scores of all squares, counted in millionths
/// of a square, each score rounded towards zero. Higher favours White.
pub fn better_reachable_heuristic(board: &Board, table: &MoveTable) -> (v: i64)
    ensures
        v == weighted(board@),
        -100_000_000 <= v <= 100_000_000,
{
    broadcast use board_shape;

    let mut by_piece: Vec<[u32; 100]> = Vec::new();
    let mut p: usize = 0;
    while p < 8
        invariant
            p <= 8,
            by_piece@.len() == p,
            board@.pieces.len() == 8,
            forall|q: int|
                0 <= q < p ==> as_nats((#[trigger] by_piece@[q])@) == hops(
                    board@.tiles,
                    set![board@.pieces[q]],
                ),
            forall|q: int, i: int|
                0 <= q < p && 0 <= i < 100 ==> (#[trigger] by_piece@[q]@[i]) <= 100,
        decreases 8 - p,
    {
        let mut source: Vec<Coord> = Vec::new();
        source.push(board.piece(p));
        proof {
            assert(source@.to_set() =~= set![board@.pieces[p as int]]) by {
                assert(source@ =~= seq![board@.pieces[p as int]]);
                assert forall|c: Coord| source@.to_set().contains(c) <==> set![
                    board@.pieces[p as int],
                ].contains(c) by {
                    if source@.contains(c) {
                        let w = choose|w: int| 0 <= w < source@.len() && source@[w] == c;
                    }
                    if c == board@.pieces[p as int] {
                        assert(source@[0] == c);
                    }
                }
            }
        }
        let marks: [u32; 100] = hops_from(board, table, &source);
        by_piece.push(marks);
        p += 1;
    }
    let mut total: i64 = 0;
    let mut i: usize = 0;
    while i < 100
        invariant
            i <= 100,
            by_piece@.len() == 8,
            forall|q: int|
                0 <= q < 8 ==> as_nats((#[trigger] by_piece@[q])@) == hops(
                    board@.tiles,
                    set![board@.pieces[q]],
                ),
            forall|q: int, k: int|
                0 <= q < 8 && 0 <= k < 100 ==> (#[trigger] by_piece@[q]@[k]) <= 100,
            total == weighted_upto(board@, i as int),
            -1_000_000 * i <= total <= 1_000_000 * i,
        decreases 100 - i,
    {
        let hs: [u32; 8] = [
            by_piece[0][i],
            by_piece[1][i],
            by_piece[2][i],
            by_piece[3][i],
            by_piece[4][i],
            by_piece[5][i],
            by_piece[6][i],
            by_piece[7][i],
        ];
        proof {
            assert forall|q: int| 0 <= q < 8 implies #[trigger] hs@[q] <= 100 by {
                assert(hs@[q] == by_piece@[q]@[i as int]);
            }
            assert(as_nats(hs@) =~= hops_at(board@, i as int)) by {
                assert forall|q: int| 0 <= q < 8 implies as_nats(hs@)[q] == hops_at(
                    board@,
                    i as int,
                )[q] by {
                    assert(hs@[q] == by_piece@[q]@[i as int]);
                    assert(as_nats(by_piece@[q]@)[i as int] == by_piece@[q]@[i as int] as nat);
                }
            }
        }
        let score: i64 = score_of(&hs);
        total = total + score;
        i += 1;
    }
    total
}

} // verus!
