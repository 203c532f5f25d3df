use vstd::prelude::*;

use crate::board::{applied, Board, BoardView, Move};
use crate::clock::Clock;
use crate::geometry::MoveTable;
use crate::heuristics::{better_reachable_heuristic, weighted, weighted_is_bounded};
use crate::moves::{side_moves, with_boards};

verus! {

/// What a search returns: the move chosen with the position that it leads
/// to, if a move was chosen, and the value of the position searched.
pub type Outcome = (Option<(Move, Board)>, i64);

/// The value of a node at which the side to move has no child to offer:
/// the highest value at a maximizing node, the lowest at a minimizing one.
pub open spec fn no_child(maxing: bool) -> int {
    if maxing {
        i64::MAX as int
    } else {
        i64::MIN as int
    }
}

/// The better of the best child so far and the child `m` of value `v`: the
/// new child only if its value is strictly better for the side to move, so
/// that of equal children the first one found stays.
pub open spec fn prefer(best: Option<(Move, int)>, m: Move, v: int, maxing: bool) -> Option<
    (Move, int),
> {
    match best {
        None => Some((m, v)),
        Some((_, held)) => if (maxing && v > held) || (!maxing && v < held) {
            Some((m, v))
        } else {
            best
        },
    }
}

/// The result of a node whose scan has ended with `best`.
pub open spec fn settle(best: Option<(Move, int)>, maxing: bool) -> (Option<Move>, int) {
    match best {
        Some((m, v)) => (Some(m), v),
        None => (None, no_child(maxing)),
    }
}

/// Plain minimax: the move that the side to move should choose `depth`
/// plies from `b`, and the value of the position, White maximizing when
/// `maxing` holds and Black minimizing otherwise.
///
/// At depth zero the value is the static evaluation and no move is chosen.
/// Otherwise the value is the best of the values of the children, each
/// searched one ply less deep for the other side, and the move is the first
/// child of that value in the order of the move enumeration.
pub open spec fn plain_search(b: BoardView, depth: nat, maxing: bool) -> (Option<Move>, int)
    decreases depth, 1nat, 0nat,
{
    if depth == 0 {
        (None, weighted(b))
    } else {
        settle(plain_scan(b, depth, maxing, side_moves(b, maxing), None), maxing)
    }
}

/// The best child among `best` and the children `moves` of `b`, by plain
/// minimax.
pub open spec fn plain_scan(
    b: BoardView,
    depth: nat,
    maxing: bool,
    moves: Seq<Move>,
    best: Option<(Move, int)>,
) -> Option<(Move, int)>
    decreases depth, 0nat, moves.len(),
{
    if depth == 0 || moves.len() == 0 {
        best
    } else {
        let m = moves[0];
        let v = plain_search(applied(b, m), (depth - 1) as nat, !maxing).1;
        plain_scan(b, depth, maxing, moves.drop_first(), prefer(best, m, v, maxing))
    }
}

/// The result of an alpha-beta search of `depth` plies from `b` with the
/// window from `alpha` to `beta`: what [`plain_search`] finds if the value
/// lies in the window, and otherwise a bound on the value that lies beyond
/// the window on the same side, see [`pruning_is_sound`].
///
/// The children are scanned in the order of the move enumeration, see
/// [`scan`].
pub open spec fn search(b: BoardView, depth: nat, maxing: bool, alpha: int, beta: int) -> (
    Option<Move>,
    int,
)
    decreases depth, 1nat, 0nat,
{
    if depth == 0 {
        (None, weighted(b))
    } else {
        scan(b, depth, maxing, alpha, beta, side_moves(b, maxing), None)
    }
}

/// The rest of the scan of a node's children, `moves` being those not yet
/// searched and `best` the best found so far.
///
/// Each child is searched one ply less deep, with the window as it stands.
/// At a maximizing node a child whose value exceeds `beta` ends the scan
/// and is the result; any other child raises `alpha` to its value. At a
/// minimizing node a child whose value falls below `alpha` ends the scan
/// and is the result, and any other child lowers `beta`.
pub open spec fn scan(
    b: BoardView,
    depth: nat,
    maxing: bool,
    alpha: int,
    beta: int,
    moves: Seq<Move>,
    best: Option<(Move, int)>,
) -> (Option<Move>, int)
    decreases depth, 0nat, moves.len(),
{
    if depth == 0 || moves.len() == 0 {
        settle(best, maxing)
    } else {
        let m = moves[0];
        let v = search(applied(b, m), (depth - 1) as nat, !maxing, alpha, beta).1;
        if maxing {
            if v > beta {
                (Some(m), v)
            } else {
                scan(
                    b,
                    depth,
                    maxing,
                    if v > alpha {
                        v
                    } else {
                        alpha
                    },
                    beta,
                    moves.drop_first(),
                    prefer(best, m, v, maxing),
                )
            }
        } else {
            if v < alpha {
                (Some(m), v)
            } else {
                scan(
                    b,
                    depth,
                    maxing,
                    alpha,
                    if v < beta {
                        v
                    } else {
                        beta
                    },
                    moves.drop_first(),
                    prefer(best, m, v, maxing),
                )
            }
        }
    }
}

/// Whether `v` fits a machine integer.
pub open spec fn in_range(v: int) -> bool {
    i64::MIN <= v <= i64::MAX
}

/// What a search with the window from `alpha` to `beta` owes, `plain`
/// being the result of plain minimax: the same result if the plain value
/// lies in the window; if it lies below, a value below the window and no
/// less than the plain one; if it lies above, a value above the window and
/// no more than the plain one.
pub open spec fn within_window(
    found: (Option<Move>, int),
    plain: (Option<Move>, int),
    alpha: int,
    beta: int,
) -> bool {
    if plain.1 < alpha {
        plain.1 <= found.1 < alpha
    } else if plain.1 > beta {
        beta < found.1 <= plain.1
    } else {
        found == plain
    }
}

/// The move and the value that an outcome tells of.
pub open spec fn told(r: Outcome) -> (Option<Move>, int) {
    (
        match r.0 {
            Some((m, _)) => Some(m),
            None => None,
        },
        r.1 as int,
    )
}

/// Whether the outcome `r` of a search from `b` is the result `expected`:
/// the same move, if any, with the position that the move leads to, and
/// the same value.
pub open spec fn agrees(r: Outcome, b: BoardView, expected: (Option<Move>, int)) -> bool {
    &&& told(r) == expected
    &&& r.0 matches Some((m, next)) ==> next@ == applied(b, m)
}

/// The best child that plain minimax holds after a scan is no worse than
/// the one it held before.
pub proof fn plain_scan_improves(
    b: BoardView,
    depth: nat,
    maxing: bool,
    moves: Seq<Move>,
    best: Option<(Move, int)>,
)
    requires
        best is Some,
    ensures
        plain_scan(b, depth, maxing, moves, best) is Some,
        maxing ==> settle(plain_scan(b, depth, maxing, moves, best), maxing).1 >= settle(
            best,
            maxing,
        ).1,
        !maxing ==> settle(plain_scan(b, depth, maxing, moves, best), maxing).1 <= settle(
            best,
            maxing,
        ).1,
    decreases moves.len(),
{
    if depth > 0 && moves.len() > 0 {
        let m = moves[0];
        let v = plain_search(applied(b, m), (depth - 1) as nat, !maxing).1;
        plain_scan_improves(b, depth, maxing, moves.drop_first(), prefer(best, m, v, maxing));
    }
}

/// The move that plain minimax settles on is the best one held or one of
/// the moves still to be searched, and it settles on a move if it holds
/// one or has one to search.
pub proof fn plain_scan_picks_a_listed_move(
    b: BoardView,
    depth: nat,
    maxing: bool,
    moves: Seq<Move>,
    best: Option<(Move, int)>,
)
    requires
        depth >= 1,
    ensures
        plain_scan(b, depth, maxing, moves, best) is None <==> best is None && moves.len() == 0,
        plain_scan(b, depth, maxing, moves, best) matches Some((m, _)) ==> moves.contains(m) || (
        best matches Some((held, _)) && held == m),
    decreases moves.len(),
{
    if moves.len() > 0 {
        let m = moves[0];
        let v = plain_search(applied(b, m), (depth - 1) as nat, !maxing).1;
        let next = prefer(best, m, v, maxing);
        let rest = moves.drop_first();
        plain_scan_picks_a_listed_move(b, depth, maxing, rest, next);
        if let Some((c, _)) = plain_scan(b, depth, maxing, rest, next) {
            if rest.contains(c) {
                let k = choose|k: int| 0 <= k < rest.len() && rest[k] == c;
                assert(moves[k + 1] == c);
            } else if !(best matches Some((held, _)) && held == c) {
                assert(moves[0] == c);
            }
        }
    }
}

/// Plain minimax of at least one ply chooses no move exactly when the side
/// to move has none, and the move that it chooses is a legal move of that
/// side.
pub proof fn plain_search_finds_a_move(b: BoardView, depth: nat, maxing: bool)
    requires
        depth >= 1,
    ensures
        plain_search(b, depth, maxing).0 is None <==> side_moves(b, maxing).len() == 0,
        plain_search(b, depth, maxing).0 matches Some(m) ==> side_moves(b, maxing).contains(m),
{
    plain_scan_picks_a_listed_move(b, depth, maxing, side_moves(b, maxing), None);
}

/// How the best child `best` that a pruning scan holds stands to the best
/// child `plain` that plain minimax holds after the same children, the
/// window having been `alpha` to `beta` at the start of the scan and being
/// `low` to `high` now: the scan's value is no worse than the plain one
/// and not beyond the far bound, the near bound has moved up to it, and
/// the two agree altogether once the scan's value has come into the window.
pub open spec fn tracks(
    plain: Option<(Move, int)>,
    best: Option<(Move, int)>,
    maxing: bool,
    alpha: int,
    beta: int,
    low: int,
    high: int,
) -> bool {
    match (plain, best) {
        (None, None) => low == alpha && high == beta,
        (Some((_, pv)), Some((_, bv))) => if maxing {
            &&& pv <= bv <= beta
            &&& high == beta
            &&& low == if bv > alpha {
                bv
            } else {
                alpha
            }
            &&& bv >= alpha ==> plain == best
        } else {
            &&& alpha <= bv <= pv
            &&& low == alpha
            &&& high == if bv < beta {
                bv
            } else {
                beta
            }
            &&& bv <= beta ==> plain == best
        },
        _ => false,
    }
}

/// Pruning is sound: a search with a window owes and gives what
/// [`within_window`] says. In particular a search with the full window
/// returns the move and the value of plain minimax.
pub proof fn pruning_is_sound(b: BoardView, depth: nat, maxing: bool, alpha: int, beta: int)
    requires
        alpha <= beta,
        in_range(alpha),
        in_range(beta),
    ensures
        within_window(
            search(b, depth, maxing, alpha, beta),
            plain_search(b, depth, maxing),
            alpha,
            beta,
        ),
    decreases depth, 1nat, 0nat,
{
    if depth > 0 {
        scan_is_sound(
            b,
            depth,
            maxing,
            alpha,
            beta,
            alpha,
            beta,
            side_moves(b, maxing),
            None,
            None,
        );
    }
}

proof fn scan_is_sound(
    b: BoardView,
    depth: nat,
    maxing: bool,
    alpha: int,
    beta: int,
    low: int,
    high: int,
    moves: Seq<Move>,
    best: Option<(Move, int)>,
    plain: Option<(Move, int)>,
)
    requires
        depth >= 1,
        alpha <= beta,
        in_range(alpha),
        in_range(beta),
        tracks(plain, best, maxing, alpha, beta, low, high),
    ensures
        within_window(
            scan(b, depth, maxing, low, high, moves, best),
            settle(plain_scan(b, depth, maxing, moves, plain), maxing),
            alpha,
            beta,
        ),
    decreases depth, 0nat, moves.len(),
{
    if moves.len() > 0 {
        let m = moves[0];
        let child = applied(b, m);
        let rest = moves.drop_first();
        pruning_is_sound(child, (depth - 1) as nat, !maxing, low, high);
        let pv = plain_search(child, (depth - 1) as nat, !maxing).1;
        let v = search(child, (depth - 1) as nat, !maxing, low, high).1;
        let plain_next = prefer(plain, m, pv, maxing);
        let best_next = prefer(best, m, v, maxing);
        plain_scan_improves(b, depth, maxing, rest, plain_next);
        if maxing {
            if v <= high {
                let low_next = if v > low {
                    v
                } else {
                    low
                };
                assert(tracks(plain_next, best_next, maxing, alpha, beta, low_next, high));
                scan_is_sound(
                    b,
                    depth,
                    maxing,
                    alpha,
                    beta,
                    low_next,
                    high,
                    rest,
                    best_next,
                    plain_next,
                );
            }
        } else {
            if v >= low {
                let high_next = if v < high {
                    v
                } else {
                    high
                };
                assert(tracks(plain_next, best_next, maxing, alpha, beta, low, high_next));
                scan_is_sound(
                    b,
                    depth,
                    maxing,
                    alpha,
                    beta,
                    low,
                    high_next,
                    rest,
                    best_next,
                    plain_next,
                );
            }
        }
    }
}

/// A search with the full window returns the move and the value of plain
/// minimax: pruning never changes the result at the root.
pub proof fn full_window_is_plain_minimax(b: BoardView, depth: nat, maxing: bool)
    ensures
        search(b, depth, maxing, i64::MIN as int, i64::MAX as int) == plain_search(
            b,
            depth,
            maxing,
        ),
{
    pruning_is_sound(b, depth, maxing, i64::MIN as int, i64::MAX as int);
    plain_value_in_range(b, depth, maxing);
}

/// Every value of plain minimax is a static evaluation or the value of a
/// node without children, so it fits a machine integer.
pub proof fn plain_value_in_range(b: BoardView, depth: nat, maxing: bool)
    ensures
        in_range(plain_search(b, depth, maxing).1),
    decreases depth, 1nat, 0nat,
{
    if depth == 0 {
        weighted_is_bounded(b);
    } else {
        plain_scan_in_range(b, depth, maxing, side_moves(b, maxing), None);
    }
}

proof fn plain_scan_in_range(
    b: BoardView,
    depth: nat,
    maxing: bool,
    moves: Seq<Move>,
    best: Option<(Move, int)>,
)
    requires
        best matches Some((_, v)) ==> in_range(v),
    ensures
        plain_scan(b, depth, maxing, moves, best) matches Some((_, v)) ==> in_range(v),
    decreases depth, 0nat, moves.len(),
{
    if depth > 0 && moves.len() > 0 {
        let m = moves[0];
        plain_value_in_range(applied(b, m), (depth - 1) as nat, !maxing);
        let v = plain_search(applied(b, m), (depth - 1) as nat, !maxing).1;
        plain_scan_in_range(b, depth, maxing, moves.drop_first(), prefer(best, m, v, maxing));
    }
}

/// The best child held by a scan: its move and its value as a number.
spec fn held(best: Option<(Move, Board)>, value: i64) -> Option<(Move, int)> {
    match best {
        Some((m, _)) => Some((m, value as int)),
        None => None,
    }
}

/// Searches `depth` plies from `board` by alpha-beta, for White maximizing
/// when `maxing` holds and for Black minimizing otherwise, with the window
/// from `alpha` to `beta`.
///
/// With no depth left the call returns the static evaluation and no move.
/// Otherwise it first asks the clock; once the deadline has passed it
/// returns the static evaluation as if no depth were left. A result
/// reached while the clock has not expired is the result of the full
/// search: that of plain minimax if its value lies in the window, a bound
/// beyond the window on the same side otherwise. A move that comes back is
/// a legal move of the side to move, whatever the clock said.
pub fn alpha_beta(
    board: &Board,
    table: &MoveTable,
    depth: usize,
    maxing: bool,
    alpha: i64,
    beta: i64,
    clock: &mut Clock,
) -> (r: Outcome)
    ensures
        old(clock).expired() ==> final(clock).expired(),
        final(clock).unlimited() == old(clock).unlimited(),
        final(clock).budget() == old(clock).budget(),
        depth == 0 ==> r.0 is None && r.1 == weighted(board@) && final(clock).expired() == old(
            clock,
        ).expired(),
        old(clock).expired() ==> r.0 is None && r.1 == weighted(board@),
        r.0 matches Some((m, next)) ==> depth >= 1 && side_moves(board@, maxing).contains(m)
            && next@ == applied(board@, m),
        !final(clock).expired() ==> agrees(
            r,
            board@,
            search(board@, depth as nat, maxing, alpha as int, beta as int),
        ),
        !final(clock).expired() && alpha <= beta ==> within_window(
            told(r),
            plain_search(board@, depth as nat, maxing),
            alpha as int,
            beta as int,
        ),
    decreases depth,
{
    proof {
        if alpha <= beta {
            pruning_is_sound(board@, depth as nat, maxing, alpha as int, beta as int);
        }
    }
    if depth == 0 {
        return (None, better_reachable_heuristic(board, table));
    }
    if clock.passed() {
        return (None, better_reachable_heuristic(board, table));
    }
    let ghost b = board@;
    let ghost all = side_moves(b, maxing);
    let ghost goal = search(b, depth as nat, maxing, alpha as int, beta as int);
    let mut children = if maxing {
        board.white_moves_boards(table)
    } else {
        board.black_moves_boards(table)
    };
    let ghost mut k: int = 0;
    let mut best: Option<(Move, Board)> = None;
    let mut value: i64 = if maxing {
        i64::MAX
    } else {
        i64::MIN
    };
    let mut low: i64 = alpha;
    let mut high: i64 = beta;
    assert(all.skip(0) =~= all);
    loop
        invariant_except_break
            0 <= k <= all.len(),
            children.remaining() == with_boards(b, all.skip(k)),
            !clock.expired() ==> scan(
                b,
                depth as nat,
                maxing,
                low as int,
                high as int,
                all.skip(k),
                held(best, value),
            ) == goal,
        invariant
            depth > 0,
            b == board@,
            all == side_moves(b, maxing),
            old(clock).expired() ==> clock.expired(),
            clock.unlimited() == old(clock).unlimited(),
            clock.budget() == old(clock).budget(),
            best is None ==> value == no_child(maxing),
            best matches Some((m, next)) ==> all.contains(m) && next@ == applied(b, m),
        ensures
            !clock.expired() ==> settle(held(best, value), maxing) == goal,
        decreases all.len() - k,
    {
        let ghost rest = all.skip(k);
        match children.next() {
            None => {
                proof {
                    assert(rest.len() == 0);
                }
                break ;
            },
            Some((mov, next)) => {
                proof {
                    assert(rest.len() > 0);
                    assert(with_boards(b, rest)[0] == (mov, next@));
                    assert(mov == all[k]);
                    assert(rest.drop_first() =~= all.skip(k + 1));
                    assert(with_boards(b, rest).drop_first() =~= with_boards(b, all.skip(k + 1)));
                }
                let (_, v) = alpha_beta(&next, table, depth - 1, !maxing, low, high, clock);
                let cut: bool = if maxing {
                    v > high
                } else {
                    v < low
                };
                if cut {
                    best = Some((mov, next));
                    value = v;
                    break ;
                }
                if maxing {
                    if v > low {
                        low = v;
                    }
                } else {
                    if v < high {
                        high = v;
                    }
                }
                let better: bool = match best {
                    None => true,
                    Some(_) => if maxing {
                        v > value
                    } else {
                        v < value
                    },
                };
                if better {
                    best = Some((mov, next));
                    value = v;
                }
                proof {
                    k = k + 1;
                }
            },
        }
    }
    (best, value)
}

/// Searches `depth` plies from `board` with the full window and without a
/// deadline, for White when `is_white` holds and for Black otherwise, and
/// returns the move and the value of plain minimax.
pub fn search_to_depth(board: &Board, table: &MoveTable, depth: usize, is_white: bool) -> (r:
    Outcome)
    ensures
        agrees(r, board@, plain_search(board@, depth as nat, is_white)),
{
    let mut clock: Clock = Clock::unbounded();
    let r = alpha_beta(board, table, depth, is_white, i64::MIN, i64::MAX, &mut clock);
    proof {
        clock.unlimited_never_expires();
        full_window_is_plain_minimax(board@, depth as nat, is_white);
    }
    r
}

/// The depth whose result is kept after `completed` rounds of deepening
/// have ended in time: the last of them, or zero where none has.
pub open spec fn kept_depth(completed: usize) -> nat {
    if completed == 0 {
        0
    } else {
        (completed - 1) as nat
    }
}

/// Closes the round of deepening that searched to `depth`: `kept` is the
/// result kept so far, `found` what the round's search returned, and
/// `late` the clock's answer after the search. A result that came late is
/// discarded, one that came in time replaces what was kept; either way the
/// next round is one ply deeper.
pub fn close_round(kept: Outcome, depth: usize, found: Outcome, late: bool) -> (next: (
    Outcome,
    usize,
))
    requires
        depth < usize::MAX,
    ensures
        next.0 == if late {
            kept
        } else {
            found
        },
        next.1 == depth + 1,
{
    if late {
        (kept, depth + 1)
    } else {
        (found, depth + 1)
    }
}

/// Searches `board` to depth 0, 1, 2 and so on, each depth in full, until
/// `clock` finds its deadline reached, and returns the result of the
/// deepest search that ended before the deadline, together with the number
/// of searches that did. The clock is asked before each search and after
/// it; a search after which the deadline is found reached is discarded by
/// [`close_round`], and the deepening ends.
///
/// The result is that of plain minimax to the depth of the last search
/// that ended in time, and the static evaluation with no move where none
/// or only the first did.
pub fn deepen(board: &Board, table: &MoveTable, is_white: bool, clock: &mut Clock) -> (r: (
    Outcome,
    usize,
))
    ensures
        agrees(r.0, board@, plain_search(board@, kept_depth(r.1), is_white)),
        r.1 <= 1 ==> told(r.0) == (None::<Move>, weighted(board@)),
        old(clock).expired() ==> r.1 == 0,
        !old(clock).unlimited() && old(clock).budget() == 0 ==> r.1 == 0,
        r.1 < usize::MAX ==> final(clock).expired(),
        told(r.0).0 matches Some(m) ==> side_moves(board@, is_white).contains(m),
        side_moves(board@, is_white).len() == 0 ==> told(r.0).0 is None,
        final(clock).unlimited() == old(clock).unlimited(),
        final(clock).budget() == old(clock).budget(),
{
    let mut kept: Outcome = (None, better_reachable_heuristic(board, table));
    let mut depth: usize = 0;
    let mut completed: usize = 0;
    while depth < usize::MAX && !clock.reached()
        invariant
            completed <= depth,
            !clock.expired() ==> completed == depth,
            old(clock).expired() ==> clock.expired() && completed == 0,
            !clock.unlimited() && clock.budget() == 0 ==> completed == 0,
            clock.unlimited() == old(clock).unlimited(),
            clock.budget() == old(clock).budget(),
            agrees(kept, board@, plain_search(board@, kept_depth(completed), is_white)),
            completed <= 1 ==> kept.0 is None && kept.1 == weighted(board@),
            kept.0 matches Some((m, next)) ==> side_moves(board@, is_white).contains(m),
        decreases usize::MAX - depth,
    {
        let found: Outcome = alpha_beta(
            board,
            table,
            depth,
            is_white,
            i64::MIN,
            i64::MAX,
            clock,
        );
        let late: bool = clock.reached();
        proof {
            full_window_is_plain_minimax(board@, depth as nat, is_white);
        }
        let next = close_round(kept, depth, found, late);
        kept = next.0;
        depth = next.1;
        if !late {
            completed = depth;
        }
    }
    (kept, completed)
}

/// Chooses a move for White when `is_white` holds and for Black otherwise,
/// within `budget_millis` milliseconds, by iterative deepening, see
/// [`deepen`]: the position is searched to depth 0, 1, 2 and so on until
/// the deadline is reached, and the result of the deepest search that
/// ended before the deadline is returned. A search that the deadline
/// interrupted is discarded.
///
/// Whatever the clock says, the result is that of plain minimax to some
/// depth. With a budget of zero it is that of depth zero: no move, and the
/// static evaluation of the position.
pub fn minimax(board: &Board, table: &MoveTable, is_white: bool, budget_millis: u64) -> (r:
    Outcome)
    ensures
        exists|depth: nat| agrees(r, board@, #[trigger] plain_search(board@, depth, is_white)),
        budget_millis == 0 ==> r.0 is None && r.1 == weighted(board@),
        r.0 matches Some((m, next)) ==> side_moves(board@, is_white).contains(m) && next@
            == applied(board@, m),
        side_moves(board@, is_white).len() == 0 ==> r.0 is None,
{
    let mut clock: Clock = Clock::start(budget_millis);
    let r = deepen(board, table, is_white, &mut clock);
    r.0
}

} // verus!
