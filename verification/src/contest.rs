use vstd::prelude::*;

use crate::board::{Board, BoardView, TileState};
use crate::coord::{coord_round_trip, index_round_trip, Coord};
use crate::geometry::MoveTable;
use crate::heuristics::{side_squares, squares_of};
use crate::tally::{tally, tally_bound, tally_grows, tally_push};
use crate::territory::{hit_by, hit_squares, one_hop, touched};

verus! {

/// Who has claimed a square in the race for territory.
#[derive(Clone, Copy, Debug, PartialEq, Eq, Structural)]
pub enum Claim {
    /// Nobody yet.
    Open,
    /// White got there first.
    White,
    /// Black got there first.
    Black,
    /// Both got there in the same round, so the square is nobody's.
    Both,
}

/// The state of the race: the claims on the hundred squares, and the
/// squares that each side claimed in the round before, from which it
/// spreads next.
pub struct Contest {
    pub cells: Seq<Claim>,
    pub white: Set<Coord>,
    pub black: Set<Coord>,
}

/// Whether a side has no square to spread from.
pub open spec fn idle(seeds: Set<Coord>) -> bool {
    forall|c: Coord| !seeds.contains(c)
}

/// The squares from which White spreads: those it claimed in the round
/// before, but for the ones that Black reached in that same round.
pub open spec fn expanding(s: Contest) -> Set<Coord> {
    Set::new(|c: Coord| s.white.contains(c) && s.cells[c.idx()] != Claim::Both)
}

/// The squares that White reaches first in this round: open squares one
/// queen move away from a square that it spreads from.
pub open spec fn white_gain(tiles: Seq<TileState>, s: Contest) -> Set<Coord> {
    Set::new(|c: Coord| s.cells[c.idx()] == Claim::Open && touched(tiles, expanding(s), c))
}

/// The squares that Black claims in this round: open squares that White
/// does not reach in this round, one queen move away from a square that
/// Black claimed in the round before.
pub open spec fn black_gain(tiles: Seq<TileState>, s: Contest) -> Set<Coord> {
    Set::new(
        |c: Coord|
            s.cells[c.idx()] == Claim::Open && !touched(tiles, expanding(s), c) && touched(
                tiles,
                s.black,
                c,
            ),
    )
}

/// The claim on the square `c` after one round.
pub open spec fn claim_after(tiles: Seq<TileState>, s: Contest, c: Coord) -> Claim {
    if white_gain(tiles, s).contains(c) {
        if touched(tiles, s.black, c) {
            Claim::Both
        } else {
            Claim::White
        }
    } else if black_gain(tiles, s).contains(c) {
        Claim::Black
    } else {
        s.cells[c.idx()]
    }
}

/// One round of the race. White moves first and claims the open squares it
/// reaches; then Black claims the squares still open that it reaches, and
/// a square that White has claimed in this very round and that Black
/// reaches too becomes nobody's.
pub open spec fn contest_round(tiles: Seq<TileState>, s: Contest) -> Contest {
    Contest {
        cells: Seq::new(100, |i: int| claim_after(tiles, s, Coord::at(i))),
        white: white_gain(tiles, s),
        black: black_gain(tiles, s),
    }
}

/// The race at its start: every square open, each side on the squares of
/// its pieces.
pub open spec fn contest_start(b: BoardView) -> Contest {
    Contest {
        cells: Seq::new(100, |i: int| Claim::Open),
        white: side_squares(b, true),
        black: side_squares(b, false),
    }
}

/// The race after `rounds` rounds; it stops as soon as one side has no
/// square to spread from.
pub open spec fn contest_after(b: BoardView, rounds: nat) -> Contest
    decreases rounds,
{
    if rounds == 0 {
        contest_start(b)
    } else {
        let before = contest_after(b, (rounds - 1) as nat);
        if idle(before.white) || idle(before.black) {
            before
        } else {
            contest_round(b.tiles, before)
        }
    }
}

/// Whether a claim is White's.
pub open spec fn is_white() -> spec_fn(Claim) -> bool {
    |c: Claim| c == Claim::White
}

/// Whether a claim is Black's.
pub open spec fn is_black() -> spec_fn(Claim) -> bool {
    |c: Claim| c == Claim::Black
}

/// The contested territory of a position: the number of squares that
/// White reaches before Black less the number that Black reaches before
/// White, once the race is over; no race lasts longer than 101 rounds.
pub open spec fn contested(b: BoardView) -> int {
    let end = contest_after(b, 101);
    tally(end.cells, is_white()) - tally(end.cells, is_black())
}

/// Once a side has no square to spread from, the race stays as it is.
pub proof fn contest_comes_to_rest(b: BoardView, rounds: nat, later: nat)
    requires
        rounds <= later,
        idle(contest_after(b, rounds).white) || idle(contest_after(b, rounds).black),
    ensures
        contest_after(b, later) == contest_after(b, rounds),
    decreases later - rounds,
{
    if rounds < later {
        contest_comes_to_rest(b, rounds, (later - 1) as nat);
    }
}

/// Whether a claim has been made.
pub open spec fn is_claimed() -> spec_fn(Claim) -> bool {
    |c: Claim| c != Claim::Open
}

/// A claim, once made, is never given up, and while both sides have
/// squares to spread from every round claims a square that was open.
proof fn a_round_claims_a_square(b: BoardView, rounds: nat)
    requires
        rounds >= 1,
        !idle(contest_after(b, rounds).white),
        !idle(contest_after(b, rounds).black),
    ensures
        contest_after(b, rounds).cells.len() == 100,
        tally(contest_after(b, rounds).cells, is_claimed()) >= rounds,
    decreases rounds,
{
    let before = contest_after(b, (rounds - 1) as nat);
    let now = contest_after(b, rounds);
    if idle(before.white) || idle(before.black) {
        assert(now == before);
    } else {
        if rounds > 1 {
            a_round_claims_a_square(b, (rounds - 1) as nat);
        }
        assert(before.cells.len() == 100);
        let c = choose|c: Coord| now.white.contains(c);
        coord_round_trip(c);
        assert(before.cells[c.idx()] == Claim::Open);
        assert(now.cells[c.idx()] == claim_after(b.tiles, before, Coord::at(c.idx())));
        assert forall|i: int|
            0 <= i < 100 && is_claimed()(before.cells[i]) implies is_claimed()(now.cells[i]) by {
            index_round_trip(i);
        }
        tally_grows(before.cells, now.cells, is_claimed(), c.idx());
    }
}

/// After 101 rounds a race is over: one side has nothing left to spread
/// from, and no number of further rounds changes anything.
pub proof fn race_is_over(b: BoardView, later: nat)
    requires
        later >= 101,
    ensures
        idle(contest_after(b, 101).white) || idle(contest_after(b, 101).black),
        contest_after(b, later) == contest_after(b, 101),
{
    if !idle(contest_after(b, 101).white) && !idle(contest_after(b, 101).black) {
        a_round_claims_a_square(b, 101);
        tally_bound(contest_after(b, 101).cells, is_claimed());
    }
    contest_comes_to_rest(b, 101, later);
}

/// Whether a list of seeds holds exactly the squares of `set`, as far as
/// `f` goes.
spec fn lists(seeds: Seq<Coord>, set: Set<Coord>, f: Coord) -> bool {
    seeds.contains(f) <==> set.contains(f)
}

/// A list that holds exactly the squares of a set is empty exactly when
/// the set is.
proof fn listed_idle(seeds: Seq<Coord>, set: Set<Coord>)
    requires
        forall|f: Coord| lists(seeds, set, f),
    ensures
        seeds.len() == 0 <==> idle(set),
{
    if seeds.len() > 0 {
        assert(lists(seeds, set, seeds[0]));
        assert(seeds.contains(seeds[0]));
    } else {
        assert forall|c: Coord| !set.contains(c) by {
            assert(lists(seeds, set, c));
        }
    }
}

/// Squares are hit from a list of seeds exactly when they are touched from
/// the set that the list holds.
proof fn listed_hits(tiles: Seq<TileState>, seeds: Seq<Coord>, set: Set<Coord>, c: Coord)
    requires
        forall|f: Coord| lists(seeds, set, f),
    ensures
        hit_by(tiles, seeds, c) == touched(tiles, set, c),
{
    if hit_by(tiles, seeds, c) {
        let j = choose|j: int| 0 <= j < seeds.len() && one_hop(tiles, #[trigger] seeds[j], c);
        assert(seeds.contains(seeds[j]));
        assert(lists(seeds, set, seeds[j]));
    }
    if touched(tiles, set, c) {
        let f = choose|f: Coord| #[trigger] set.contains(f) && one_hop(tiles, f, c);
        assert(lists(seeds, set, f));
        let j = choose|j: int| 0 <= j < seeds.len() && seeds[j] == f;
        assert(one_hop(tiles, seeds[j], c));
    }
}

/// Whether the two tables of hits say of the square with index `i` what
/// the state of the race says: whether White and whether Black reaches it
/// in this round.
spec fn hits_match(
    white_hit: Seq<bool>,
    black_hit: Seq<bool>,
    tiles: Seq<TileState>,
    state: Contest,
    i: int,
) -> bool {
    &&& white_hit[i] == touched(tiles, expanding(state), Coord::at(i))
    &&& black_hit[i] == touched(tiles, state.black, Coord::at(i))
}

/// The seeds from which White spreads: those not claimed by both.
fn spreading(seeds: &Vec<Coord>, cells: &[Claim; 100]) -> (active: Vec<Coord>)
    ensures
        forall|f: Coord|
            #[trigger] active@.contains(f) <==> (seeds@.contains(f) && cells@[f.idx()]
                != Claim::Both),
{
    let mut active: Vec<Coord> = Vec::new();
    let mut j: usize = 0;
    while j < seeds.len()
        invariant
            j <= seeds@.len(),
            forall|f: Coord|
                #[trigger] active@.contains(f) <==> (seeds@.take(j as int).contains(f)
                    && cells@[f.idx()] != Claim::Both),
        decreases seeds@.len() - j,
    {
        let seed: Coord = seeds[j];
        let ghost before = active@;
        let keep: bool = cells[seed.index()] != Claim::Both;
        if keep {
            active.push(seed);
        }
        proof {
            let shorter = seeds@.take(j as int);
            let longer = seeds@.take(j + 1);
            assert(longer =~= shorter.push(seed));
            assert forall|f: Coord|
                #[trigger] active@.contains(f) <==> (longer.contains(f) && cells@[f.idx()]
                    != Claim::Both) by {
                if active@.contains(f) {
                    let w = choose|w: int| 0 <= w < active@.len() && active@[w] == f;
                    if w < before.len() {
                        assert(before[w] == f);
                        assert(before.contains(f));
                        let v = choose|v: int| 0 <= v < shorter.len() && shorter[v] == f;
                        assert(longer[v] == f);
                    } else {
                        assert(longer[j as int] == f);
                    }
                }
                if longer.contains(f) && cells@[f.idx()] != Claim::Both {
                    let v = choose|v: int| 0 <= v < longer.len() && longer[v] == f;
                    if v < j {
                        assert(shorter[v] == f);
                        assert(shorter.contains(f));
                        assert(before.contains(f));
                        let w = choose|w: int| 0 <= w < before.len() && before[w] == f;
                        assert(active@[w] == f);
                    } else {
                        assert(active@[before.len() as int] == f);
                    }
                }
            }
        }
        j += 1;
    }
    assert(seeds@.take(seeds@.len() as int) =~= seeds@);
    active
}

/// The number of cells that hold the claim `which`.
fn claims_of(cells: &[Claim; 100], which: Claim) -> (n: u32)
    ensures
        n == tally(cells@, |c: Claim| c == which),
        n <= 100,
{
    let ghost wanted = |c: Claim| c == which;
    let mut n: u32 = 0;
    let mut i: usize = 0;
    while i < 100
        invariant
            i <= 100,
            wanted == (|c: Claim| c == which),
            n == tally(cells@.take(i as int), wanted),
            n <= i,
        decreases 100 - i,
    {
        proof {
            tally_push(cells@.take(i as int), wanted, cells@[i as int]);
            assert(cells@.take(i as int).push(cells@[i as int]) =~= cells@.take(i + 1));
        }
        if cells[i] == which {
            n += 1;
        }
        i += 1;
    }
    assert(cells@.take(100) =~= cells@);
    n
}

/// Contested territory: both sides spread from their pieces by queen
/// moves, round by round and White first, and a square belongs to the side
/// that reaches it first; a square that both reach in the same round
/// belongs to nobody and is spread from by nobody. The race ends when one
/// side has nothing left to spread from. The value is the number of
/// White's squares less the number of Black's. Higher favours White.
pub fn reachable_heuristic(board: &Board, table: &MoveTable) -> (h: i32)
    ensures
        h == contested(board@),
{
    let ghost b = board@;
    let mut cells: [Claim; 100] = [Claim::Open;100];
    let mut white_seeds: Vec<Coord> = squares_of(board, 0, 4);
    let mut black_seeds: Vec<Coord> = squares_of(board, 4, 8);
    let mut round: u32 = 0;
    proof {
        assert(cells@ =~= contest_start(b).cells);
        assert forall|f: Coord| lists(white_seeds@, contest_after(b, 0).white, f) by {}
        assert forall|f: Coord| lists(black_seeds@, contest_after(b, 0).black, f) by {}
    }
    while white_seeds.len() > 0 && black_seeds.len() > 0 && round < 101
        invariant
            b == board@,
            round <= 101,
            cells@ == contest_after(b, round as nat).cells,
            forall|f: Coord| lists(white_seeds@, contest_after(b, round as nat).white, f),
            forall|f: Coord| lists(black_seeds@, contest_after(b, round as nat).black, f),
        decreases 101 - round,
    {
        let ghost state = contest_after(b, round as nat);
        let ghost after = contest_round(b.tiles, state);
        let active: Vec<Coord> = spreading(&white_seeds, &cells);
        let white_hit: [bool; 100] = hit_squares(board, table, &active);
        let black_hit: [bool; 100] = hit_squares(board, table, &black_seeds);
        proof {
            listed_idle(white_seeds@, state.white);
            listed_idle(black_seeds@, state.black);
            assert(contest_after(b, (round + 1) as nat) == after);
            assert forall|f: Coord| lists(active@, expanding(state), f) by {
                assert(lists(white_seeds@, state.white, f));
            }
            assert forall|i: int| 0 <= i < 100 implies hits_match(
                white_hit@,
                black_hit@,
                b.tiles,
                state,
                i,
            ) by {
                listed_hits(b.tiles, active@, expanding(state), Coord::at(i));
                listed_hits(b.tiles, black_seeds@, state.black, Coord::at(i));
            }
        }
        let mut new_white: Vec<Coord> = Vec::new();
        let mut new_black: Vec<Coord> = Vec::new();
        let mut i: usize = 0;
        while i < 100
            invariant
                i <= 100,
                state.cells.len() == 100,
                after == contest_round(b.tiles, state),
                forall|k: int|
                    0 <= k < 100 ==> hits_match(white_hit@, black_hit@, b.tiles, state, k),
                forall|k: int| 0 <= k < i ==> #[trigger] cells@[k] == after.cells[k],
                forall|k: int| i <= k < 100 ==> #[trigger] cells@[k] == state.cells[k],
                forall|f: Coord|
                    #[trigger] new_white@.contains(f) <==> (f.idx() < i && after.white.contains(
                        f,
                    )),
                forall|f: Coord|
                    #[trigger] new_black@.contains(f) <==> (f.idx() < i && after.black.contains(
                        f,
                    )),
            decreases 100 - i,
        {
            let ghost cells_before = cells@;
            let ghost white_before = new_white@;
            let ghost black_before = new_black@;
            let here: Coord = Coord::square(i);
            proof {
                index_round_trip(i as int);
                assert(cells@[i as int] == state.cells[i as int]);
                assert(hits_match(white_hit@, black_hit@, b.tiles, state, i as int));
            }
            let ghost white_grew = cells@[i as int] == Claim::Open && white_hit@[i as int];
            let ghost black_grew = cells@[i as int] == Claim::Open && !white_hit@[i as int]
                && black_hit@[i as int];
            if cells[i] == Claim::Open {
                if white_hit[i] {
                    new_white.push(here);
                    cells[i] = if black_hit[i] {
                        Claim::Both
                    } else {
                        Claim::White
                    };
                } else if black_hit[i] {
                    new_black.push(here);
                    cells[i] = Claim::Black;
                }
            }
            proof {
                assert(cells@[i as int] == after.cells[i as int]);
                assert forall|k: int| 0 <= k < i + 1 implies #[trigger] cells@[k]
                    == after.cells[k] by {
                    if k < i {
                        assert(cells@[k] == cells_before[k]);
                    }
                }
                assert forall|k: int| i + 1 <= k < 100 implies #[trigger] cells@[k]
                    == state.cells[k] by {
                    assert(cells@[k] == cells_before[k]);
                }
                assert forall|f: Coord|
                    #[trigger] new_white@.contains(f) <==> (f.idx() < i + 1
                        && after.white.contains(f)) by {
                    coord_round_trip(f);
                    grown(white_before, new_white@, white_grew, here, f);
                    assert(white_grew == after.white.contains(here));
                }
                assert forall|f: Coord|
                    #[trigger] new_black@.contains(f) <==> (f.idx() < i + 1
                        && after.black.contains(f)) by {
                    coord_round_trip(f);
                    grown(black_before, new_black@, black_grew, here, f);
                    assert(black_grew == after.black.contains(here));
                }
            }
            i += 1;
        }
        proof {
            assert(cells@ =~= after.cells);
            assert forall|f: Coord| lists(new_white@, after.white, f) by {
                coord_round_trip(f);
            }
            assert forall|f: Coord| lists(new_black@, after.black, f) by {
                coord_round_trip(f);
            }
        }
        white_seeds = new_white;
        black_seeds = new_black;
        round += 1;
    }
    proof {
        if round < 101 {
            listed_idle(white_seeds@, contest_after(b, round as nat).white);
            listed_idle(black_seeds@, contest_after(b, round as nat).black);
            contest_comes_to_rest(b, round as nat, 101);
        }
        assert(is_white() == (|c: Claim| c == Claim::White));
        assert(is_black() == (|c: Claim| c == Claim::Black));
    }
    let white_cells: u32 = claims_of(&cells, Claim::White);
    let black_cells: u32 = claims_of(&cells, Claim::Black);
    white_cells as i32 - black_cells as i32
}

/// What a list holds after it has or has not grown by `added`.
proof fn grown(before: Seq<Coord>, after: Seq<Coord>, grew: bool, added: Coord, f: Coord)
    requires
        after == if grew {
            before.push(added)
        } else {
            before
        },
    ensures
        after.contains(f) <==> (before.contains(f) || (grew && f == added)),
{
    if after.contains(f) {
        let w = choose|w: int| 0 <= w < after.len() && after[w] == f;
        if w < before.len() {
            assert(before[w] == f);
        }
    }
    if before.contains(f) {
        let w = choose|w: int| 0 <= w < before.len() && before[w] == f;
        assert(after[w] == f);
    }
    if grew && f == added {
        assert(after[before.len() as int] == f);
    }
}

} // verus!
