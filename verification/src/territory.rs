use vstd::prelude::*;

use crate::board::{Board, TileState};
use crate::coord::{coord_round_trip, index_round_trip, Coord};
use crate::geometry::MoveTable;
use crate::reach::reachable;
use crate::tally::{tally, tally_bound, tally_grows};

verus! {

/// Whether one queen move over `tiles` leads from `from` to `to`.
pub open spec fn one_hop(tiles: Seq<TileState>, from: Coord, to: Coord) -> bool {
    reachable(tiles, from).contains(to)
}

/// Whether one queen move from one of `seeds` leads to `c`.
pub open spec fn hit_by(tiles: Seq<TileState>, seeds: Seq<Coord>, c: Coord) -> bool {
    exists|j: int| 0 <= j < seeds.len() && one_hop(tiles, #[trigger] seeds[j], c)
}

/// Whether one queen move from a square of `from` leads to `c`.
pub open spec fn touched(tiles: Seq<TileState>, from: Set<Coord>, c: Coord) -> bool {
    exists|f: Coord| #[trigger] from.contains(f) && one_hop(tiles, f, c)
}

/// The squares from which round `level` of a breadth-first expansion
/// spreads: the sources in round zero, afterwards the squares that the
/// round before has marked.
pub open spec fn frontier(sources: Set<Coord>, marks: Seq<nat>, level: nat) -> Set<Coord> {
    if level == 0 {
        sources
    } else {
        Set::new(|f: Coord| marks[f.idx()] == level)
    }
}

/// One round of the expansion: every square that has no mark yet and that
/// one queen move from `from` reaches is marked with `level + 1`.
pub open spec fn spread(tiles: Seq<TileState>, from: Set<Coord>, marks: Seq<nat>, level: nat) -> Seq<
    nat,
> {
    Seq::new(
        100,
        |i: int|
            if marks[i] == 0 && touched(tiles, from, Coord::at(i)) {
                level + 1
            } else {
                marks[i]
            },
    )
}

/// The marks after `rounds` rounds of the expansion from `sources`,
/// starting with no square marked.
pub open spec fn marks_after(tiles: Seq<TileState>, sources: Set<Coord>, rounds: nat) -> Seq<nat>
    decreases rounds,
{
    if rounds == 0 {
        Seq::new(100, |i: int| 0nat)
    } else {
        let before = marks_after(tiles, sources, (rounds - 1) as nat);
        spread(tiles, frontier(sources, before, (rounds - 1) as nat), before, (rounds - 1) as nat)
    }
}

/// The number of rounds after which an expansion over a hundred squares
/// has certainly come to rest.
pub open spec fn enough_rounds() -> nat {
    101
}

/// For every square, by index, the least number of queen moves over empty
/// squares that lead to it from one of `sources`, found by breadth-first
/// expansion; zero for a square that none of them reaches.
pub open spec fn hops(tiles: Seq<TileState>, sources: Set<Coord>) -> Seq<nat> {
    marks_after(tiles, sources, enough_rounds())
}

/// The hop counts as mathematical numbers.
pub open spec fn as_nats(marks: Seq<u32>) -> Seq<nat> {
    Seq::new(marks.len(), |i: int| marks[i] as nat)
}

/// An expansion marks squares with the number of its round, so after
/// `rounds` rounds no mark exceeds `rounds`.
pub proof fn marks_are_rounds(tiles: Seq<TileState>, sources: Set<Coord>, rounds: nat)
    ensures
        marks_after(tiles, sources, rounds).len() == 100,
        forall|i: int| 0 <= i < 100 ==> #[trigger] marks_after(tiles, sources, rounds)[i] <= rounds,
    decreases rounds,
{
    if rounds > 0 {
        marks_are_rounds(tiles, sources, (rounds - 1) as nat);
    }
}

/// Once a round finds nothing to spread from, the marks stay as they are.
pub proof fn marks_come_to_rest(
    tiles: Seq<TileState>,
    sources: Set<Coord>,
    rounds: nat,
    later: nat,
)
    requires
        rounds <= later,
        forall|f: Coord|
            !(#[trigger] frontier(sources, marks_after(tiles, sources, rounds), rounds).contains(
                f,
            )),
    ensures
        marks_after(tiles, sources, later) == marks_after(tiles, sources, rounds),
    decreases later - rounds,
{
    if rounds < later {
        let now = marks_after(tiles, sources, rounds);
        let next = marks_after(tiles, sources, rounds + 1);
        marks_are_rounds(tiles, sources, rounds);
        assert(next =~= now);
        assert forall|f: Coord| !(#[trigger] frontier(sources, next, rounds + 1).contains(f)) by {
            coord_round_trip(f);
        }
        marks_come_to_rest(tiles, sources, rounds + 1, later);
    }
}

/// Whether `n` queen moves over empty squares lead from one of `sources`
/// to `c`.
pub open spec fn walk(tiles: Seq<TileState>, sources: Set<Coord>, c: Coord, n: nat) -> bool
    decreases n,
{
    if n == 0 {
        sources.contains(c)
    } else {
        exists|p: Coord|
            walk(tiles, sources, p, (n - 1) as nat) && #[trigger] one_hop(tiles, p, c)
    }
}

/// Whether a hop count says that its square was reached.
pub open spec fn is_reached() -> spec_fn(nat) -> bool {
    |h: nat| h > 0
}

/// A mark, once made, stays.
pub proof fn marks_stay(tiles: Seq<TileState>, sources: Set<Coord>, rounds: nat, later: nat, i: int)
    requires
        rounds <= later,
        0 <= i < 100,
        marks_after(tiles, sources, rounds)[i] != 0,
    ensures
        marks_after(tiles, sources, later)[i] == marks_after(tiles, sources, rounds)[i],
    decreases later - rounds,
{
    if rounds < later {
        marks_stay(tiles, sources, rounds, (later - 1) as nat, i);
    }
}

/// A mark is the number of the round that made it: before that round the
/// square had no mark, and the round's frontier touched it.
pub proof fn mark_names_its_round(
    tiles: Seq<TileState>,
    sources: Set<Coord>,
    rounds: nat,
    i: int,
)
    requires
        0 <= i < 100,
        marks_after(tiles, sources, rounds)[i] != 0,
    ensures
        ({
            let j = marks_after(tiles, sources, rounds)[i];
            let before = marks_after(tiles, sources, (j - 1) as nat);
            &&& 1 <= j <= rounds
            &&& marks_after(tiles, sources, j)[i] == j
            &&& before[i] == 0
            &&& touched(tiles, frontier(sources, before, (j - 1) as nat), Coord::at(i))
        }),
    decreases rounds,
{
    if rounds > 0 {
        let before = marks_after(tiles, sources, (rounds - 1) as nat);
        marks_are_rounds(tiles, sources, (rounds - 1) as nat);
        if before[i] != 0 {
            mark_names_its_round(tiles, sources, (rounds - 1) as nat, i);
        }
    }
}

/// A square marked with `n` is `n` queen moves away from a source.
pub proof fn marks_are_walks(tiles: Seq<TileState>, sources: Set<Coord>, rounds: nat, c: Coord)
    requires
        marks_after(tiles, sources, rounds)[c.idx()] != 0,
    ensures
        walk(tiles, sources, c, marks_after(tiles, sources, rounds)[c.idx()]),
    decreases marks_after(tiles, sources, rounds)[c.idx()],
{
    coord_round_trip(c);
    let i = c.idx();
    let j = marks_after(tiles, sources, rounds)[i];
    mark_names_its_round(tiles, sources, rounds, i);
    let before = marks_after(tiles, sources, (j - 1) as nat);
    let edge = frontier(sources, before, (j - 1) as nat);
    let f = choose|f: Coord| #[trigger] edge.contains(f) && one_hop(tiles, f, c);
    if j > 1 {
        marks_are_walks(tiles, sources, (j - 1) as nat, f);
    }
    assert(walk(tiles, sources, f, (j - 1) as nat) && one_hop(tiles, f, c));
}

/// A round that marks a square comes after rounds that have each marked a
/// square of their own, so it is at most the hundredth.
pub proof fn a_round_marks_a_new_square(
    tiles: Seq<TileState>,
    sources: Set<Coord>,
    round: nat,
    i: int,
)
    requires
        round >= 1,
        0 <= i < 100,
        marks_after(tiles, sources, round)[i] == round,
    ensures
        tally(marks_after(tiles, sources, round), is_reached()) >= round,
        round <= 100,
    decreases round,
{
    let now = marks_after(tiles, sources, round);
    let before = marks_after(tiles, sources, (round - 1) as nat);
    marks_are_rounds(tiles, sources, round);
    marks_are_rounds(tiles, sources, (round - 1) as nat);
    mark_names_its_round(tiles, sources, round, i);
    if round > 1 {
        let edge = frontier(sources, before, (round - 1) as nat);
        let f = choose|f: Coord| #[trigger] edge.contains(f) && one_hop(tiles, f, Coord::at(i));
        coord_round_trip(f);
        a_round_marks_a_new_square(tiles, sources, (round - 1) as nat, f.idx());
    }
    tally_grows(before, now, is_reached(), i);
    tally_bound(now, is_reached());
}

/// The hop count of a square that `n` queen moves reach is at least one
/// and at most `n`.
pub proof fn hops_are_least(tiles: Seq<TileState>, sources: Set<Coord>, c: Coord, n: nat)
    requires
        n >= 1,
        walk(tiles, sources, c, n),
    ensures
        1 <= hops(tiles, sources)[c.idx()] <= n,
    decreases n,
{
    coord_round_trip(c);
    let i = c.idx();
    let p = choose|p: Coord|
        walk(tiles, sources, p, (n - 1) as nat) && #[trigger] one_hop(tiles, p, c);
    coord_round_trip(p);
    let j: nat = if n == 1 {
        0
    } else {
        hops_are_least(tiles, sources, p, (n - 1) as nat);
        mark_names_its_round(tiles, sources, enough_rounds(), p.idx());
        let at = hops(tiles, sources)[p.idx()];
        a_round_marks_a_new_square(tiles, sources, at, p.idx());
        at
    };
    let before = marks_after(tiles, sources, j);
    let after = marks_after(tiles, sources, j + 1);
    marks_are_rounds(tiles, sources, j);
    assert(frontier(sources, before, j).contains(p) && one_hop(tiles, p, Coord::at(i)));
    assert(touched(tiles, frontier(sources, before, j), Coord::at(i)));
    assert(1 <= after[i] <= j + 1);
    marks_stay(tiles, sources, j + 1, enough_rounds(), i);
}

/// The hop count of a square is the least number of queen moves, one or
/// more, that lead to it from a source, and zero exactly when no number of
/// moves does.
pub proof fn hops_is_the_shortest_walk(tiles: Seq<TileState>, sources: Set<Coord>, c: Coord)
    ensures
        hops(tiles, sources)[c.idx()] > 0 ==> walk(
            tiles,
            sources,
            c,
            hops(tiles, sources)[c.idx()],
        ),
        forall|n: nat|
            n >= 1 && #[trigger] walk(tiles, sources, c, n) ==> 1 <= hops(
                tiles,
                sources,
            )[c.idx()] <= n,
{
    if hops(tiles, sources)[c.idx()] > 0 {
        marks_are_walks(tiles, sources, enough_rounds(), c);
    }
    assert forall|n: nat| n >= 1 && #[trigger] walk(tiles, sources, c, n) implies 1 <= hops(
        tiles,
        sources,
    )[c.idx()] <= n by {
        hops_are_least(tiles, sources, c, n);
    }
}

/// After 101 rounds the expansion has come to rest: no number of further
/// rounds changes a mark.
pub proof fn expansion_is_over(tiles: Seq<TileState>, sources: Set<Coord>, later: nat)
    requires
        later >= enough_rounds(),
    ensures
        marks_after(tiles, sources, later) == hops(tiles, sources),
{
    let last = enough_rounds();
    assert forall|f: Coord|
        !(#[trigger] frontier(sources, marks_after(tiles, sources, last), last).contains(f)) by {
        coord_round_trip(f);
        if marks_after(tiles, sources, last)[f.idx()] == last {
            a_round_marks_a_new_square(tiles, sources, last, f.idx());
        }
    }
    marks_come_to_rest(tiles, sources, last, later);
}

/// A square has a hop count exactly when some number of queen moves, one
/// or more, lead to it from a source.
pub proof fn reached_means_walkable(tiles: Seq<TileState>, sources: Set<Coord>, c: Coord)
    ensures
        hops(tiles, sources)[c.idx()] > 0 <==> exists|n: nat|
            n >= 1 && #[trigger] walk(tiles, sources, c, n),
{
    hops_is_the_shortest_walk(tiles, sources, c);
    if hops(tiles, sources)[c.idx()] > 0 {
        coord_round_trip(c);
        mark_names_its_round(tiles, sources, enough_rounds(), c.idx());
        let n = hops(tiles, sources)[c.idx()];
        assert(n >= 1 && walk(tiles, sources, c, n));
    }
}

/// Whether the list of seeds and the frontier of round `level` agree on
/// `f`.
spec fn seeds_match(
    seeds: Seq<Coord>,
    sources: Set<Coord>,
    marks: Seq<nat>,
    level: nat,
    f: Coord,
) -> bool {
    seeds.contains(f) <==> frontier(sources, marks, level).contains(f)
}

/// Adding a seed adds the squares that one queen move from it reaches.
proof fn hit_by_push(tiles: Seq<TileState>, seeds: Seq<Coord>, j: int, c: Coord)
    requires
        0 <= j < seeds.len(),
    ensures
        hit_by(tiles, seeds.take(j + 1), c) == (hit_by(tiles, seeds.take(j), c) || one_hop(
            tiles,
            seeds[j],
            c,
        )),
{
    let shorter = seeds.take(j);
    let longer = seeds.take(j + 1);
    if hit_by(tiles, shorter, c) {
        let w = choose|w: int| 0 <= w < shorter.len() && one_hop(tiles, #[trigger] shorter[w], c);
        assert(longer[w] == shorter[w]);
    }
    if one_hop(tiles, seeds[j], c) {
        assert(longer[j] == seeds[j]);
    }
    if hit_by(tiles, longer, c) {
        let w = choose|w: int| 0 <= w < longer.len() && one_hop(tiles, #[trigger] longer[w], c);
        if w < j {
            assert(shorter[w] == longer[w]);
        }
    }
}

/// For every square, whether one queen move from one of `seeds` reaches
/// it.
pub fn hit_squares(board: &Board, table: &MoveTable, seeds: &Vec<Coord>) -> (hit: [bool; 100])
    ensures
        forall|i: int| 0 <= i < 100 ==> #[trigger] hit@[i] == hit_by(
            board@.tiles,
            seeds@,
            Coord::at(i),
        ),
{
    let mut hit: [bool; 100] = [false;100];
    let mut j: usize = 0;
    assert forall|i: int| 0 <= i < 100 implies #[trigger] hit@[i] == hit_by(
        board@.tiles,
        seeds@.take(0),
        Coord::at(i),
    ) by {}
    while j < seeds.len()
        invariant
            j <= seeds@.len(),
            forall|i: int| 0 <= i < 100 ==> #[trigger] hit@[i] == hit_by(
                board@.tiles,
                seeds@.take(j as int),
                Coord::at(i),
            ),
        decreases seeds@.len() - j,
    {
        let ghost all = reachable(board@.tiles, seeds@[j as int]);
        let ghost before = hit@;
        let mut it = board.reachable_squares(table, &seeds[j]);
        let ghost mut done: int = 0;
        loop
            invariant
                0 <= done <= all.len(),
                it.remaining() == all.skip(done),
                forall|i: int| 0 <= i < 100 ==> #[trigger] hit@[i] == (before[i] || exists|k: int|
                    0 <= k < done && #[trigger] all[k] == Coord::at(i)),
            ensures
                forall|i: int| 0 <= i < 100 ==> #[trigger] hit@[i] == (before[i] || all.contains(
                    Coord::at(i),
                )),
            decreases all.len() - done,
        {
            let ghost hit_before = hit@;
            match it.next() {
                Some(c) => {
                    proof {
                        coord_round_trip(c);
                        assert(all.skip(done)[0] == all[done]);
                        assert(all.skip(done).drop_first() =~= all.skip(done + 1));
                    }
                    hit[c.index()] = true;
                    proof {
                        assert forall|i: int| 0 <= i < 100 implies #[trigger] hit@[i] == (before[i]
                            || exists|k: int| 0 <= k < done + 1 && #[trigger] all[k] == Coord::at(i)) by {
                            if i == c.idx() {
                                assert(all[done] == Coord::at(i));
                            } else if hit_before[i] && !before[i] {
                                let k = choose|k: int|
                                    0 <= k < done && #[trigger] all[k] == Coord::at(i);
                                assert(0 <= k < done + 1 && all[k] == Coord::at(i));
                            } else if exists|k: int|
                                0 <= k < done + 1 && #[trigger] all[k] == Coord::at(i) {
                                let k = choose|k: int|
                                    0 <= k < done + 1 && #[trigger] all[k] == Coord::at(i);
                                if k == done {
                                    index_round_trip(i);
                                }
                                assert(0 <= k < done && all[k] == Coord::at(i));
                            }
                        }
                        done = done + 1;
                    }
                },
                None => {
                    proof {
                        assert(done == all.len());
                    }
                    break ;
                },
            }
        }
        proof {
            assert forall|i: int| 0 <= i < 100 implies #[trigger] hit@[i] == hit_by(
                board@.tiles,
                seeds@.take(j + 1),
                Coord::at(i),
            ) by {
                hit_by_push(board@.tiles, seeds@, j as int, Coord::at(i));
            }
        }
        j += 1;
    }
    assert(seeds@.take(seeds@.len() as int) =~= seeds@);
    hit
}

/// Runs a breadth-first expansion over the empty squares of `board` from
/// `sources`, with one queen move as a step, and returns for every square,
/// by index, the least number of steps that lead to it, or zero where no
/// number of steps does. No count exceeds a hundred.
pub fn hops_from(board: &Board, table: &MoveTable, sources: &Vec<Coord>) -> (marks: [u32; 100])
    ensures
        as_nats(marks@) == hops(board@.tiles, sources@.to_set()),
        forall|i: int| 0 <= i < 100 ==> #[trigger] marks@[i] <= 100,
{
    let ghost tiles = board@.tiles;
    let ghost from = sources@.to_set();
    let mut marks: [u32; 100] = [0u32;100];
    let mut seeds: Vec<Coord> = Vec::new();
    let mut s: usize = 0;
    while s < sources.len()
        invariant
            s <= sources@.len(),
            seeds@ == sources@.take(s as int),
        decreases sources@.len() - s,
    {
        seeds.push(sources[s]);
        proof {
            assert(seeds@ =~= sources@.take(s + 1));
        }
        s += 1;
    }
    assert(seeds@ =~= sources@);
    let mut level: u32 = 0;
    assert(as_nats(marks@) =~= marks_after(tiles, from, 0));
    assert forall|f: Coord| seeds_match(seeds@, from, as_nats(marks@), 0, f) by {}
    while seeds.len() > 0 && level < 101
        invariant
            tiles == board@.tiles,
            from == sources@.to_set(),
            level <= 101,
            as_nats(marks@) == marks_after(tiles, from, level as nat),
            forall|f: Coord| seeds_match(seeds@, from, as_nats(marks@), level as nat, f),
        decreases 101 - level,
    {
        let ghost before = as_nats(marks@);
        let ghost edge = frontier(from, before, level as nat);
        proof {
            marks_are_rounds(tiles, from, level as nat);
        }
        let hit: [bool; 100] = hit_squares(board, table, &seeds);
        proof {
            assert forall|i: int| 0 <= i < 100 implies #[trigger] hit@[i] == touched(
                tiles,
                edge,
                Coord::at(i),
            ) by {
                let c = Coord::at(i);
                if hit_by(tiles, seeds@, c) {
                    let j = choose|j: int|
                        0 <= j < seeds@.len() && one_hop(tiles, #[trigger] seeds@[j], c);
                    assert(seeds@.contains(seeds@[j]));
                    assert(seeds_match(seeds@, from, before, level as nat, seeds@[j]));
                    assert(edge.contains(seeds@[j]));
                }
                if touched(tiles, edge, c) {
                    let f = choose|f: Coord| #[trigger] edge.contains(f) && one_hop(tiles, f, c);
                    assert(seeds_match(seeds@, from, before, level as nat, f));
                    assert(seeds@.contains(f));
                    let j = choose|j: int| 0 <= j < seeds@.len() && seeds@[j] == f;
                    assert(one_hop(tiles, seeds@[j], c));
                }
            }
        }
        let mut next: Vec<Coord> = Vec::new();
        let mut i: usize = 0;
        assert forall|k: int| 0 <= k < 100 implies (#[trigger] marks@[k]) as nat == before[k] by {}
        while i < 100
            invariant
                i <= 100,
                level < 101,
                before.len() == 100,
                forall|k: int| 0 <= k < 100 ==> #[trigger] before[k] <= level,
                forall|k: int|
                    0 <= k < 100 ==> #[trigger] hit@[k] == touched(tiles, edge, Coord::at(k)),
                forall|k: int|
                    0 <= k < i ==> (#[trigger] marks@[k]) as nat == spread(
                        tiles,
                        edge,
                        before,
                        level as nat,
                    )[k],
                forall|k: int| i <= k < 100 ==> (#[trigger] marks@[k]) as nat == before[k],
                forall|f: Coord|
                    #[trigger] next@.contains(f) <==> (f.idx() < i && marks@[f.idx()] == level
                        + 1),
            decreases 100 - i,
        {
            let ghost marks_before = marks@;
            let ghost next_before = next@;
            assert(marks@[i as int] as nat == before[i as int]);
            if marks[i] == 0 && hit[i] {
                let c: Coord = Coord::square(i);
                marks[i] = level + 1;
                next.push(c);
                proof {
                    assert forall|f: Coord| #[trigger]
                        next@.contains(f) <==> (f.idx() < i + 1 && marks@[f.idx()] == level
                            + 1) by {
                        coord_round_trip(f);
                        if next@.contains(f) {
                            let w = choose|w: int| 0 <= w < next@.len() && next@[w] == f;
                            if w < next_before.len() {
                                assert(next_before[w] == f);
                                assert(next_before.contains(f));
                            }
                        }
                        if f.idx() < i + 1 && marks@[f.idx()] == level + 1 {
                            if f.idx() == i {
                                assert(next@[next_before.len() as int] == f);
                            } else {
                                assert(marks_before[f.idx()] == level + 1);
                                assert(next_before.contains(f));
                                let w = choose|w: int|
                                    0 <= w < next_before.len() && next_before[w] == f;
                                assert(next@[w] == f);
                            }
                        }
                    }
                }
            } else {
                proof {
                    assert forall|f: Coord| #[trigger]
                        next@.contains(f) <==> (f.idx() < i + 1 && marks@[f.idx()] == level
                            + 1) by {
                        coord_round_trip(f);
                        if f.idx() == i {
                            assert(before[i as int] <= level);
                        }
                    }
                }
            }
            proof {
                assert forall|k: int| 0 <= k < i + 1 implies (#[trigger] marks@[k]) as nat
                    == spread(tiles, edge, before, level as nat)[k] by {
                    if k < i {
                        assert(marks@[k] == marks_before[k]);
                    }
                }
                assert forall|k: int| i + 1 <= k < 100 implies (#[trigger] marks@[k]) as nat
                    == before[k] by {
                    assert(marks@[k] == marks_before[k]);
                }
            }
            i += 1;
        }
        proof {
            assert(as_nats(marks@) =~= spread(tiles, edge, before, level as nat));
            let after = as_nats(marks@);
            let round = (level + 1) as nat;
            assert forall|f: Coord| seeds_match(next@, from, after, round, f) by {
                coord_round_trip(f);
                assert(after[f.idx()] == marks@[f.idx()] as nat);
            }
        }
        seeds = next;
        level += 1;
    }
    proof {
        marks_are_rounds(tiles, from, level as nat);
        if level < 101 {
            assert forall|f: Coord|
                !(#[trigger] frontier(
                    from,
                    marks_after(tiles, from, level as nat),
                    level as nat,
                ).contains(f)) by {
                assert(seeds_match(seeds@, from, as_nats(marks@), level as nat, f));
                if seeds@.contains(f) {
                    let w = choose|w: int| 0 <= w < seeds@.len() && seeds@[w] == f;
                }
            }
            marks_come_to_rest(tiles, from, level as nat, enough_rounds());
        }
        assert forall|i: int| 0 <= i < 100 implies #[trigger] marks@[i] <= 100 by {
            assert(as_nats(marks@)[i] == marks@[i] as nat);
            if marks@[i] > 0 {
                mark_names_its_round(tiles, from, level as nat, i);
                a_round_marks_a_new_square(tiles, from, marks@[i] as nat, i);
            }
        }
    }
    marks
}

} // verus!
