use amazons_core::clock::Clock;
use amazons_core::heuristics::better_reachable_heuristic;
use amazons_core::search::{alpha_beta, close_round, deepen, minimax, search_to_depth};
use amazons_core::{Board, Coord, Move, MoveTable, TileState};

fn sq(text: &str) -> Coord {
    Coord::parse(text).expect("a square")
}

/// The position with the eight pieces on `pieces` (White's four first) in
/// which every other square holds an arrow, but for those of `empty`.
fn walled(pieces: [&str; 8], empty: &[&str]) -> Board {
    let mut board = Board::default();
    let targets: Vec<Coord> = pieces.iter().map(|t| sq(t)).collect();
    let open: Vec<Coord> = empty.iter().map(|t| sq(t)).collect();
    let arrows: Vec<Coord> = (0..100)
        .map(|i| Coord::from_index(i).unwrap())
        .filter(|c| !targets.contains(c) && !open.contains(c))
        .collect();
    for slot in 0..8 {
        let from = board.piece(slot);
        if from != targets[slot] {
            assert_eq!(board.tile(&targets[slot]), TileState::Empty);
            board
                .apply_move(&Move(from, targets[slot], arrows[0]))
                .unwrap();
        }
    }
    for arrow in arrows.iter() {
        let at = board.piece(0);
        board.apply_move(&Move(at, at, *arrow)).unwrap();
    }
    board
}

fn alone() -> Board {
    walled(
        ["a1", "c1", "e1", "g1", "a10", "c10", "e10", "g10"],
        &["a2", "a3"],
    )
}

fn corridor() -> Board {
    walled(
        ["a1", "c1", "e1", "g1", "d3", "c10", "e10", "g10"],
        &["a2", "a3", "b3", "c3"],
    )
}

/// Plain minimax without any pruning: the first of the best children.
fn reference(board: &Board, table: &MoveTable, depth: usize, maxing: bool) -> (Option<Move>, i64) {
    if depth == 0 {
        return (None, better_reachable_heuristic(board, table));
    }
    let moves = if maxing {
        board.white_moves(table).collect()
    } else {
        board.black_moves(table).collect()
    };
    let mut best: Option<(Move, i64)> = None;
    for m in moves {
        let next = board.after(&m).unwrap();
        let (_, v) = reference(&next, table, depth - 1, !maxing);
        let better = match best {
            None => true,
            Some((_, held)) => (maxing && v > held) || (!maxing && v < held),
        };
        if better {
            best = Some((m, v));
        }
    }
    match best {
        Some((m, v)) => (Some(m), v),
        None => (None, if maxing { i64::MAX } else { i64::MIN }),
    }
}

fn thirds() -> Board {
    walled(
        ["a1", "c1", "e1", "g1", "d3", "f3", "e10", "g10"],
        &["a2", "a3", "b3", "c3", "e3"],
    )
}

fn yard() -> Board {
    walled(
        ["b2", "j1", "j3", "j5", "d4", "h10", "j9", "j7"],
        &["b3", "b4", "c2", "c3", "c4", "d2", "d3"],
    )
}

#[test]
fn no_budget_gives_the_static_value_and_no_move() {
    let table = MoveTable::new();
    let board = Board::default();
    assert_eq!(minimax(&board, &table, true, 0), (None, 0));
    assert_eq!(minimax(&board, &table, false, 0), (None, 0));
    let board = corridor();
    assert_eq!(minimax(&board, &table, true, 0), (None, -600_000));
    assert_eq!(minimax(&board, &table, false, 0), (None, -600_000));
}

#[test]
fn depth_zero_is_the_static_value() {
    let table = MoveTable::new();
    for board in [Board::default(), alone(), corridor()] {
        let value = better_reachable_heuristic(&board, &table);
        assert_eq!(search_to_depth(&board, &table, 0, true), (None, value));
        assert_eq!(search_to_depth(&board, &table, 0, false), (None, value));
    }
}

#[test]
fn depth_one_takes_the_first_of_the_best_children() {
    let table = MoveTable::new();
    let board = alone();
    // White's four moves lead to the values 1, 1, 0 and 1 squares.
    let (choice, value) = search_to_depth(&board, &table, 1, true);
    let (m, next) = choice.expect("White has moves");
    assert_eq!(m.notation(), "a1-a2/a3");
    assert_eq!(value, 1_000_000);
    assert_eq!(Ok(next), board.after(&m));
    assert_eq!(better_reachable_heuristic(&next, &table), 1_000_000);
}

#[test]
fn a_side_without_moves_gets_no_move() {
    let table = MoveTable::new();
    let board = alone();
    assert_eq!(search_to_depth(&board, &table, 1, false), (None, i64::MIN));
    assert_eq!(search_to_depth(&board, &table, 3, false), (None, i64::MIN));
    let (choice, value) = search_to_depth(&board, &table, 2, true);
    assert_eq!(choice.unwrap().0.notation(), "a1-a2/a3");
    assert_eq!(value, i64::MIN);
    let mut ring = Board::default();
    for arrow in [
        "a3", "b3", "b4", "b5", "a5", "c1", "c2", "d2", "e2", "e1", "f1", "f2", "g2", "h2", "h1",
        "i3", "i4", "i5", "j3", "j5",
    ] {
        let at = ring.piece(4);
        ring.apply_move(&Move(at, at, sq(arrow))).unwrap();
    }
    assert_eq!(search_to_depth(&ring, &table, 1, true), (None, i64::MAX));
    let (choice, _) = minimax(&ring, &table, true, 30);
    assert!(choice.is_none());
}

#[test]
fn search_is_plain_minimax() {
    let table = MoveTable::new();
    for board in [alone(), corridor(), thirds(), yard()] {
        for depth in 0..4 {
            for maxing in [true, false] {
                let (choice, value) = search_to_depth(&board, &table, depth, maxing);
                let expected = reference(&board, &table, depth, maxing);
                assert_eq!((choice.map(|c| c.0), value), expected);
                if let Some((m, next)) = choice {
                    assert_eq!(Ok(next), board.after(&m));
                }
            }
        }
    }
}

#[test]
fn pruning_does_not_change_the_value() {
    let table = MoveTable::new();
    let board = yard();
    for depth in 1..4 {
        for maxing in [true, false] {
            let moves = if maxing {
                board.white_moves(&table).collect()
            } else {
                board.black_moves(&table).collect()
            };
            assert!(moves.len() > 10);
            let values: Vec<i64> = moves
                .iter()
                .map(|m| reference(&board.after(m).unwrap(), &table, depth - 1, !maxing).1)
                .collect();
            let best = if maxing {
                *values.iter().max().unwrap()
            } else {
                *values.iter().min().unwrap()
            };
            let first = values.iter().position(|v| *v == best).unwrap();
            let (choice, value) = search_to_depth(&board, &table, depth, maxing);
            assert_eq!(value, best);
            assert_eq!(choice.unwrap().0, moves[first]);
        }
    }
}

#[test]
fn search_with_a_window_bounds_the_value() {
    let table = MoveTable::new();
    let windows = [
        (-500_000, 500_000),
        (0, 0),
        (-2_000_000, -1_000_000),
        (300_000, i64::MAX),
        (i64::MIN, -700_000),
        (i64::MIN, i64::MAX),
    ];
    for board in [corridor(), thirds(), yard()] {
        for (alpha, beta) in windows {
            for depth in 0..3 {
                for maxing in [true, false] {
                    let mut clock = Clock::unbounded();
                    let (choice, value) =
                        alpha_beta(&board, &table, depth, maxing, alpha, beta, &mut clock);
                    let (plain_move, plain) = reference(&board, &table, depth, maxing);
                    if plain < alpha {
                        assert!(plain <= value && value < alpha);
                    } else if plain > beta {
                        assert!(beta < value && value <= plain);
                    } else {
                        assert_eq!((choice.map(|c| c.0), value), (plain_move, plain));
                    }
                    if let Some((m, next)) = choice {
                        assert_eq!(Ok(next), board.after(&m));
                    }
                }
            }
        }
    }
}

#[test]
fn depth_zero_does_not_ask_the_clock() {
    let table = MoveTable::new();
    let board = corridor();
    let mut clock = Clock::start(0);
    let r = alpha_beta(&board, &table, 0, true, i64::MIN, i64::MAX, &mut clock);
    assert_eq!(r, (None, -600_000));
    let mut never = Clock::unbounded();
    let r = alpha_beta(&board, &table, 0, false, 5, -5, &mut never);
    assert_eq!(r, (None, -600_000));
}

#[test]
fn the_clock_judges_the_time_gone_by() {
    let mut clock = Clock::start(2);
    assert!(!clock.judge_passed(0));
    assert!(!clock.judge_passed(1_999_999));
    assert!(!clock.judge_passed(2_000_000));
    assert!(!clock.judge_reached(1_999_999));
    assert!(clock.judge_reached(2_000_000));
    assert!(clock.judge_reached(0));
    assert!(clock.judge_passed(0));

    let mut clock = Clock::start(2);
    assert!(clock.judge_passed(2_000_001));
    assert!(clock.judge_passed(5));
    assert!(clock.judge_reached(5));

    let mut clock = Clock::start(0);
    assert!(!clock.judge_passed(0));
    assert!(clock.judge_reached(0));

    let mut never = Clock::unbounded();
    assert!(!never.judge_passed(u128::MAX));
    assert!(!never.judge_reached(u128::MAX));
    assert!(!never.passed());
}

#[test]
fn a_round_keeps_what_came_in_time() {
    let board = corridor();
    let m = Move::parse_notation("a1-a2/a3").unwrap();
    let kept = (None, -600_000);
    let found = (Some((m, board.after(&m).unwrap())), 17);
    assert_eq!(close_round(kept, 0, found, false), (found, 1));
    assert_eq!(close_round(kept, 0, found, true), (kept, 1));
    assert_eq!(close_round(found, 7, kept, true), (found, 8));
    assert_eq!(close_round(found, 7, kept, false), (kept, 8));
}

#[test]
fn deepening_returns_the_deepest_search_that_ended_in_time() {
    let table = MoveTable::new();
    let board = corridor();
    let mut spent = Clock::start(0);
    assert_eq!(
        deepen(&board, &table, true, &mut spent),
        ((None, -600_000), 0)
    );
    let mut clock = Clock::start(150);
    let (found, completed) = deepen(&board, &table, false, &mut clock);
    assert!(clock.reached());
    assert!(completed >= 2);
    let (choice, value) = search_to_depth(&board, &table, completed - 1, false);
    assert_eq!(found, (choice, value));
    assert_eq!(
        (found.0.map(|c| c.0), found.1),
        reference(&board, &table, completed - 1, false)
    );
}

#[test]
fn depth_one_at_the_start() {
    let table = MoveTable::new();
    let board = Board::default();
    let (choice, value) = search_to_depth(&board, &table, 1, true);
    let (m, next) = choice.expect("White has moves");
    let mut best: Option<(Move, i64)> = None;
    let mut children = board.white_moves_boards(&table);
    while let Some((child, position)) = children.next() {
        let v = better_reachable_heuristic(&position, &table);
        if best.map_or(true, |(_, held)| v > held) {
            best = Some((child, v));
        }
    }
    assert_eq!(Some((m, value)), best);
    assert_eq!(Ok(next), board.after(&m));
    assert!(value > 0);
}

#[test]
fn an_expired_clock_makes_every_node_a_leaf() {
    let table = MoveTable::new();
    let board = corridor();
    let mut clock = Clock::start(0);
    assert!(clock.reached());
    assert!(clock.passed());
    let r = alpha_beta(&board, &table, 3, true, i64::MIN, i64::MAX, &mut clock);
    assert_eq!(r, (None, -600_000));
    let mut never = Clock::unbounded();
    assert!(!never.reached());
    assert!(!never.passed());
}

#[test]
fn a_budget_buys_a_legal_move() {
    let table = MoveTable::new();
    let board = Board::default();
    let (choice, _) = minimax(&board, &table, false, 1_500);
    if let Some((m, next)) = choice {
        assert!(board.black_moves(&table).collect().contains(&m));
        assert_eq!(Ok(next), board.after(&m));
    }
    let small = corridor();
    let (choice, value) = minimax(&small, &table, true, 200);
    let (m, next) = choice.expect("time enough for a tiny position");
    assert!(small.white_moves(&table).collect().contains(&m));
    assert_eq!(Ok(next), small.after(&m));
    let deep = (1..12)
        .map(|depth| search_to_depth(&small, &table, depth, true))
        .any(|(c, v)| c.map(|c| c.0) == Some(m) && v == value);
    assert!(deep);
}
