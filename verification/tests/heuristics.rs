use amazons_core::contest::reachable_heuristic;
use amazons_core::heuristics::{area_heuristic, better_reachable_heuristic, moves_heuristic};
use amazons_core::territory::{hit_squares, hops_from};
use amazons_core::{Board, Coord, Move, MoveTable, TileState};

fn sq(text: &str) -> Coord {
    Coord::parse(text).expect("a square")
}

/// The position with the eight pieces on `pieces` (White's four first) in
/// which every other square holds an arrow, but for those of `empty`.
fn walled(pieces: [&str; 8], empty: &[&str]) -> Board {
    let mut board = Board::default();
    let targets: Vec<Coord> = pieces.iter().map(|t| sq(t)).collect();
    let open: Vec<Coord> = empty.iter().map(|t| sq(t)).collect();
    let arrows: Vec<Coord> = (0..100)
        .map(|i| Coord::from_index(i).unwrap())
        .filter(|c| !targets.contains(c) && !open.contains(c))
        .collect();
    for slot in 0..8 {
        let from = board.piece(slot);
        if from != targets[slot] {
            assert_eq!(board.tile(&targets[slot]), TileState::Empty);
            board
                .apply_move(&Move(from, targets[slot], arrows[0]))
                .unwrap();
        }
    }
    for arrow in arrows.iter() {
        let at = board.piece(0);
        board.apply_move(&Move(at, at, *arrow)).unwrap();
    }
    board
}

fn alone() -> Board {
    walled(
        ["a1", "c1", "e1", "g1", "a10", "c10", "e10", "g10"],
        &["a2", "a3"],
    )
}

fn face_to_face() -> Board {
    walled(
        ["a1", "c1", "e1", "g1", "a5", "c10", "e10", "g10"],
        &["a2", "a3", "a4"],
    )
}

fn corridor() -> Board {
    walled(
        ["a1", "c1", "e1", "g1", "d3", "c10", "e10", "g10"],
        &["a2", "a3", "b3", "c3"],
    )
}

#[test]
fn every_heuristic_is_zero_at_the_start() {
    let table = MoveTable::new();
    let board = Board::default();
    assert_eq!(better_reachable_heuristic(&board, &table), 0);
    assert_eq!(moves_heuristic(&board, &table), 0);
    assert_eq!(area_heuristic(&board, &table), 0);
    assert_eq!(reachable_heuristic(&board, &table), 0);
}

#[test]
fn mobility_counts_the_moves_of_both_sides() {
    let table = MoveTable::new();
    assert_eq!(moves_heuristic(&alone(), &table), 4);
    assert_eq!(moves_heuristic(&face_to_face(), &table), 0);
    assert_eq!(moves_heuristic(&corridor(), &table), 7 - 11);
    let mut board = Board::default();
    board
        .apply_move(&Move::parse_notation("d1-d7/g7").unwrap())
        .unwrap();
    let white = board.white_moves(&table).count() as i32;
    let black = board.black_moves(&table).count() as i32;
    assert_ne!(white, black);
    assert_eq!(moves_heuristic(&board, &table), white - black);
}

#[test]
fn area_counts_what_each_side_reaches_in_any_number_of_moves() {
    let table = MoveTable::new();
    assert_eq!(area_heuristic(&alone(), &table), 2);
    assert_eq!(area_heuristic(&face_to_face(), &table), 0);
    assert_eq!(area_heuristic(&corridor(), &table), 0);
    let bend = walled(
        ["a1", "c1", "e1", "g1", "a10", "c10", "e10", "g10"],
        &["a2", "a3", "b3", "c3", "d3", "d4", "d5"],
    );
    assert_eq!(area_heuristic(&bend, &table), 7);
    let split = walled(
        ["a1", "c1", "e1", "g1", "j10", "c10", "e10", "g8"],
        &["a2", "a3", "j9", "j8", "j7", "i7", "h7"],
    );
    assert_eq!(area_heuristic(&split, &table), 2 - 5);
}

#[test]
fn contested_squares_go_to_the_side_that_is_there_first() {
    let table = MoveTable::new();
    assert_eq!(reachable_heuristic(&alone(), &table), 2);
    assert_eq!(reachable_heuristic(&face_to_face(), &table), 0);
    assert_eq!(reachable_heuristic(&corridor(), &table), 1 - 2);
    let race = walled(
        ["a1", "c1", "e1", "g1", "j3", "c10", "e10", "g10"],
        &["a2", "a3", "b3", "c3", "d3", "e3", "f3", "g3", "h3", "i3"],
    );
    assert_eq!(reachable_heuristic(&race, &table), 1 - 8);
    assert_eq!(area_heuristic(&race, &table), 0);
}

#[test]
fn weighted_reachability_in_millionths() {
    let table = MoveTable::new();
    assert_eq!(better_reachable_heuristic(&alone(), &table), 2_000_000);
    assert_eq!(better_reachable_heuristic(&face_to_face(), &table), 0);
    assert_eq!(better_reachable_heuristic(&corridor(), &table), -600_000);
    let thirds = walled(
        ["a1", "c1", "e1", "g1", "d3", "f3", "e10", "g10"],
        &["a2", "a3", "b3", "c3", "e3"],
    );
    // a2: White in 1 hop, the black piece on d3 in 2: (1 - 1/4) / (1 + 1/4).
    // a3: both in 1. b3 and c3: White in 2, Black in 1.
    // e3: the black pieces on d3 and f3 in 1 hop each, White never.
    assert_eq!(
        better_reachable_heuristic(&thirds, &table),
        600_000 + 0 - 600_000 - 600_000 - 1_000_000
    );
    let far = walled(
        ["a1", "c1", "e1", "g1", "a10", "c10", "e10", "h5"],
        &["a2", "a3", "b3", "c3", "c4", "c5", "d5", "e5", "f5", "g5"],
    );
    // Only the pieces on a1 and h5 reach anything; they walk the same
    // winding corridor from its two ends.
    let marks_white = hops_from(&far, &table, &vec![sq("a1")]);
    let marks_black = hops_from(&far, &table, &vec![sq("h5")]);
    let mut expected: i64 = 0;
    for i in 0..100 {
        let (w, b) = (marks_white[i] as i128, marks_black[i] as i128);
        let (wn, bn) = match (w, b) {
            (0, 0) => continue,
            (0, _) => (0, 1),
            (_, 0) => (1, 0),
            _ => (b * b, w * w),
        };
        expected += ((wn - bn) * 1_000_000 / (wn + bn)) as i64;
    }
    assert_eq!(better_reachable_heuristic(&far, &table), expected);
    assert_ne!(expected, 0);
}

#[test]
fn hop_counts_are_shortest_distances() {
    let table = MoveTable::new();
    let board = corridor();
    let hops = |from: &str, to: &str| hops_from(&board, &table, &vec![sq(from)])[sq(to).index()];
    assert_eq!(hops("a1", "a2"), 1);
    assert_eq!(hops("a1", "a3"), 1);
    assert_eq!(hops("a1", "b3"), 2);
    assert_eq!(hops("a1", "c3"), 2);
    assert_eq!(hops("a1", "a1"), 0);
    assert_eq!(hops("a1", "d3"), 0);
    assert_eq!(hops("a1", "j10"), 0);
    assert_eq!(hops("d3", "c3"), 1);
    assert_eq!(hops("d3", "b3"), 1);
    assert_eq!(hops("d3", "a3"), 1);
    assert_eq!(hops("d3", "a2"), 2);
    assert_eq!(hops("c1", "a2"), 0);
    let both = hops_from(&board, &table, &vec![sq("a1"), sq("d3")]);
    for text in ["a2", "a3", "b3", "c3"] {
        assert_eq!(both[sq(text).index()], 1);
    }
    assert_eq!(both.iter().filter(|h| **h > 0).count(), 4);
    let none = hops_from(&board, &table, &vec![]);
    assert!(none.iter().all(|h| *h == 0));
}

#[test]
fn hop_counts_on_the_starting_board() {
    let table = MoveTable::new();
    let board = Board::default();
    let marks = hops_from(&board, &table, &vec![sq("a4")]);
    assert_eq!(marks[sq("a5").index()], 1);
    assert_eq!(marks[sq("i4").index()], 1);
    assert_eq!(marks[sq("f9").index()], 1);
    assert_eq!(marks[sq("j10").index()], 2);
    assert_eq!(marks[sq("a8").index()], 2);
    assert_eq!(marks[sq("a4").index()], 0);
    assert_eq!(marks[sq("a7").index()], 0);
    assert_eq!(marks.iter().filter(|h| **h > 0).count(), 92);
    assert!(marks.iter().all(|h| *h <= 3));
}

#[test]
fn hit_squares_marks_what_one_move_reaches() {
    let table = MoveTable::new();
    let board = Board::default();
    let seeds = vec![sq("a4"), sq("j4")];
    let hit = hit_squares(&board, &table, &seeds);
    for idx in 0..100 {
        let c = Coord::from_index(idx).unwrap();
        let expected = seeds
            .iter()
            .any(|s| board.reachable_squares(&table, s).collect().contains(&c));
        assert_eq!(hit[idx], expected, "{}", c.notation());
    }
    assert!(hit_squares(&board, &table, &vec![]).iter().all(|h| !*h));
}

#[test]
fn a_mirrored_position_has_the_opposite_value() {
    let table = MoveTable::new();
    let mut board = Board::default();
    let mut mirror = Board::default();
    let played = ["d1-d7/g7", "g10-g8/g9", "a4-c4/c9", "j7-h5/e2", "d7-b5/b9"];
    let mirrored = ["d10-d4/g4", "g1-g3/g2", "a7-c7/c2", "j4-h6/e9", "d4-b6/b2"];
    for (text, other) in played.iter().zip(mirrored.iter()) {
        board
            .apply_move(&Move::parse_notation(text).unwrap())
            .unwrap();
        mirror
            .apply_move(&Move::parse_notation(other).unwrap())
            .unwrap();
        let value = better_reachable_heuristic(&board, &table);
        assert_eq!(better_reachable_heuristic(&mirror, &table), -value);
        assert_eq!(
            moves_heuristic(&mirror, &table),
            -moves_heuristic(&board, &table)
        );
        assert_eq!(
            board.white_moves(&table).count(),
            mirror.black_moves(&table).count()
        );
        assert_eq!(
            area_heuristic(&mirror, &table),
            -area_heuristic(&board, &table)
        );
    }
    assert_ne!(better_reachable_heuristic(&board, &table), 0);
}
