use amazons_core::{Board, Coord, Move, MoveTable, TileState};

fn sq(text: &str) -> Coord {
    Coord::parse(text).expect("a square")
}

fn texts(squares: &[Coord]) -> Vec<String> {
    squares.iter().map(|c| c.notation()).collect()
}

/// A board whose only tile that is not empty is the arrow on j10: every
/// piece has been lifted onto that corner and the arrow shot at it.
fn bare_board() -> Board {
    let mut board = Board::default();
    let corner = sq("j10");
    for slot in 0..8 {
        let from = board.piece(slot);
        board
            .apply_move(&Move(from, corner, corner))
            .expect("a piece in every slot");
    }
    for idx in 0..99 {
        assert_eq!(
            board.tile(&Coord::from_index(idx).unwrap()),
            TileState::Empty
        );
    }
    assert_eq!(board.tile(&corner), TileState::Arrow);
    board
}

#[test]
fn reachable_from_a_starting_piece() {
    let table = MoveTable::new();
    let board = Board::default();
    let reached = board.reachable_squares(&table, &sq("a4")).collect();
    assert_eq!(
        texts(&reached),
        [
            "a5", "a6", "b5", "c6", "d7", "e8", "f9", "b4", "c4", "d4", "e4", "f4", "g4", "h4",
            "i4", "b3", "c2", "a3", "a2", "a1"
        ]
    );
}

#[test]
fn reachable_squares_are_yielded_one_by_one() {
    let table = MoveTable::new();
    let board = Board::default();
    let mut walk = board.reachable_squares(&table, &sq("d10"));
    let again = walk;
    let mut got = Vec::new();
    while let Some(c) = walk.next() {
        got.push(c);
    }
    assert_eq!(walk.next(), None);
    assert_eq!(walk.next(), None);
    assert_eq!(got, again.collect());
    assert_eq!(
        texts(&got),
        [
            "c10", "b10", "a10", "e10", "f10", "e9", "f8", "g7", "h6", "i5", "d9", "d8", "d7",
            "d6", "d5", "d4", "d3", "d2", "c9", "b8"
        ]
    );
}

#[test]
fn corner_reaches_fewer_squares_than_center() {
    let table = MoveTable::new();
    let board = bare_board();
    let corner = board.reachable_squares(&table, &sq("a1")).collect();
    let center = board.reachable_squares(&table, &sq("e5")).collect();
    assert_eq!(corner.len(), 26);
    assert_eq!(center.len(), 34);
    assert!(corner.len() < center.len());
    let edge = board.reachable_squares(&table, &sq("a5")).collect();
    assert_eq!(edge.len(), 27);
}

#[test]
fn reachable_never_holds_the_origin_or_a_filled_square() {
    let table = MoveTable::new();
    let mut board = Board::default();
    for text in ["d1-d7/g7", "g10-g8/g9", "a4-c4/c9", "j7-h5/e2"] {
        board
            .apply_move(&Move::parse_notation(text).unwrap())
            .unwrap();
    }
    for idx in 0..100 {
        let origin = Coord::from_index(idx).unwrap();
        let reached = board.reachable_squares(&table, &origin).collect();
        assert!(reached.len() <= 35);
        for c in reached.iter() {
            assert_ne!(*c, origin);
            assert_eq!(board.tile(c), TileState::Empty);
        }
    }
}

#[test]
fn a_ray_stops_before_the_first_filled_square() {
    let table = MoveTable::new();
    let mut board = Board::default();
    board
        .apply_move(&Move::parse_notation("d1-d3/d5").unwrap())
        .unwrap();
    let reached = board.reachable_squares(&table, &sq("d3")).collect();
    assert_eq!(
        texts(&reached),
        [
            "c3", "b3", "a3", "c4", "b5", "a6", "d4", "e4", "f5", "g6", "h7", "i8", "j9", "e3",
            "f3", "g3", "h3", "i3", "j3", "e2", "f1", "d2", "d1", "c2", "b1"
        ]
    );
}
