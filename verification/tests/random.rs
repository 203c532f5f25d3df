use amazons_core::random::{random_black, random_white};
use amazons_core::{Board, Move, MoveTable};

#[test]
fn random_moves_are_legal_moves() {
    let table = MoveTable::new();
    let board = Board::default();
    let white = board.white_moves(&table).collect();
    let black = board.black_moves(&table).collect();
    let mut seen = Vec::new();
    for _ in 0..200 {
        let against_white = random_white(&board, &table).expect("Black has moves");
        assert!(black.contains(&against_white));
        let against_black = random_black(&board, &table).expect("White has moves");
        assert!(white.contains(&against_black));
        if !seen.contains(&against_black) {
            seen.push(against_black);
        }
    }
    assert!(seen.len() > 1);
}

#[test]
fn no_moves_no_random_move() {
    let table = MoveTable::new();
    let mut board = Board::default();
    let ring = [
        "a3", "b3", "b4", "b5", "a5", "c1", "c2", "d2", "e2", "e1", "f1", "f2", "g2", "h2", "h1",
        "i3", "i4", "i5", "j3", "j5",
    ];
    for arrow in ring {
        let at = board.piece(4);
        let arrow = amazons_core::Coord::parse(arrow).unwrap();
        board.apply_move(&Move(at, at, arrow)).unwrap();
    }
    assert_eq!(random_black(&board, &table), None);
    assert!(random_white(&board, &table).is_some());
}
