use amazons_core::{Board, Coord, Move, MoveTable, PieceMoveIterator, TileState};

fn sq(text: &str) -> Coord {
    Coord::parse(text).expect("a square")
}

/// The position with the eight pieces on `pieces` (White's four first) in
/// which every other square holds an arrow, but for those of `empty`.
fn walled(pieces: [&str; 8], empty: &[&str]) -> Board {
    let mut board = Board::default();
    let targets: Vec<Coord> = pieces.iter().map(|t| sq(t)).collect();
    let open: Vec<Coord> = empty.iter().map(|t| sq(t)).collect();
    let arrows: Vec<Coord> = (0..100)
        .map(|i| Coord::from_index(i).unwrap())
        .filter(|c| !targets.contains(c) && !open.contains(c))
        .collect();
    for slot in 0..8 {
        let from = board.piece(slot);
        if from != targets[slot] {
            assert_eq!(board.tile(&targets[slot]), TileState::Empty);
            board
                .apply_move(&Move(from, targets[slot], arrows[0]))
                .unwrap();
        }
    }
    for arrow in arrows.iter() {
        let at = board.piece(0);
        board.apply_move(&Move(at, at, *arrow)).unwrap();
    }
    board
}

fn texts(moves: &[Move]) -> Vec<String> {
    moves.iter().map(|m| m.notation()).collect()
}

#[test]
fn both_sides_have_as_many_moves_at_the_start() {
    let table = MoveTable::new();
    let board = Board::default();
    let white = board.white_moves(&table).count();
    let black = board.black_moves(&table).count();
    assert_eq!(white, black);
    assert!(white > 0);
    assert_eq!(white, 2176);
}

#[test]
fn moves_come_piece_by_piece_then_destination_then_arrow() {
    let table = MoveTable::new();
    let board = Board::default();
    let moves = board.white_moves(&table).collect();
    assert_eq!(
        texts(&moves[..23]),
        [
            "a4-a5/a6", "a4-a5/b6", "a4-a5/c7", "a4-a5/d8", "a4-a5/e9", "a4-a5/f10", "a4-a5/b5",
            "a4-a5/c5", "a4-a5/d5", "a4-a5/e5", "a4-a5/f5", "a4-a5/g5", "a4-a5/h5", "a4-a5/i5",
            "a4-a5/j5", "a4-a5/b4", "a4-a5/c3", "a4-a5/d2", "a4-a5/e1", "a4-a5/a4", "a4-a5/a3",
            "a4-a5/a2", "a4-a5/a1"
        ]
    );
    assert_eq!(moves[23].notation(), "a4-a6/b7");
    let origins: Vec<String> = moves.iter().map(|m| m.0.notation()).collect();
    let mut order = origins.clone();
    order.dedup();
    assert_eq!(order, ["a4", "d1", "g1", "j4"]);
    assert_eq!(moves.last().unwrap().0, sq("j4"));
}

#[test]
fn moves_of_a_range_are_the_moves_of_its_pieces() {
    let table = MoveTable::new();
    let board = Board::default();
    let all = board.white_moves(&table).collect();
    let mut by_piece = Vec::new();
    for slot in 0..4 {
        let mut piece = PieceMoveIterator::new(&board, &table, slot);
        let mut own = Vec::new();
        while let Some(m) = piece.next() {
            assert_eq!(m.0, board.piece(slot));
            own.push(m);
        }
        assert_eq!(board.moves(&table, slot..slot + 1).collect(), own);
        by_piece.extend(own);
    }
    assert_eq!(all, by_piece);
    assert_eq!(board.moves(&table, 0..4).collect(), all);
    assert_eq!(
        board.moves(&table, 4..8).collect(),
        board.black_moves(&table).collect()
    );
    assert_eq!(board.moves(&table, 0..8).count(), 2 * 2176);
}

/// Whether a queen on `from` sees `to` when the squares between them are
/// empty or are `lifted`.
fn queen_line(board: &Board, from: Coord, to: Coord, lifted: Coord) -> bool {
    let (x0, y0) = (from.0.index() as i32, from.1.index() as i32);
    let (x1, y1) = (to.0.index() as i32, to.1.index() as i32);
    let (dx, dy) = (x1 - x0, y1 - y0);
    if (dx, dy) == (0, 0) || !(dx == 0 || dy == 0 || dx.abs() == dy.abs()) {
        return false;
    }
    let steps = dx.abs().max(dy.abs());
    (1..=steps).all(|k| {
        let x = (x0 + k * dx.signum()) as usize;
        let y = (y0 + k * dy.signum()) as usize;
        let c = Coord::from_index(y * 10 + x).unwrap();
        c == lifted || board.tile(&c) == TileState::Empty
    })
}

#[test]
fn every_move_is_legal() {
    let table = MoveTable::new();
    let mut board = Board::default();
    for text in ["d1-d7/g7", "g10-g8/g9", "a4-c4/c9", "j7-h5/e2"] {
        board
            .apply_move(&Move::parse_notation(text).unwrap())
            .unwrap();
    }
    let mut legal = Vec::new();
    for slot in 4..8 {
        let from = board.piece(slot);
        for to in (0..100).map(|i| Coord::from_index(i).unwrap()) {
            for arrow in (0..100).map(|i| Coord::from_index(i).unwrap()) {
                if queen_line(&board, from, to, from) && queen_line(&board, to, arrow, from) {
                    legal.push(Move(from, to, arrow));
                }
            }
        }
    }
    let mut moves = board.black_moves(&table).collect();
    assert_eq!(moves.len(), legal.len());
    for m in moves.iter() {
        assert!(legal.contains(m));
    }
    moves.dedup();
    assert_eq!(moves.len(), legal.len());
}

#[test]
fn moves_with_boards_pair_each_move_with_its_position() {
    let table = MoveTable::new();
    let board = Board::default();
    let moves = board.black_moves(&table).collect();
    let mut pairs = board.black_moves_boards(&table);
    let mut seen = 0;
    while let Some((m, next)) = pairs.next() {
        assert_eq!(m, moves[seen]);
        assert_eq!(Ok(next), board.after(&m));
        seen += 1;
    }
    assert_eq!(seen, moves.len());
    assert!(pairs.next().is_none());
    let mut white = board.white_moves_boards(&table);
    let (first, next) = white.next().unwrap();
    assert_eq!(first.notation(), "a4-a5/a6");
    assert_eq!(next.tile(&sq("a6")), TileState::Arrow);
    let mut ranged = board.moves_boards(&table, 1..2);
    assert_eq!(ranged.next().unwrap().0 .0, sq("d1"));
}

#[test]
fn an_arrow_may_fly_back_through_the_square_that_was_left() {
    let table = MoveTable::new();
    let board = walled(
        ["a1", "c1", "e1", "g1", "a10", "c10", "e10", "g10"],
        &["a2", "a3"],
    );
    let moves = board.white_moves(&table).collect();
    assert_eq!(
        texts(&moves),
        ["a1-a2/a3", "a1-a2/a1", "a1-a3/a2", "a1-a3/a1"]
    );
}

#[test]
fn a_walled_in_side_has_no_moves() {
    let table = MoveTable::new();
    let board = walled(
        ["a1", "c1", "e1", "g1", "a10", "c10", "e10", "g10"],
        &["a2", "a3"],
    );
    assert_eq!(board.black_moves(&table).count(), 0);
    assert!(board.black_moves(&table).next().is_none());
    assert!(board.black_moves_boards(&table).next().is_none());
    assert_eq!(board.white_moves(&table).count(), 4);

    let mut board = Board::default();
    let ring = [
        "a3", "b3", "b4", "b5", "a5", "c1", "c2", "d2", "e2", "e1", "f1", "f2", "g2", "h2", "h1",
        "i3", "i4", "i5", "j3", "j5",
    ];
    for arrow in ring {
        let at = board.piece(4);
        board.apply_move(&Move(at, at, sq(arrow))).unwrap();
    }
    assert_eq!(board.white_moves(&table).count(), 0);
    assert!(board.black_moves(&table).count() > 0);
}

#[test]
fn every_destination_has_an_arrow_to_shoot() {
    let table = MoveTable::new();
    let mut board = Board::default();
    for text in ["d1-d7/g7", "g10-g8/g9", "a4-c4/c9", "j7-h5/e2"] {
        board
            .apply_move(&Move::parse_notation(text).unwrap())
            .unwrap();
    }
    for slot in 0..8 {
        let from = board.piece(slot);
        let moves = board.moves(&table, slot..slot + 1).collect();
        for to in board.reachable_squares(&table, &from).collect() {
            assert!(moves.contains(&Move(from, to, from)));
        }
        let mut destinations: Vec<Coord> = moves.iter().map(|m| m.1).collect();
        destinations.dedup();
        assert_eq!(destinations, board.reachable_squares(&table, &from).collect());
    }
}
