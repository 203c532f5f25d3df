use amazons_core::{Board, Coord, GameError, Move, MoveTable, TileState};

fn sq(text: &str) -> Coord {
    Coord::parse(text).expect("a square")
}

fn mv(text: &str) -> Move {
    Move::parse_notation(text).expect("a move")
}

fn filled(board: &Board) -> usize {
    (0..100)
        .filter(|i| board.tile(&Coord::from_index(*i).unwrap()) != TileState::Empty)
        .count()
}

#[test]
fn starting_position() {
    let board = Board::default();
    let white = ["a4", "d1", "g1", "j4"];
    let black = ["a7", "d10", "g10", "j7"];
    for (slot, text) in white.iter().enumerate() {
        assert_eq!(board.piece(slot), sq(text));
        assert_eq!(board.tile(&sq(text)), TileState::White);
    }
    for (slot, text) in black.iter().enumerate() {
        assert_eq!(board.piece(slot + 4), sq(text));
        assert_eq!(board.tile(&sq(text)), TileState::Black);
    }
    assert_eq!(filled(&board), 8);
    assert_eq!(board.slot_at(&sq("g1")), Some(2));
    assert_eq!(board.slot_at(&sq("j7")), Some(7));
    assert_eq!(board.slot_at(&sq("e5")), None);
}

#[test]
fn apply_moves_the_piece_and_places_the_arrow() {
    let mut board = Board::default();
    assert_eq!(board.apply_move(&mv("d1-d7/g7")), Ok(()));
    assert_eq!(board.tile(&sq("d1")), TileState::Empty);
    assert_eq!(board.tile(&sq("d7")), TileState::White);
    assert_eq!(board.tile(&sq("g7")), TileState::Arrow);
    assert_eq!(board.piece(1), sq("d7"));
    assert_eq!(filled(&board), 9);

    assert_eq!(board.apply_move(&mv("g10-g8/g9")), Ok(()));
    assert_eq!(board.tile(&sq("g10")), TileState::Empty);
    assert_eq!(board.tile(&sq("g8")), TileState::Black);
    assert_eq!(board.tile(&sq("g9")), TileState::Arrow);
    assert_eq!(board.tile(&sq("g7")), TileState::Arrow);
    assert_eq!(board.piece(6), sq("g8"));
    assert_eq!(filled(&board), 10);
}

#[test]
fn arrow_shot_back_lands_on_the_origin() {
    let mut board = Board::default();
    assert_eq!(board.apply_move(&mv("a4-a5/a4")), Ok(()));
    assert_eq!(board.tile(&sq("a4")), TileState::Arrow);
    assert_eq!(board.tile(&sq("a5")), TileState::White);
    assert_eq!(filled(&board), 9);
}

#[test]
fn apply_without_a_piece_fails_and_changes_nothing() {
    let mut board = Board::default();
    let before = board;
    assert_eq!(
        board.apply_move(&mv("e5-e6/e7")),
        Err(GameError::NoPieceAtSource)
    );
    assert_eq!(board, before);
    assert_eq!(board.after(&mv("b2-b3/b4")), Err(GameError::NoPieceAtSource));
}

#[test]
fn apply_does_not_judge_legality() {
    let mut board = Board::default();
    assert_eq!(board.apply_move(&mv("a4-j10/e5")), Ok(()));
    assert_eq!(board.piece(0), sq("j10"));
    assert_eq!(board.tile(&sq("j10")), TileState::White);
    assert_eq!(board.tile(&sq("e5")), TileState::Arrow);
    assert_eq!(board.tile(&sq("a4")), TileState::Empty);
}

#[test]
fn after_leaves_the_board_alone() {
    let board = Board::default();
    let next = board.after(&mv("j7-j5/h5")).expect("a piece on j7");
    assert_eq!(board, Board::default());
    assert_eq!(next.piece(7), sq("j5"));
    assert_eq!(next.tile(&sq("h5")), TileState::Arrow);
    assert_eq!(next.tile(&sq("j5")), TileState::Black);
    assert_eq!(next.tile(&sq("j7")), TileState::Empty);
}

#[test]
fn every_legal_move_fills_exactly_one_more_tile() {
    let table = MoveTable::new();
    let board = Board::default();
    let mut moves = board.white_moves(&table);
    let mut seen = 0;
    while let Some(m) = moves.next() {
        let next = board.after(&m).expect("a legal move");
        assert_eq!(filled(&next), 9);
        assert_eq!(next.tile(&m.1), TileState::White);
        assert_eq!(next.tile(&m.2), TileState::Arrow);
        if m.2 != m.0 {
            assert_eq!(next.tile(&m.0), TileState::Empty);
        }
        seen += 1;
    }
    assert!(seen > 0);
}

#[test]
fn move_table_rays() {
    let table = MoveTable::new();
    let texts = |v: &Vec<Coord>| v.iter().map(|c| c.notation()).collect::<Vec<String>>();
    let d4 = sq("d4");
    assert_eq!(texts(table.ray(&d4, 0)), ["c4", "b4", "a4"]);
    assert_eq!(texts(table.ray(&d4, 1)), ["c5", "b6", "a7"]);
    assert_eq!(texts(table.ray(&d4, 2)), ["d5", "d6", "d7", "d8", "d9", "d10"]);
    assert_eq!(texts(table.ray(&d4, 3)), ["e5", "f6", "g7", "h8", "i9", "j10"]);
    assert_eq!(texts(table.ray(&d4, 4)), ["e4", "f4", "g4", "h4", "i4", "j4"]);
    assert_eq!(texts(table.ray(&d4, 5)), ["e3", "f2", "g1"]);
    assert_eq!(texts(table.ray(&d4, 6)), ["d3", "d2", "d1"]);
    assert_eq!(texts(table.ray(&d4, 7)), ["c3", "b2", "a1"]);
    let a1 = sq("a1");
    let lengths: Vec<usize> = (0..8).map(|dir| table.ray(&a1, dir).len()).collect();
    assert_eq!(lengths, [0, 0, 9, 9, 9, 0, 0, 0]);
    let j10 = sq("j10");
    let lengths: Vec<usize> = (0..8).map(|dir| table.ray(&j10, dir).len()).collect();
    assert_eq!(lengths, [9, 0, 0, 0, 0, 0, 9, 9]);
}

#[test]
fn picture_of_the_starting_position() {
    let board = Board::default();
    let expected = "   a b c d e f g h i j\n\
                    10 . . . B . . B . . . \n\
                    9  . . . . . . . . . . \n\
                    8  . . . . . . . . . . \n\
                    7  B . . . . . . . . B \n\
                    6  . . . . . . . . . . \n\
                    5  . . . . . . . . . . \n\
                    4  W . . . . . . . . W \n\
                    3  . . . . . . . . . . \n\
                    2  . . . . . . . . . . \n\
                    1  . . . W . . W . . . \n";
    assert_eq!(board.render(), expected);
}

#[test]
fn picture_after_a_move() {
    let mut board = Board::default();
    board.apply_move(&mv("d1-d7/g7")).unwrap();
    let text = board.render();
    let lines: Vec<&str> = text.lines().collect();
    assert_eq!(lines.len(), 11);
    assert_eq!(lines[4], "7  B . . W . . o . . B ");
    assert_eq!(lines[10], "1  . . . . . . W . . . ");
}
