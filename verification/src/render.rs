use vstd::prelude::*;
use vstd::string::*;

use crate::board::{board_shape, Board, BoardView, TileState};
use crate::coord::{Coord, Dim};
use crate::notation::row_digits;

verus! {

/// The two characters that picture a tile: its glyph and a space.
pub open spec fn glyph(t: TileState) -> Seq<char> {
    match t {
        TileState::Empty => seq!['.', ' '],
        TileState::White => seq!['W', ' '],
        TileState::Black => seq!['B', ' '],
        TileState::Arrow => seq!['o', ' '],
    }
}

/// The three characters that label the row with ordinal `row`: its number,
/// filled up with spaces.
pub open spec fn row_label(row: int) -> Seq<char> {
    if row == 9 {
        row_digits(Dim::of(row)) + seq![' ']
    } else {
        row_digits(Dim::of(row)) + seq![' ', ' ']
    }
}

/// The glyphs of the first `upto` tiles of a row, from the left.
pub open spec fn row_glyphs(tiles: Seq<TileState>, row: int, upto: int) -> Seq<char>
    decreases upto,
{
    if upto <= 0 {
        Seq::empty()
    } else {
        row_glyphs(tiles, row, upto - 1) + glyph(tiles[row * 10 + upto - 1])
    }
}

/// The line that pictures a row: its label, its ten glyphs, a line feed.
pub open spec fn row_line(tiles: Seq<TileState>, row: int) -> Seq<char> {
    row_label(row) + row_glyphs(tiles, row, 10) + seq!['\n']
}

/// The lines of the rows below `from`, the highest first.
pub open spec fn rows_below(tiles: Seq<TileState>, from: int) -> Seq<char>
    decreases from,
{
    if from <= 0 {
        Seq::empty()
    } else {
        row_line(tiles, from - 1) + rows_below(tiles, from - 1)
    }
}

/// The picture of a position: a line of column letters, then the rows
/// from the tenth down to the first.
pub open spec fn board_text(b: BoardView) -> Seq<char> {
    "   a b c d e f g h i j\n"@ + rows_below(b.tiles, 10)
}

fn label_str(row: usize) -> (s: &'static str)
    requires
        row < 10,
    ensures
        s@ == row_label(row as int),
{
    proof {
        reveal_strlit("1  ");
        reveal_strlit("2  ");
        reveal_strlit("3  ");
        reveal_strlit("4  ");
        reveal_strlit("5  ");
        reveal_strlit("6  ");
        reveal_strlit("7  ");
        reveal_strlit("8  ");
        reveal_strlit("9  ");
        reveal_strlit("10 ");
    }
    let s: &'static str = match row {
        0 => "1  ",
        1 => "2  ",
        2 => "3  ",
        3 => "4  ",
        4 => "5  ",
        5 => "6  ",
        6 => "7  ",
        7 => "8  ",
        8 => "9  ",
        _ => "10 ",
    };
    assert(s@ =~= row_label(row as int));
    s
}

fn glyph_str(t: TileState) -> (s: &'static str)
    ensures
        s@ == glyph(t),
{
    proof {
        reveal_strlit(". ");
        reveal_strlit("W ");
        reveal_strlit("B ");
        reveal_strlit("o ");
    }
    let s: &'static str = match t {
        TileState::Empty => ". ",
        TileState::White => "W ",
        TileState::Black => "B ",
        TileState::Arrow => "o ",
    };
    assert(s@ =~= glyph(t));
    s
}

impl Board {
    /// Draws the position as text: a line of column letters, then one line
    /// for each row from the tenth down to the first, with the row's number
    /// and a glyph for each tile: `.` for an empty tile, `W` and `B` for
    /// the pieces, `o` for an arrow.
    pub fn render(&self) -> (text: String)
        ensures
            text@ == board_text(self@),
    {
        broadcast use board_shape;

        let ghost tiles = self@.tiles;
        let mut text: String = String::new();
        text.append("   a b c d e f g h i j\n");
        let mut row: usize = 10;
        while row > 0
            invariant
                row <= 10,
                tiles == self@.tiles,
                text@ + rows_below(tiles, row as int) == board_text(self@),
            decreases row,
        {
            let ghost before = text@;
            row -= 1;
            text.append(label_str(row));
            let mut column: usize = 0;
            while column < 10
                invariant
                    column <= 10,
                    row < 10,
                    tiles == self@.tiles,
                    text@ == before + row_label(row as int) + row_glyphs(
                        tiles,
                        row as int,
                        column as int,
                    ),
                decreases 10 - column,
            {
                let square: Coord = Coord::square(row * 10 + column);
                text.append(glyph_str(self.tile(&square)));
                column += 1;
            }
            proof {
                reveal_strlit("\n");
            }
            text.append("\n");
            assert("\n"@ =~= seq!['\n']);
            assert(text@ =~= before + row_line(tiles, row as int));
            assert(text@ + rows_below(tiles, row as int) =~= before + rows_below(
                tiles,
                row + 1,
            ));
        }
        assert(text@ + rows_below(tiles, 0) =~= text@);
        text
    }
}

} // verus!
