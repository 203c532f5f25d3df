use amazons_core::{Board, Coord, GameError, Move};

fn every_square() -> Vec<Coord> {
    (0..100)
        .map(|idx: usize| Coord::from_index(idx).expect("index below one hundred"))
        .collect()
}

#[test]
fn test_notation() {
    let all_coords: Vec<Coord> = every_square();
    let _board: Board = Default::default();
    for a in all_coords.iter() {
        for b in all_coords.iter() {
            for c in all_coords.iter() {
                let mov = Move(*a, *b, *c);
                let notation = mov.notation();
                let Move(aa, bb, cc) = Move::parse_notation(&notation).expect("no fails pls");
                assert_eq!(a, &aa);
                assert_eq!(b, &bb);
                assert_eq!(c, &cc);
            }
        }
    }
}

#[test]
fn main_test_notation() {
    let all_coords: Vec<Coord> = every_square();
    let _board: Board = Default::default();
    for a in all_coords.iter() {
        for b in all_coords.iter() {
            for c in all_coords.iter() {
                let notation = Move::notation_for(a, b, c);
                let Move(aa, bb, cc) = Move::parse_notation(&notation).expect("no fails pls");
                assert_eq!(a, &aa);
                assert_eq!(b, &bb);
                assert_eq!(c, &cc);
            }
        }
    }
}

#[test]
fn notation_of_a_move() {
    let a4 = Coord::parse("a4").unwrap();
    let a5 = Coord::parse("a5").unwrap();
    let j10 = Coord::parse("j10").unwrap();
    assert_eq!(Move(a4, a5, j10).notation(), "a4-a5/j10");
    assert_eq!(Move::notation_for(&j10, &a4, &a5), "j10-a4/a5");
    assert_eq!(j10.notation(), "j10");
    assert_eq!(a4.notation(), "a4");
}

#[test]
fn parse_accepts_surrounding_white_space() {
    let expected = Move(
        Coord::parse("a4").unwrap(),
        Coord::parse("a5").unwrap(),
        Coord::parse("a6").unwrap(),
    );
    assert_eq!(Move::parse_notation("a4-a5/a6\n"), Ok(expected));
    assert_eq!(Move::parse_notation("  \ta4-a5/a6 \r\n"), Ok(expected));
    assert_eq!(Move::parse_notation("\u{3000}a4-a5/a6\u{a0}"), Ok(expected));
}

#[test]
fn parse_rejects_what_follows_a_second_separator() {
    let bad = [
        "d1-d7/g10-zz",
        "d1-d7/g10/zz",
        "a1-a2/a3/a4",
        "a1-a2/a3-a4",
        "a1-a2-a3/a4",
        "a1-a2/a3/",
        "a1-a2/a3-",
        "a1--a2/a3",
        "a1-a2//a3",
        "a1/a2-a3/a4",
    ];
    for text in bad.iter() {
        assert_eq!(
            Move::parse_notation(text),
            Err(GameError::InvalidNotation),
            "{text:?}"
        );
    }
}

#[test]
fn parse_accepts_exactly_the_text_of_a_move() {
    let m = Move::parse_notation(" j10-a1/e5\n").expect("a move in white space");
    assert_eq!(m.notation(), "j10-a1/e5");
    assert_eq!(Move::parse_notation(&m.notation()), Ok(m));
    let text = m.notation();
    for cut in 0..text.len() {
        let mut shorter = text.clone();
        shorter.remove(cut);
        assert_ne!(Move::parse_notation(&shorter), Ok(m), "{shorter:?}");
        let mut longer = text.clone();
        longer.insert(cut, '1');
        assert_ne!(Move::parse_notation(&longer), Ok(m), "{longer:?}");
    }
}

#[test]
fn parse_rejects_malformed_moves() {
    let bad = [
        "",
        " ",
        "a4",
        "a4a5/a6",
        "a4-a5a6",
        "a4/a5-a6",
        "a4-a5/",
        "-a5/a6",
        "a4-/a6",
        "k4-a5/a6",
        "a0-a5/a6",
        "a11-a5/a6",
        "a4-a5/a6 x",
        "a4 -a5/a6",
        "A4-a5/a6",
        "a4-a5/a66",
        "a01-a5/a6",
    ];
    for text in bad.iter() {
        assert_eq!(
            Move::parse_notation(text),
            Err(GameError::InvalidNotation),
            "{text:?}"
        );
    }
}

#[test]
fn parse_coord_accepts_exactly_the_hundred_squares() {
    let letters = ['a', 'b', 'c', 'd', 'e', 'f', 'g', 'h', 'i', 'j'];
    for (x, letter) in letters.iter().enumerate() {
        for y in 0..10usize {
            let text = format!("{}{}", letter, y + 1);
            let c = Coord::parse(&text).expect("a square");
            assert_eq!(c.index(), y * 10 + x);
            assert_eq!(c.notation(), text);
        }
    }
    for text in ["", "a", "1", "a0", "a11", "k1", "a1 ", " a1", "aa", "a1b", "a100", "J1"] {
        assert_eq!(Coord::parse(text), Err(GameError::InvalidNotation), "{text:?}");
    }
}

#[test]
fn white_space_is_the_unicode_property() {
    for n in 0..=0x10ffffu32 {
        if let Some(ch) = char::from_u32(n) {
            let text = format!("{}a4-a5/a6{}", ch, ch);
            assert_eq!(
                Move::parse_notation(&text).is_ok(),
                ch.is_whitespace(),
                "U+{n:04X}"
            );
        }
    }
}
