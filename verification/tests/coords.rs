use amazons_core::{Coord, Dim, GameError};

const DIMS: [Dim; 10] = [
    Dim::A,
    Dim::B,
    Dim::C,
    Dim::D,
    Dim::E,
    Dim::F,
    Dim::G,
    Dim::H,
    Dim::I,
    Dim::J,
];

#[test]
fn decode_then_encode_is_the_identity() {
    for idx in 0..100usize {
        let c = Coord::from_index(idx).expect("index below one hundred");
        assert_eq!(c.index(), idx);
    }
}

#[test]
fn encode_then_decode_is_the_identity() {
    for x in DIMS.iter() {
        for y in DIMS.iter() {
            let c = Coord(*x, *y);
            assert_eq!(Coord::from_index(c.index()), Ok(c));
        }
    }
}

#[test]
fn index_is_row_times_ten_plus_column() {
    assert_eq!(Coord(Dim::A, Dim::A).index(), 0);
    assert_eq!(Coord(Dim::J, Dim::A).index(), 9);
    assert_eq!(Coord(Dim::A, Dim::B).index(), 10);
    assert_eq!(Coord(Dim::D, Dim::H).index(), 73);
    assert_eq!(Coord(Dim::J, Dim::J).index(), 99);
    assert_eq!(Coord::from_index(37), Ok(Coord(Dim::H, Dim::D)));
}

#[test]
fn index_out_of_range_is_an_invalid_coordinate() {
    assert_eq!(Coord::from_index(100), Err(GameError::InvalidCoordinate));
    assert_eq!(Coord::from_index(101), Err(GameError::InvalidCoordinate));
    assert_eq!(Coord::from_index(usize::MAX), Err(GameError::InvalidCoordinate));
    assert_eq!(Dim::from_index(10), Err(GameError::InvalidCoordinate));
    assert_eq!(Dim::from_index(usize::MAX), Err(GameError::InvalidCoordinate));
}

#[test]
fn dimension_ordinals_round_trip() {
    for (i, d) in DIMS.iter().enumerate() {
        assert_eq!(d.index(), i);
        assert_eq!(Dim::from_index(i), Ok(*d));
    }
}

#[test]
fn less_than_is_nearest_first() {
    assert_eq!(Dim::A.less_than(), vec![]);
    assert_eq!(Dim::B.less_than(), vec![Dim::A]);
    assert_eq!(Dim::D.less_than(), vec![Dim::C, Dim::B, Dim::A]);
    assert_eq!(
        Dim::J.less_than(),
        vec![Dim::I, Dim::H, Dim::G, Dim::F, Dim::E, Dim::D, Dim::C, Dim::B, Dim::A]
    );
}

#[test]
fn greater_than_is_nearest_first() {
    assert_eq!(Dim::J.greater_than(), vec![]);
    assert_eq!(Dim::I.greater_than(), vec![Dim::J]);
    assert_eq!(Dim::G.greater_than(), vec![Dim::H, Dim::I, Dim::J]);
    assert_eq!(
        Dim::A.greater_than(),
        vec![Dim::B, Dim::C, Dim::D, Dim::E, Dim::F, Dim::G, Dim::H, Dim::I, Dim::J]
    );
}

#[test]
fn error_messages() {
    assert_eq!(GameError::InvalidCoordinate.message(), "invalid coordinate");
    assert_eq!(GameError::InvalidNotation.message(), "invalid notation");
    assert_eq!(GameError::NoPieceAtSource.message(), "no piece to move");
}

#[test]
fn conversions_agree_with_the_named_functions() {
    for idx in 0..100usize {
        let c = Coord::try_from(idx).expect("index below one hundred");
        assert_eq!(Ok(c), Coord::from_index(idx));
        assert_eq!(usize::from(&c), idx);
        assert_eq!(usize::from(&c.0), idx % 10);
        assert_eq!(usize::from(&c.1), idx / 10);
        assert_eq!(Coord::try_from(c.notation().as_str()), Ok(c));
    }
    assert_eq!(Coord::try_from(100usize), Err(GameError::InvalidCoordinate));
    assert_eq!(Dim::try_from(10usize), Err(GameError::InvalidCoordinate));
    assert_eq!(Dim::try_from(7usize), Ok(Dim::H));
    assert_eq!(Coord::try_from("k9"), Err(GameError::InvalidNotation));
}
