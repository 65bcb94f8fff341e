use shark::bitboard;
use shark::bitboard::{
    between, init, Bitboard, FILE_A_BB, FILE_E_BB, RANK_1_BB, RANK_4_BB,
};
use shark::types::{Direction, Square};

fn sq(index: u8) -> Square {
    Square(index)
}

#[test]
fn single_square() {
    let bb = Bitboard::from_square(sq(Square::A1));
    assert_eq!(bb.0, 1);
    assert!(bb.contains(sq(Square::A1)));
    assert!(!bb.contains(sq(Square::B1)));
    assert_eq!(bb.count(), 1);
    assert!(!bb.more_than_one());
}

#[test]
fn set_and_clear() {
    let mut bb = Bitboard::empty();
    bb.set(sq(Square::E4));
    bb.set(sq(Square::D5));
    assert_eq!(bb.count(), 2);
    assert!(bb.more_than_one());
    bb.clear(sq(Square::E4));
    assert_eq!(bb.count(), 1);
    assert!(bb.contains(sq(Square::D5)));
}

#[test]
fn lsb_msb_pop() {
    let mut bb = Bitboard::from_square(sq(Square::C1)) | Bitboard::from_square(sq(Square::F8));
    assert_eq!(bb.lsb(), sq(Square::C1));
    assert_eq!(bb.msb(), sq(Square::F8));
    assert_eq!(bb.pop_lsb(), sq(Square::C1));
    assert_eq!(bb.lsb(), sq(Square::F8));
}

#[test]
fn iterate_squares() {
    let bb = Bitboard::from_square(sq(Square::A1))
        | Bitboard::from_square(sq(Square::E4))
        | Bitboard::from_square(sq(Square::H8));
    let squares: Vec<Square> = bb.squares();
    assert_eq!(squares, vec![sq(Square::A1), sq(Square::E4), sq(Square::H8)]);
}

#[test]
fn file_and_rank_masks() {
    assert_eq!(Bitboard::file_bb(sq(Square::A1)).0, FILE_A_BB);
    assert_eq!(Bitboard::file_bb(sq(Square::E4)).0, FILE_E_BB);
    assert_eq!(Bitboard::rank_bb(sq(Square::A1)).0, RANK_1_BB);
    assert_eq!(Bitboard::rank_bb(sq(Square::E4)).0, RANK_4_BB);
}

#[test]
fn shift_no_wrap() {
    // A single pawn on h4 shifted east must vanish (no wrap to a5).
    let h4 = Bitboard::from_square(sq(Square::H4));
    assert_eq!(h4.shift(Direction::East), Bitboard::empty());
    // e4 shifted north -> e5.
    let e4 = Bitboard::from_square(sq(Square::E4));
    assert_eq!(e4.shift(Direction::North), Bitboard::from_square(sq(Square::E5)));
    // a-file west vanishes.
    assert_eq!(
        Bitboard::from_square(sq(Square::A5)).shift(Direction::West),
        Bitboard::empty()
    );
}

#[test]
fn full_board_counts() {
    assert_eq!(Bitboard::full().count(), 64);
    assert_eq!(Bitboard::empty().count(), 0);
}

// -- between / line geometry --------------------------------------------

#[test]
fn between_on_rank() {
    // a1..h1: strictly between a1 and d1 are b1 and c1.
    let bb = between(sq(Square::A1), sq(Square::D1));
    assert!(bb.contains(sq(Square::B1)));
    assert!(bb.contains(sq(Square::C1)));
    assert!(!bb.contains(sq(Square::A1)));
    assert!(!bb.contains(sq(Square::D1)));
    assert_eq!(bb.count(), 2);
}

#[test]
fn between_on_file_and_diagonal() {
    // Up the e-file: between e2 and e5 are e3, e4.
    let file = between(sq(Square::E2), sq(Square::E5));
    assert_eq!(file.count(), 2);
    assert!(file.contains(sq(Square::E3)) && file.contains(sq(Square::E4)));

    // Along the a1-h8 diagonal: between a1 and d4 are b2, c3.
    let diag = between(sq(Square::A1), sq(Square::D4));
    assert_eq!(diag.count(), 2);
    assert!(diag.contains(sq(Square::B2)) && diag.contains(sq(Square::C3)));
}

#[test]
fn between_is_symmetric() {
    assert_eq!(between(sq(Square::A1), sq(Square::H8)), between(sq(Square::H8), sq(Square::A1)));
    assert_eq!(between(sq(Square::C4), sq(Square::C7)), between(sq(Square::C7), sq(Square::C4)));
}

#[test]
fn between_adjacent_and_unaligned_is_empty() {
    // Adjacent squares have nothing between them.
    assert!(between(sq(Square::A1), sq(Square::A2)).is_empty());
    assert!(between(sq(Square::D4), sq(Square::E5)).is_empty());
    // Unaligned squares (a knight's move apart) share no line.
    assert!(between(sq(Square::A1), sq(Square::B3)).is_empty());
    // A square with itself.
    assert!(between(sq(Square::E4), sq(Square::E4)).is_empty());
}

#[test]
fn line_extends_to_edges() {
    // The line through a1 and c1 is the whole rank 1 (8 squares).
    let rank = bitboard::line(sq(Square::A1), sq(Square::C1));
    assert_eq!(rank.count(), 8);
    assert!(rank.contains(sq(Square::A1)) && rank.contains(sq(Square::H1)));

    // The line through c3 and e5 is the a1-h8 diagonal (8 squares).
    let diag = bitboard::line(sq(Square::C3), sq(Square::E5));
    assert!(diag.contains(sq(Square::A1)) && diag.contains(sq(Square::H8)));
    assert_eq!(diag.count(), 8);
}

#[test]
fn line_unaligned_is_empty() {
    assert!(bitboard::line(sq(Square::A1), sq(Square::B3)).is_empty());
    assert!(bitboard::line(sq(Square::E4), sq(Square::E4)).is_empty());
}

#[test]
fn line_contains_both_endpoints_when_aligned() {
    let l = bitboard::line(sq(Square::B2), sq(Square::G7));
    assert!(l.contains(sq(Square::B2)));
    assert!(l.contains(sq(Square::G7)));
    // and the full a1-h8 diagonal it lies on.
    assert!(l.contains(sq(Square::A1)) && l.contains(sq(Square::H8)));
}

#[test]
fn line_tables_agree_with_direct_geometry() {
    let tables = init();
    for a in 0..64u8 {
        for b in 0..64u8 {
            assert_eq!(tables.between(sq(a), sq(b)), between(sq(a), sq(b)));
            assert_eq!(tables.line(sq(a), sq(b)), bitboard::line(sq(a), sq(b)));
        }
    }
}

#[test]
fn operators_are_set_operations() {
    let a = Bitboard(0b1100);
    let b = Bitboard(0b1010);
    assert_eq!(a & b, Bitboard(0b1000));
    assert_eq!(a | b, Bitboard(0b1110));
    assert_eq!(a ^ b, Bitboard(0b0110));
    assert_eq!(!Bitboard::empty(), Bitboard::full());
    assert_eq!(a << 4, Bitboard(0b1100_0000));
    assert_eq!(a >> 2, Bitboard(0b11));
    assert_eq!(a | sq(0), Bitboard(0b1101));
    let mut c = a;
    c &= b;
    assert_eq!(c, Bitboard(0b1000));
    c |= a;
    assert_eq!(c, Bitboard(0b1100));
    c ^= b;
    assert_eq!(c, Bitboard(0b0110));
}

#[test]
fn next_walks_the_set_and_stops() {
    let mut bb = Bitboard::from_square(sq(Square::B2)) | Bitboard::from_square(sq(Square::G7));
    assert_eq!(bb.next(), Some(sq(Square::B2)));
    assert_eq!(bb.next(), Some(sq(Square::G7)));
    assert_eq!(bb.next(), None);
    assert!(!bb.any());
}

#[test]
fn every_shift_moves_one_step_or_falls_off() {
    for d in [
        Direction::North,
        Direction::South,
        Direction::East,
        Direction::West,
        Direction::NorthEast,
        Direction::NorthWest,
        Direction::SouthEast,
        Direction::SouthWest,
    ] {
        for i in 0..64u8 {
            let shifted = Bitboard::from_square(sq(i)).shift(d);
            let expected = match sq(i).offset(d) {
                Some(t) => Bitboard::from_square(t),
                None => Bitboard::empty(),
            };
            assert_eq!(shifted, expected);
        }
    }
}

#[test]
fn diagram_shows_the_set() {
    let bb = Bitboard::from_square(sq(Square::A1)) | Bitboard::from_square(sq(Square::H8));
    let expected = "  +-----------------+\n\
                    8 | . . . . . . . X |\n\
                    7 | . . . . . . . . |\n\
                    6 | . . . . . . . . |\n\
                    5 | . . . . . . . . |\n\
                    4 | . . . . . . . . |\n\
                    3 | . . . . . . . . |\n\
                    2 | . . . . . . . . |\n\
                    1 | X . . . . . . . |\n\
                    \x20 +-----------------+\n\
                    \x20   a b c d e f g h";
    assert_eq!(bb.to_string(), expected);
}

#[test]
fn lines_do_not_depend_on_the_order() {
    for a in 0..64u8 {
        for b in 0..64u8 {
            assert_eq!(between(sq(a), sq(b)), between(sq(b), sq(a)));
            let line = bitboard::line(sq(a), sq(b));
            assert_eq!(line, bitboard::line(sq(b), sq(a)));
            // What lies between lies on the line.
            assert_eq!(between(sq(a), sq(b)).0 & line.0, between(sq(a), sq(b)).0);
        }
    }
}

#[test]
fn bitboards_are_debugged_in_hexadecimal() {
    let corners = Bitboard(0x8100_0000_0000_00af);
    assert_eq!(format!("{:?}", corners), "Bitboard(0x81000000000000af)");
    assert_eq!(corners.debug_string(), "Bitboard(0x81000000000000af)");
    assert_eq!(format!("{:?}", Bitboard::empty()), "Bitboard(0x0000000000000000)");
    assert_eq!(format!("{:?}", Bitboard(0xfedc_ba98)), "Bitboard(0x00000000fedcba98)");
}
