use shark::types::{Color, Direction, Move, MoveType, Piece, PieceType, Square};

fn sq(index: u8) -> Square {
    Square(index)
}

#[test]
fn color_flip() {
    assert_eq!(!Color::White, Color::Black);
    assert_eq!(Color::Black.flip(), Color::White);
}

#[test]
fn square_make_and_parts() {
    let e4 = Square::make(4, 3);
    assert_eq!(e4, sq(Square::E4));
    assert_eq!(e4.file(), 4);
    assert_eq!(e4.rank(), 3);
    assert_eq!(e4.to_string(), "e4");
}

#[test]
fn square_flips() {
    assert_eq!(sq(Square::A1).flip_rank(), sq(Square::A8));
    assert_eq!(sq(Square::A1).flip_file(), sq(Square::H1));
}

#[test]
fn square_offset_stays_on_board() {
    assert_eq!(sq(Square::E4).offset(Direction::North), Some(sq(Square::E5)));
    assert_eq!(sq(Square::H4).offset(Direction::East), None); // would wrap
    assert_eq!(sq(Square::A1).offset(Direction::South), None); // off board
}

#[test]
fn piece_char_roundtrip() {
    for c in "PNBRQKpnbrqk".chars() {
        let p = Piece::from_char(c).unwrap();
        assert_eq!(p.to_char(), c);
    }
    assert_eq!(Piece::from_char('x'), None);
}

#[test]
fn move_normal_roundtrip() {
    let m = Move::normal(sq(Square::E2), sq(Square::E4));
    assert_eq!(m.from_sq(), sq(Square::E2));
    assert_eq!(m.to_sq(), sq(Square::E4));
    assert_eq!(m.move_type(), MoveType::Normal);
    assert_eq!(m.to_string(), "e2e4");
}

#[test]
fn move_promotion_roundtrip() {
    let m = Move::promotion(sq(Square::E7), sq(Square::E8), PieceType::Queen);
    assert_eq!(m.move_type(), MoveType::Promotion);
    assert_eq!(m.promotion_type(), PieceType::Queen);
    assert_eq!(m.to_string(), "e7e8q");

    let n = Move::promotion(sq(Square::A7), sq(Square::A8), PieceType::Knight);
    assert_eq!(n.promotion_type(), PieceType::Knight);
    assert_eq!(n.to_string(), "a7a8n");
}

#[test]
fn move_special_types() {
    assert_eq!(
        Move::en_passant(sq(Square::E5), sq(Square::D6)).move_type(),
        MoveType::EnPassant
    );
    assert_eq!(
        Move::castling(sq(Square::E1), sq(Square::H1)).move_type(),
        MoveType::Castling
    );
    // Castling renders in standard UCI as king -> landing square, not the
    // internal king -> rook encoding.
    assert_eq!(Move::castling(sq(Square::E1), sq(Square::H1)).to_string(), "e1g1");
    assert_eq!(Move::castling(sq(Square::E1), sq(Square::A1)).to_string(), "e1c1");
    assert_eq!(Move::castling(sq(Square::E8), sq(Square::H8)).to_string(), "e8g8");
    assert_eq!(Move::castling(sq(Square::E8), sq(Square::A8)).to_string(), "e8c8");
}

#[test]
fn indices_are_dense() {
    assert_eq!(Color::White.index(), 0);
    assert_eq!(Color::Black.index(), 1);
    for i in 0..6 {
        assert_eq!(PieceType::from_index(i).unwrap().index(), i);
    }
    assert_eq!(PieceType::from_index(6), None);
    assert_eq!(Piece::new(Color::Black, PieceType::King).index(), 11);
    assert_eq!(Square::from_index(63), Some(sq(63)));
    assert_eq!(Square::from_index(64), None);
}

#[test]
fn piece_renders_as_its_letter() {
    assert_eq!(Piece::new(Color::White, PieceType::Knight).to_string(), "N");
    assert_eq!(Piece::new(Color::Black, PieceType::Queen).to_string(), "q");
}

#[test]
fn sentinel_moves() {
    assert!(Move::none().is_none());
    assert_eq!(Move::none().raw(), 0);
    assert_eq!(Move::none().to_string(), "0000");
    assert!(!Move::null().is_none());
    assert_eq!(Move::null().from_sq(), sq(Square::B1));
    assert_eq!(Move::null().to_sq(), sq(Square::B1));
}

#[test]
fn move_encoding_is_packed() {
    // 12 + 28: to = 28, from = 12, promotion code 0, type code 0.
    assert_eq!(Move::normal(sq(Square::E2), sq(Square::E4)).raw(), 28 + (12 << 6));
    let m = Move::promotion(sq(Square::B7), sq(Square::A8), PieceType::Rook);
    assert_eq!(m.raw(), 56 + (49 << 6) + (2 << 12) + (1 << 14));
}

#[test]
fn flipping_twice_is_nothing() {
    for i in 0..64u8 {
        assert_eq!(sq(i).flip_rank().flip_rank(), sq(i));
        assert_eq!(sq(i).flip_file().flip_file(), sq(i));
    }
}

#[test]
fn all_piece_types_are_listed_in_order() {
    let all = PieceType::all();
    assert_eq!(all.len(), PieceType::NUM);
    for (i, pt) in all.iter().enumerate() {
        assert_eq!(pt.index(), i);
    }
    assert_eq!(all[0], PieceType::Pawn);
    assert_eq!(all[5], PieceType::King);
}

#[test]
fn moves_are_debugged_in_notation() {
    let m = Move::normal(sq(Square::E2), sq(Square::E4));
    assert_eq!(format!("{:?}", m), "Move(e2e4)");
    assert_eq!(m.debug_string(), "Move(e2e4)");
    let castling = Move::castling(sq(Square::E1), sq(Square::H1));
    assert_eq!(format!("{:?}", castling), "Move(e1g1)");
    assert_eq!(format!("{:?}", Move::none()), "Move(0000)");
}
