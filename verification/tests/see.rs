use shark::movegen::generate_legal;
use shark::position::Position;
use shark::see::{see, see_ge, see_value};
use shark::types::{Move, MoveType, PieceType, Square};

fn sq(index: u8) -> Square {
    Square(index)
}

/// Parse a FEN and build the given normal capture, then run SEE.
fn see_fen(fen: &str, from: Square, to: Square) -> i32 {
    let pos = Position::from_fen(fen).unwrap_or_else(|e| panic!("bad fen {fen}: {e}"));
    see(&pos, Move::normal(from, to))
}

#[test]
fn value_ordering_is_flat_and_monotone() {
    // The flat values must strictly increase pawn < knight < bishop < rook <
    // queen < king so least-valuable-attacker ordering is well-defined.
    assert!(see_value(PieceType::Pawn) < see_value(PieceType::Knight));
    assert!(see_value(PieceType::Knight) < see_value(PieceType::Bishop));
    assert!(see_value(PieceType::Bishop) < see_value(PieceType::Rook));
    assert!(see_value(PieceType::Rook) < see_value(PieceType::Queen));
    assert!(see_value(PieceType::Queen) < see_value(PieceType::King));
}

#[test]
fn undefended_piece_wins_full_value() {
    // White rook on a1 captures a totally undefended black knight on a7.
    // Nothing recaptures, so SEE = knight value = 320.
    let fen = "4k3/n7/8/8/8/8/8/R3K3 w - - 0 1";
    assert_eq!(see_fen(fen, sq(Square::A1), sq(Square::A7)), 320);
}

#[test]
fn pawn_takes_pawn_defended_by_pawn_is_zero() {
    // White pawn d4 x black pawn e5; the e5 pawn is defended by a black pawn
    // on d6 (which attacks e5). We win a pawn (+100) then lose our pawn to the
    // recapture (-100): net 0.
    //   white pawn d4, black pawns e5 and d6.
    let fen = "4k3/8/3p4/4p3/3P4/8/8/4K3 w - - 0 1";
    assert_eq!(see_fen(fen, sq(Square::D4), sq(Square::E5)), 0);
}

#[test]
fn rook_takes_pawn_defended_by_pawn_loses_the_exchange() {
    // White rook e1 x black pawn e5; the pawn is defended by a black pawn on
    // d6. We win the pawn (+100) but the recapture takes our rook (-500):
    // net 100 - 500 = -400. SEE must be negative.
    let fen = "4k3/8/3p4/4p3/8/8/8/4R1K1 w - - 0 1";
    assert_eq!(see_fen(fen, sq(Square::E1), sq(Square::E5)), -400);
}

#[test]
fn knight_takes_pawn_defended_by_pawn_loses() {
    // White knight on c4 x black pawn d5, defended by a black pawn on c6.
    // Win pawn (+100), lose knight to recapture (-320): net -220.
    let fen = "4k3/8/2p5/3p4/2N5/8/8/4K3 w - - 0 1";
    assert_eq!(see_fen(fen, sq(Square::C4), sq(Square::D5)), -220);
}

#[test]
fn pawn_takes_queen_even_if_defended_is_winning() {
    // White pawn on e4 x black queen on d5, defended by a black pawn on c6.
    // Win the queen (+900); the recapture takes our pawn (-100): net +800.
    // Winning a queen with a pawn is hugely positive even when defended.
    let fen = "4k3/8/2p5/3q4/4P3/8/8/4K3 w - - 0 1";
    assert_eq!(see_fen(fen, sq(Square::E4), sq(Square::D5)), 800);
}

#[test]
fn xray_battery_of_two_rooks_is_counted() {
    // Stacked white rooks on e1 and e2 capture a black pawn on e5, which is
    // defended once by a black rook on e8 (down the file).
    //   White: Re1, Re2, Ke1-area king g1.  Black: pawn e5, Re8, Kg8.
    // Sequence on e5: Rxe5 (+100), ...Rxe5 (-500), Rxe5 (+500).
    //   gains: [100, -500, 500] -> minimax -> +100.
    // Without the x-ray (the second white rook behind the first), the second
    // white recapture would be missing and SEE would read 100 - 500 = -400,
    // so this test proves the battery is seen.
    let fen = "4r1k1/8/8/4p3/8/8/4R3/4R1K1 w - - 0 1";
    assert_eq!(see_fen(fen, sq(Square::E2), sq(Square::E5)), 100);
}

#[test]
fn xray_battery_missing_second_rook_loses_exchange() {
    // Control for the battery test: only ONE white rook on the e-file. Now
    // Rxe5 (+100) is answered by ...Rxe5 (-500) with no follow-up, so SEE is
    // 100 - 500 = -400.
    let fen = "4r1k1/8/8/4p3/8/8/8/4R1K1 w - - 0 1";
    assert_eq!(see_fen(fen, sq(Square::E1), sq(Square::E5)), -400);
}

#[test]
fn en_passant_capture_is_evaluated() {
    // White pawn d5 takes en passant on c6 after ...c5. The captured pawn is
    // on c5. If nothing defends c6, SEE = pawn value = 100.
    let fen = "4k3/8/8/2pP4/8/8/8/4K3 w - c6 0 1";
    let pos = Position::from_fen(fen).unwrap();
    let m = Move::en_passant(sq(Square::D5), sq(Square::C6));
    assert_eq!(see(&pos, m), 100);
}

#[test]
fn defended_equal_trade_of_knights_is_zero() {
    // White knight on e4 x black knight on d6 (a knight, value 320), defended
    // by a black pawn on c7. Win knight (+320), lose knight to pawn recapture
    // (-320): net 0. An even trade nets zero.
    let fen = "4k3/2p5/3n4/8/4N3/8/8/4K3 w - - 0 1";
    assert_eq!(see_fen(fen, sq(Square::E4), sq(Square::D6)), 0);
}

#[test]
fn non_capture_returns_zero() {
    // A quiet move that captures nothing must score 0.
    let fen = "4k3/8/8/8/8/8/8/R3K3 w - - 0 1";
    assert_eq!(see_fen(fen, sq(Square::A1), sq(Square::A4)), 0);
}

#[test]
fn see_ge_matches_see_value() {
    // `see_ge` must agree with the sign of `see` at the given threshold.
    let fen = "4k3/8/3p4/4p3/8/8/8/4R1K1 w - - 0 1"; // rook takes defended pawn: -400
    let pos = Position::from_fen(fen).unwrap();
    let m = Move::normal(sq(Square::E1), sq(Square::E5));
    assert!(!see_ge(&pos, m, 0), "a losing capture must fail the >= 0 test");
    assert!(see_ge(&pos, m, -400), "it must clear its own exact value");
    assert!(!see_ge(&pos, m, -399), "one above its value must fail");
}

#[test]
fn castling_is_no_capture() {
    let fen = "4k3/8/8/8/8/8/8/4K2R w K - 0 1";
    let pos = Position::from_fen(fen).unwrap();
    assert_eq!(see(&pos, Move::castling(sq(Square::E1), sq(Square::H1))), 0);
}

#[test]
fn promotions_count_what_the_pawn_gains() {
    // A bare promotion on an undefended square: queen for pawn.
    let pos = Position::from_fen("8/P6k/8/8/8/8/8/K7 w - - 0 1").unwrap();
    let m = Move::promotion(sq(Square::A7), sq(Square::A8), PieceType::Queen);
    assert_eq!(see(&pos, m), 800);
    // Defended by a rook: the new queen is lost again.
    let pos = Position::from_fen("7r/P7/8/7k/8/8/8/K7 w - - 0 1").unwrap();
    assert_eq!(see(&pos, m), -100);
    // Capturing a knight while promoting.
    let pos = Position::from_fen("1n5k/P7/8/8/8/8/8/K7 w - - 0 1").unwrap();
    let m = Move::promotion(sq(Square::A7), sq(Square::B8), PieceType::Rook);
    assert_eq!(see(&pos, m), 320 + 400);
}

#[test]
fn a_king_does_not_recapture_into_defence() {
    // The rook takes on d7, which the black king attacks; the white bishop defends.
    let pos = Position::from_fen("4k3/3p4/8/8/6B1/8/8/3R2K1 w - - 0 1").unwrap();
    assert_eq!(see(&pos, Move::normal(sq(Square::D1), sq(Square::D7))), 100);
    // Without the bishop the king takes the rook.
    let pos = Position::from_fen("4k3/3p4/8/8/8/8/8/3R2K1 w - - 0 1").unwrap();
    assert_eq!(see(&pos, Move::normal(sq(Square::D1), sq(Square::D7))), -400);
}

#[test]
fn values_are_exact() {
    assert_eq!(see_value(PieceType::Pawn), 100);
    assert_eq!(see_value(PieceType::Knight), 320);
    assert_eq!(see_value(PieceType::Bishop), 330);
    assert_eq!(see_value(PieceType::Rook), 500);
    assert_eq!(see_value(PieceType::Queen), 900);
    assert_eq!(see_value(PieceType::King), 10_000);
}

#[test]
fn a_capture_is_bounded_by_victim_and_capturer() {
    let mut pos = Position::from_fen(
        "r3k2r/p1ppqpb1/bn2pnp1/3PN3/1p2P3/2N2Q1p/PPPBBPPP/R3K2R w KQkq - 0 1",
    )
    .unwrap();
    let mut captures = 0;
    for &m in generate_legal(&mut pos).as_slice() {
        if m.move_type() != MoveType::Normal {
            continue;
        }
        if let Some(victim) = pos.piece_at(m.to_sq()) {
            let gain = see_value(victim.piece_type);
            let mover = see_value(pos.piece_at(m.from_sq()).unwrap().piece_type);
            let value = see(&pos, m);
            assert!(gain - mover <= value && value <= gain);
            captures += 1;
        }
    }
    assert_eq!(captures, 8);
}
