use shark::position::{Position, BLACK_OOO, WHITE_OOO};
use shark::types::{Color, Move, PieceType, Square};

fn sq(index: u8) -> Square {
    Square(index)
}

const STARTPOS_FEN: &str = "rnbqkbnr/pppppppp/8/8/8/8/PPPPPPPP/RNBQKBNR w KQkq - 0 1";
const KIWIPETE_FEN: &str =
    "r3k2r/p1ppqpb1/bn2pnp1/3PN3/1p2P3/2N2Q1p/PPPBBPPP/R3K2R w KQkq - 0 1";

// -- FEN --------------------------------------------------------------

#[test]
fn startpos_to_fen() {
    assert_eq!(Position::startpos().to_fen(), STARTPOS_FEN);
}

#[test]
fn fen_round_trip() {
    let fens = [
        STARTPOS_FEN,
        KIWIPETE_FEN,
        // An en-passant position: after 1. e4 the ep square is e3... use a
        // position with a live ep target on c6.
        "rnbqkbnr/pp1ppppp/8/2pP4/8/8/PPP1PPPP/RNBQKBNR w KQkq c6 0 3",
        // A promotion-ready position (white pawn on the 7th).
        "8/P7/8/8/8/8/8/k1K5 w - - 0 1",
        // Another with black to move and partial castling rights.
        "r3k2r/8/8/8/8/8/8/R3K2R b Kq - 5 12",
    ];
    for fen in fens {
        let pos = Position::from_fen(fen).unwrap_or_else(|e| panic!("parse {fen}: {e}"));
        assert_eq!(pos.to_fen(), fen, "round-trip failed for {fen}");
    }
}

#[test]
fn from_fen_defaults_clocks() {
    // Missing halfmove/fullmove default to 0 / 1.
    let pos = Position::from_fen("rnbqkbnr/pppppppp/8/8/8/8/PPPPPPPP/RNBQKBNR w KQkq -").unwrap();
    assert_eq!(pos.halfmove_clock(), 0);
    assert_eq!(pos.fullmove_number(), 1);
}

#[test]
fn from_fen_rejects_garbage() {
    assert!(Position::from_fen("").is_err());
    assert!(Position::from_fen("xxxx w - - 0 1").is_err());
    assert!(Position::from_fen("rnbqkbnr/pppppppp/8/8/8/8/PPPPPPPP w KQkq - 0 1").is_err());
}

// -- Zobrist key consistency ------------------------------------------

#[test]
fn incremental_key_matches_recompute_after_parse() {
    let fens = [
        STARTPOS_FEN,
        KIWIPETE_FEN,
        "rnbqkbnr/pp1ppppp/8/2pP4/8/8/PPP1PPPP/RNBQKBNR w KQkq c6 0 3",
        "8/P7/8/8/8/8/8/k1K5 w - - 0 1",
        "r3k2r/8/8/8/8/8/8/R3K2R b Kq - 5 12",
    ];
    for fen in fens {
        let pos = Position::from_fen(fen).unwrap();
        assert_eq!(pos.key(), pos.compute_key(), "key mismatch for {fen}");
    }
}

// -- Attack / check queries -------------------------------------------

#[test]
fn startpos_not_in_check() {
    assert!(!Position::startpos().in_check());
}

#[test]
fn detects_check() {
    // Black king on e8, white rook on e1 down the open e-file: black in check.
    let pos = Position::from_fen("4k3/8/8/8/8/8/8/4R2K b - - 0 1").unwrap();
    assert!(pos.in_check());
    // And the white king (not to move) is not attacked.
    assert!(!pos.is_attacked(pos.king_square(Color::White), Color::Black));
}

#[test]
fn attackers_to_sanity() {
    // White: knight b1, bishop c1-diagonal, pawn d2; probe attacks on d3/e2 etc.
    // Build a crafted spot: a white pawn on e4 attacks d5 and f5.
    let pos = Position::from_fen("4k3/8/8/8/4P3/8/8/4K3 w - - 0 1").unwrap();
    let attackers = pos.attackers_to(sq(Square::D5), pos.occupied());
    assert!(attackers.contains(sq(Square::E4)), "e4 pawn should attack d5");

    // A knight on d4 attacks e6; place one and check.
    let pos = Position::from_fen("4k3/8/8/8/3N4/8/8/4K3 w - - 0 1").unwrap();
    let attackers = pos.attackers_to(sq(Square::E6), pos.occupied());
    assert!(attackers.contains(sq(Square::D4)), "d4 knight should attack e6");

    // A rook sees along a file until blocked.
    let pos = Position::from_fen("4k3/8/8/8/8/8/8/R3K3 w - - 0 1").unwrap();
    let attackers = pos.attackers_to(sq(Square::A8), pos.occupied());
    assert!(attackers.contains(sq(Square::A1)), "a1 rook should attack a8");
}

// -- make / undo restores everything ----------------------------------

/// Assert that making `m` then undoing it restores the position exactly,
/// including FEN, the running key, and that the running key equals the
/// full recompute both before and after.
fn assert_make_undo_restores(fen: &str, m: Move) {
    let mut pos = Position::from_fen(fen).unwrap_or_else(|e| panic!("parse {fen}: {e}"));
    let fen_before = pos.to_fen();
    let key_before = pos.key();
    assert_eq!(key_before, pos.compute_key(), "key wrong before move ({fen})");

    let undo = pos.make_move(m);
    // After the move the running key must still match the full recompute.
    assert_eq!(
        pos.key(),
        pos.compute_key(),
        "incremental key drifted after a move from {fen}"
    );

    pos.undo_move(m, undo);
    assert_eq!(pos.to_fen(), fen_before, "FEN not restored after undo of a move from {fen}");
    assert_eq!(pos.key(), key_before, "key not restored after undo of a move from {fen}");
    assert_eq!(pos.key(), pos.compute_key(), "key wrong after undo ({fen})");
}

#[test]
fn make_undo_normal_move() {
    assert_make_undo_restores(STARTPOS_FEN, Move::normal(sq(Square::G1), sq(Square::F3)));
}

#[test]
fn make_undo_double_push_sets_ep() {
    // Verify the ep target actually gets set mid-move, then undoes cleanly.
    let mut pos = Position::startpos();
    let m = Move::normal(sq(Square::E2), sq(Square::E4));
    let undo = pos.make_move(m);
    assert_eq!(pos.en_passant(), Some(sq(Square::E3)));
    assert_eq!(pos.key(), pos.compute_key());
    pos.undo_move(m, undo);
    assert_eq!(pos.en_passant(), None);
    assert_eq!(pos.to_fen(), STARTPOS_FEN);
}

#[test]
fn make_undo_capture() {
    // Kiwipete has plenty of captures; white pawn e4 has nothing, so craft one:
    // white pawn d5 captures black pawn... use a simple crafted capture.
    // White rook a1 captures black rook a8.
    assert_make_undo_restores(
        "r6k/8/8/8/8/8/8/R6K w - - 0 1",
        Move::normal(sq(Square::A1), sq(Square::A8)),
    );
}

#[test]
fn make_undo_en_passant_capture() {
    // Black just played ...c5, white pawn on d5 takes en passant on c6.
    let fen = "rnbqkbnr/pp1ppppp/8/2pP4/8/8/PPP1PPPP/RNBQKBNR w KQkq c6 0 3";
    assert_make_undo_restores(fen, Move::en_passant(sq(Square::D5), sq(Square::C6)));

    // Also verify the captured pawn is actually removed mid-move.
    let mut pos = Position::from_fen(fen).unwrap();
    let m = Move::en_passant(sq(Square::D5), sq(Square::C6));
    let undo = pos.make_move(m);
    assert_eq!(pos.piece_at(sq(Square::C5)), None, "ep-captured pawn must be gone");
    assert_eq!(pos.piece_at(sq(Square::C6)).unwrap().piece_type, PieceType::Pawn);
    assert_eq!(pos.key(), pos.compute_key());
    pos.undo_move(m, undo);
    assert_eq!(pos.piece_at(sq(Square::C5)).unwrap().color, Color::Black);
    assert_eq!(pos.to_fen(), fen);
}

#[test]
fn make_undo_castling_both_sides() {
    // White king-side (e1 -> h1 encoding), queen-side, and both black sides.
    let fen = "r3k2r/8/8/8/8/8/8/R3K2R w KQkq - 0 1";

    // White O-O: king e1 -> g1, rook h1 -> f1.
    let oo = Move::castling(sq(Square::E1), sq(Square::H1));
    assert_make_undo_restores(fen, oo);
    {
        let mut pos = Position::from_fen(fen).unwrap();
        let u = pos.make_move(oo);
        assert_eq!(pos.piece_at(sq(Square::G1)).unwrap().piece_type, PieceType::King);
        assert_eq!(pos.piece_at(sq(Square::F1)).unwrap().piece_type, PieceType::Rook);
        assert_eq!(pos.piece_at(sq(Square::E1)), None);
        assert_eq!(pos.piece_at(sq(Square::H1)), None);
        assert_eq!(pos.key(), pos.compute_key());
        pos.undo_move(oo, u);
        assert_eq!(pos.to_fen(), fen);
    }

    // White O-O-O: king e1 -> c1, rook a1 -> d1.
    let ooo = Move::castling(sq(Square::E1), sq(Square::A1));
    assert_make_undo_restores(fen, ooo);
    {
        let mut pos = Position::from_fen(fen).unwrap();
        let u = pos.make_move(ooo);
        assert_eq!(pos.piece_at(sq(Square::C1)).unwrap().piece_type, PieceType::King);
        assert_eq!(pos.piece_at(sq(Square::D1)).unwrap().piece_type, PieceType::Rook);
        pos.undo_move(ooo, u);
        assert_eq!(pos.to_fen(), fen);
    }

    // Black O-O and O-O-O (black to move).
    let fen_b = "r3k2r/8/8/8/8/8/8/R3K2R b KQkq - 0 1";
    let boo = Move::castling(sq(Square::E8), sq(Square::H8));
    assert_make_undo_restores(fen_b, boo);
    {
        let mut pos = Position::from_fen(fen_b).unwrap();
        let u = pos.make_move(boo);
        assert_eq!(pos.piece_at(sq(Square::G8)).unwrap().piece_type, PieceType::King);
        assert_eq!(pos.piece_at(sq(Square::F8)).unwrap().piece_type, PieceType::Rook);
        pos.undo_move(boo, u);
        assert_eq!(pos.to_fen(), fen_b);
    }
    let booo = Move::castling(sq(Square::E8), sq(Square::A8));
    assert_make_undo_restores(fen_b, booo);
}

#[test]
fn make_undo_promotion() {
    // White pawn a7 -> a8 promoting to a queen (no capture).
    let fen = "k7/P7/8/8/8/8/8/K7 w - - 0 1";
    let promo = Move::promotion(sq(Square::A7), sq(Square::A8), PieceType::Queen);
    assert_make_undo_restores(fen, promo);
    {
        let mut pos = Position::from_fen(fen).unwrap();
        let u = pos.make_move(promo);
        let p = pos.piece_at(sq(Square::A8)).unwrap();
        assert_eq!(p.piece_type, PieceType::Queen);
        assert_eq!(p.color, Color::White);
        assert_eq!(pos.key(), pos.compute_key());
        pos.undo_move(promo, u);
        assert_eq!(pos.to_fen(), fen);
    }

    // Promotion with capture: pawn b7 takes a rook on a8 and promotes.
    let fen_cap = "r6k/1P6/8/8/8/8/8/K7 w - - 0 1";
    let promo_cap = Move::promotion(sq(Square::B7), sq(Square::A8), PieceType::Knight);
    assert_make_undo_restores(fen_cap, promo_cap);
}

#[test]
fn make_undo_revokes_castling_on_rook_capture() {
    // White rook captures black's a8 rook -> black loses queen-side right.
    let fen = "r3k2r/8/8/8/8/8/8/R3K2R w KQkq - 0 1";
    let mut pos = Position::from_fen(fen).unwrap();
    let m = Move::normal(sq(Square::A1), sq(Square::A8));
    let u = pos.make_move(m);
    // Black queen-side (q) is gone; white queen-side (Q) is gone too (rook left a1).
    assert_eq!(pos.castling_rights() & BLACK_OOO, 0);
    assert_eq!(pos.castling_rights() & WHITE_OOO, 0);
    assert_eq!(pos.key(), pos.compute_key());
    pos.undo_move(m, u);
    assert_eq!(pos.to_fen(), fen);
}

// -- A full move sequence made then unwound ----------------------------

#[test]
fn sequence_make_then_full_unwind() {
    let start = STARTPOS_FEN;
    let mut pos = Position::from_fen(start).unwrap();

    let moves = [
        Move::normal(sq(Square::E2), sq(Square::E4)), // double push, sets ep
        Move::normal(sq(Square::C7), sq(Square::C5)), // double push, sets ep
        Move::normal(sq(Square::G1), sq(Square::F3)), // knight develop
        Move::normal(sq(Square::D7), sq(Square::D6)),
        Move::normal(sq(Square::F1), sq(Square::E2)), // bishop develop
        Move::normal(sq(Square::B8), sq(Square::C6)),
        Move::castling(sq(Square::E1), sq(Square::H1)), // white O-O
    ];

    let mut undos = Vec::new();
    for &m in &moves {
        let u = pos.make_move(m);
        assert_eq!(pos.key(), pos.compute_key(), "key drift after {}", m.to_string());
        undos.push((m, u));
    }

    // Unwind in reverse.
    while let Some((m, u)) = undos.pop() {
        pos.undo_move(m, u);
        assert_eq!(pos.key(), pos.compute_key(), "key drift after undo {}", m.to_string());
    }

    assert_eq!(pos.to_fen(), start, "position not restored after full unwind");
}

#[test]
fn make_undo_null_move_restores_everything() {
    // A null move must round-trip the FEN and the running key exactly, and the
    // incremental key must equal the full recompute right after the pass —
    // including from a position that has a live en-passant target.
    let fens = [
        STARTPOS_FEN,
        KIWIPETE_FEN,
        // Live en-passant target on c6 (Black to answer): the pass must clear
        // it and fold its key out cleanly.
        "rnbqkbnr/pp1ppppp/8/2pP4/8/8/PPP1PPPP/RNBQKBNR w KQkq c6 0 3",
        // Black to move, partial rights, a non-zero halfmove clock.
        "r3k2r/8/8/8/8/8/8/R3K2R b Kq - 5 12",
    ];
    for fen in fens {
        let mut pos = Position::from_fen(fen).unwrap_or_else(|e| panic!("parse {fen}: {e}"));
        let fen_before = pos.to_fen();
        let key_before = pos.key();

        let undo = pos.make_null_move();
        // After passing, the ep square is gone and the key still matches the
        // full recompute.
        assert_eq!(pos.en_passant(), None, "null move must clear ep ({fen})");
        assert_eq!(
            pos.key(),
            pos.compute_key(),
            "incremental key drifted after null move from {fen}"
        );

        pos.undo_null_move(undo);
        assert_eq!(pos.to_fen(), fen_before, "FEN not restored after undo_null_move ({fen})");
        assert_eq!(pos.key(), key_before, "key not restored after undo_null_move ({fen})");
        assert_eq!(pos.key(), pos.compute_key(), "key wrong after undo_null_move ({fen})");
    }
}

#[test]
fn kiwipete_various_make_undo() {
    // Exercise make/undo on a rich middlegame from a variety of move kinds.
    let moves = [
        Move::normal(sq(Square::E5), sq(Square::G6)),   // knight
        Move::normal(sq(Square::D5), sq(Square::E6)),   // pawn capture
        Move::castling(sq(Square::E1), sq(Square::H1)), // O-O
        Move::castling(sq(Square::E1), sq(Square::A1)), // O-O-O
        Move::normal(sq(Square::F3), sq(Square::F6)),   // queen slide (capture)
    ];
    for m in moves {
        assert_make_undo_restores(KIWIPETE_FEN, m);
    }
}

// -- FEN errors ----------------------------------------------------------

fn fen_error(fen: &str) -> String {
    match Position::from_fen(fen) {
        Ok(_) => panic!("{fen} must not parse"),
        Err(e) => e,
    }
}

#[test]
fn fen_errors_name_the_fault() {
    assert_eq!(fen_error(""), "FEN is empty");
    assert_eq!(fen_error("   "), "FEN is empty");
    assert_eq!(
        fen_error("7/8/8/8/8/8/8/8 w - - 0 1"),
        "FEN rank 1 has 7 files, expected 8"
    );
    assert_eq!(
        fen_error("8/8/8/8/8/8/8/8/8 w - - 0 1"),
        "FEN has more than 8 ranks"
    );
    assert_eq!(
        fen_error("9/8/8/8/8/8/8/8 w - - 0 1"),
        "FEN rank overflows past file h: 9/8/8/8/8/8/8/8"
    );
    assert_eq!(
        fen_error("ppppppppp/8/8/8/8/8/8/8 w - - 0 1"),
        "FEN rank overflows past file h: ppppppppp/8/8/8/8/8/8/8"
    );
    assert_eq!(
        fen_error("xxxx w - - 0 1"),
        "FEN has invalid piece char 'x'"
    );
    assert_eq!(
        fen_error("0 w - - 0 1"),
        "FEN has invalid piece char '0'"
    );
    assert_eq!(
        fen_error("8/8/8/8/8/8/8 w - - 0 1"),
        "FEN placement is not a full 8x8 board: 8/8/8/8/8/8/8"
    );
    assert_eq!(
        fen_error("8/8/8/8/8/8/8/8 x - - 0 1"),
        "FEN side to move must be 'w' or 'b', got 'x'"
    );
    assert_eq!(
        fen_error("8/8/8/8/8/8/8/8 w Kx - 0 1"),
        "FEN has invalid castling char 'x'"
    );
    assert_eq!(
        fen_error("8/8/8/8/8/8/8/8 w - e9 0 1"),
        "FEN en-passant square is malformed: 'e9'"
    );
    assert_eq!(
        fen_error("8/8/8/8/8/8/8/8 w - e33 0 1"),
        "FEN en-passant square is malformed: 'e33'"
    );
    assert_eq!(
        fen_error("8/8/8/8/8/8/8/8 w - - x 1"),
        "FEN halfmove clock is not a number: 'x'"
    );
    assert_eq!(
        fen_error("8/8/8/8/8/8/8/8 w - - 65536 1"),
        "FEN halfmove clock is not a number: '65536'"
    );
    assert_eq!(
        fen_error("8/8/8/8/8/8/8/8 w - - 0 -1"),
        "FEN fullmove number is not a number: '-1'"
    );
}

#[test]
fn fen_fields_are_read_leniently() {
    // Any white space separates, missing fields have defaults, a plus sign and
    // leading zeros are fine, and move number 0 counts as 1.
    let pos = Position::from_fen("\t8/8/8/8/8/8/8/8").unwrap();
    assert_eq!(pos.to_fen(), "8/8/8/8/8/8/8/8 w - - 0 1");
    let pos = Position::from_fen("8/8/8/8/8/8/8/8\u{2003}B  qK a3 +007 0 extra").unwrap();
    assert_eq!(pos.to_fen(), "8/8/8/8/8/8/8/8 b Kq a3 7 1");
    let pos = Position::from_fen("8/8/8/8/8/8/8/8 W - - 65535 65535").unwrap();
    assert_eq!(pos.halfmove_clock(), 65535);
    assert_eq!(pos.fullmove_number(), 65535);
    let pos = Position::from_fen("11111111/44/8/8/8/8/8/8 w - - 0 1").unwrap();
    assert_eq!(pos.to_fen(), "8/8/8/8/8/8/8/8 w - - 0 1");
}

#[test]
fn diagram_and_fen_are_printed() {
    let expected = "  +-----------------+\n\
                    8 | r n b q k b n r |\n\
                    7 | p p p p p p p p |\n\
                    6 | . . . . . . . . |\n\
                    5 | . . . . . . . . |\n\
                    4 | . . . . . . . . |\n\
                    3 | . . . . . . . . |\n\
                    2 | P P P P P P P P |\n\
                    1 | R N B Q K B N R |\n\
                    \x20 +-----------------+\n\
                    \x20   a b c d e f g h\n\
                    FEN: rnbqkbnr/pppppppp/8/8/8/8/PPPPPPPP/RNBQKBNR w KQkq - 0 1";
    assert_eq!(Position::startpos().to_string(), expected);
}

#[test]
fn occupancy_views_agree() {
    let pos = Position::from_fen(KIWIPETE_FEN).unwrap();
    assert_eq!(pos.occupied(), pos.pieces(Color::White) | pos.pieces(Color::Black));
    let mut by_type = shark::bitboard::Bitboard::empty();
    for i in 0..6 {
        let pt = PieceType::from_index(i).unwrap();
        by_type |= pos.pieces_type(pt);
        assert_eq!(
            pos.pieces_cp(Color::White, pt),
            pos.pieces(Color::White) & pos.pieces_type(pt)
        );
    }
    assert_eq!(by_type, pos.occupied());
    for i in 0..64u8 {
        assert_eq!(pos.piece_at(sq(i)).is_some(), pos.occupied().contains(sq(i)));
    }
    assert_eq!(pos.king_square(Color::Black), sq(Square::E8));
}

#[test]
fn different_positions_have_different_keys() {
    let fens = [
        STARTPOS_FEN,
        "rnbqkbnr/pppppppp/8/8/8/8/PPPPPPPP/RNBQKBNR b KQkq - 0 1",
        "rnbqkbnr/pppppppp/8/8/8/8/PPPPPPPP/RNBQKBNR w KQk - 0 1",
        "rnbqkbnr/pppppppp/8/8/8/8/PPPPPPPP/RNBQKBNR w KQkq a3 0 1",
        "rnbqkbnr/pppppppp/8/8/8/8/PPPPPPPP/RNBQKBN1 w KQkq - 0 1",
    ];
    for i in 0..fens.len() {
        for j in 0..i {
            let a = Position::from_fen(fens[i]).unwrap();
            let b = Position::from_fen(fens[j]).unwrap();
            assert_ne!(a.key(), b.key());
        }
    }
}

#[test]
fn clocks_count_and_reset() {
    let mut pos = Position::from_fen("4k3/8/8/8/8/8/4P3/R3K3 b - - 5 9").unwrap();
    pos.make_move(Move::normal(sq(Square::E8), sq(Square::D8)));
    assert_eq!(pos.halfmove_clock(), 6);
    assert_eq!(pos.fullmove_number(), 10);
    pos.make_move(Move::normal(sq(Square::E2), sq(Square::E3)));
    assert_eq!(pos.halfmove_clock(), 0);
    assert_eq!(pos.fullmove_number(), 10);
}
