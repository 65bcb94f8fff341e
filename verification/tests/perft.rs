use shark::perft::{format_divide, perft, perft_divide};
use shark::position::Position;
use shark::types::{Move, Square};

fn sq(index: u8) -> Square {
    Square(index)
}

const STARTPOS: &str = "rnbqkbnr/pppppppp/8/8/8/8/PPPPPPPP/RNBQKBNR w KQkq - 0 1";
const KIWIPETE: &str = "r3k2r/p1ppqpb1/bn2pnp1/3PN3/1p2P3/2N2Q1p/PPPBBPPP/R3K2R w KQkq - 0 1";
const POS3: &str = "8/2p5/3p4/KP5r/1R3p1k/8/4P1P1/8 w - - 0 1";
const POS4: &str = "r3k2r/Pppp1ppp/1b3nbN/nP6/BBP1P3/q4N2/Pp1P2PP/R2Q1RK1 w kq - 0 1";
const POS5: &str = "rnbq1k1r/pp1Pbppp/2p5/8/2B5/8/PPP1NnPP/RNBQK2R w KQ - 0 1";
const POS6: &str = "r4rk1/1pp1qppp/p1np1n2/2b1p1B1/2B1P1b1/P1NP1N2/1PP1QPPP/R4RK1 w - - 0 1";

fn perft_fen(fen: &str, depth: u32) -> u64 {
    let mut pos = Position::from_fen(fen).unwrap_or_else(|e| panic!("parse {fen}: {e}"));
    perft(&mut pos, depth)
}

// -- FAST tests: run under `cargo test` in debug, each well under a few sec.

#[test]
fn perft_startpos_fast() {
    assert_eq!(perft_fen(STARTPOS, 1), 20);
    assert_eq!(perft_fen(STARTPOS, 2), 400);
    assert_eq!(perft_fen(STARTPOS, 3), 8902);
    assert_eq!(perft_fen(STARTPOS, 4), 197281);
}

#[test]
fn perft_kiwipete_fast() {
    assert_eq!(perft_fen(KIWIPETE, 1), 48);
    assert_eq!(perft_fen(KIWIPETE, 2), 2039);
    assert_eq!(perft_fen(KIWIPETE, 3), 97862);
}

#[test]
fn perft_pos3_fast() {
    assert_eq!(perft_fen(POS3, 1), 14);
    assert_eq!(perft_fen(POS3, 2), 191);
    assert_eq!(perft_fen(POS3, 3), 2812);
    assert_eq!(perft_fen(POS3, 4), 43238);
}

#[test]
fn perft_pos4_fast() {
    assert_eq!(perft_fen(POS4, 1), 6);
    assert_eq!(perft_fen(POS4, 2), 264);
    assert_eq!(perft_fen(POS4, 3), 9467);
}

#[test]
fn perft_pos5_fast() {
    assert_eq!(perft_fen(POS5, 1), 44);
    assert_eq!(perft_fen(POS5, 2), 1486);
    assert_eq!(perft_fen(POS5, 3), 62379);
}

#[test]
fn perft_pos6_fast() {
    assert_eq!(perft_fen(POS6, 1), 46);
    assert_eq!(perft_fen(POS6, 2), 2079);
    assert_eq!(perft_fen(POS6, 3), 89890);
}

// -- perft_divide restores the position and totals correctly. -----------

#[test]
fn divide_totals_match_perft() {
    let mut pos = Position::from_fen(KIWIPETE).unwrap();
    let fen_before = pos.to_fen();
    let divide = perft_divide(&mut pos, 3);
    assert_eq!(pos.to_fen(), fen_before, "divide must restore the position");
    let total: u64 = divide.iter().map(|(_, c)| c).sum();
    assert_eq!(total, 97862);
    assert_eq!(divide.len(), 48); // one entry per root move
}

#[test]
fn perft_depth_zero_is_one() {
    assert_eq!(perft_fen(STARTPOS, 0), 1);
}

#[test]
fn divide_at_depth_one_counts_one_each() {
    let mut pos = Position::startpos();
    for depth in [0, 1] {
        let divide = perft_divide(&mut pos, depth);
        assert_eq!(divide.len(), 20);
        assert!(divide.iter().all(|&(_, count)| count == 1));
    }
}

#[test]
fn divide_is_formatted_line_by_line() {
    let divide = [
        (Move::normal(sq(Square::E2), sq(Square::E4)), 20),
        (Move::normal(sq(Square::G1), sq(Square::F3)), 7),
    ];
    assert_eq!(
        format_divide(&divide),
        "e2e4: 20\ng1f3: 7\n\nNodes searched: 27\n"
    );
    assert_eq!(format_divide(&[]), "\nNodes searched: 0\n");
}

#[test]
fn clocks_near_their_limit_still_count() {
    let kings = "k7/8/8/8/8/8/8/K7";
    let plain = perft_fen(&format!("{kings} w - - 0 1"), 3);
    // One move of Black's is made below a root where White moves.
    assert_eq!(perft_fen(&format!("{kings} w - - 0 65534"), 3), plain);
    // Two plies are made and counted by the halfmove clock.
    assert_eq!(perft_fen(&format!("{kings} w - - 65533 1"), 3), plain);
    assert_eq!(perft_fen(&format!("{kings} w - - 65535 65535"), 1), 3);
}
