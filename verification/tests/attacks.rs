use shark::attacks::{
    bishop_attacks, bishop_dirs, init, king_attacks, knight_attacks, pawn_attacks, queen_attacks,
    rook_attacks, rook_dirs, slow_sliding_attacks,
};
use shark::bitboard::Bitboard;
use shark::types::{Color, Square};

fn sq(index: u8) -> Square {
    Square(index)
}

#[test]
fn knight_counts() {
    assert_eq!(knight_attacks(sq(Square::D4)).count(), 8);
    assert_eq!(knight_attacks(sq(Square::A1)).count(), 2);
    assert_eq!(knight_attacks(sq(Square::H8)).count(), 2);
}

#[test]
fn knight_targets_from_corner() {
    // a1 knight -> b3 and c2 only.
    let a1 = knight_attacks(sq(Square::A1));
    assert!(a1.contains(sq(Square::B3)));
    assert!(a1.contains(sq(Square::C2)));
    assert_eq!(a1.count(), 2);
}

#[test]
fn king_counts() {
    assert_eq!(king_attacks(sq(Square::A1)).count(), 3);
    assert_eq!(king_attacks(sq(Square::E4)).count(), 8);
}

#[test]
fn king_targets_from_corner() {
    let a1 = king_attacks(sq(Square::A1));
    assert!(a1.contains(sq(Square::A2)));
    assert!(a1.contains(sq(Square::B1)));
    assert!(a1.contains(sq(Square::B2)));
    assert_eq!(a1.count(), 3);
}

#[test]
fn pawn_attacks_white_center() {
    // A white pawn on e4 attacks d5 and f5.
    let e4 = pawn_attacks(Color::White, sq(Square::E4));
    assert!(e4.contains(sq(Square::D5)));
    assert!(e4.contains(sq(Square::F5)));
    assert_eq!(e4.count(), 2);
}

#[test]
fn pawn_attacks_edges() {
    // White a2 pawn: only b3 (no wrap to the h-file).
    let a2 = pawn_attacks(Color::White, sq(Square::A2));
    assert!(a2.contains(sq(Square::B3)));
    assert_eq!(a2.count(), 1);

    // Black h7 pawn: only g6.
    let h7 = pawn_attacks(Color::Black, sq(Square::H7));
    assert!(h7.contains(sq(Square::G6)));
    assert_eq!(h7.count(), 1);
}

#[test]
fn empty_board_rook() {
    assert_eq!(rook_attacks(sq(Square::A1), Bitboard::empty()).count(), 14);
    // A rook always sees 14 squares on an empty board, from any square.
    assert_eq!(rook_attacks(sq(Square::E4), Bitboard::empty()).count(), 14);
    assert_eq!(rook_attacks(sq(Square::H8), Bitboard::empty()).count(), 14);
}

#[test]
fn empty_board_bishop() {
    assert_eq!(bishop_attacks(sq(Square::A1), Bitboard::empty()).count(), 7);
    assert_eq!(bishop_attacks(sq(Square::D4), Bitboard::empty()).count(), 13);
    assert_eq!(bishop_attacks(sq(Square::H1), Bitboard::empty()).count(), 7);
}

#[test]
fn empty_board_queen() {
    // Queen = rook + bishop; on d4 that's 14 + 13 = 27 squares.
    assert_eq!(queen_attacks(sq(Square::D4), Bitboard::empty()).count(), 27);
}

#[test]
fn rook_blocker_up_the_file() {
    // Rook on a1 with a blocker on a4: it sees a2, a3, a4 up the file
    // (a4 is the capturable blocker) but not a5 and beyond.
    let occ = Bitboard::from_square(sq(Square::A4));
    let att = rook_attacks(sq(Square::A1), occ);
    assert!(att.contains(sq(Square::A2)));
    assert!(att.contains(sq(Square::A3)));
    assert!(att.contains(sq(Square::A4)));
    assert!(!att.contains(sq(Square::A5)));
    assert!(!att.contains(sq(Square::A6)));
}

#[test]
fn bishop_blocker_on_diagonal() {
    // Bishop on c1 with a blocker on e3: sees d2, e3, not f4+.
    let occ = Bitboard::from_square(sq(Square::E3));
    let att = bishop_attacks(sq(Square::C1), occ);
    assert!(att.contains(sq(Square::D2)));
    assert!(att.contains(sq(Square::E3)));
    assert!(!att.contains(sq(Square::F4)));
}

/// A cheap deterministic PRNG for generating occupancy subsets in the
/// exhaustive magic-vs-reference cross-check.
struct Rng(u64);
impl Rng {
    fn next(&mut self) -> u64 {
        let mut x = self.0;
        x ^= x << 13;
        x ^= x >> 7;
        x ^= x << 17;
        self.0 = x;
        x
    }
}

#[test]
fn magic_matches_reference_everywhere() {
    let mut rng = Rng(0xdead_beef_cafe_babe);
    let tables = init();
    for s in 0..Square::NUM {
        let from = Square(s as u8);

        // Always include the two easy extremes.
        for &occ in &[Bitboard::empty(), Bitboard::full()] {
            assert_eq!(
                tables.rook_attacks(from, occ),
                rook_attacks(from, occ)
            );
            assert_eq!(
                tables.bishop_attacks(from, occ),
                bishop_attacks(from, occ)
            );
            assert_eq!(
                rook_attacks(from, occ),
                slow_sliding_attacks(from, occ, &rook_dirs()),
                "rook mismatch with occ {occ:?}"
            );
            assert_eq!(
                bishop_attacks(from, occ),
                slow_sliding_attacks(from, occ, &bishop_dirs()),
                "bishop mismatch with occ {occ:?}"
            );
        }

        // Plus many pseudo-random occupancy subsets.
        for _ in 0..1000 {
            // AND three draws for a realistic sparse-ish occupancy.
            let occ = Bitboard(rng.next() & rng.next() & rng.next());
            assert_eq!(
                tables.rook_attacks(from, occ),
                rook_attacks(from, occ)
            );
            assert_eq!(
                tables.bishop_attacks(from, occ),
                bishop_attacks(from, occ)
            );
            assert_eq!(
                rook_attacks(from, occ),
                slow_sliding_attacks(from, occ, &rook_dirs()),
                "rook mismatch with occ {occ:?}"
            );
            assert_eq!(
                bishop_attacks(from, occ),
                slow_sliding_attacks(from, occ, &bishop_dirs()),
                "bishop mismatch with occ {occ:?}"
            );
        }
    }
}

#[test]
fn queen_is_rook_plus_bishop() {
    let occ = Bitboard::from_square(sq(Square::D2)) | Bitboard::from_square(sq(Square::F6));
    for s in 0..Square::NUM {
        let from = Square(s as u8);
        assert_eq!(
            queen_attacks(from, occ),
            rook_attacks(from, occ) | bishop_attacks(from, occ)
        );
    }
}

#[test]
fn tables_agree_with_direct_attacks() {
    let tables = init();
    let occ = Bitboard(0x0081_2400_1824_00ff);
    for s in 0..64u8 {
        let from = Square(s);
        assert_eq!(tables.knight_attacks(from), knight_attacks(from));
        assert_eq!(tables.king_attacks(from), king_attacks(from));
        for color in [Color::White, Color::Black] {
            assert_eq!(tables.pawn_attacks(color, from), pawn_attacks(color, from));
        }
        assert_eq!(tables.queen_attacks(from, occ), queen_attacks(from, occ));
    }
}

#[test]
fn rook_attack_set_is_exact() {
    // Rook on d4, blockers on d6 and b4: the exact attack set.
    let occ = Bitboard::from_square(sq(Square::D6)) | Bitboard::from_square(sq(Square::B4));
    let mut expected = Bitboard::empty();
    for t in [
        Square::D5,
        Square::D6,
        Square::D3,
        Square::D2,
        Square::D1,
        Square::C4,
        Square::B4,
        Square::E4,
        Square::F4,
        Square::G4,
        Square::H4,
    ] {
        expected.set(sq(t));
    }
    assert_eq!(rook_attacks(sq(Square::D4), occ), expected);
}

#[test]
fn pawns_on_the_last_rank_attack_nothing() {
    assert!(pawn_attacks(Color::White, sq(Square::E8)).is_empty());
    assert!(pawn_attacks(Color::Black, sq(Square::E1)).is_empty());
}

#[test]
fn attacks_are_mutual() {
    let mut occupied = Bitboard::empty();
    for s in [Square::B2, Square::D5, Square::E4, Square::F7, Square::H3] {
        occupied.set(sq(s));
    }
    for a in 0..64u8 {
        for b in 0..64u8 {
            let (s, t) = (sq(a), sq(b));
            assert_eq!(knight_attacks(s).contains(t), knight_attacks(t).contains(s));
            assert_eq!(king_attacks(s).contains(t), king_attacks(t).contains(s));
            assert_eq!(
                queen_attacks(s, occupied).contains(t),
                queen_attacks(t, occupied).contains(s)
            );
            assert_eq!(
                pawn_attacks(Color::White, s).contains(t),
                pawn_attacks(Color::Black, t).contains(s)
            );
        }
    }
}
