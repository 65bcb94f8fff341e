use shark::attacks::{bishop_dirs, rook_dirs, slow_sliding_attacks};
use shark::bitboard::Bitboard;
use shark::magic::{build_slider_table, occupancy_for_index, slider_mask, XorShift64};
use shark::types::Square;

fn sq(index: u8) -> Square {
    Square(index)
}

#[test]
fn masks_leave_the_edges_out() {
    assert_eq!(slider_mask(sq(Square::A1), &rook_dirs()).count(), 12);
    assert_eq!(slider_mask(sq(Square::D4), &rook_dirs()).count(), 10);
    assert_eq!(slider_mask(sq(Square::D4), &bishop_dirs()).count(), 9);
    let corner = slider_mask(sq(Square::A1), &bishop_dirs());
    assert!(corner.contains(sq(Square::B2)) && corner.contains(sq(Square::G7)));
    assert!(!corner.contains(sq(Square::H8)));
}

#[test]
fn subsets_are_numbered_by_their_bits() {
    // The mask holds b1, d3 and h8, in this order.
    let mut mask = Bitboard::from_square(sq(Square::B1));
    mask.set(sq(Square::D3));
    mask.set(sq(Square::H8));
    assert_eq!(occupancy_for_index(0, mask), Bitboard::empty());
    assert_eq!(occupancy_for_index(2, mask), Bitboard::from_square(sq(Square::D3)));
    let outer = occupancy_for_index(5, mask);
    assert!(outer.contains(sq(Square::B1)) && outer.contains(sq(Square::H8)));
    assert_eq!(outer.count(), 2);
    assert_eq!(occupancy_for_index(7, mask), mask);
}

#[test]
fn the_generator_is_reproducible() {
    let mut rng = XorShift64(1);
    assert_eq!(rng.next(), 0x4082_2041);
    let mut one = XorShift64(99);
    let mut two = XorShift64(99);
    let drawn = two.next() & two.next() & two.next();
    assert_eq!(one.sparse(), drawn);
    assert_eq!(one.0, two.0);
}

#[test]
fn a_table_depends_only_on_its_mask() {
    let table = build_slider_table(&bishop_dirs());
    let mut occupied = Bitboard::from_square(sq(Square::F6));
    let reach = slow_sliding_attacks(sq(Square::D4), occupied, &bishop_dirs());
    assert_eq!(table.attacks(sq(Square::D4), occupied), reach);
    // Squares off the diagonals, and the edges, change nothing.
    occupied.set(sq(Square::D5));
    occupied.set(sq(Square::A1));
    assert_eq!(table.attacks(sq(Square::D4), occupied), reach);
    occupied.set(sq(Square::E5));
    assert_ne!(table.attacks(sq(Square::D4), occupied), reach);
}

#[test]
fn multipliers_are_reproducible() {
    let bishop = build_slider_table(&bishop_dirs());
    assert_eq!(bishop.multiplier(sq(Square::A1)), Some(0x0040_0204_2c10_2041));
    assert_eq!(bishop.multiplier(sq(Square::B1)), Some(0x0002_1042_0081_0109));
    assert_eq!(bishop.multiplier(sq(Square::C1)), Some(0x0141_4122_0182_4004));
    let rook = build_slider_table(&rook_dirs());
    assert_eq!(rook.multiplier(sq(Square::A1)), Some(0x7080_0080_2010_4008));
    assert_eq!(rook.multiplier(sq(Square::B1)), Some(0x2040_0040_2000_1009));
}

#[test]
fn every_square_gets_a_multiplier() {
    for dirs in [rook_dirs(), bishop_dirs()] {
        let table = build_slider_table(&dirs);
        for s in 0..64u8 {
            let n = slider_mask(sq(s), &dirs).count();
            assert!(1 <= n && n <= 16);
            assert!(table.multiplier(sq(s)).is_some());
        }
    }
    // Without rays there is nothing to look up.
    assert_eq!(build_slider_table(&[]).multiplier(sq(Square::D4)), None);
}
