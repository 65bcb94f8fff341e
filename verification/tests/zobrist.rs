use shark::types::{Color, Piece, PieceType, Square};
use shark::zobrist::{castle, ep, piece, side, CASTLE_KEYS, EP_KEYS};

#[test]
fn keys_are_all_different() {
    let mut keys: Vec<u64> = Vec::new();
    for color in [Color::White, Color::Black] {
        for i in 0..6 {
            let p = Piece::new(color, PieceType::from_index(i).unwrap());
            for s in 0..64u8 {
                keys.push(piece(p, Square(s)));
            }
        }
    }
    for rights in 0..CASTLE_KEYS {
        keys.push(castle(rights as u8));
    }
    for file in 0..EP_KEYS {
        keys.push(ep(file as u8));
    }
    keys.push(side());
    assert_eq!(keys.len(), 793);
    keys.sort();
    keys.dedup();
    assert_eq!(keys.len(), 793);
}

#[test]
fn keys_are_fixed() {
    let pawn = Piece::new(Color::White, PieceType::Pawn);
    assert_eq!(piece(pawn, Square(Square::A1)), 0xe220_a839_7b1d_cdaf);
    assert_eq!(side(), 0x297d_5f17_0268_5620);
}
