use shark::tt::{Bound, TranspositionTable};
use shark::types::{Move, Square};

fn sq(index: u8) -> Square {
    Square(index)
}

#[test]
fn new_gives_power_of_two_count() {
    for &mb in &[1usize, 16] {
        let tt = TranspositionTable::new(mb);
        let len = tt.len();
        assert!(len > 0, "expected non-empty table for {mb} MB");
        assert!(
            len.is_power_of_two(),
            "expected power-of-two entry count for {mb} MB, got {len}"
        );
    }
}

#[test]
fn store_then_probe_roundtrips() {
    let mut tt = TranspositionTable::new(1);
    let key = 0xDEAD_BEEF_1234_5678;
    let mv = Move::normal(sq(Square::E2), sq(Square::E4));
    tt.store(key, mv, 42, 7, Bound::Exact);

    let entry = tt.probe(key).expect("stored entry should be found");
    assert_eq!(entry.key, key);
    assert_eq!(entry.score, 42);
    assert_eq!(entry.depth, 7);
    assert_eq!(entry.best_move, mv);
    assert_eq!(entry.bound, Bound::Exact);
}

#[test]
fn probe_rejects_colliding_key() {
    let mut tt = TranspositionTable::new(1);
    let len = tt.len() as u64;
    // Two keys with identical low bits (same slot) but different high bits.
    let key_a = 0x0000_0000_0000_0000 | 5;
    let key_b = (len * 3) | 5; // same low bits `& (len-1)`, different high bits
    assert_eq!(
        (key_a & (len - 1)),
        (key_b & (len - 1)),
        "test keys must map to the same slot"
    );
    assert_ne!(key_a, key_b);

    tt.store(key_a, Move::none(), 10, 4, Bound::Exact);
    // The slot is filled with key_a; probing key_b must not return it.
    assert!(tt.probe(key_b).is_none());
    assert!(tt.probe(key_a).is_some());
}

#[test]
fn depth_preferred_replacement() {
    let mut tt = TranspositionTable::new(1);
    let len = tt.len() as u64;
    let key_a = 5u64;
    let key_b = (len * 7) | 5; // same slot, different key
    assert_eq!(key_a & (len - 1), key_b & (len - 1));
    assert_ne!(key_a, key_b);

    // Store a deep entry for key_a.
    let deep_move = Move::normal(sq(Square::D2), sq(Square::D4));
    tt.store(key_a, deep_move, 100, 5, Bound::Lower);

    // A shallower entry for a *different* key at the same slot must NOT
    // clobber the depth-5 entry.
    tt.store(key_b, Move::normal(sq(Square::G1), sq(Square::F3)), 20, 3, Bound::Upper);
    let entry = tt.probe(key_a).expect("depth-5 entry should survive");
    assert_eq!(entry.depth, 5);
    assert_eq!(entry.score, 100);
    assert_eq!(entry.best_move, deep_move);
    // key_b was rejected, so probing it finds nothing.
    assert!(tt.probe(key_b).is_none());

    // A deeper entry (depth 6) for a different key at the same slot DOES
    // replace it (new depth >= stored depth).
    let deeper_move = Move::normal(sq(Square::B1), sq(Square::C3));
    tt.store(key_b, deeper_move, 55, 6, Bound::Exact);
    assert!(tt.probe(key_a).is_none(), "deeper store should evict key_a");
    let entry = tt.probe(key_b).expect("depth-6 entry should be present");
    assert_eq!(entry.depth, 6);
    assert_eq!(entry.score, 55);
    assert_eq!(entry.best_move, deeper_move);
}

#[test]
fn clear_empties_table() {
    let mut tt = TranspositionTable::new(1);
    let key = 0xABCD_1234_5678_9ABC;
    tt.store(key, Move::none(), 1, 1, Bound::Exact);
    assert!(tt.probe(key).is_some());
    tt.clear();
    assert!(tt.probe(key).is_none());
    assert_eq!(tt.hashfull_permill(), 0);
}

#[test]
fn hashfull_reports_occupancy() {
    let mut tt = TranspositionTable::new(1);
    assert_eq!(tt.hashfull_permill(), 0);
    // Fill a handful of distinct slots.
    for i in 0..500u64 {
        tt.store(i, Move::none(), 0, 1, Bound::Exact);
    }
    assert!(tt.hashfull_permill() > 0);
}

#[test]
fn zero_megabytes_still_have_one_slot() {
    let mut tt = TranspositionTable::new(0);
    assert_eq!(tt.len(), 1);
    assert!(!tt.is_empty());
    tt.store(77, Move::none(), 3, 2, Bound::Lower);
    assert_eq!(tt.probe(77).unwrap().score, 3);
    assert!(tt.probe(78).is_none());
    assert_eq!(tt.hashfull_permill(), 1000);
}

#[test]
fn the_table_fills_its_budget() {
    let tt = TranspositionTable::new(1);
    let slot = std::mem::size_of::<Option<shark::tt::TtEntry>>();
    assert!(tt.len() * slot <= 1024 * 1024);
    assert!(tt.len() * 2 * slot > 1024 * 1024);
}

#[test]
fn equal_depth_refreshes() {
    let mut tt = TranspositionTable::new(1);
    tt.store(9, Move::none(), 1, 4, Bound::Exact);
    tt.store(9, Move::none(), 2, 4, Bound::Upper);
    assert_eq!(tt.probe(9).unwrap().score, 2);
    tt.store(9, Move::none(), 3, 3, Bound::Upper);
    assert_eq!(tt.probe(9).unwrap().score, 2);
}

#[test]
fn hashfull_counts_the_first_thousand_slots() {
    let mut tt = TranspositionTable::new(1);
    for i in 0..500u64 {
        tt.store(i, Move::none(), 0, 1, Bound::Exact);
    }
    tt.store(5000, Move::none(), 0, 1, Bound::Exact);
    assert_eq!(tt.hashfull_permill(), 500);
}
