use shark::movegen::{generate_legal, generate_pseudo_legal, MoveList};
use shark::position::Position;
use shark::types::{Color, Move, PieceType, Square};

fn sq(index: u8) -> Square {
    Square(index)
}

#[test]
fn startpos_has_twenty_moves() {
    let mut pos = Position::startpos();
    let moves = generate_legal(&mut pos);
    assert_eq!(moves.len(), 20);
    // 16 pawn moves + 4 knight moves.
}

#[test]
fn movelist_basics() {
    let mut list = MoveList::new();
    assert!(list.is_empty());
    let m = Move::normal(sq(Square::E2), sq(Square::E4));
    list.push(m);
    assert_eq!(list.len(), 1);
    assert!(!list.is_empty());
    assert_eq!(list[0], m);
    assert_eq!(list.as_slice(), &[m]);
    let collected: Vec<Move> = list.as_slice().to_vec();
    assert_eq!(collected, vec![m]);
}

#[test]
fn generation_leaves_position_unchanged() {
    let mut pos = Position::startpos();
    let fen_before = pos.to_fen();
    let key_before = pos.key();
    let _ = generate_legal(&mut pos);
    assert_eq!(pos.to_fen(), fen_before);
    assert_eq!(pos.key(), key_before);
}

#[test]
fn king_cannot_move_into_check() {
    // White king on e1, black rook on e8 pins the e-file; Ke1 may not step to
    // e2 (still attacked) nor stay attacked... it can go to d1/f1/d2/f2 etc.
    let mut pos = Position::from_fen("4r3/8/8/8/8/8/8/4K3 w - - 0 1").unwrap();
    let moves = generate_legal(&mut pos);
    // King must not move onto the e-file (e2), and must not be a no-op.
    assert!(!moves.contains(Move::normal(sq(Square::E1), sq(Square::E2))));
    assert!(moves.contains(Move::normal(sq(Square::E1), sq(Square::D1))));
    assert!(moves.contains(Move::normal(sq(Square::E1), sq(Square::F1))));
}

fn legal_moves(fen: &str) -> Vec<String> {
    let mut pos = Position::from_fen(fen).unwrap();
    let moves = generate_legal(&mut pos);
    let mut names: Vec<String> = moves.as_slice().iter().map(|m| m.to_string()).collect();
    names.sort();
    names
}

#[test]
fn generation_order_is_fixed() {
    let mut pos = Position::startpos();
    let moves = generate_legal(&mut pos);
    assert_eq!(moves[0].to_string(), "a2a3");
    assert_eq!(moves[1].to_string(), "a2a4");
    assert_eq!(moves[16].to_string(), "b1a3");
    assert_eq!(moves[19].to_string(), "g1h3");
}

#[test]
fn legal_means_own_king_not_attacked() {
    // Every pseudo-legal move is legal exactly if it does not leave the own king
    // attacked.
    let fens = [
        "r3k2r/p1ppqpb1/bn2pnp1/3PN3/1p2P3/2N2Q1p/PPPBBPPP/R3K2R w KQkq - 0 1",
        "8/2p5/3p4/KP5r/1R3p1k/8/4P1P1/8 w - - 0 1",
        "8/8/8/K2pP2r/8/8/8/7k w - d6 0 1",
        "4k3/8/8/8/1b5q/8/3N1P2/4K3 w - - 0 1",
        "4k3/8/8/8/8/3n4/8/r3K3 w - - 0 1",
        "r3k2r/Pppp1ppp/1b3nbN/nP6/BBP1P3/q4N2/Pp1P2PP/R2Q1RK1 w kq - 0 1",
    ];
    for fen in fens {
        let mut pos = Position::from_fen(fen).unwrap();
        let us = pos.side_to_move();
        let legal = generate_legal(&mut pos);
        let pseudo = generate_pseudo_legal(&pos);
        for &m in pseudo.as_slice() {
            let undo = pos.make_move(m);
            let safe = !pos.is_attacked(pos.king_square(us), us.flip());
            pos.undo_move(m, undo);
            assert_eq!(legal.contains(m), safe, "{} in {fen}", m.to_string());
        }
    }
}

#[test]
fn no_move_is_generated_twice() {
    let pos = Position::from_fen(
        "r3k2r/p1ppqpb1/bn2pnp1/3PN3/1p2P3/2N2Q1p/PPPBBPPP/R3K2R w KQkq - 0 1",
    )
    .unwrap();
    let moves = generate_pseudo_legal(&pos);
    for i in 0..moves.len() {
        for j in 0..i {
            assert_ne!(moves[i], moves[j]);
        }
    }
}

#[test]
fn en_passant_that_exposes_the_king_is_illegal() {
    // Both pawns leave the fifth rank, and the rook attacks the king.
    let names = legal_moves("8/8/8/K2pP2r/8/8/8/7k w - d6 0 1");
    assert!(!names.contains(&"e5d6".to_string()));
    // Without the rook it is legal.
    let names = legal_moves("8/8/8/K2pP3/8/8/8/7k w - d6 0 1");
    assert!(names.contains(&"e5d6".to_string()));
}

#[test]
fn en_passant_may_capture_the_checker() {
    // The black pawn on d5 has just double-pushed and attacks the king on e4.
    let names = legal_moves("4k3/8/8/3pP3/4K3/8/8/8 w - d6 0 1");
    assert!(names.contains(&"e5d6".to_string()));
}

#[test]
fn double_check_leaves_only_king_moves() {
    // Rook on e8 and knight on f3 both attack the king on e1.
    let names = legal_moves("4r2k/8/8/8/8/5n2/8/R3K2Q w - - 0 1");
    assert_eq!(names, vec!["e1d1", "e1f1", "e1f2"]);
}

#[test]
fn a_pinned_piece_keeps_to_its_line() {
    // The rook on e2 is pinned by the rook on e8.
    let names = legal_moves("4r2k/8/8/8/8/8/4R3/4K3 w - - 0 1");
    assert!(names.contains(&"e2e8".to_string()));
    assert!(names.contains(&"e2e3".to_string()));
    assert!(!names.contains(&"e2d2".to_string()));
}

#[test]
fn castling_conditions() {
    let both = legal_moves("r3k2r/8/8/8/8/8/8/R3K2R w KQkq - 0 1");
    assert!(both.contains(&"e1g1".to_string()) && both.contains(&"e1c1".to_string()));
    // The f-square is attacked.
    let names = legal_moves("4kr2/8/8/8/8/8/8/R3K2R w KQ - 0 1");
    assert!(!names.contains(&"e1g1".to_string()) && names.contains(&"e1c1".to_string()));
    // The b-square may be attacked, but not occupied.
    let names = legal_moves("1r2k3/8/8/8/8/8/8/R3K2R w KQ - 0 1");
    assert!(names.contains(&"e1c1".to_string()));
    let names = legal_moves("4k3/8/8/8/8/8/8/RN2K2R w KQ - 0 1");
    assert!(!names.contains(&"e1c1".to_string()));
    // In check there is none.
    let names = legal_moves("4k3/8/8/8/8/8/4r3/R3K2R w KQ - 0 1");
    assert!(!names.contains(&"e1g1".to_string()) && !names.contains(&"e1c1".to_string()));
}

#[test]
fn promotions_come_in_four() {
    let mut pos = Position::from_fen("1n5k/P7/8/8/8/8/8/K7 w - - 0 1").unwrap();
    let moves = generate_legal(&mut pos);
    let names: Vec<String> = moves.as_slice().iter().map(|m| m.to_string()).collect();
    assert_eq!(
        names[..8],
        ["a7a8q", "a7a8r", "a7a8b", "a7a8n", "a7b8q", "a7b8r", "a7b8b", "a7b8n"]
    );
}

#[test]
fn default_list_is_empty() {
    let list = MoveList::default();
    assert_eq!(list.len(), 0);
    assert!(!list.contains(Move::none()));
}

#[test]
fn legal_play_keeps_the_kings_and_loses_rights() {
    let mut pos = Position::from_fen(
        "r3k2r/p1ppqpb1/bn2pnp1/3PN3/1p2P3/2N2Q1p/PPPBBPPP/R3K2R w KQkq - 0 1",
    )
    .unwrap();
    for ply in 0..120usize {
        let moves = generate_legal(&mut pos);
        if moves.is_empty() {
            break;
        }
        let m = moves.get(ply * 7 % moves.len());
        let mover = pos.side_to_move();
        let rights = pos.castling_rights();
        let _ = pos.make_move(m);
        for c in [Color::White, Color::Black] {
            assert_eq!(pos.pieces_cp(c, PieceType::King).count(), 1);
        }
        assert!(!pos.is_attacked(pos.king_square(mover), mover.flip()));
        assert_eq!(pos.castling_rights() & !rights, 0);
        assert_eq!(pos.key(), pos.compute_key());
    }
}
