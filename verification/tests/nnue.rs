use shark::nnue::{
    active_features, crelu_q, feature_index, king_bucket, quantize, Accumulator, Net, HIDDEN,
    NUM_FEATURES, QA, QB,
};
use shark::position::Position;
use shark::types::{Color, Move, PieceType, Square};

fn sq(index: u8) -> Square {
    Square(index)
}

#[test]
fn zeros_net_evaluates_to_zero() {
    let net = Net::zeros();
    let fens = [
        "rnbqkbnr/pppppppp/8/8/8/8/PPPPPPPP/RNBQKBNR w KQkq - 0 1",
        "r3k2r/p1ppqpb1/bn2pnp1/3PN3/1p2P3/2N2Q1p/PPPBBPPP/R3K2R w KQkq - 0 1",
        "8/2p5/3p4/KP5r/1R3p1k/8/4P1P1/8 b - - 0 1",
    ];
    for fen in fens {
        let pos = Position::from_fen(fen).unwrap();
        assert_eq!(net.output(&pos), 0, "zeros net must score 0 for {fen}");
    }
}

#[test]
fn save_load_round_trips() {
    // Build a net with a few distinct, recognizable values.
    let mut net = Net::zeros();
    net.w1[0] = 0.5f32.to_bits();
    net.w1[NUM_FEATURES + 3] = (-0.25f32).to_bits();
    net.w1[HIDDEN * NUM_FEATURES - 1] = 1.5f32.to_bits();
    net.b1[0] = (-0.75f32).to_bits();
    net.b1[HIDDEN - 1] = 0.125f32.to_bits();
    net.w2[0] = 2.0f32.to_bits();
    net.w2[2 * HIDDEN - 1] = (-2.0f32).to_bits();
    net.b2 = 0.333f32.to_bits();

    let bytes = net.to_bytes();
    let loaded = Net::from_bytes(&bytes).unwrap();

    assert_eq!(loaded.w1, net.w1);
    assert_eq!(loaded.b1, net.b1);
    assert_eq!(loaded.w2, net.w2);
    assert_eq!(loaded.b2, net.b2);
}

#[test]
fn start_position_has_32_valid_features_per_perspective() {
    let pos = Position::startpos();
    let mut feats = Vec::new();
    for perspective in [Color::White, Color::Black] {
        active_features(&pos, perspective, &mut feats);
        assert_eq!(feats.len(), 32, "start position has 32 pieces");
        for &f in &feats {
            assert!(f < NUM_FEATURES, "feature {f} out of range");
        }
    }
}

#[test]
fn bad_magic_is_rejected() {
    let mut net = Net::zeros();
    net.b2 = 1.0f32.to_bits();
    let mut bytes = net.to_bytes();
    assert!(Net::from_bytes(&bytes).is_some());
    bytes[0] ^= 0xFF; // corrupt the magic
    assert!(Net::from_bytes(&bytes).is_none());
}

#[test]
fn wrong_dimensions_or_length_are_rejected() {
    let net = Net::zeros();
    let bytes = net.to_bytes();
    let mut hidden = bytes.clone();
    hidden[4] ^= 1;
    assert!(Net::from_bytes(&hidden).is_none());
    let mut features = bytes.clone();
    features[9] ^= 1;
    assert!(Net::from_bytes(&features).is_none());
    let mut long = bytes.clone();
    long.push(0);
    assert!(Net::from_bytes(&long).is_none());
    assert!(Net::from_bytes(&bytes[..bytes.len() - 1]).is_none());
    assert!(Net::from_bytes(&[]).is_none());
}

// -- Incremental accumulator ------------------------------------------

/// A deterministic "random-ish" net: every weight is a small, reproducible
/// value derived from its index by a cheap hash. This gives every hidden
/// neuron and feature a distinct nonzero weight (so a wrong feature index or
/// a sign error in an update cannot hide behind a zero).
fn pseudo_random_net() -> Net {
    // A splitmix-style scramble mapped into roughly [-0.5, 0.5).
    fn weight(i: usize) -> u32 {
        let mut x = (i as u64).wrapping_mul(0x9E37_79B9_7F4A_7C15);
        x ^= x >> 29;
        x = x.wrapping_mul(0xBF58_476D_1CE4_E5B9);
        x ^= x >> 32;
        // Take 16 bits -> [0, 65535] -> [-0.5, ~0.5).
        (((x & 0xFFFF) as f32) / 65536.0 - 0.5).to_bits()
    }

    let mut net = Net::zeros();
    for (i, w) in net.w1.iter_mut().enumerate() {
        *w = weight(i);
    }
    for (i, b) in net.b1.iter_mut().enumerate() {
        *b = weight(i + 0x1000_0000);
    }
    for (i, w) in net.w2.iter_mut().enumerate() {
        *w = weight(i + 0x2000_0000);
    }
    net.b2 = weight(0x3000_0000);
    // `w1` was mutated directly, so refresh the derived weights.
    net.rebuild_w1t();
    net
}

#[test]
fn evaluate_acc_matches_from_scratch_evaluate() {
    // The core invariant: evaluating from a freshly refreshed accumulator must
    // give the *identical* score as the from-scratch evaluation.
    let net = pseudo_random_net();
    let fens = [
        "rnbqkbnr/pppppppp/8/8/8/8/PPPPPPPP/RNBQKBNR w KQkq - 0 1",
        "r3k2r/p1ppqpb1/bn2pnp1/3PN3/1p2P3/2N2Q1p/PPPBBPPP/R3K2R w KQkq - 0 1",
        "8/2p5/3p4/KP5r/1R3p1k/8/4P1P1/8 b - - 0 1",
        "rnbqkbnr/pp1ppppp/8/2pP4/8/8/PPP1PPPP/RNBQKBNR w KQkq c6 0 3",
        "8/P7/8/8/8/8/8/k1K5 w - - 0 1",
        "r3k2r/8/8/8/8/8/8/R3K2R b Kq - 5 12",
    ];
    for fen in fens {
        let pos = Position::from_fen(fen).unwrap();
        let acc = Accumulator::refresh(&net, &pos);
        assert_eq!(
            net.output_acc(&acc, pos.side_to_move()),
            net.output(&pos),
            "acc eval must equal from-scratch eval for {fen}"
        );
    }
}

/// Apply a sequence of moves, threading the accumulator incrementally, and
/// after each move assert the incremental accumulator equals a from-scratch
/// refresh of the resulting position (and that the eval matches too).
fn assert_incremental_matches(net: &Net, fen: &str, moves: &[Move]) {
    let mut pos = Position::from_fen(fen).unwrap_or_else(|e| panic!("bad fen {fen}: {e}"));
    let mut acc = Accumulator::refresh(net, &pos);
    // Sanity: the starting accumulator itself agrees with the eval.
    assert_eq!(net.output_acc(&acc, pos.side_to_move()), net.output(&pos));

    for &m in moves {
        // Compute the child accumulator from the pre-move position, then make
        // the move on the scratch board to advance `pos`.
        let child = Accumulator::apply_move(net, &acc, &pos, m);
        pos.make_move(m);

        let fresh = Accumulator::refresh(net, &pos);
        assert!(
            child.close_to(&fresh),
            "incremental accumulator drifted after {} in {fen}",
            m.to_string()
        );
        assert_eq!(
            net.output_acc(&child, pos.side_to_move()),
            net.output(&pos),
            "incremental eval drifted after {} in {fen}",
            m.to_string()
        );
        acc = child;
    }
}

#[test]
fn incremental_normal_and_capture_and_double_push() {
    let net = pseudo_random_net();
    // A full opening line: double pushes (ep targets), knight develops, and
    // captures along the way.
    assert_incremental_matches(
        &net,
        "rnbqkbnr/pppppppp/8/8/8/8/PPPPPPPP/RNBQKBNR w KQkq - 0 1",
        &[
            Move::normal(sq(Square::E2), sq(Square::E4)), // white double push
            Move::normal(sq(Square::D7), sq(Square::D5)), // black double push
            Move::normal(sq(Square::E4), sq(Square::D5)), // capture (pawn takes pawn)
            Move::normal(sq(Square::G8), sq(Square::F6)), // knight develop
            Move::normal(sq(Square::G1), sq(Square::F3)), // knight develop
            Move::normal(sq(Square::F6), sq(Square::D5)), // knight recaptures pawn
        ],
    );
}

#[test]
fn incremental_en_passant() {
    let net = pseudo_random_net();
    // White pawn on d5, black just played ...c5 (ep target on c6): d5xc6 e.p.
    assert_incremental_matches(
        &net,
        "rnbqkbnr/pp1ppppp/8/2pP4/8/8/PPP1PPPP/RNBQKBNR w KQkq c6 0 3",
        &[Move::en_passant(sq(Square::D5), sq(Square::C6))],
    );
}

#[test]
fn incremental_castling_both_sides() {
    let net = pseudo_random_net();
    // White king-side, then continue and let Black castle king-side too.
    assert_incremental_matches(
        &net,
        "r3k2r/8/8/8/8/8/8/R3K2R w KQkq - 0 1",
        &[
            Move::castling(sq(Square::E1), sq(Square::H1)), // white O-O
            Move::castling(sq(Square::E8), sq(Square::H8)), // black O-O
        ],
    );
    // White queen-side, then Black queen-side.
    assert_incremental_matches(
        &net,
        "r3k2r/8/8/8/8/8/8/R3K2R w KQkq - 0 1",
        &[
            Move::castling(sq(Square::E1), sq(Square::A1)), // white O-O-O
            Move::castling(sq(Square::E8), sq(Square::A8)), // black O-O-O
        ],
    );
}

#[test]
fn incremental_promotion_quiet_and_capture() {
    let net = pseudo_random_net();
    // A quiet promotion to a queen.
    assert_incremental_matches(
        &net,
        "8/P6k/8/8/8/8/8/K7 w - - 0 1",
        &[Move::promotion(sq(Square::A7), sq(Square::A8), PieceType::Queen)],
    );
    // A capturing promotion: b7 takes the rook on a8, promoting to a knight.
    assert_incremental_matches(
        &net,
        "r6k/1P6/8/8/8/8/8/K7 w - - 0 1",
        &[Move::promotion(sq(Square::B7), sq(Square::A8), PieceType::Knight)],
    );
}

#[test]
fn incremental_mixed_sequence_on_kiwipete() {
    let net = pseudo_random_net();
    // A rich middlegame with knight moves, a pawn capture, and castling mixed
    // together: the accumulator must stay exact across all of them.
    assert_incremental_matches(
        &net,
        "r3k2r/p1ppqpb1/bn2pnp1/3PN3/1p2P3/2N2Q1p/PPPBBPPP/R3K2R w KQkq - 0 1",
        &[
            Move::normal(sq(Square::D5), sq(Square::E6)), // pawn captures pawn
            Move::normal(sq(Square::E7), sq(Square::E6)), // queen recaptures
            Move::castling(sq(Square::E1), sq(Square::H1)), // white O-O
            Move::normal(sq(Square::A6), sq(Square::E2)), // bishop captures bishop
            Move::normal(sq(Square::F3), sq(Square::E2)), // queen recaptures bishop
        ],
    );
}

// -- Quantization ------------------------------------------------------

/// FENs covering opening, middlegame, and endgame material.
const EVAL_FENS: [&str; 4] = [
    "rnbqkbnr/pppppppp/8/8/8/8/PPPPPPPP/RNBQKBNR w KQkq - 0 1",
    "r3k2r/p1ppqpb1/bn2pnp1/3PN3/1p2P3/2N2Q1p/PPPBBPPP/R3K2R w KQkq - 0 1",
    "8/2p5/3p4/KP5r/1R3p1k/8/4P1P1/8 b - - 0 1",
    "8/P6k/8/8/8/8/8/K7 w - - 0 1",
];

/// The quantized score in centipawns.
fn evaluate(net: &Net, pos: &Position) -> i32 {
    let o = f32::from_bits(net.b2) + net.output(pos) as f32 / (QA * QB) as f32;
    (o * 400.0).round().clamp(-10_000.0, 10_000.0) as i32
}

/// The score in centipawns without quantization.
fn evaluate_float(net: &Net, pos: &Position) -> i32 {
    let accumulate = |perspective: Color| -> Vec<f32> {
        let mut feats = Vec::new();
        active_features(pos, perspective, &mut feats);
        let mut acc: Vec<f32> = net.b1.iter().map(|&b| f32::from_bits(b)).collect();
        for &f in &feats {
            for (j, a) in acc.iter_mut().enumerate() {
                *a += f32::from_bits(net.w1[j * NUM_FEATURES + f]);
            }
        }
        acc
    };
    let stm = accumulate(pos.side_to_move());
    let nstm = accumulate(pos.side_to_move().flip());
    let mut o = f32::from_bits(net.b2);
    for j in 0..HIDDEN {
        o += f32::from_bits(net.w2[j]) * stm[j].clamp(0.0, 1.0);
        o += f32::from_bits(net.w2[HIDDEN + j]) * nstm[j].clamp(0.0, 1.0);
    }
    (o * 400.0).round().clamp(-10_000.0, 10_000.0) as i32
}

/// The quantized integer eval must track the float eval.
#[test]
fn quantized_eval_tracks_float() {
    let net = pseudo_random_net();
    for fen in EVAL_FENS {
        let pos = Position::from_fen(fen).unwrap();
        let q = evaluate(&net, &pos);
        let f = evaluate_float(&net, &pos);
        assert!(
            (q - f).abs() <= 150,
            "quantized eval {q} strays too far from float {f} for {fen}"
        );
        if f.abs() >= 400 {
            assert_eq!(q.signum(), f.signum(), "quantized eval flipped sign for {fen}");
        }
    }
}

/// The output over both halves, checked against a plain sum.
#[test]
fn output_q_matches_plain_sum() {
    let net = pseudo_random_net();
    for fen in EVAL_FENS {
        let pos = Position::from_fen(fen).unwrap();
        let acc = Accumulator::refresh(&net, &pos);
        let (stm, nstm) = match pos.side_to_move() {
            Color::White => (&acc.white, &acc.black),
            Color::Black => (&acc.black, &acc.white),
        };
        let mut sum = 0i64;
        for j in 0..HIDDEN {
            sum += crelu_q(stm[j]) as i64 * quantize(net.w2[j]) as i64;
            sum += crelu_q(nstm[j]) as i64 * quantize(net.w2[HIDDEN + j]) as i64;
        }
        assert_eq!(net.output_q(stm, nstm) as i64, sum);
    }
}

#[test]
fn quantization_rounds_and_saturates() {
    let q = |x: f32| quantize(x.to_bits());
    assert_eq!(q(0.0), 0);
    assert_eq!(q(-0.0), 0);
    assert_eq!(q(1.0), 512);
    assert_eq!(q(-1.0), -512);
    assert_eq!(q(0.5 / 512.0), 1);
    assert_eq!(q(-0.5 / 512.0), -1);
    assert_eq!(q(0.49 / 512.0), 0);
    assert_eq!(q(2.5 / 512.0), 3);
    assert_eq!(q(63.998), 32767);
    assert_eq!(q(64.0), 32767);
    assert_eq!(q(-64.0), -32768);
    assert_eq!(q(1.0e30), 32767);
    assert_eq!(q(-1.0e30), -32768);
    assert_eq!(q(1.0e-40), 0);
    assert_eq!(q(f32::INFINITY), 32767);
    assert_eq!(q(f32::NEG_INFINITY), -32768);
    assert_eq!(q(f32::NAN), 0);
}

#[test]
fn quantization_agrees_with_float_rounding() {
    let mut x: u32 = 0x1234_5678;
    for _ in 0..200_000 {
        x ^= x << 13;
        x ^= x >> 17;
        x ^= x << 5;
        let value = f32::from_bits(x);
        let expected = (value * 512.0).round().clamp(i16::MIN as f32, i16::MAX as f32) as i16;
        assert_eq!(quantize(x), expected, "quantizing {value}");
    }
}

#[test]
fn activation_is_clamped() {
    assert_eq!(crelu_q(-1), 0);
    assert_eq!(crelu_q(0), 0);
    assert_eq!(crelu_q(300), 300);
    assert_eq!(crelu_q(512), 512);
    assert_eq!(crelu_q(513), 512);
}

#[test]
fn feature_indices_are_exact() {
    assert_eq!(king_bucket(0), 0);
    assert_eq!(king_bucket(63), 15);
    assert_eq!(king_bucket(4), 2);
    // White king on e1, friendly pawn on a2: bucket 2, pawn 0, square 8.
    let e1 = sq(Square::E1);
    assert_eq!(
        feature_index(Color::White, e1, Color::White, PieceType::Pawn, sq(Square::A2)),
        2 * 768 + 8
    );
    // An enemy knight on b8, seen by White.
    assert_eq!(
        feature_index(Color::White, e1, Color::Black, PieceType::Knight, sq(Square::B8)),
        2 * 768 + 384 + 64 + 57
    );
    // Black sees the board flipped.
    assert_eq!(
        feature_index(
            Color::Black,
            sq(Square::E8),
            Color::Black,
            PieceType::Pawn,
            sq(Square::A7)
        ),
        2 * 768 + 8
    );
}

#[test]
fn transposed_weights_follow_the_features() {
    let net = pseudo_random_net();
    for (f, j) in [(0, 0), (1, 0), (0, 1), (12287, 255), (777, 33)] {
        assert_eq!(net.w1t[f * HIDDEN + j], net.w1[j * NUM_FEATURES + f]);
    }
}

#[test]
fn describe_names_the_shape() {
    assert_eq!(Net::zeros().describe(), "NNUE 12288->256->1");
}

#[test]
fn features_are_distinct() {
    let king = sq(Square::G1);
    let mut seen: Vec<usize> = Vec::new();
    for c in [Color::White, Color::Black] {
        for i in 0..6 {
            let pt = PieceType::from_index(i).unwrap();
            for s in 0..64u8 {
                seen.push(feature_index(Color::White, king, c, pt, sq(s)));
            }
        }
    }
    seen.sort();
    seen.dedup();
    assert_eq!(seen.len(), 768);
}

#[test]
fn perspectives_are_symmetric() {
    for c in [Color::White, Color::Black] {
        for s in 0..64u8 {
            let king = sq(((s as u32 * 11 + 5) % 64) as u8);
            assert_eq!(
                feature_index(Color::Black, king, c, PieceType::Rook, sq(s)),
                feature_index(
                    Color::White,
                    king.flip_rank(),
                    c.flip(),
                    PieceType::Rook,
                    sq(s).flip_rank()
                )
            );
        }
    }
}

#[test]
fn a_file_begins_with_its_name() {
    let bytes = Net::zeros().to_bytes();
    assert_eq!(&bytes[0..4], b"NNUE");
    let mut reversed = bytes.clone();
    reversed[0..4].copy_from_slice(b"EUNN");
    assert!(Net::from_bytes(&reversed).is_none());
}

#[test]
fn moving_a_piece_back_restores_the_accumulator() {
    let net = pseudo_random_net();
    let mut pos = Position::startpos();
    let before = Accumulator::refresh(&net, &pos);
    let mut acc = Accumulator::refresh(&net, &pos);
    let tour = [
        Move::normal(sq(Square::G1), sq(Square::F3)),
        Move::normal(sq(Square::G8), sq(Square::F6)),
        Move::normal(sq(Square::F3), sq(Square::G1)),
        Move::normal(sq(Square::F6), sq(Square::G8)),
    ];
    for m in tour {
        acc = Accumulator::apply_move(&net, &acc, &pos, m);
        let _ = pos.make_move(m);
    }
    assert!(acc.close_to(&before));
}
