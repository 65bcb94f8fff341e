//! NNUE: a small "efficiently updatable" neural-network evaluation.
//!
//! This module owns the feature convention, the shape of the network, its file
//! format and its integer inference path.
//!
//! * **Input**: binary features, king-bucketed. Each *perspective* color builds its
//!   own feature set, with the board vertically flipped when viewed from Black, so
//!   that "my back rank" is always rank 1.
//! * **Layer 1**: an accumulator per perspective, the sum of the weight columns of
//!   the active features plus the bias.
//! * **Layer 2**: the clamped activations of both accumulators (side to move
//!   first), reduced to a single number.
//!
//! The trained weights are 32-bit floating-point numbers. Here they are held as
//! their bit patterns; the inference path works on their 16-bit quantization.

use vstd::prelude::*;
use vstd::arithmetic::power2;
use crate::legality;
use crate::position;
use crate::position::Position;
use crate::state;
use crate::state::State;
use crate::text;
use crate::types::{Color, Move, MoveType, Piece, PieceType, Square};

verus! {

/// Hidden-layer width (per perspective). The combined layer is twice as wide.
pub const HIDDEN: usize = 256;

/// King buckets: the perspective's own king square is mapped into one of these
/// coarse zones, which selects a feature block.
pub const KING_BUCKETS: usize = 16;

/// Features within one king bucket: 2 (friendly/enemy) x 6 (piece type) x 64
/// (square).
pub const FEATS_PER_BUCKET: usize = 768;

/// Number of input features: one block per king bucket.
pub const NUM_FEATURES: usize = 12288;

/// Half of a king bucket's block: friendly pieces first, then enemy pieces.
pub const HALF: usize = 384;

/// The scale of the quantized feature transformer; activations clamp to it.
pub const QA: i32 = 512;

/// The scale of the quantized layer-2 weights.
pub const QB: i32 = 512;

/// File-format magic: the ASCII bytes "NNUE" as a little-endian `u32`, so that a
/// file begins with the bytes 4E 4E 55 45.
pub const MAGIC: u32 = 0x4555_4E4E;

/// Number of layer-1 weights.
pub const W1_LEN: usize = 3145728;

/// Number of layer-2 weights.
pub const W2_LEN: usize = 512;

/// The three header words.
pub const HEADER_WORDS: usize = 3;

/// Number of 32-bit words in a network file.
pub const FILE_WORDS: usize = 3146500;

// ---------------------------------------------------------------------------
// Features.
// ---------------------------------------------------------------------------

pub open spec fn king_bucket_spec(oriented_king_sq: usize) -> usize {
    ((oriented_king_sq / 8 / 2) * 4 + (oriented_king_sq % 8) / 2) as usize
}

/// Map an (already perspective-oriented) king square to its coarse bucket. The
/// board is split into a 4x4 grid of 2x2 squares.
#[verifier::when_used_as_spec(king_bucket_spec)]
pub fn king_bucket(oriented_king_sq: usize) -> (r: usize)
    ensures
        r == king_bucket_spec(oriented_king_sq),
        r == (oriented_king_sq / 8 / 2) * 4 + (oriented_king_sq % 8) / 2,
        oriented_king_sq < 64 ==> r < KING_BUCKETS,
{
    let rank: usize = oriented_king_sq / 8;
    let file: usize = oriented_king_sq % 8;
    (rank / 2) * 4 + (file / 2)
}

/// A square as seen from a perspective: Black sees the board flipped.
pub open spec fn oriented(perspective: Color, sq: Square) -> Square {
    match perspective {
        Color::White => sq,
        Color::Black => sq.flip_rank(),
    }
}

/// The index of the feature "a piece of color `c` and type `pt` on `sq`", seen from
/// `perspective`, whose own king stands on `king_sq`.
pub open spec fn feature(
    perspective: Color,
    king_sq: Square,
    c: Color,
    pt: PieceType,
    sq: Square,
) -> int {
    king_bucket(oriented(perspective, king_sq).index()) * FEATS_PER_BUCKET + (if c == perspective {
        0int
    } else {
        HALF as int
    }) + pt.index() * 64 + oriented(perspective, sq).index()
}

/// The input-feature index of a piece of color `c` and type `pt` on square `sq`,
/// seen from perspective color `perspective` whose own king stands on `king_sq`.
pub fn feature_index(
    perspective: Color,
    king_sq: Square,
    c: Color,
    pt: PieceType,
    sq: Square,
) -> (r: usize)
    ensures
        r == feature(perspective, king_sq, c, pt, sq),
        king_sq.valid() && sq.valid() ==> r < NUM_FEATURES,
{
    let (oriented_sq, oriented_king): (usize, usize) = if perspective == Color::White {
        (sq.index(), king_sq.index())
    } else {
        (sq.flip_rank().index(), king_sq.flip_rank().index())
    };
    let side: usize = if c == perspective {
        0
    } else {
        HALF
    };
    let within: usize = side + pt.index() * 64 + oriented_sq;
    king_bucket(oriented_king) * FEATS_PER_BUCKET + within
}

/// Features of pieces on the board are input features.
pub proof fn law_feature_in_range(
    perspective: Color,
    king_sq: Square,
    c: Color,
    pt: PieceType,
    sq: Square,
)
    requires
        king_sq.valid(),
        sq.valid(),
    ensures
        0 <= feature(perspective, king_sq, c, pt, sq) < NUM_FEATURES,
{
    king_sq.lemma_flip_rank();
    sq.lemma_flip_rank();
}

/// Different pieces, or pieces on different squares, have different features.
pub proof fn law_features_distinct(
    perspective: Color,
    king_sq: Square,
    p: Piece,
    a: Square,
    q: Piece,
    b: Square,
)
    requires
        a.valid(),
        b.valid(),
        feature(perspective, king_sq, p.color, p.piece_type, a) == feature(
            perspective,
            king_sq,
            q.color,
            q.piece_type,
            b,
        ),
    ensures
        p == q,
        a == b,
{
    a.lemma_flip_rank();
    b.lemma_flip_rank();
}

/// The two colors see the board alike: flipping the board and swapping the colors
/// swaps the perspectives.
pub proof fn law_perspectives_symmetric(king_sq: Square, c: Color, pt: PieceType, sq: Square)
    ensures
        feature(Color::Black, king_sq, c, pt, sq) == feature(
            Color::White,
            king_sq.flip_rank(),
            c.flip(),
            pt,
            sq.flip_rank(),
        ),
{
}

/// The features of the pieces on the squares below `n`, in square order.
pub open spec fn features(s: State, perspective: Color, n: int) -> Seq<usize>
    decreases n,
{
    if n <= 0 {
        Seq::empty()
    } else {
        match s.board[n - 1] {
            Some(p) => features(s, perspective, n - 1).push(
                feature(
                    perspective,
                    Square(s.king(perspective) as u8),
                    p.color,
                    p.piece_type,
                    Square((n - 1) as u8),
                ) as usize,
            ),
            None => features(s, perspective, n - 1),
        }
    }
}

/// Fill `out` with the indices of every active input feature for `pos`, seen from
/// `perspective`. Clears `out` first.
pub fn active_features(pos: &Position, perspective: Color, out: &mut Vec<usize>)
    requires
        pos.wf(),
        pos@.has_king(perspective),
    ensures
        final(out)@ == features(pos@, perspective, 64),
{
    out.clear();
    let king_sq: Square = pos.king_square(perspective);
    let mut i: u8 = 0;
    while i < 64
        invariant
            pos.wf(),
            i <= 64,
            king_sq == Square(pos@.king(perspective) as u8),
            out@ == features(pos@, perspective, i as int),
        decreases 64 - i,
    {
        let sq: Square = Square(i);
        if let Some(piece) = pos.piece_at(sq) {
            out.push(feature_index(perspective, king_sq, piece.color, piece.piece_type, sq));
        }
        i = i + 1;
    }
}

// ---------------------------------------------------------------------------
// Quantization.
// ---------------------------------------------------------------------------

/// The sign bit of a floating-point bit pattern.
pub open spec fn is_negative(bits: u32) -> bool {
    bits >= 0x8000_0000
}

/// The exponent field of a floating-point bit pattern.
pub open spec fn exponent_field(bits: u32) -> u32 {
    bits / 0x80_0000 % 256
}

/// The fraction field of a floating-point bit pattern.
pub open spec fn fraction_field(bits: u32) -> u32 {
    bits % 0x80_0000
}

/// The significand of a finite number: its fraction field, with the implicit
/// leading bit of a normal number.
pub open spec fn significand(bits: u32) -> nat {
    if exponent_field(bits) == 0 {
        fraction_field(bits) as nat
    } else {
        (fraction_field(bits) + 0x80_0000) as nat
    }
}

/// The power of two such that the magnitude of a finite number, times 512, is its
/// significand times that power.
pub open spec fn scaled_exponent(bits: u32) -> int {
    if exponent_field(bits) == 0 {
        -140
    } else {
        exponent_field(bits) - 141
    }
}

/// The magnitude of a finite number, times 512, rounded to the nearest integer
/// (halves away from zero).
pub open spec fn scaled_magnitude(bits: u32) -> nat {
    let e = scaled_exponent(bits);
    if e >= 0 {
        significand(bits) * power2::pow2(e as nat)
    } else {
        let p = power2::pow2((-e) as nat);
        (2 * significand(bits) + p) / (2 * p)
    }
}

/// `magnitude` with a sign, saturating at the bounds of 16 bits.
pub open spec fn saturated(negative: bool, magnitude: nat) -> i16 {
    if negative {
        if magnitude >= 32768 {
            i16::MIN
        } else {
            (-(magnitude as int)) as i16
        }
    } else if magnitude >= 32767 {
        32767
    } else {
        magnitude as i16
    }
}

/// The quantization of a weight: 512 times its value, rounded to the nearest
/// 16-bit integer. Infinities saturate, and what is not a number becomes 0.
pub open spec fn quantize_spec(bits: u32) -> i16 {
    if exponent_field(bits) == 255 {
        if fraction_field(bits) != 0 {
            0
        } else {
            saturated(is_negative(bits), 32768)
        }
    } else {
        saturated(is_negative(bits), scaled_magnitude(bits))
    }
}

/// Round 512 times the number with the given bit pattern to the nearest 16-bit
/// integer, saturating at its bounds.
#[verifier::when_used_as_spec(quantize_spec)]
pub fn quantize(bits: u32) -> (r: i16)
    ensures
        r == quantize_spec(bits),
{
    let negative: bool = bits >= 0x8000_0000;
    let exponent: u32 = bits / 0x80_0000 % 256;
    let fraction: u32 = bits % 0x80_0000;
    if exponent == 255 && fraction != 0 {
        return 0;
    }
    let magnitude: u32 = if exponent >= 141 {
        proof {
            if exponent != 255 {
                power2::lemma_pow2_pos((exponent - 141) as nat);
                lemma_mul_at_least(
                    significand(bits) as int,
                    power2::pow2((exponent - 141) as nat) as int,
                );
            }
        }
        32768
    } else {
        let m: u32 = if exponent == 0 {
            fraction
        } else {
            fraction + 0x80_0000
        };
        let k: u32 = if exponent == 0 {
            140
        } else {
            141 - exponent
        };
        if k > 25 {
            proof {
                lemma_vanishes(m as nat, k as nat);
            }
            0
        } else {
            let p: u32 = power_of_two(k);
            (2 * m + p) / (2 * p)
        }
    };
    if negative {
        if magnitude >= 32768 {
            i16::MIN
        } else {
            -(magnitude as i16)
        }
    } else if magnitude >= 32767 {
        32767
    } else {
        magnitude as i16
    }
}

proof fn lemma_mul_at_least(m: int, p: int)
    by (nonlinear_arith)
    requires
        m >= 0x80_0000,
        p >= 1,
    ensures
        m * p >= 0x80_0000,
{
}

/// What is far below one half rounds to zero.
proof fn lemma_vanishes(m: nat, k: nat)
    requires
        m < 0x100_0000,
        k > 25,
    ensures
        (2 * m + power2::pow2(k)) / (2 * power2::pow2(k)) == 0,
{
    power2::lemma2_to64();
    if k > 26 {
        power2::lemma_pow2_strictly_increases(26, k);
    }
    let p = power2::pow2(k) as int;
    assert(p >= 0x400_0000);
    let x = 2 * m + p;
    assert(x / (2 * p) == 0) by (nonlinear_arith)
        requires
            0 <= x < 2 * p,
    ;
}

/// Two to the power of `k`.
fn power_of_two(k: u32) -> (r: u32)
    requires
        k <= 25,
    ensures
        r == power2::pow2(k as nat),
        1 <= r <= 0x200_0000,
{
    let mut p: u32 = 1;
    let mut i: u32 = 0;
    proof {
        power2::lemma2_to64();
    }
    while i < k
        invariant
            i <= k <= 25,
            p == power2::pow2(i as nat),
            p >= 1,
            p * power2::pow2((k - i) as nat) == power2::pow2(k as nat),
            power2::pow2(k as nat) <= 0x200_0000,
        decreases k - i,
    {
        proof {
            power2::lemma_pow2_unfold((i + 1) as nat);
            power2::lemma_pow2_unfold((k - i) as nat);
            power2::lemma_pow2_pos((k - i - 1) as nat);
            let q = power2::pow2((k - i - 1) as nat) as int;
            assert(p * (2 * q) == (p * 2) * q) by (nonlinear_arith);
            assert(p * 2 <= (p * 2) * q) by (nonlinear_arith)
                requires
                    q >= 1,
                    p >= 1,
            ;
        }
        p = p * 2;
        i = i + 1;
    }
    proof {
        assert(power2::pow2(0) == 1) by {
            power2::lemma2_to64();
        }
    }
    p
}

/// The rounded magnitude is off by at most one half.
pub proof fn law_quantized_is_nearest(bits: u32)
    requires
        scaled_exponent(bits) < 0,
    ensures
        ({
            let p = power2::pow2((-scaled_exponent(bits)) as nat) as int;
            let off = 2 * (scaled_magnitude(bits) * p - significand(bits));
            -p <= off <= p
        }),
{
    let p = power2::pow2((-scaled_exponent(bits)) as nat) as int;
    power2::lemma_pow2_pos((-scaled_exponent(bits)) as nat);
    let x = 2 * significand(bits) + p;
    let q = x / (2 * p);
    vstd::arithmetic::div_mod::lemma_fundamental_div_mod(x, 2 * p);
    vstd::arithmetic::div_mod::lemma_mod_bound(x, 2 * p);
    assert((2 * p) * q == 2 * (q * p)) by (nonlinear_arith);
}

// ---------------------------------------------------------------------------
// The network.
// ---------------------------------------------------------------------------

/// The trained weights of the perspective net, as bit patterns of 32-bit
/// floating-point numbers, and their quantization.
///
/// * `w1`: layer-1 weights, one row of [`NUM_FEATURES`] per hidden neuron.
/// * `w1t`: the transposed copy of `w1`, one column of [`HIDDEN`] per feature.
/// * `b1`: layer-1 biases.
/// * `w2`: layer-2 weights (side-to-move half first).
/// * `b2`: layer-2 bias.
pub struct Net {
    pub w1: Vec<u32>,
    pub w1t: Vec<u32>,
    pub b1: Vec<u32>,
    pub w2: Vec<u32>,
    pub b2: u32,
    pub quant: Quant,
}

/// The quantized weights that inference works on, derived from the trained ones.
pub struct Quant {
    /// Quantized transposed layer-1 weights.
    w1t_q: Vec<i16>,
    /// Quantized layer-1 biases.
    b1_q: Vec<i16>,
    /// Quantized layer-2 weights.
    w2_q: Vec<i16>,
}

impl Quant {
    /// The quantized layer-1 weights, by feature.
    pub closed spec fn columns(self) -> Seq<i16> {
        self.w1t_q@
    }

    /// The quantized layer-1 biases.
    pub closed spec fn biases(self) -> Seq<i16> {
        self.b1_q@
    }

    /// The quantized layer-2 weights.
    pub closed spec fn outputs(self) -> Seq<i16> {
        self.w2_q@
    }

    /// The quantized weights have the shape of this architecture.
    pub open spec fn sized(self) -> bool {
        self.columns().len() == W1_LEN && self.biases().len() == HIDDEN && self.outputs().len()
            == W2_LEN
    }
}

/// The weights by feature, from the weights by neuron.
pub open spec fn transposed(w1: Seq<u32>) -> Seq<u32> {
    Seq::new(W1_LEN as nat, |i: int| w1[(i % 256) * 12288 + i / 256])
}

/// The quantization of several weights.
pub open spec fn quantized(weights: Seq<u32>) -> Seq<i16> {
    weights.map_values(|bits: u32| quantize(bits))
}

/// Build the transposed feature-transformer weights from the row-major `w1`.
fn build_w1t(w1: &Vec<u32>) -> (r: Vec<u32>)
    requires
        w1@.len() == W1_LEN,
    ensures
        r@ == transposed(w1@),
{
    let mut w1t: Vec<u32> = Vec::new();
    let mut f: usize = 0;
    while f < NUM_FEATURES
        invariant
            f <= NUM_FEATURES,
            w1@.len() == W1_LEN,
            w1t@.len() == f * 256,
            forall|i: int| 0 <= i < w1t@.len() ==> #[trigger] w1t@[i] == w1@[(i % 256) * 12288 + i / 256],
        decreases NUM_FEATURES - f,
    {
        let mut j: usize = 0;
        while j < HIDDEN
            invariant
                f < NUM_FEATURES,
                j <= HIDDEN,
                w1@.len() == W1_LEN,
                w1t@.len() == f * 256 + j,
                forall|i: int|
                    0 <= i < w1t@.len() ==> #[trigger] w1t@[i] == w1@[(i % 256) * 12288 + i / 256],
            decreases HIDDEN - j,
        {
            w1t.push(w1[j * NUM_FEATURES + f]);
            j = j + 1;
        }
        f = f + 1;
    }
    assert(w1t@ =~= transposed(w1@));
    w1t
}

/// Quantize several weights.
fn quantize_all(weights: &Vec<u32>) -> (r: Vec<i16>)
    ensures
        r@ == quantized(weights@),
{
    let mut r: Vec<i16> = Vec::new();
    let mut i: usize = 0;
    while i < weights.len()
        invariant
            i <= weights@.len(),
            r@ == quantized(weights@.take(i as int)),
        decreases weights@.len() - i,
    {
        r.push(quantize(weights[i]));
        i = i + 1;
        assert(r@ =~= quantized(weights@.take(i as int)));
    }
    assert(weights@.take(i as int) =~= weights@);
    r
}

/// `n` zeros.
fn zero_words(n: usize) -> (r: Vec<u32>)
    ensures
        r@ == Seq::new(n as nat, |i: int| 0u32),
{
    let mut r: Vec<u32> = Vec::new();
    while r.len() < n
        invariant
            r@.len() <= n,
            forall|i: int| 0 <= i < r@.len() ==> #[trigger] r@[i] == 0,
        decreases n - r@.len(),
    {
        r.push(0);
    }
    assert(r@ =~= Seq::new(n as nat, |i: int| 0u32));
    r
}

impl Net {
    /// The trained weights have the shape of this architecture.
    pub open spec fn sized(self) -> bool {
        self.w1@.len() == W1_LEN && self.b1@.len() == HIDDEN && self.w2@.len() == W2_LEN
    }

    /// The quantized weights have the shape of this architecture.
    pub open spec fn ready(self) -> bool {
        self.quant.sized()
    }

    /// The derived weights are those of the trained weights.
    pub open spec fn derived(self) -> bool {
        &&& self.w1t@ == transposed(self.w1@)
        &&& self.quant.columns() == quantized(self.w1t@)
        &&& self.quant.biases() == quantized(self.b1@)
        &&& self.quant.outputs() == quantized(self.w2@)
    }

    /// A network with the given trained weights.
    fn assemble(w1: Vec<u32>, b1: Vec<u32>, w2: Vec<u32>, b2: u32) -> (r: Net)
        requires
            w1@.len() == W1_LEN,
            b1@.len() == HIDDEN,
            w2@.len() == W2_LEN,
        ensures
            r.w1@ == w1@,
            r.b1@ == b1@,
            r.w2@ == w2@,
            r.b2 == b2,
            r.sized(),
            r.derived(),
            r.ready(),
    {
        let mut net: Net = Net {
            w1,
            w1t: Vec::new(),
            b1,
            w2,
            b2,
            quant: Quant { w1t_q: Vec::new(), b1_q: Vec::new(), w2_q: Vec::new() },
        };
        net.rebuild_w1t();
        net
    }

    /// A correctly-sized, all-zeros net.
    pub fn zeros() -> (r: Net)
        ensures
            r.sized(),
            r.derived(),
            r.ready(),
            r.w1@ == Seq::new(W1_LEN as nat, |i: int| 0u32),
            r.b1@ == Seq::new(HIDDEN as nat, |i: int| 0u32),
            r.w2@ == Seq::new(W2_LEN as nat, |i: int| 0u32),
            r.b2 == 0,
    {
        Net::assemble(zero_words(W1_LEN), zero_words(HIDDEN), zero_words(W2_LEN), 0)
    }

    /// Rebuild the transposed and the quantized weights from the trained weights.
    /// Call this after changing the trained weights directly.
    pub fn rebuild_w1t(&mut self)
        requires
            old(self).sized(),
        ensures
            final(self).w1@ == old(self).w1@,
            final(self).b1@ == old(self).b1@,
            final(self).w2@ == old(self).w2@,
            final(self).b2 == old(self).b2,
            final(self).sized(),
            final(self).derived(),
            final(self).ready(),
    {
        self.w1t = build_w1t(&self.w1);
        self.build_quant();
    }

    /// Rebuild the quantized weights; the transposed weights must be up to date.
    fn build_quant(&mut self)
        ensures
            final(self).w1@ == old(self).w1@,
            final(self).w1t@ == old(self).w1t@,
            final(self).b1@ == old(self).b1@,
            final(self).w2@ == old(self).w2@,
            final(self).b2 == old(self).b2,
            final(self).quant.columns() == quantized(old(self).w1t@),
            final(self).quant.biases() == quantized(old(self).b1@),
            final(self).quant.outputs() == quantized(old(self).w2@),
    {
        self.quant = Quant {
            w1t_q: quantize_all(&self.w1t),
            b1_q: quantize_all(&self.b1),
            w2_q: quantize_all(&self.w2),
        };
    }

    /// A short human-readable description of this net's shape.
    pub fn describe(&self) -> (r: String)
        ensures
            r@ == "NNUE "@ + text::decimal(NUM_FEATURES as nat) + "->"@ + text::decimal(
                HIDDEN as nat,
            ) + "->1"@,
    {
        let mut r: String = String::new();
        text::push_text(&mut r, "NNUE ");
        text::push_decimal(&mut r, NUM_FEATURES as u64);
        text::push_text(&mut r, "->");
        text::push_decimal(&mut r, HIDDEN as u64);
        text::push_text(&mut r, "->1");
        assert(r@ =~= "NNUE "@ + text::decimal(NUM_FEATURES as nat) + "->"@ + text::decimal(
            HIDDEN as nat,
        ) + "->1"@);
        r
    }
}

// ---------------------------------------------------------------------------
// The file format.
// ---------------------------------------------------------------------------

/// The little-endian 32-bit word `i` of a file.
pub open spec fn word(bytes: Seq<u8>, i: int) -> int {
    bytes[4 * i] + 256 * bytes[4 * i + 1] + 65536 * bytes[4 * i + 2] + 16777216 * bytes[4 * i + 3]
}

/// The bytes are a network file: they have its length and its header.
pub open spec fn is_file(bytes: Seq<u8>) -> bool {
    &&& bytes.len() == 4 * FILE_WORDS
    &&& word(bytes, 0) == MAGIC
    &&& word(bytes, 1) == HIDDEN
    &&& word(bytes, 2) == NUM_FEATURES
}

/// A network file begins with the ASCII letters NNUE.
pub proof fn law_file_begins_with_nnue(bytes: Seq<u8>)
    requires
        is_file(bytes),
    ensures
        bytes.take(4) == seq![0x4Eu8, 0x4Eu8, 0x55u8, 0x45u8],
{
    assert(word(bytes, 0) == bytes[0] + 256 * bytes[1] + 65536 * bytes[2] + 16777216 * bytes[3]);
    assert(bytes.take(4) =~= seq![0x4Eu8, 0x4Eu8, 0x55u8, 0x45u8]);
}

/// Word `i` of the file of a network: magic number, dimensions, layer-1 weights,
/// layer-1 biases, layer-2 weights, layer-2 bias.
pub open spec fn file_word(net: Net, i: int) -> u32 {
    if i == 0 {
        MAGIC
    } else if i == 1 {
        HIDDEN as u32
    } else if i == 2 {
        NUM_FEATURES as u32
    } else if i < 3 + W1_LEN {
        net.w1@[i - 3]
    } else if i < 3 + W1_LEN + HIDDEN {
        net.b1@[i - 3 - W1_LEN]
    } else if i < 3 + W1_LEN + HIDDEN + W2_LEN {
        net.w2@[i - 3 - W1_LEN - HIDDEN]
    } else {
        net.b2
    }
}

/// The bytes are the file of the network.
pub open spec fn is_file_of(bytes: Seq<u8>, net: Net) -> bool {
    &&& bytes.len() == 4 * FILE_WORDS
    &&& forall|i: int| 0 <= i < FILE_WORDS ==> #[trigger] word(bytes, i) == file_word(net, i)
}

/// Read the word at index `i`.
fn read_u32(bytes: &[u8], i: usize) -> (r: u32)
    requires
        4 * i + 4 <= bytes@.len(),
    ensures
        r == word(bytes@, i as int),
{
    assert(bytes@.len() == bytes.len());
    let a: u32 = bytes[4 * i] as u32;
    let b: u32 = bytes[4 * i + 1] as u32;
    let c: u32 = bytes[4 * i + 2] as u32;
    let d: u32 = bytes[4 * i + 3] as u32;
    a + 256 * b + 65536 * c + 16777216 * d
}

/// Read `n` words from index `start` on.
fn read_words(bytes: &[u8], start: usize, n: usize) -> (r: Vec<u32>)
    requires
        4 * (start + n) <= bytes@.len(),
    ensures
        r@.len() == n,
        forall|i: int| 0 <= i < n ==> #[trigger] r@[i] == word(bytes@, start + i),
{
    let mut r: Vec<u32> = Vec::new();
    let mut i: usize = 0;
    assert(bytes@.len() == bytes.len());
    while i < n
        invariant
            i <= n,
            4 * (start + n) <= bytes@.len() <= usize::MAX,
            r@.len() == i,
            forall|k: int| 0 <= k < i ==> #[trigger] r@[k] == word(bytes@, start + k),
        decreases n - i,
    {
        r.push(read_u32(bytes, start + i));
        i = i + 1;
    }
    r
}

/// Append a word, least significant byte first.
fn push_word(buf: &mut Vec<u8>, x: u32)
    requires
        old(buf)@.len() % 4 == 0,
    ensures
        final(buf)@.len() == old(buf)@.len() + 4,
        forall|i: int| 0 <= i < old(buf)@.len() ==> #[trigger] final(buf)@[i] == old(buf)@[i],
        word(final(buf)@, old(buf)@.len() as int / 4) == x,
{
    buf.push((x % 256) as u8);
    buf.push((x / 256 % 256) as u8);
    buf.push((x / 65536 % 256) as u8);
    buf.push((x / 16777216) as u8);
}

/// Append several words.
fn push_words(buf: &mut Vec<u8>, words: &Vec<u32>)
    requires
        old(buf)@.len() % 4 == 0,
    ensures
        final(buf)@.len() == old(buf)@.len() + 4 * words@.len(),
        forall|i: int| 0 <= i < old(buf)@.len() ==> #[trigger] final(buf)@[i] == old(buf)@[i],
        forall|k: int|
            old(buf)@.len() as int / 4 <= k < old(buf)@.len() as int / 4 + words@.len()
                ==> #[trigger] word(final(buf)@, k) == words@[k - old(buf)@.len() as int / 4],
{
    let ghost n = old(buf)@.len() as int / 4;
    let mut i: usize = 0;
    while i < words.len()
        invariant
            i <= words@.len(),
            n == old(buf)@.len() as int / 4,
            old(buf)@.len() % 4 == 0,
            buf@.len() == old(buf)@.len() + 4 * i,
            forall|j: int| 0 <= j < old(buf)@.len() ==> #[trigger] buf@[j] == old(buf)@[j],
            forall|k: int| n <= k < n + i ==> #[trigger] word(buf@, k) == words@[k - n],
        decreases words@.len() - i,
    {
        let ghost before = buf@;
        push_word(buf, words[i]);
        proof {
            assert forall|k: int| n <= k < n + i + 1 implies #[trigger] word(buf@, k) == words@[k
                - n] by {
                if k < n + i {
                    assert(word(before, k) == words@[k - n]);
                }
            }
        }
        i = i + 1;
    }
}

impl Net {
    /// Parse a net from raw file bytes. Returns `None` if the magic number, the
    /// dimensions or the total length do not match this architecture.
    pub fn from_bytes(bytes: &[u8]) -> (r: Option<Net>)
        ensures
            r is Some <==> is_file(bytes@),
            r matches Some(net) ==> {
                &&& net.sized()
                &&& net.derived()
                &&& net.ready()
                &&& is_file_of(bytes@, net)
            },
    {
        if bytes.len() != 4 * FILE_WORDS {
            return None;
        }
        if read_u32(bytes, 0) != MAGIC {
            return None;
        }
        if read_u32(bytes, 1) != HIDDEN as u32 || read_u32(bytes, 2) != NUM_FEATURES as u32 {
            return None;
        }
        let w1: Vec<u32> = read_words(bytes, HEADER_WORDS, W1_LEN);
        let b1: Vec<u32> = read_words(bytes, HEADER_WORDS + W1_LEN, HIDDEN);
        let w2: Vec<u32> = read_words(bytes, HEADER_WORDS + W1_LEN + HIDDEN, W2_LEN);
        let b2: u32 = read_u32(bytes, FILE_WORDS - 1);
        let net: Net = Net::assemble(w1, b1, w2, b2);
        proof {
            assert forall|i: int| 0 <= i < FILE_WORDS implies #[trigger] word(bytes@, i)
                == file_word(net, i) by {
                if 3 <= i < 3 + W1_LEN {
                    assert(net.w1@[i - 3] == word(bytes@, 3 + (i - 3)));
                } else if 3 + W1_LEN <= i < 3 + W1_LEN + HIDDEN {
                    let k = i - 3 - W1_LEN;
                    assert(net.b1@[k] == word(bytes@, 3 + W1_LEN + k));
                } else if 3 + W1_LEN + HIDDEN <= i < FILE_WORDS - 1 {
                    let k = i - 3 - W1_LEN - HIDDEN;
                    assert(net.w2@[k] == word(bytes@, 3 + W1_LEN + HIDDEN + k));
                }
            }
        }
        Some(net)
    }

    /// Serialize this net in the format that [`Net::from_bytes`] reads.
    pub fn to_bytes(&self) -> (r: Vec<u8>)
        requires
            self.sized(),
        ensures
            is_file_of(r@, *self),
            is_file(r@),
            r@.take(4) == seq![0x4Eu8, 0x4Eu8, 0x55u8, 0x45u8],
    {
        let mut buf: Vec<u8> = Vec::new();
        push_word(&mut buf, MAGIC);
        push_word(&mut buf, HIDDEN as u32);
        push_word(&mut buf, NUM_FEATURES as u32);
        let ghost header = buf@;
        assert(word(header, 0) == MAGIC && word(header, 1) == HIDDEN && word(header, 2)
            == NUM_FEATURES);
        push_words(&mut buf, &self.w1);
        let ghost with_w1 = buf@;
        push_words(&mut buf, &self.b1);
        let ghost with_b1 = buf@;
        push_words(&mut buf, &self.w2);
        let ghost with_w2 = buf@;
        push_word(&mut buf, self.b2);
        proof {
            assert forall|i: int| 0 <= i < FILE_WORDS implies #[trigger] word(buf@, i)
                == file_word(*self, i) by {
                if i < 3 {
                    assert(word(buf@, i) == word(header, i));
                } else if i < 3 + W1_LEN {
                    assert(word(with_w1, i) == self.w1@[i - 3]);
                } else if i < 3 + W1_LEN + HIDDEN {
                    assert(word(with_b1, i) == self.b1@[i - 3 - W1_LEN]);
                } else if i < FILE_WORDS - 1 {
                    assert(word(with_w2, i) == self.w2@[i - 3 - W1_LEN - HIDDEN]);
                }
            }
            assert(word(buf@, 0) == file_word(*self, 0));
            assert(word(buf@, 1) == file_word(*self, 1));
            assert(word(buf@, 2) == file_word(*self, 2));
        }
        buf
    }
}

/// Reading gives back what was written: a file holds the weights of one network
/// only.
pub proof fn law_file_round_trip(bytes: Seq<u8>, written: Net, read: Net)
    requires
        written.sized(),
        read.sized(),
        is_file_of(bytes, written),
        is_file_of(bytes, read),
    ensures
        read.w1@ == written.w1@,
        read.b1@ == written.b1@,
        read.w2@ == written.w2@,
        read.b2 == written.b2,
{
    assert forall|i: int| 0 <= i < W1_LEN implies read.w1@[i] == written.w1@[i] by {
        assert(word(bytes, i + 3) == file_word(written, i + 3));
        assert(word(bytes, i + 3) == file_word(read, i + 3));
    }
    assert forall|i: int| 0 <= i < HIDDEN implies read.b1@[i] == written.b1@[i] by {
        let k = i + 3 + W1_LEN;
        assert(word(bytes, k) == file_word(written, k));
        assert(word(bytes, k) == file_word(read, k));
    }
    assert forall|i: int| 0 <= i < W2_LEN implies read.w2@[i] == written.w2@[i] by {
        let k = i + 3 + W1_LEN + HIDDEN;
        assert(word(bytes, k) == file_word(written, k));
        assert(word(bytes, k) == file_word(read, k));
    }
    assert(word(bytes, FILE_WORDS - 1) == file_word(written, FILE_WORDS - 1));
    assert(word(bytes, FILE_WORDS - 1) == file_word(read, FILE_WORDS - 1));
    assert(read.w1@ =~= written.w1@);
    assert(read.b1@ =~= written.b1@);
    assert(read.w2@ =~= written.w2@);
}

// ---------------------------------------------------------------------------
// The accumulator.
// ---------------------------------------------------------------------------

/// `x` reduced to the range of 16 bits.
pub open spec fn wrap16(x: int) -> int {
    (x + 32768) % 65536 - 32768
}

/// `x` reduced to the range of 32 bits.
pub open spec fn wrap32(x: int) -> int {
    (x + 2147483648) % 4294967296 - 2147483648
}

/// The weight from a feature into hidden neuron `j`.
pub open spec fn weight(net: Net, f: int, j: int) -> int {
    net.quant.columns()[f * 256 + j] as int
}

/// What a square contributes to hidden neuron `j`, seen from `perspective` with its
/// king on `king_sq`.
pub open spec fn contribution(
    net: Net,
    perspective: Color,
    king_sq: Square,
    cell: Option<Piece>,
    i: int,
    j: int,
) -> int {
    match cell {
        Some(p) => weight(
            net,
            feature(perspective, king_sq, p.color, p.piece_type, Square(i as u8)),
            j,
        ),
        None => 0,
    }
}

/// What the squares below `n` contribute to hidden neuron `j`.
pub open spec fn contributions(
    net: Net,
    perspective: Color,
    king_sq: Square,
    board: Seq<Option<Piece>>,
    n: int,
    j: int,
) -> int
    decreases n,
{
    if n <= 0 {
        0
    } else {
        contributions(net, perspective, king_sq, board, n - 1, j) + contribution(
            net,
            perspective,
            king_sq,
            board[n - 1],
            n - 1,
            j,
        )
    }
}

/// Hidden neuron `j` of a board, seen from `perspective` with its king on
/// `king_sq`: the bias plus the weights of the active features.
pub open spec fn neuron(
    net: Net,
    perspective: Color,
    king_sq: Square,
    board: Seq<Option<Piece>>,
    j: int,
) -> int {
    wrap16(
        net.quant.biases()[j] + contributions(net, perspective, king_sq, board, 64, j),
    )
}

/// The square of a color's king.
pub open spec fn king_of(s: State, c: Color) -> Square {
    Square(s.king(c) as u8)
}

/// The hidden vector of a position from one perspective.
pub open spec fn hidden(net: Net, s: State, c: Color) -> Seq<int> {
    Seq::new(HIDDEN as nat, |j: int| neuron(net, c, king_of(s, c), s.board, j))
}

/// The two layer-1 hidden vectors (one per perspective color), maintained
/// incrementally so that evaluation never re-scans the board.
#[derive(Clone, Copy)]
pub struct Accumulator {
    pub white: [i16; HIDDEN],
    pub black: [i16; HIDDEN],
    /// The king squares this accumulator is bucketed on.
    pub white_king: Square,
    pub black_king: Square,
}

/// The values of a vector.
pub open spec fn values(v: Seq<i16>) -> Seq<int> {
    v.map_values(|x: i16| x as int)
}

/// A vector changed by a multiple of the column of feature `f`.
pub open spec fn shifted(net: Net, v: Seq<i16>, f: int, sign: int) -> Seq<int> {
    Seq::new(HIDDEN as nat, |j: int| wrap16(v[j] + sign * weight(net, f, j)))
}

/// Adding to a reduced number and reducing again loses nothing.
pub proof fn lemma_wrap(x: int, y: int)
    ensures
        wrap16(wrap16(x) + y) == wrap16(x + y),
        wrap32(wrap32(x) + y) == wrap32(x + y),
{
    vstd::arithmetic::div_mod::lemma_add_mod_noop_right(y, x + 32768, 65536);
    vstd::arithmetic::div_mod::lemma_add_mod_noop_right(y, x + 2147483648, 4294967296);
}

/// Taking a column out is the exact inverse of adding it: a vector to which it was
/// added, and from which it was then taken, is back to what it was.
pub proof fn law_remove_undoes_add(net: Net, before: Seq<i16>, added: Seq<i16>, f: int)
    requires
        before.len() == HIDDEN,
        added.len() == HIDDEN,
        values(added) == shifted(net, before, f, 1),
    ensures
        shifted(net, added, f, -1) == values(before),
{
    assert forall|j: int| 0 <= j < HIDDEN implies shifted(net, added, f, -1)[j] == values(
        before,
    )[j] by {
        let w = weight(net, f, j);
        assert(values(added)[j] == added[j]);
        lemma_wrap(before[j] + w, -w);
    }
    assert(shifted(net, added, f, -1) =~= values(before));
}

/// Add the column of feature `f` to `acc`.
fn add_column(acc: &mut [i16; HIDDEN], net: &Net, f: usize)
    requires
        net.ready(),
        f < NUM_FEATURES,
    ensures
        values(final(acc)@) == shifted(*net, old(acc)@, f as int, 1),
{
    let mut j: usize = 0;
    while j < HIDDEN
        invariant
            j <= HIDDEN,
            net.ready(),
            f < NUM_FEATURES,
            forall|i: int|
                0 <= i < 256 ==> #[trigger] acc@[i] == (if i < j {
                    wrap16(old(acc)@[i] + weight(*net, f as int, i))
                } else {
                    old(acc)@[i] as int
                }),
        decreases HIDDEN - j,
    {
        let w: i16 = net.quant.w1t_q[f * HIDDEN + j];
        acc[j] = acc[j].wrapping_add(w);
        j = j + 1;
    }
    assert(values(acc@) =~= shifted(*net, old(acc)@, f as int, 1));
}

/// Subtract the column of feature `f` from `acc`: the inverse of [`add_column`].
fn sub_column(acc: &mut [i16; HIDDEN], net: &Net, f: usize)
    requires
        net.ready(),
        f < NUM_FEATURES,
    ensures
        values(final(acc)@) == shifted(*net, old(acc)@, f as int, -1),
{
    let mut j: usize = 0;
    while j < HIDDEN
        invariant
            j <= HIDDEN,
            net.ready(),
            f < NUM_FEATURES,
            forall|i: int|
                0 <= i < 256 ==> #[trigger] acc@[i] == (if i < j {
                    wrap16(old(acc)@[i] - weight(*net, f as int, i))
                } else {
                    old(acc)@[i] as int
                }),
        decreases HIDDEN - j,
    {
        let w: i16 = net.quant.w1t_q[f * HIDDEN + j];
        acc[j] = acc[j].wrapping_sub(w);
        j = j + 1;
    }
    assert(values(acc@) =~= shifted(*net, old(acc)@, f as int, -1));
}

/// Do two vectors agree element for element?
fn same_vector(a: &[i16; HIDDEN], b: &[i16; HIDDEN]) -> (r: bool)
    ensures
        r == (a@ == b@),
{
    let mut j: usize = 0;
    while j < HIDDEN
        invariant
            j <= HIDDEN,
            forall|i: int| 0 <= i < j ==> #[trigger] a@[i] == b@[i],
        decreases HIDDEN - j,
    {
        if a[j] != b[j] {
            return false;
        }
        j = j + 1;
    }
    assert(a@ =~= b@);
    true
}

/// The change that a piece coming to or leaving a square makes to hidden neuron
/// `j`.
pub open spec fn piece_weight(
    net: Net,
    perspective: Color,
    king_sq: Square,
    c: Color,
    pt: PieceType,
    sq: Square,
    j: int,
) -> int {
    weight(net, feature(perspective, king_sq, c, pt, sq), j)
}

/// What leaves the destination square.
pub open spec fn victim_weight(
    net: Net,
    perspective: Color,
    king_sq: Square,
    s: State,
    sq: Square,
    j: int,
) -> int {
    contribution(net, perspective, king_sq, s.at(sq), sq.0 as int, j)
}

/// The change that a move of a piece other than the king makes to hidden neuron
/// `j`.
pub open spec fn move_change(
    net: Net,
    perspective: Color,
    king_sq: Square,
    s: State,
    m: Move,
    j: int,
) -> int {
    let us = s.side;
    let from = m.from_sq();
    let to = m.to_sq();
    let pt = s.at(from)->0.piece_type;
    match m.move_type() {
        MoveType::Normal => piece_weight(net, perspective, king_sq, us, pt, to, j) - piece_weight(
            net,
            perspective,
            king_sq,
            us,
            pt,
            from,
            j,
        ) - victim_weight(net, perspective, king_sq, s, to, j),
        MoveType::Promotion => piece_weight(
            net,
            perspective,
            king_sq,
            us,
            m.promotion_type(),
            to,
            j,
        ) - piece_weight(net, perspective, king_sq, us, PieceType::Pawn, from, j) - victim_weight(
            net,
            perspective,
            king_sq,
            s,
            to,
            j,
        ),
        MoveType::EnPassant => piece_weight(net, perspective, king_sq, us, PieceType::Pawn, to, j)
            - piece_weight(net, perspective, king_sq, us, PieceType::Pawn, from, j) - piece_weight(
            net,
            perspective,
            king_sq,
            us.flip(),
            PieceType::Pawn,
            state::ep_victim(from, to),
            j,
        ),
        MoveType::Castling => piece_weight(
            net,
            perspective,
            king_sq,
            us,
            PieceType::King,
            state::king_target(from, to),
            j,
        ) - piece_weight(net, perspective, king_sq, us, PieceType::King, from, j) + piece_weight(
            net,
            perspective,
            king_sq,
            us,
            PieceType::Rook,
            state::rook_target(from, to),
            j,
        ) - piece_weight(net, perspective, king_sq, us, PieceType::Rook, to, j),
    }
}

/// The piece on the origin square is a king.
pub open spec fn moves_king(s: State, m: Move) -> bool {
    s.at(m.from_sq()) matches Some(p) && p.piece_type == PieceType::King
}

/// The move is what its kind says: an own piece other than the king moves, a
/// promotion and an en-passant capture are made by a pawn, an en-passant capture
/// takes an enemy pawn, and no king is captured.
pub open spec fn is_plain(s: State, m: Move) -> bool {
    let from = m.from_sq();
    let to = m.to_sq();
    let pt = s.at(from)->0.piece_type;
    &&& s.at(from) == Some(Piece { color: s.side, piece_type: pt })
    &&& pt != PieceType::King
    &&& match m.move_type() {
        MoveType::Normal => from != to && (s.at(to) matches Some(p) ==> p.piece_type
            != PieceType::King),
        MoveType::Promotion => from != to && pt == PieceType::Pawn && (s.at(to) matches Some(p)
            ==> p.piece_type != PieceType::King),
        MoveType::EnPassant => {
            &&& pt == PieceType::Pawn
            &&& s.at(to) is None
            &&& s.at(state::ep_victim(from, to)) == Some(
                Piece { color: s.side.flip(), piece_type: PieceType::Pawn },
            )
            &&& state::ep_victim(from, to) != from
        },
        MoveType::Castling => false,
    }
}

impl Accumulator {
    /// The king squares are board squares.
    pub open spec fn valid(self) -> bool {
        self.white_king.valid() && self.black_king.valid()
    }

    /// The accumulator is that of the position, which has both kings.
    pub open spec fn describes(self, net: Net, s: State) -> bool {
        &&& s.has_king(Color::White)
        &&& s.has_king(Color::Black)
        &&& self.white_king == king_of(s, Color::White)
        &&& self.black_king == king_of(s, Color::Black)
        &&& values(self.white@) == hidden(net, s, Color::White)
        &&& values(self.black@) == hidden(net, s, Color::Black)
    }

    /// Build an accumulator from scratch for `pos`: seed each perspective from the
    /// biases, then add the column of every piece on the board.
    pub fn refresh(net: &Net, pos: &Position) -> (r: Accumulator)
        requires
            net.ready(),
            pos.wf(),
            pos@.has_king(Color::White),
            pos@.has_king(Color::Black),
        ensures
            r.valid(),
            r.describes(*net, pos@),
    {
        let white_king: Square = pos.king_square(Color::White);
        let black_king: Square = pos.king_square(Color::Black);
        let mut acc: Accumulator = Accumulator {
            white: [0;256],
            black: [0;256],
            white_king,
            black_king,
        };
        let mut j: usize = 0;
        while j < HIDDEN
            invariant
                j <= HIDDEN,
                net.ready(),
                acc.white_king == white_king,
                acc.black_king == black_king,
                forall|i: int| 0 <= i < j ==> #[trigger] acc.white@[i] == net.quant.biases()[i],
                forall|i: int| 0 <= i < j ==> #[trigger] acc.black@[i] == net.quant.biases()[i],
            decreases HIDDEN - j,
        {
            acc.white[j] = net.quant.b1_q[j];
            acc.black[j] = net.quant.b1_q[j];
            j = j + 1;
        }
        let mut i: u8 = 0;
        while i < 64
            invariant
                i <= 64,
                net.ready(),
                pos.wf(),
                acc.white_king == white_king,
                acc.black_king == black_king,
                white_king.valid(),
                black_king.valid(),
                forall|k: int|
                    0 <= k < 256 ==> #[trigger] acc.white@[k] == wrap16(
                        net.quant.biases()[k] + contributions(
                            *net,
                            Color::White,
                            white_king,
                            pos@.board,
                            i as int,
                            k,
                        ),
                    ),
                forall|k: int|
                    0 <= k < 256 ==> #[trigger] acc.black@[k] == wrap16(
                        net.quant.biases()[k] + contributions(
                            *net,
                            Color::Black,
                            black_king,
                            pos@.board,
                            i as int,
                            k,
                        ),
                    ),
            decreases 64 - i,
        {
            let sq: Square = Square(i);
            let ghost before = acc;
            if let Some(piece) = pos.piece_at(sq) {
                acc.add_piece(net, piece.color, piece.piece_type, sq);
                proof {
                    lemma_added_neuron(
                        *net,
                        Color::White,
                        white_king,
                        pos@.board,
                        i as int,
                        before.white@,
                        acc.white@,
                    );
                    lemma_added_neuron(
                        *net,
                        Color::Black,
                        black_king,
                        pos@.board,
                        i as int,
                        before.black@,
                        acc.black@,
                    );
                }
            }
            i = i + 1;
        }
        proof {
            assert(values(acc.white@) =~= hidden(*net, pos@, Color::White));
            assert(values(acc.black@) =~= hidden(*net, pos@, Color::Black));
        }
        acc
    }

    /// Whether two accumulators agree exactly, element for element.
    pub fn close_to(&self, other: &Accumulator) -> (r: bool)
        ensures
            r == (self.white@ == other.white@ && self.black@ == other.black@),
    {
        same_vector(&self.white, &other.white) && same_vector(&self.black, &other.black)
    }

    /// Add the columns of the piece `(color, pt)` on `sq` to both vectors.
    fn add_piece(&mut self, net: &Net, color: Color, pt: PieceType, sq: Square)
        requires
            net.ready(),
            old(self).valid(),
            sq.valid(),
        ensures
            final(self).white_king == old(self).white_king,
            final(self).black_king == old(self).black_king,
            values(final(self).white@) == shifted(
                *net,
                old(self).white@,
                feature(Color::White, old(self).white_king, color, pt, sq),
                1,
            ),
            values(final(self).black@) == shifted(
                *net,
                old(self).black@,
                feature(Color::Black, old(self).black_king, color, pt, sq),
                1,
            ),
    {
        let wf: usize = feature_index(Color::White, self.white_king, color, pt, sq);
        let bf: usize = feature_index(Color::Black, self.black_king, color, pt, sq);
        let mut white: [i16; HIDDEN] = self.white;
        let mut black: [i16; HIDDEN] = self.black;
        add_column(&mut white, net, wf);
        add_column(&mut black, net, bf);
        self.white = white;
        self.black = black;
    }

    /// Subtract the columns of the piece `(color, pt)` on `sq` from both vectors:
    /// the inverse of [`add_piece`](Accumulator::add_piece).
    fn remove_piece(&mut self, net: &Net, color: Color, pt: PieceType, sq: Square)
        requires
            net.ready(),
            old(self).valid(),
            sq.valid(),
        ensures
            final(self).white_king == old(self).white_king,
            final(self).black_king == old(self).black_king,
            values(final(self).white@) == shifted(
                *net,
                old(self).white@,
                feature(Color::White, old(self).white_king, color, pt, sq),
                -1,
            ),
            values(final(self).black@) == shifted(
                *net,
                old(self).black@,
                feature(Color::Black, old(self).black_king, color, pt, sq),
                -1,
            ),
    {
        let wf: usize = feature_index(Color::White, self.white_king, color, pt, sq);
        let bf: usize = feature_index(Color::Black, self.black_king, color, pt, sq);
        let mut white: [i16; HIDDEN] = self.white;
        let mut black: [i16; HIDDEN] = self.black;
        sub_column(&mut white, net, wf);
        sub_column(&mut black, net, bf);
        self.white = white;
        self.black = black;
    }
}

/// One more square added to the hidden vector.
proof fn lemma_added_neuron(
    net: Net,
    perspective: Color,
    king_sq: Square,
    board: Seq<Option<Piece>>,
    i: int,
    before: Seq<i16>,
    after: Seq<i16>,
)
    requires
        0 <= i < 64,
        board[i] is Some,
        before.len() == 256,
        after.len() == 256,
        forall|k: int|
            0 <= k < 256 ==> #[trigger] before[k] == wrap16(
                net.quant.biases()[k] + contributions(net, perspective, king_sq, board, i, k),
            ),
        values(after) == shifted(
            net,
            before,
            feature(
                perspective,
                king_sq,
                board[i]->0.color,
                board[i]->0.piece_type,
                Square(i as u8),
            ),
            1,
        ),
    ensures
        forall|k: int|
            0 <= k < 256 ==> #[trigger] after[k] == wrap16(
                net.quant.biases()[k] + contributions(net, perspective, king_sq, board, i + 1, k),
            ),
{
    let p = board[i]->0;
    let f = feature(perspective, king_sq, p.color, p.piece_type, Square(i as u8));
    assert forall|k: int| 0 <= k < 256 implies #[trigger] after[k] == wrap16(
        net.quant.biases()[k] + contributions(net, perspective, king_sq, board, i + 1, k),
    ) by {
        assert(values(after)[k] == after[k]);
        assert(shifted(net, before, f, 1)[k] == wrap16(before[k] + weight(net, f, k)));
        lemma_wrap(
            net.quant.biases()[k] + contributions(net, perspective, king_sq, board, i, k),
            weight(net, f, k),
        );
    }
}

/// `now` is `start` changed by `change`, neuron by neuron.
spec fn changed_by(start: Seq<i16>, now: Seq<i16>, change: Seq<int>) -> bool {
    &&& start.len() == 256
    &&& now.len() == 256
    &&& change.len() == 256
    &&& forall|j: int| 0 <= j < 256 ==> #[trigger] now[j] == wrap16(start[j] + change[j])
}

/// One more column added or subtracted.
proof fn lemma_change_step(
    net: Net,
    start: Seq<i16>,
    before: Seq<i16>,
    after: Seq<i16>,
    change: Seq<int>,
    f: int,
    sign: int,
) -> (next: Seq<int>)
    requires
        changed_by(start, before, change),
        after.len() == 256,
        values(after) == shifted(net, before, f, sign),
    ensures
        changed_by(start, after, next),
        forall|j: int| 0 <= j < 256 ==> #[trigger] next[j] == change[j] + sign * weight(net, f, j),
{
    let next = Seq::new(256, |j: int| change[j] + sign * weight(net, f, j));
    assert forall|j: int| 0 <= j < 256 implies #[trigger] after[j] == wrap16(
        start[j] + next[j],
    ) by {
        assert(values(after)[j] == after[j]);
        assert(shifted(net, before, f, sign)[j] == wrap16(before[j] + sign * weight(net, f, j)));
        lemma_wrap(start[j] + change[j], sign * weight(net, f, j));
    }
    next
}

/// A vector is itself, unchanged.
proof fn lemma_unchanged(v: Seq<i16>) -> (none: Seq<int>)
    requires
        v.len() == 256,
    ensures
        changed_by(v, v, none),
        forall|j: int| 0 <= j < 256 ==> #[trigger] none[j] == 0,
{
    Seq::new(256, |j: int| 0int)
}

/// The vector after the change that a move makes.
pub open spec fn moved(net: Net, v: Seq<i16>, c: Color, king_sq: Square, s: State, m: Move) -> Seq<
    int,
> {
    Seq::new(
        HIDDEN as nat,
        |j: int| wrap16(v[j] + move_change(net, c, king_sq, s, m, j)),
    )
}

impl Accumulator {
    /// The parts of [`apply_move`](Accumulator::apply_move) for a piece other than
    /// the king: the columns that the move touches, and no others.
    fn diff(net: &Net, parent: &Accumulator, pos_before: &Position, m: Move) -> (r: Accumulator)
        requires
            net.ready(),
            parent.valid(),
            pos_before.wf(),
            pos_before@.at(m.from_sq()) is Some,
        ensures
            r.white_king == parent.white_king,
            r.black_king == parent.black_king,
            values(r.white@) == moved(
                *net,
                parent.white@,
                Color::White,
                parent.white_king,
                pos_before@,
                m,
            ),
            values(r.black@) == moved(
                *net,
                parent.black@,
                Color::Black,
                parent.black_king,
                pos_before@,
                m,
            ),
    {
        let us: Color = pos_before.side_to_move();
        let them: Color = us.flip();
        let from: Square = m.from_sq();
        let to: Square = m.to_sq();  // the rook's square for castling
        let moving: Piece = pos_before.piece_at(from).unwrap();
        let (gone, come): (PieceType, PieceType) = match m.move_type() {
            MoveType::Normal => (moving.piece_type, moving.piece_type),
            MoveType::Promotion => (PieceType::Pawn, m.promotion_type()),
            MoveType::EnPassant => (PieceType::Pawn, PieceType::Pawn),
            MoveType::Castling => (PieceType::King, PieceType::King),
        };
        let landing: Square = if m.move_type() == MoveType::Castling {
            position::castling_targets(from, to).0
        } else {
            to
        };
        let ghost w = parent.white_king;
        let ghost b = parent.black_king;
        let mut acc: Accumulator = *parent;
        let ghost mut dw = lemma_unchanged(parent.white@);
        let ghost mut db = lemma_unchanged(parent.black@);

        // The mover leaves its square and arrives on another.
        let ghost before = acc;
        acc.remove_piece(net, us, gone, from);
        proof {
            dw = lemma_change_step(
                *net,
                parent.white@,
                before.white@,
                acc.white@,
                dw,
                feature(Color::White, w, us, gone, from),
                -1,
            );
            db = lemma_change_step(
                *net,
                parent.black@,
                before.black@,
                acc.black@,
                db,
                feature(Color::Black, b, us, gone, from),
                -1,
            );
        }
        let ghost before = acc;
        acc.add_piece(net, us, come, landing);
        proof {
            dw = lemma_change_step(
                *net,
                parent.white@,
                before.white@,
                acc.white@,
                dw,
                feature(Color::White, w, us, come, landing),
                1,
            );
            db = lemma_change_step(
                *net,
                parent.black@,
                before.black@,
                acc.black@,
                db,
                feature(Color::Black, b, us, come, landing),
                1,
            );
        }

        // What else the move touches: a captured piece, or the castling rook.
        match m.move_type() {
            MoveType::Normal | MoveType::Promotion => {
                if let Some(cap) = pos_before.piece_at(to) {
                    let ghost before = acc;
                    acc.remove_piece(net, cap.color, cap.piece_type, to);
                    proof {
                        dw = lemma_change_step(
                            *net,
                            parent.white@,
                            before.white@,
                            acc.white@,
                            dw,
                            feature(Color::White, w, cap.color, cap.piece_type, to),
                            -1,
                        );
                        db = lemma_change_step(
                            *net,
                            parent.black@,
                            before.black@,
                            acc.black@,
                            db,
                            feature(Color::Black, b, cap.color, cap.piece_type, to),
                            -1,
                        );
                    }
                }
            },
            MoveType::EnPassant => {
                // The captured pawn sits on the square with `to`'s file and `from`'s
                // rank.
                let cap_sq: Square = Square::make(to.file(), from.rank());
                let ghost before = acc;
                acc.remove_piece(net, them, PieceType::Pawn, cap_sq);
                proof {
                    dw = lemma_change_step(
                        *net,
                        parent.white@,
                        before.white@,
                        acc.white@,
                        dw,
                        feature(Color::White, w, them, PieceType::Pawn, cap_sq),
                        -1,
                    );
                    db = lemma_change_step(
                        *net,
                        parent.black@,
                        before.black@,
                        acc.black@,
                        db,
                        feature(Color::Black, b, them, PieceType::Pawn, cap_sq),
                        -1,
                    );
                }
            },
            MoveType::Castling => {
                let rook_to: Square = position::castling_targets(from, to).1;
                let ghost before = acc;
                acc.remove_piece(net, us, PieceType::Rook, to);
                proof {
                    dw = lemma_change_step(
                        *net,
                        parent.white@,
                        before.white@,
                        acc.white@,
                        dw,
                        feature(Color::White, w, us, PieceType::Rook, to),
                        -1,
                    );
                    db = lemma_change_step(
                        *net,
                        parent.black@,
                        before.black@,
                        acc.black@,
                        db,
                        feature(Color::Black, b, us, PieceType::Rook, to),
                        -1,
                    );
                }
                let ghost before = acc;
                acc.add_piece(net, us, PieceType::Rook, rook_to);
                proof {
                    dw = lemma_change_step(
                        *net,
                        parent.white@,
                        before.white@,
                        acc.white@,
                        dw,
                        feature(Color::White, w, us, PieceType::Rook, rook_to),
                        1,
                    );
                    db = lemma_change_step(
                        *net,
                        parent.black@,
                        before.black@,
                        acc.black@,
                        db,
                        feature(Color::Black, b, us, PieceType::Rook, rook_to),
                        1,
                    );
                }
            },
        }
        proof {
            let s = pos_before@;
            assert forall|j: int| 0 <= j < 256 implies #[trigger] dw[j] == move_change(
                *net,
                Color::White,
                w,
                s,
                m,
                j,
            ) by {}
            assert forall|j: int| 0 <= j < 256 implies #[trigger] db[j] == move_change(
                *net,
                Color::Black,
                b,
                s,
                m,
                j,
            ) by {}
            assert(values(acc.white@) =~= moved(*net, parent.white@, Color::White, w, s, m)) by {
                assert forall|j: int| 0 <= j < 256 implies values(acc.white@)[j] == moved(
                    *net,
                    parent.white@,
                    Color::White,
                    w,
                    s,
                    m,
                )[j] by {
                    assert(acc.white@[j] == wrap16(parent.white@[j] + dw[j]));
                }
            }
            assert(values(acc.black@) =~= moved(*net, parent.black@, Color::Black, b, s, m)) by {
                assert forall|j: int| 0 <= j < 256 implies values(acc.black@)[j] == moved(
                    *net,
                    parent.black@,
                    Color::Black,
                    b,
                    s,
                    m,
                )[j] by {
                    assert(acc.black@[j] == wrap16(parent.black@[j] + db[j]));
                }
            }
        }
        acc
    }

    /// Produce the accumulator for the position *after* `m` is played, given the
    /// `parent` accumulator and the position *before* the move.
    ///
    /// Only the features touched by the move are updated, except that a king move
    /// changes that side's king bucket and so rebuilds both vectors.
    pub fn apply_move(
        net: &Net,
        parent: &Accumulator,
        pos_before: &Position,
        m: Move,
    ) -> (r: Accumulator)
        requires
            net.ready(),
            parent.valid(),
            pos_before.wf(),
            pos_before@.at(m.from_sq()) is Some,
            moves_king(pos_before@, m) ==> {
                &&& pos_before@.movable(m)
                &&& pos_before@.clocks_fit(m)
                &&& pos_before@.make(m).has_king(Color::White)
                &&& pos_before@.make(m).has_king(Color::Black)
            },
        ensures
            r.valid(),
            moves_king(pos_before@, m) ==> r.describes(*net, pos_before@.make(m)),
            !moves_king(pos_before@, m) ==> {
                &&& r.white_king == parent.white_king
                &&& r.black_king == parent.black_king
                &&& values(r.white@) == moved(
                    *net,
                    parent.white@,
                    Color::White,
                    parent.white_king,
                    pos_before@,
                    m,
                )
                &&& values(r.black@) == moved(
                    *net,
                    parent.black@,
                    Color::Black,
                    parent.black_king,
                    pos_before@,
                    m,
                )
            },
            parent.describes(*net, pos_before@) && is_plain(pos_before@, m) ==> r.describes(
                *net,
                pos_before@.make(m),
            ),
    {
        let moving: Piece = pos_before.piece_at(m.from_sq()).unwrap();
        if moving.piece_type == PieceType::King {
            let mut after: Position = *pos_before;
            after.make_move(m);
            return Accumulator::refresh(net, &after);
        }
        let r: Accumulator = Accumulator::diff(net, parent, pos_before, m);
        proof {
            if parent.describes(*net, pos_before@) && is_plain(pos_before@, m) {
                law_update_is_refresh(*net, *parent, r, pos_before@, m);
            }
        }
        r
    }
}

/// A change of one square changes the contributions by the two pieces involved.
proof fn lemma_contributions_update(
    net: Net,
    perspective: Color,
    king_sq: Square,
    board: Seq<Option<Piece>>,
    i: int,
    cell: Option<Piece>,
    n: int,
    j: int,
)
    requires
        0 <= i < board.len(),
        0 <= n <= board.len(),
    ensures
        contributions(net, perspective, king_sq, board.update(i, cell), n, j) == contributions(
            net,
            perspective,
            king_sq,
            board,
            n,
            j,
        ) + (if i < n {
            contribution(net, perspective, king_sq, cell, i, j) - contribution(
                net,
                perspective,
                king_sq,
                board[i],
                i,
                j,
            )
        } else {
            0
        }),
    decreases n,
{
    if n > 0 {
        lemma_contributions_update(net, perspective, king_sq, board, i, cell, n - 1, j);
    }
}

/// A plain move changes the contributions by just what the update adds and
/// subtracts.
proof fn lemma_plain_change(
    net: Net,
    perspective: Color,
    king_sq: Square,
    s: State,
    m: Move,
    j: int,
)
    requires
        s.valid(),
        is_plain(s, m),
    ensures
        contributions(net, perspective, king_sq, s.make(m).board, 64, j) == contributions(
            net,
            perspective,
            king_sq,
            s.board,
            64,
            j,
        ) + move_change(net, perspective, king_sq, s, m, j),
{
    let from = m.from_sq();
    let to = m.to_sq();
    let f = from.0 as int;
    let t = to.0 as int;
    let v = state::ep_victim(from, to).0 as int;
    let b0 = s.board;
    let b1 = if m.move_type() == MoveType::EnPassant {
        b0.update(v, None)
    } else {
        b0
    };
    let b2 = b1.update(f, None);
    let cell = s.make(m).board[t];
    let b3 = b2.update(t, cell);
    assert(s.make(m).board =~= b3);
    if m.move_type() == MoveType::EnPassant {
        lemma_contributions_update(net, perspective, king_sq, b0, v, None, 64, j);
    }
    lemma_contributions_update(net, perspective, king_sq, b1, f, None, 64, j);
    lemma_contributions_update(net, perspective, king_sq, b2, t, cell, 64, j);
}

/// A plain move leaves both kings where they are.
proof fn lemma_plain_keeps_kings(s: State, m: Move, c: Color)
    requires
        s.valid(),
        s.has_king(c),
        is_plain(s, m),
    ensures
        s.make(m).has_king(c),
        s.make(m).king(c) == s.king(c),
{
    legality::lemma_king_exists(s, c);
    let after = s.make(m);
    let k = s.king(c);
    assert(after.holds(k, c, PieceType::King));
    assert forall|i: int| #[trigger] after.holds(i, c, PieceType::King) implies k <= i by {
        assert(s.holds(i, c, PieceType::King));
    }
    state::lemma_king(after, c, k);
}

/// The incremental update of a plain move is the accumulator of the position
/// after the move, exactly.
pub proof fn law_update_is_refresh(
    net: Net,
    parent: Accumulator,
    child: Accumulator,
    s: State,
    m: Move,
)
    requires
        s.valid(),
        is_plain(s, m),
        parent.valid(),
        parent.describes(net, s),
        child.white_king == parent.white_king,
        child.black_king == parent.black_king,
        values(child.white@) == moved(net, parent.white@, Color::White, parent.white_king, s, m),
        values(child.black@) == moved(net, parent.black@, Color::Black, parent.black_king, s, m),
    ensures
        child.describes(net, s.make(m)),
{
    lemma_plain_keeps_kings(s, m, Color::White);
    lemma_plain_keeps_kings(s, m, Color::Black);
    lemma_moved_hidden(net, parent.white@, s, m, Color::White);
    lemma_moved_hidden(net, parent.black@, s, m, Color::Black);
}

proof fn lemma_moved_hidden(net: Net, v: Seq<i16>, s: State, m: Move, c: Color)
    requires
        s.valid(),
        is_plain(s, m),
        s.make(m).king(c) == s.king(c),
        v.len() == 256,
        values(v) == hidden(net, s, c),
    ensures
        moved(net, v, c, king_of(s, c), s, m) == hidden(net, s.make(m), c),
{
    let k = king_of(s, c);
    let after = s.make(m);
    assert forall|j: int| 0 <= j < 256 implies moved(net, v, c, k, s, m)[j] == hidden(
        net,
        after,
        c,
    )[j] by {
        assert(values(v)[j] == v[j]);
        assert(hidden(net, s, c)[j] == neuron(net, c, k, s.board, j));
        assert(hidden(net, after, c)[j] == neuron(net, c, k, after.board, j));
        lemma_plain_change(net, c, k, s, m, j);
        lemma_wrap(
            net.quant.biases()[j] + contributions(net, c, k, s.board, 64, j),
            move_change(net, c, k, s, m, j),
        );
    }
    assert(moved(net, v, c, k, s, m) =~= hidden(net, after, c));
}

/// Every legal move of a regular position moves the king or is plain, so that the
/// accumulator can follow any line of play.
pub proof fn law_legal_moves_are_plain(s: State, m: Move)
    requires
        legality::regular(s),
        legality::is_legal(s, m),
    ensures
        s.at(m.from_sq()) is Some,
        moves_king(s, m) || is_plain(s, m),
        s.make(m).has_king(Color::White),
        s.make(m).has_king(Color::Black),
{
    let them = s.side.flip();
    legality::lemma_regular_sound(s);
    legality::lemma_legal_playable(s, m);
    legality::lemma_kings_preserved(s, m);
    legality::lemma_king_exists(s, s.side);
    legality::lemma_king_exists(s, them);
    if m.move_type() == MoveType::EnPassant {
        legality::lemma_ep_shape(s, m);
    } else if m.move_type() != MoveType::Castling {
        legality::lemma_move_shape(s, m);
        legality::lemma_king_not_captured(s, m);
        if s.at(m.to_sq()) matches Some(p) && p.piece_type == PieceType::King {
            let p = s.at(m.to_sq())->0;
            assert(s.holds(m.to_sq().0 as int, p.color, PieceType::King));
            assert(s.holds(s.king(them), them, PieceType::King));
        }
    } else {
        legality::lemma_castling_kind(s, m);
        Move::lemma_parts(crate::movegen::own_king(s), m.to_sq(), 0, MoveType::Castling);
    }
}

// ---------------------------------------------------------------------------
// The output.
// ---------------------------------------------------------------------------

/// The clamped activation of a hidden neuron.
pub open spec fn activation(x: int) -> int {
    if x < 0 {
        0
    } else if x > QA {
        QA as int
    } else {
        x
    }
}

/// Quantized clamped ReLU: clamp a hidden neuron to `[0, QA]` and widen it for the
/// layer-2 dot product.
pub fn crelu_q(x: i16) -> (r: i32)
    ensures
        r == activation(x as int),
        0 <= r <= QA,
{
    let wide: i32 = x as i32;
    if wide < 0 {
        0
    } else if wide > QA {
        QA
    } else {
        wide
    }
}

/// The layer-2 dot product over the first `n` neurons of both halves.
pub open spec fn dot(net: Net, stm: Seq<int>, nstm: Seq<int>, n: int) -> int
    decreases n,
{
    if n <= 0 {
        0
    } else {
        dot(net, stm, nstm, n - 1) + activation(stm[n - 1]) * net.quant.outputs()[n - 1]
            + activation(nstm[n - 1]) * net.quant.outputs()[256 + n - 1]
    }
}

/// The raw output for two hidden vectors, side to move first.
pub open spec fn raw_output(net: Net, stm: Seq<int>, nstm: Seq<int>) -> int {
    wrap32(dot(net, stm, nstm, 256))
}

/// The raw output for a position.
pub open spec fn position_output(net: Net, s: State) -> int {
    raw_output(net, hidden(net, s, s.side), hidden(net, s, s.side.flip()))
}

/// The raw output for an accumulator.
pub open spec fn accumulator_output(net: Net, acc: Accumulator, stm: Color) -> int {
    match stm {
        Color::White => raw_output(net, values(acc.white@), values(acc.black@)),
        Color::Black => raw_output(net, values(acc.black@), values(acc.white@)),
    }
}

impl Net {
    /// The raw integer layer-2 dot product over the combined hidden vector
    /// (side-to-move half first), not yet scaled back.
    pub fn output_q(&self, acc_stm: &[i16; HIDDEN], acc_nstm: &[i16; HIDDEN]) -> (r: i32)
        requires
            self.ready(),
        ensures
            r == raw_output(*self, values(acc_stm@), values(acc_nstm@)),
    {
        let ghost a = values(acc_stm@);
        let ghost b = values(acc_nstm@);
        let mut sum: i32 = 0;
        let mut j: usize = 0;
        while j < HIDDEN
            invariant
                j <= HIDDEN,
                self.ready(),
                a == values(acc_stm@),
                b == values(acc_nstm@),
                sum == wrap32(dot(*self, a, b, j as int)),
            decreases HIDDEN - j,
        {
            let x: i32 = crelu_q(acc_stm[j]);
            let y: i32 = crelu_q(acc_nstm[j]);
            let v: i32 = self.quant.w2_q[j] as i32;
            let w: i32 = self.quant.w2_q[HIDDEN + j] as i32;
            proof {
                assert(a[j as int] == acc_stm@[j as int]);
                assert(b[j as int] == acc_nstm@[j as int]);
                lemma_product(x as int, v as int);
                lemma_product(y as int, w as int);
            }
            let p: i32 = x * v;
            let q: i32 = y * w;
            proof {
                let d = dot(*self, a, b, j as int);
                lemma_accumulate(d, sum, p);
                lemma_accumulate(d + p, sum.wrapping_add(p), q);
                assert(dot(*self, a, b, j + 1) == d + p + q);
            }
            sum = sum.wrapping_add(p).wrapping_add(q);
            j = j + 1;
        }
        sum
    }

    /// The raw output from a maintained [`Accumulator`], for the given side to move.
    pub fn output_acc(&self, acc: &Accumulator, stm: Color) -> (r: i32)
        requires
            self.ready(),
        ensures
            r == accumulator_output(*self, *acc, stm),
    {
        match stm {
            Color::White => self.output_q(&acc.white, &acc.black),
            Color::Black => self.output_q(&acc.black, &acc.white),
        }
    }

    /// The raw output for a position, from scratch.
    pub fn output(&self, pos: &Position) -> (r: i32)
        requires
            self.ready(),
            pos.wf(),
            pos@.has_king(Color::White),
            pos@.has_king(Color::Black),
        ensures
            r == position_output(*self, pos@),
    {
        let acc: Accumulator = Accumulator::refresh(self, pos);
        self.output_acc(&acc, pos.side_to_move())
    }
}

/// Adding to a reduced sum reduces the sum.
proof fn lemma_accumulate(d: int, sum: i32, x: i32)
    requires
        sum == wrap32(d),
    ensures
        sum.wrapping_add(x) == wrap32(d + x),
{
    lemma_wrap(d, x as int);
}

/// An activation times a weight stays far inside the range of 32 bits.
proof fn lemma_product(x: int, w: int)
    by (nonlinear_arith)
    requires
        0 <= x <= 512,
        -32768 <= w <= 32767,
    ensures
        -16777216 <= x * w <= 16777216,
{
}

/// Evaluating a maintained accumulator is evaluating its position.
pub proof fn law_accumulator_output_is_position_output(net: Net, acc: Accumulator, s: State)
    requires
        acc.describes(net, s),
    ensures
        accumulator_output(net, acc, s.side) == position_output(net, s),
{
}

/// A weight of zero quantizes to zero.
pub proof fn law_zero_quantizes_to_zero()
    ensures
        quantize(0) == 0,
{
    lemma_vanishes(0, 140);
}

/// Without layer-2 weights every position evaluates to zero.
pub proof fn law_zero_weights_output_zero(net: Net, s: State)
    requires
        net.derived(),
        net.w2@ == Seq::new(W2_LEN as nat, |i: int| 0u32),
    ensures
        position_output(net, s) == 0,
{
    law_zero_quantizes_to_zero();
    assert forall|i: int| 0 <= i < 512 implies #[trigger] net.quant.outputs()[i] == 0 by {
        assert(quantized(net.w2@)[i] == quantize(net.w2@[i]));
    }
    lemma_zero_dot(net, hidden(net, s, s.side), hidden(net, s, s.side.flip()), 256);
}

proof fn lemma_zero_dot(net: Net, a: Seq<int>, b: Seq<int>, n: int)
    requires
        0 <= n <= 256,
        forall|i: int| 0 <= i < 512 ==> #[trigger] net.quant.outputs()[i] == 0,
    ensures
        dot(net, a, b, n) == 0,
    decreases n,
{
    if n > 0 {
        lemma_zero_dot(net, a, b, n - 1);
        let v = net.quant.outputs()[n - 1];
        let w = net.quant.outputs()[256 + n - 1];
        assert(v == 0 && w == 0);
        let x = activation(a[n - 1]);
        let y = activation(b[n - 1]);
        assert(x * 0 == 0 && y * 0 == 0);
    }
}

// ---------------------------------------------------------------------------
// What the network computes.
// ---------------------------------------------------------------------------

/// Taking a feature index apart.
proof fn lemma_feature_digits(block: int, half: int, kind: int, place: int)
    requires
        0 <= half < 2,
        0 <= kind < 6,
        0 <= place < 64,
    ensures
        ({
            let x = block * 768 + half * 384 + kind * 64 + place;
            &&& x / 768 == block
            &&& x % 768 / 384 == half
            &&& x % 384 / 64 == kind
            &&& x % 64 == place
        }),
{
    let x = block * 768 + half * 384 + kind * 64 + place;
    assert(x / 768 == block && x % 768 == half * 384 + kind * 64 + place);
    assert(x / 384 == 2 * block + half && x % 384 == kind * 64 + place);
    assert(x / 64 == 12 * block + 6 * half + kind && x % 64 == place);
}

/// A feature says four things: in which 2x2 zone the perspective's own king stands,
/// whether the piece is a friend, of which type it is, and on which square it
/// stands, all seen from the perspective's side of the board.
pub proof fn law_feature_parts(
    perspective: Color,
    king_sq: Square,
    c: Color,
    pt: PieceType,
    sq: Square,
)
    requires
        king_sq.valid(),
        sq.valid(),
    ensures
        ({
            let x = feature(perspective, king_sq, c, pt, sq);
            let king_rank = if perspective == Color::White {
                king_sq.0 as int / 8
            } else {
                7 - king_sq.0 as int / 8
            };
            let rank = if perspective == Color::White {
                sq.0 as int / 8
            } else {
                7 - sq.0 as int / 8
            };
            &&& x / 768 == (king_rank / 2) * 4 + (king_sq.0 as int % 8) / 2
            &&& x % 768 / 384 == (if c == perspective {
                0int
            } else {
                1int
            })
            &&& x % 384 / 64 == (match pt {
                PieceType::Pawn => 0int,
                PieceType::Knight => 1int,
                PieceType::Bishop => 2int,
                PieceType::Rook => 3int,
                PieceType::Queen => 4int,
                PieceType::King => 5int,
            })
            &&& x % 64 == rank * 8 + sq.0 as int % 8
        }),
{
    king_sq.lemma_flip_rank();
    sq.lemma_flip_rank();
    let king = oriented(perspective, king_sq).0 as int;
    let place = oriented(perspective, sq).0 as int;
    let half = if c == perspective {
        0int
    } else {
        1int
    };
    assert(place / 8 == if perspective == Color::White {
        sq.0 as int / 8
    } else {
        7 - sq.0 as int / 8
    });
    assert(place % 8 == sq.0 as int % 8);
    assert(king / 8 == if perspective == Color::White {
        king_sq.0 as int / 8
    } else {
        7 - king_sq.0 as int / 8
    });
    assert(king % 8 == king_sq.0 as int % 8);
    lemma_feature_digits(king / 8 / 2 * 4 + king % 8 / 2, half, pt.index() as int, place);
}

/// Kings in different 2x2 zones have no feature in common.
pub proof fn law_zones_are_disjoint(
    perspective: Color,
    a: Square,
    b: Square,
    p: Piece,
    x: Square,
    q: Piece,
    y: Square,
)
    requires
        a.valid(),
        b.valid(),
        x.valid(),
        y.valid(),
        a.0 / 16 != b.0 / 16 || a.0 % 8 / 2 != b.0 % 8 / 2,
    ensures
        feature(perspective, a, p.color, p.piece_type, x) != feature(
            perspective,
            b,
            q.color,
            q.piece_type,
            y,
        ),
{
    law_feature_parts(perspective, a, p.color, p.piece_type, x);
    law_feature_parts(perspective, b, q.color, q.piece_type, y);
    let f = a.0 as int;
    let g = b.0 as int;
    assert(f / 16 == f / 8 / 2 && g / 16 == g / 8 / 2);
    assert((7 - f / 8) / 2 == 3 - f / 8 / 2 && (7 - g / 8) / 2 == 3 - g / 8 / 2);
}

/// The occupied squares below `n`.
spec fn occupied_below(s: State, n: int) -> Set<int> {
    Set::new(|i: int| 0 <= i < n && s.board[i] is Some)
}

proof fn lemma_features_below(s: State, perspective: Color, n: int)
    requires
        s.valid(),
        s.has_king(perspective),
        0 <= n <= 64,
    ensures
        occupied_below(s, n).finite(),
        features(s, perspective, n).len() == occupied_below(s, n).len(),
        forall|f: usize| #[trigger]
            features(s, perspective, n).contains(f) <==> exists|i: int|
                0 <= i < n && (#[trigger] s.board[i]) is Some && f == feature(
                    perspective,
                    king_of(s, perspective),
                    s.board[i]->0.color,
                    s.board[i]->0.piece_type,
                    Square(i as u8),
                ),
    decreases n,
{
    legality::lemma_king_exists(s, perspective);
    if n == 0 {
        assert(occupied_below(s, 0) =~= Set::empty());
    } else {
        lemma_features_below(s, perspective, n - 1);
        let king = king_of(s, perspective);
        let before = features(s, perspective, n - 1);
        let after = features(s, perspective, n);
        match s.board[n - 1] {
            Some(p) => {
                assert(occupied_below(s, n) =~= occupied_below(s, n - 1).insert(n - 1));
                law_feature_in_range(
                    perspective,
                    king,
                    p.color,
                    p.piece_type,
                    Square((n - 1) as u8),
                );
                let last = feature(perspective, king, p.color, p.piece_type, Square((n - 1) as u8));
                assert(after == before.push(last as usize));
                assert forall|f: usize| #[trigger] after.contains(f) <==> exists|i: int|
                    0 <= i < n && (#[trigger] s.board[i]) is Some && f == feature(
                        perspective,
                        king,
                        s.board[i]->0.color,
                        s.board[i]->0.piece_type,
                        Square(i as u8),
                    ) by {
                    if after.contains(f) {
                        let k = choose|k: int| 0 <= k < after.len() && after[k] == f;
                        if k < before.len() {
                            assert(before[k] == f);
                            assert(before.contains(f));
                        } else {
                            assert(s.board[n - 1] is Some);
                        }
                    }
                    if before.contains(f) {
                        let k = choose|k: int| 0 <= k < before.len() && before[k] == f;
                        assert(after[k] == f);
                    }
                    assert(after[before.len() as int] == last);
                    if exists|i: int|
                        0 <= i < n && (#[trigger] s.board[i]) is Some && f == feature(
                            perspective,
                            king,
                            s.board[i]->0.color,
                            s.board[i]->0.piece_type,
                            Square(i as u8),
                        ) {
                        let i = choose|i: int|
                            0 <= i < n && (#[trigger] s.board[i]) is Some && f == feature(
                                perspective,
                                king,
                                s.board[i]->0.color,
                                s.board[i]->0.piece_type,
                                Square(i as u8),
                            );
                        if i < n - 1 {
                            assert(before.contains(f));
                        }
                    }
                }
            },
            None => {
                assert(occupied_below(s, n) =~= occupied_below(s, n - 1));
            },
        }
    }
}

/// The active features are those of the pieces on the board, one for each.
pub proof fn law_active_features(s: State, perspective: Color, k: int, f: usize)
    requires
        s.valid(),
        0 <= k < 64,
        s.board[k] == Some(Piece { color: perspective, piece_type: PieceType::King }),
        forall|i: int|
            0 <= i < k ==> #[trigger] s.board[i] != Some(
                Piece { color: perspective, piece_type: PieceType::King },
            ),
    ensures
        features(s, perspective, 64).contains(f) <==> exists|i: int|
            0 <= i < 64 && (#[trigger] s.board[i]) is Some && f == feature(
                perspective,
                Square(k as u8),
                s.board[i]->0.color,
                s.board[i]->0.piece_type,
                Square(i as u8),
            ),
        features(s, perspective, 64).len() == Set::new(
            |i: int| 0 <= i < 64 && s.board[i] is Some,
        ).len(),
{
    assert forall|i: int| #[trigger]
        s.holds(i, perspective, PieceType::King) implies k <= i by {
        assert(s.board[i] == Some(Piece { color: perspective, piece_type: PieceType::King }));
    }
    assert(s.holds(k, perspective, PieceType::King));
    state::lemma_king(s, perspective, k);
    lemma_features_below(s, perspective, 64);
}

/// The sum of the weights of several features into hidden neuron `j`.
pub open spec fn summed_weights(net: Net, fs: Seq<usize>, j: int) -> int
    decreases fs.len(),
{
    if fs.len() == 0 {
        0
    } else {
        summed_weights(net, fs.drop_last(), j) + weight(net, fs.last() as int, j)
    }
}

proof fn lemma_contributions_of_features(net: Net, s: State, c: Color, n: int, j: int)
    requires
        s.valid(),
        s.has_king(c),
        0 <= n <= 64,
    ensures
        contributions(net, c, king_of(s, c), s.board, n, j) == summed_weights(
            net,
            features(s, c, n),
            j,
        ),
    decreases n,
{
    legality::lemma_king_exists(s, c);
    if n > 0 {
        lemma_contributions_of_features(net, s, c, n - 1, j);
        if let Some(p) = s.board[n - 1] {
            law_feature_in_range(
                c,
                king_of(s, c),
                p.color,
                p.piece_type,
                Square((n - 1) as u8),
            );
            assert(features(s, c, n).drop_last() =~= features(s, c, n - 1));
        }
    }
}

/// A hidden neuron holds its bias plus the weights of the active features, in 16
/// bits.
pub proof fn law_hidden_sums_active_features(net: Net, s: State, c: Color, j: int)
    requires
        s.valid(),
        s.has_king(c),
        0 <= j < 256,
    ensures
        -32768 <= hidden(net, s, c)[j] <= 32767,
        (hidden(net, s, c)[j] - net.quant.biases()[j] - summed_weights(
            net,
            features(s, c, 64),
            j,
        )) % 65536 == 0,
{
    lemma_contributions_of_features(net, s, c, 64, j);
}

/// Where inference finds the trained weights: neuron by neuron in the first layer,
/// the half of the side to move first in the second.
pub proof fn law_derived_weights(net: Net, f: int, j: int)
    requires
        net.sized(),
        net.derived(),
        0 <= f < 12288,
        0 <= j < 256,
    ensures
        weight(net, f, j) == quantize(net.w1@[j * 12288 + f]),
        net.quant.biases()[j] == quantize(net.b1@[j]),
        net.quant.outputs()[j] == quantize(net.w2@[j]),
        net.quant.outputs()[256 + j] == quantize(net.w2@[256 + j]),
{
    let i = f * 256 + j;
    assert(i % 256 == j && i / 256 == f);
    assert(net.w1t@[i] == net.w1@[j * 12288 + f]);
    assert(quantized(net.w1t@)[i] == quantize(net.w1t@[i]));
}

/// The activation of a neuron is the number from 0 to 512 that is nearest to it.
pub proof fn law_activation_is_nearest(x: int, y: int)
    requires
        0 <= y <= 512,
    ensures
        0 <= activation(x) <= 512,
        x <= activation(x) ==> activation(x) - x <= (if y < x {
            x - y
        } else {
            y - x
        }),
        x >= activation(x) ==> x - activation(x) <= (if y < x {
            x - y
        } else {
            y - x
        }),
{
}

proof fn lemma_dot_differs(net: Net, a: Seq<int>, b: Seq<int>, c: Seq<int>, j: int, n: int)
    requires
        0 <= j < 256,
        0 <= n <= 256,
        a.len() == 256,
        b.len() == 256,
        c.len() == 256,
        forall|i: int| 0 <= i < 256 && i != j ==> #[trigger] a[i] == b[i],
    ensures
        j < n ==> dot(net, b, c, n) == dot(net, a, c, n) + (activation(b[j]) - activation(a[j]))
            * net.quant.outputs()[j],
        j >= n ==> dot(net, b, c, n) == dot(net, a, c, n),
        j < n ==> dot(net, c, b, n) == dot(net, c, a, n) + (activation(b[j]) - activation(a[j]))
            * net.quant.outputs()[256 + j],
        j >= n ==> dot(net, c, b, n) == dot(net, c, a, n),
    decreases n,
{
    if n > 0 {
        lemma_dot_differs(net, a, b, c, j, n - 1);
        let x = activation(a[j]);
        let y = activation(b[j]);
        let v = net.quant.outputs()[j] as int;
        let w = net.quant.outputs()[256 + j] as int;
        assert((y - x) * v == y * v - x * v) by (nonlinear_arith);
        assert((y - x) * w == y * w - x * w) by (nonlinear_arith);
        if j != n - 1 {
            assert(a[n - 1] == b[n - 1]);
        }
    }
}

proof fn lemma_mod_shift(d: int, e: int, x: int)
    requires
        e == d + x,
    ensures
        (wrap32(e) - wrap32(d) - x) % 4294967296 == 0,
        -2147483648 <= wrap32(e) <= 2147483647,
{
    let n = 4294967296int;
    let p = (e + 2147483648) / n;
    let q = (d + 2147483648) / n;
    assert(wrap32(e) - wrap32(d) - x == n * (q - p));
    assert((n * (q - p)) % n == 0);
}

/// The output is linear in the activations: with everything else alike, a neuron
/// of the side to move counts with its layer-2 weight, and a neuron of the other
/// side with the weight 256 further on, in 32 bits.
pub proof fn law_output_weighs_neurons(net: Net, a: Seq<int>, b: Seq<int>, c: Seq<int>, j: int)
    requires
        0 <= j < 256,
        a.len() == 256,
        b.len() == 256,
        c.len() == 256,
        forall|i: int| 0 <= i < 256 && i != j ==> #[trigger] a[i] == b[i],
    ensures
        (raw_output(net, b, c) - raw_output(net, a, c) - (activation(b[j]) - activation(a[j]))
            * net.quant.outputs()[j]) % 4294967296 == 0,
        (raw_output(net, c, b) - raw_output(net, c, a) - (activation(b[j]) - activation(a[j]))
            * net.quant.outputs()[256 + j]) % 4294967296 == 0,
        -2147483648 <= raw_output(net, a, c) <= 2147483647,
{
    lemma_dot_differs(net, a, b, c, j, 256);
    let x = (activation(b[j]) - activation(a[j])) * net.quant.outputs()[j];
    let y = (activation(b[j]) - activation(a[j])) * net.quant.outputs()[256 + j];
    lemma_mod_shift(dot(net, a, c, 256), dot(net, b, c, 256), x);
    lemma_mod_shift(dot(net, c, a, 256), dot(net, c, b, 256), y);
    lemma_mod_shift(dot(net, a, c, 256), dot(net, a, c, 256), 0);
}

proof fn lemma_dead_dot(net: Net, a: Seq<int>, b: Seq<int>, n: int)
    requires
        0 <= n <= 256,
        forall|i: int| 0 <= i < 256 ==> #[trigger] a[i] <= 0,
        forall|i: int| 0 <= i < 256 ==> #[trigger] b[i] <= 0,
    ensures
        dot(net, a, b, n) == 0,
    decreases n,
{
    if n > 0 {
        lemma_dead_dot(net, a, b, n - 1);
        assert(a[n - 1] <= 0 && b[n - 1] <= 0);
        assert(0 * net.quant.outputs()[n - 1] == 0 && 0 * net.quant.outputs()[256 + n - 1] == 0);
    }
}

/// Neurons that are not active do not count.
pub proof fn law_inactive_output_is_zero(net: Net, a: Seq<int>, b: Seq<int>)
    requires
        forall|i: int| 0 <= i < 256 ==> #[trigger] a[i] <= 0,
        forall|i: int| 0 <= i < 256 ==> #[trigger] b[i] <= 0,
    ensures
        raw_output(net, a, b) == 0,
{
    lemma_dead_dot(net, a, b, 256);
}

/// Where a network file holds what, in bytes, least significant byte first: after
/// twelve bytes of header the layer-1 weights, the layer-1 biases, the layer-2
/// weights and the layer-2 bias.
pub proof fn law_file_layout(bytes: Seq<u8>, net: Net, k: int)
    requires
        is_file_of(bytes, net),
    ensures
        bytes.len() == 12586000,
        bytes.subrange(4, 12) == seq![0u8, 1u8, 0u8, 0u8, 0u8, 48u8, 0u8, 0u8],
        0 <= k < 3145728 ==> net.w1@[k] == bytes[12 + 4 * k] + 256 * bytes[13 + 4 * k] + 65536
            * bytes[14 + 4 * k] + 16777216 * bytes[15 + 4 * k],
        0 <= k < 256 ==> net.b1@[k] == bytes[12582924 + 4 * k] + 256 * bytes[12582925 + 4 * k]
            + 65536 * bytes[12582926 + 4 * k] + 16777216 * bytes[12582927 + 4 * k],
        0 <= k < 512 ==> net.w2@[k] == bytes[12583948 + 4 * k] + 256 * bytes[12583949 + 4 * k]
            + 65536 * bytes[12583950 + 4 * k] + 16777216 * bytes[12583951 + 4 * k],
        net.b2 == bytes[12585996] + 256 * bytes[12585997] + 65536 * bytes[12585998] + 16777216
            * bytes[12585999],
{
    assert(word(bytes, 1) == file_word(net, 1));
    assert(word(bytes, 2) == file_word(net, 2));
    assert(word(bytes, 3146499) == file_word(net, 3146499));
    if 0 <= k < 3145728 {
        assert(word(bytes, 3 + k) == file_word(net, 3 + k));
    }
    if 0 <= k < 256 {
        assert(word(bytes, 3145731 + k) == file_word(net, 3145731 + k));
    }
    if 0 <= k < 512 {
        assert(word(bytes, 3145987 + k) == file_word(net, 3145987 + k));
    }
    assert(bytes.subrange(4, 12) =~= seq![0u8, 1u8, 0u8, 0u8, 0u8, 48u8, 0u8, 0u8]);
}

/// The raw output of a maintained accumulator, and of a position, puts the side to
/// move first.
pub proof fn law_side_to_move_first(net: Net, acc: Accumulator, s: State)
    ensures
        accumulator_output(net, acc, Color::White) == raw_output(
            net,
            values(acc.white@),
            values(acc.black@),
        ),
        accumulator_output(net, acc, Color::Black) == raw_output(
            net,
            values(acc.black@),
            values(acc.white@),
        ),
        s.side == Color::White ==> position_output(net, s) == raw_output(
            net,
            hidden(net, s, Color::White),
            hidden(net, s, Color::Black),
        ),
        s.side == Color::Black ==> position_output(net, s) == raw_output(
            net,
            hidden(net, s, Color::Black),
            hidden(net, s, Color::White),
        ),
{
}

/// Two squares are in one bucket exactly if they are in one of the sixteen 2x2
/// zones; the zones are numbered four to a pair of ranks.
pub proof fn law_king_buckets(a: usize, b: usize)
    requires
        a < 64,
        b < 64,
    ensures
        king_bucket(a) == king_bucket(b) <==> a / 16 == b / 16 && a % 8 / 2 == b % 8 / 2,
        king_bucket(a) / 4 == a / 16,
        king_bucket(a) % 4 == a % 8 / 2,
{
    assert(a / 8 / 2 == a / 16 && b / 8 / 2 == b / 16);
}

/// Bytes are a network file exactly if they have its length and begin with the
/// letters NNUE, the hidden width 256 and the number of features 12288, the numbers
/// in four bytes each, least significant first.
pub proof fn law_file_header(bytes: Seq<u8>)
    ensures
        is_file(bytes) <==> bytes.len() == 12586000 && bytes.take(12) == seq![
            0x4Eu8,
            0x4Eu8,
            0x55u8,
            0x45u8,
            0u8,
            1u8,
            0u8,
            0u8,
            0u8,
            48u8,
            0u8,
            0u8,
        ],
{
    let header = seq![
        0x4Eu8,
        0x4Eu8,
        0x55u8,
        0x45u8,
        0u8,
        1u8,
        0u8,
        0u8,
        0u8,
        48u8,
        0u8,
        0u8,
    ];
    if is_file(bytes) {
        assert(word(bytes, 0) == MAGIC && word(bytes, 1) == HIDDEN && word(bytes, 2)
            == NUM_FEATURES);
        assert(bytes.take(12) =~= header);
    }
    if bytes.len() == 12586000 && bytes.take(12) == header {
        assert forall|i: int| 0 <= i < 12 implies bytes[i] == #[trigger] header[i] by {
            assert(bytes.take(12)[i] == header[i]);
        }
        assert(bytes[0] == header[0] && bytes[1] == header[1] && bytes[2] == header[2] && bytes[3]
            == header[3] && bytes[4] == header[4] && bytes[5] == header[5] && bytes[6]
            == header[6] && bytes[7] == header[7] && bytes[8] == header[8] && bytes[9]
            == header[9] && bytes[10] == header[10] && bytes[11] == header[11]);
    }
}

/// The quantization of a number is the 16-bit integer nearest to 512 times it.
///
/// A finite number with exponent field `e` and significand `n` is `n` times two to
/// the power of `e - 150`, so that 512 times it is `n` times two to the power of
/// `e - 141`. Halves are rounded away from zero, what does not fit becomes the bound
/// of its sign, and what is no number becomes 0.
pub proof fn law_quantize(bits: u32)
    ensures
        ({
            let e = bits as int / 8388608 % 256;
            let part = bits as int % 8388608;
            let negative = bits as int >= 2147483648;
            let q = quantize(bits) as int;
            let size = if negative {
                -q
            } else {
                q
            };
            let most: int = if negative {
                32768
            } else {
                32767
            };
            let n = if e == 0 {
                part
            } else {
                part + 8388608
            };
            &&& e == 255 && part != 0 ==> q == 0
            &&& e == 255 && part == 0 ==> size == most
            &&& e < 255 ==> 0 <= size <= most
            // 512 times a number of at least 2^14 is far out of range.
            &&& 141 <= e < 255 ==> size == most
            &&& e < 141 ==> {
                let p = power2::pow2((141 - (if e == 0 {
                    1
                } else {
                    e
                })) as nat) as int;
                // Off by a half at most, and up at a half, unless the bound is met.
                &&& 2 * n < (2 * size + 1) * p || size == most
                &&& (2 * size - 1) * p <= 2 * n
            }
        }),
{
    let e = exponent_field(bits) as int;
    assert(e == bits as int / 8388608 % 256 && fraction_field(bits) == bits as int % 8388608);
    let m = scaled_magnitude(bits) as int;
    let n = significand(bits) as int;
    if e < 255 {
        if e >= 141 {
            let k = (e - 141) as nat;
            power2::lemma_pow2_pos(k);
            let p = power2::pow2(k) as int;
            assert(n * p >= n) by (nonlinear_arith)
                requires
                    n >= 0,
                    p >= 1,
            ;
            assert(m >= 32768);
        } else {
            let k = (-scaled_exponent(bits)) as nat;
            power2::lemma_pow2_pos(k);
            let p = power2::pow2(k) as int;
            let x = 2 * n + p;
            vstd::arithmetic::div_mod::lemma_fundamental_div_mod(x, 2 * p);
            vstd::arithmetic::div_mod::lemma_mod_bound(x, 2 * p);
            assert(m == x / (2 * p));
            assert(2 * p * m <= x < 2 * p * m + 2 * p);
            let size = if m < (if is_negative(bits) {
                32768int
            } else {
                32767int
            }) {
                m
            } else if is_negative(bits) {
                32768int
            } else {
                32767int
            };
            assert((2 * size - 1) * p <= 2 * n && (size == m ==> 2 * n < (2 * size + 1) * p))
                by (nonlinear_arith)
                requires
                    2 * p * m <= 2 * n + p < 2 * p * m + 2 * p,
                    size <= m,
                    p > 0,
            ;
        }
    }
}

// ---------------------------------------------------------------------------
// The other side of the board.
// ---------------------------------------------------------------------------

/// The cell with its piece in the other color.
pub open spec fn recolored(cell: Option<Piece>) -> Option<Piece> {
    match cell {
        Some(p) => Some(Piece { color: p.color.flip(), piece_type: p.piece_type }),
        None => None,
    }
}

/// The position as the other side would see it: the ranks reversed, the colors of
/// the pieces exchanged, and the other side to move.
pub open spec fn mirrored(s: State) -> State {
    State {
        board: Seq::new(64, |i: int| recolored(s.board[(7 - i / 8) * 8 + i % 8])),
        side: s.side.flip(),
        ..s
    }
}

/// What the first `n` squares of a rank contribute.
spec fn rank_contributions(
    net: Net,
    c: Color,
    king: Square,
    board: Seq<Option<Piece>>,
    rank: int,
    n: int,
    j: int,
) -> int
    decreases n,
{
    if n <= 0 {
        0
    } else {
        rank_contributions(net, c, king, board, rank, n - 1, j) + contribution(
            net,
            c,
            king,
            board[rank * 8 + n - 1],
            rank * 8 + n - 1,
            j,
        )
    }
}

proof fn lemma_by_rank(
    net: Net,
    c: Color,
    king: Square,
    board: Seq<Option<Piece>>,
    rank: int,
    n: int,
    j: int,
)
    requires
        0 <= rank < 8,
        0 <= n <= 8,
    ensures
        contributions(net, c, king, board, rank * 8 + n, j) == contributions(
            net,
            c,
            king,
            board,
            rank * 8,
            j,
        ) + rank_contributions(net, c, king, board, rank, n, j),
    decreases n,
{
    if n > 0 {
        lemma_by_rank(net, c, king, board, rank, n - 1, j);
    }
}

proof fn lemma_all_ranks(net: Net, c: Color, king: Square, board: Seq<Option<Piece>>, j: int)
    ensures
        contributions(net, c, king, board, 64, j) == rank_contributions(
            net,
            c,
            king,
            board,
            0,
            8,
            j,
        ) + rank_contributions(net, c, king, board, 1, 8, j) + rank_contributions(
            net,
            c,
            king,
            board,
            2,
            8,
            j,
        ) + rank_contributions(net, c, king, board, 3, 8, j) + rank_contributions(
            net,
            c,
            king,
            board,
            4,
            8,
            j,
        ) + rank_contributions(net, c, king, board, 5, 8, j) + rank_contributions(
            net,
            c,
            king,
            board,
            6,
            8,
            j,
        ) + rank_contributions(net, c, king, board, 7, 8, j),
{
    lemma_by_rank(net, c, king, board, 0, 8, j);
    lemma_by_rank(net, c, king, board, 1, 8, j);
    lemma_by_rank(net, c, king, board, 2, 8, j);
    lemma_by_rank(net, c, king, board, 3, 8, j);
    lemma_by_rank(net, c, king, board, 4, 8, j);
    lemma_by_rank(net, c, king, board, 5, 8, j);
    lemma_by_rank(net, c, king, board, 6, 8, j);
    lemma_by_rank(net, c, king, board, 7, 8, j);
}

/// A square seen from the other side.
proof fn lemma_flipped_square(i: int)
    requires
        0 <= i < 64,
    ensures
        Square(i as u8).flip_rank() == Square(((7 - i / 8) * 8 + i % 8) as u8),
        0 <= (7 - i / 8) * 8 + i % 8 < 64,
{
    Square(i as u8).lemma_flip_rank();
}

/// A piece contributes the same, seen from the other side of the mirror.
proof fn lemma_mirrored_contribution(
    net: Net,
    s: State,
    c: Color,
    k: int,
    i: int,
    j: int,
)
    requires
        s.valid(),
        0 <= k < 64,
        0 <= i < 64,
    ensures
        ({
            let g = (7 - i / 8) * 8 + i % 8;
            contribution(
                net,
                c.flip(),
                Square(((7 - k / 8) * 8 + k % 8) as u8),
                mirrored(s).board[i],
                i,
                j,
            ) == contribution(net, c, Square(k as u8), s.board[g], g, j)
        }),
{
    let g = (7 - i / 8) * 8 + i % 8;
    let h = (7 - k / 8) * 8 + k % 8;
    assert(0 <= g < 64 && 0 <= h < 64);
    assert((7 - g / 8) * 8 + g % 8 == i && (7 - h / 8) * 8 + h % 8 == k);
    lemma_flipped_square(i);
    lemma_flipped_square(g);
    lemma_flipped_square(k);
    lemma_flipped_square(h);
    if let Some(p) = s.board[g] {
        law_perspectives_symmetric(Square(k as u8), p.color, p.piece_type, Square(g as u8));
        law_perspectives_symmetric(Square(h as u8), p.color.flip(), p.piece_type, Square(i as u8));
        assert(p.color.flip().flip() == p.color);
    }
}

proof fn lemma_mirrored_rank(
    net: Net,
    s: State,
    c: Color,
    k: int,
    rank: int,
    n: int,
    j: int,
)
    requires
        s.valid(),
        0 <= k < 64,
        0 <= rank < 8,
        0 <= n <= 8,
    ensures
        rank_contributions(
            net,
            c.flip(),
            Square(((7 - k / 8) * 8 + k % 8) as u8),
            mirrored(s).board,
            rank,
            n,
            j,
        ) == rank_contributions(net, c, Square(k as u8), s.board, 7 - rank, n, j),
    decreases n,
{
    if n > 0 {
        lemma_mirrored_rank(net, s, c, k, rank, n - 1, j);
        let i = rank * 8 + n - 1;
        assert(i / 8 == rank && i % 8 == n - 1);
        lemma_mirrored_contribution(net, s, c, k, i, j);
    }
}

proof fn lemma_mirrored_hidden(net: Net, s: State, c: Color)
    requires
        s.valid(),
        legality::one_king(s, c),
    ensures
        hidden(net, mirrored(s), c.flip()) == hidden(net, s, c),
{
    let m = mirrored(s);
    let k = s.king(c);
    let h = (7 - k / 8) * 8 + k % 8;
    legality::lemma_king_exists(s, c);
    assert((7 - h / 8) * 8 + h % 8 == k);
    assert(m.holds(h, c.flip(), PieceType::King));
    assert forall|i: int| #[trigger] m.holds(i, c.flip(), PieceType::King) implies h <= i by {
        let g = (7 - i / 8) * 8 + i % 8;
        assert(s.holds(g, c, PieceType::King) && s.holds(k, c, PieceType::King));
        assert(g == k);
        assert((7 - g / 8) * 8 + g % 8 == i);
    }
    state::lemma_king(m, c.flip(), h);
    assert forall|j: int| 0 <= j < 256 implies hidden(net, m, c.flip())[j] == hidden(
        net,
        s,
        c,
    )[j] by {
        lemma_all_ranks(net, c, Square(k as u8), s.board, j);
        lemma_all_ranks(net, c.flip(), Square(h as u8), m.board, j);
        lemma_mirrored_rank(net, s, c, k, 0, 8, j);
        lemma_mirrored_rank(net, s, c, k, 1, 8, j);
        lemma_mirrored_rank(net, s, c, k, 2, 8, j);
        lemma_mirrored_rank(net, s, c, k, 3, 8, j);
        lemma_mirrored_rank(net, s, c, k, 4, 8, j);
        lemma_mirrored_rank(net, s, c, k, 5, 8, j);
        lemma_mirrored_rank(net, s, c, k, 6, 8, j);
        lemma_mirrored_rank(net, s, c, k, 7, 8, j);
    }
    assert(hidden(net, m, c.flip()) =~= hidden(net, s, c));
}

/// A position and its mirror image are worth the same to the side to move.
pub proof fn law_mirrored_output(net: Net, s: State)
    requires
        s.valid(),
        legality::one_king(s, Color::White),
        legality::one_king(s, Color::Black),
    ensures
        position_output(net, mirrored(s)) == position_output(net, s),
{
    lemma_mirrored_hidden(net, s, s.side);
    lemma_mirrored_hidden(net, s, s.side.flip());
}

} // verus!
