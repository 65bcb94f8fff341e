//! Position hashing keys.
//!
//! A position is hashed to the XOR of one key per feature: one for every piece
//! on every square, one for every set of castling rights, one for the file of
//! an en-passant target, and one for Black being to move. The keys are a fixed
//! pseudo-random sequence, so hashes are the same in every run.

use vstd::prelude::*;
use vstd::arithmetic::div_mod;
use vstd::arithmetic::mul;
use crate::types::{Piece, Square};

verus! {

/// The additive step of the key sequence.
pub const STEP: u64 = 0x9e37_79b9_7f4a_7c15;

/// The first multiplier of the finalizer.
pub const MULTIPLIER_1: u64 = 0xbf58_476d_1ce4_e5b9;

/// The second multiplier of the finalizer.
pub const MULTIPLIER_2: u64 = 0x94d0_49bb_1331_11eb;

/// Number of (piece, square) pairs.
pub const PIECE_KEYS: u64 = 768;

/// Number of sets of castling rights.
pub const CASTLE_KEYS: u64 = 16;

/// Number of files.
pub const EP_KEYS: u64 = 8;

/// Element `i` of the key sequence: a counter, scrambled by two rounds of
/// xor-shift and multiply.
pub open spec fn key_spec(i: u64) -> u64 {
    let a = (i.wrapping_add(1)).wrapping_mul(STEP);
    let b = (a ^ (a >> 30u64)).wrapping_mul(MULTIPLIER_1);
    let c = (b ^ (b >> 27u64)).wrapping_mul(MULTIPLIER_2);
    c ^ (c >> 31u64)
}

/// Element `i` of the key sequence.
#[verifier::when_used_as_spec(key_spec)]
fn key(i: u64) -> (r: u64)
    ensures
        r == key_spec(i),
{
    let a: u64 = (i.wrapping_add(1)).wrapping_mul(STEP);
    let b: u64 = (a ^ (a >> 30u64)).wrapping_mul(MULTIPLIER_1);
    let c: u64 = (b ^ (b >> 27u64)).wrapping_mul(MULTIPLIER_2);
    c ^ (c >> 31u64)
}

pub open spec fn piece_spec(p: Piece, sq: Square) -> u64 {
    key_spec((p.index() * 64 + sq.index()) as u64)
}

/// The key of `p` standing on `sq`.
#[verifier::when_used_as_spec(piece_spec)]
pub fn piece(p: Piece, sq: Square) -> (r: u64)
    requires
        sq.valid(),
    ensures
        r == piece_spec(p, sq),
{
    key(p.index() as u64 * 64 + sq.index() as u64)
}

pub open spec fn castle_spec(rights: u8) -> u64 {
    key_spec((PIECE_KEYS + rights) as u64)
}

/// The key of a set of castling rights.
#[verifier::when_used_as_spec(castle_spec)]
pub fn castle(rights: u8) -> (r: u64)
    requires
        rights < CASTLE_KEYS,
    ensures
        r == castle_spec(rights),
{
    key(PIECE_KEYS + rights as u64)
}

pub open spec fn ep_spec(file: u8) -> u64 {
    key_spec((PIECE_KEYS + CASTLE_KEYS + file) as u64)
}

/// The key of an en-passant target on `file`.
#[verifier::when_used_as_spec(ep_spec)]
pub fn ep(file: u8) -> (r: u64)
    requires
        file < EP_KEYS,
    ensures
        r == ep_spec(file),
{
    key(PIECE_KEYS + CASTLE_KEYS + file as u64)
}

pub open spec fn side_spec() -> u64 {
    key_spec((PIECE_KEYS + CASTLE_KEYS + EP_KEYS) as u64)
}

/// The key of Black being to move.
#[verifier::when_used_as_spec(side_spec)]
pub fn side() -> (r: u64)
    ensures
        r == side_spec(),
{
    key(PIECE_KEYS + CASTLE_KEYS + EP_KEYS)
}

// ---------------------------------------------------------------------------
// The keys are all different.
// ---------------------------------------------------------------------------

/// Each xor-shift of the finalizer can be undone.
proof fn lemma_shift_injective(x: u64, y: u64)
    by (bit_vector)
    ensures
        x ^ (x >> 30u64) == y ^ (y >> 30u64) ==> x == y,
        x ^ (x >> 27u64) == y ^ (y >> 27u64) ==> x == y,
        x ^ (x >> 31u64) == y ^ (y >> 31u64) ==> x == y,
{
}

/// Multiplying by a number that has an inverse can be undone.
proof fn lemma_multiply_back(x: u64, a: u64, inverse: u64)
    requires
        (a as int * inverse as int) % 0x1_0000_0000_0000_0000 == 1,
    ensures
        x.wrapping_mul(a).wrapping_mul(inverse) == x,
{
    let n: int = 0x1_0000_0000_0000_0000;
    let p = x as int * a as int;
    div_mod::lemma_mul_mod_noop_left(p, inverse as int, n);
    mul::lemma_mul_is_associative(x as int, a as int, inverse as int);
    div_mod::lemma_mul_mod_noop_right(x as int, a as int * inverse as int, n);
    div_mod::lemma_small_mod(x as nat, n as nat);
}

/// The key sequence passes through zero only where its counter wraps around.
pub proof fn lemma_zero_key()
    ensures
        key_spec(u64::MAX) == 0,
{
    assert(0u64 ^ (0u64 >> 30u64) == 0 && 0u64 ^ (0u64 >> 27u64) == 0 && 0u64 ^ (0u64 >> 31u64)
        == 0) by (bit_vector);
    assert(u64::MAX.wrapping_add(1) == 0);
}

/// Two elements of the key sequence are never equal: different features have
/// different keys.
pub proof fn law_keys_distinct(i: u64, j: u64)
    requires
        key_spec(i) == key_spec(j),
    ensures
        i == j,
{
    let a = i.wrapping_add(1).wrapping_mul(STEP);
    let b = (a ^ (a >> 30u64)).wrapping_mul(MULTIPLIER_1);
    let c = (b ^ (b >> 27u64)).wrapping_mul(MULTIPLIER_2);
    let x = j.wrapping_add(1).wrapping_mul(STEP);
    let y = (x ^ (x >> 30u64)).wrapping_mul(MULTIPLIER_1);
    let z = (y ^ (y >> 27u64)).wrapping_mul(MULTIPLIER_2);
    lemma_shift_injective(c, z);
    lemma_multiply_back(b ^ (b >> 27u64), MULTIPLIER_2, 0x3196_42b2_d24d_8ec3);
    lemma_multiply_back(y ^ (y >> 27u64), MULTIPLIER_2, 0x3196_42b2_d24d_8ec3);
    lemma_shift_injective(b, y);
    lemma_multiply_back(a ^ (a >> 30u64), MULTIPLIER_1, 0x96de_1b17_3f11_9089);
    lemma_multiply_back(x ^ (x >> 30u64), MULTIPLIER_1, 0x96de_1b17_3f11_9089);
    lemma_shift_injective(a, x);
    lemma_multiply_back(i.wrapping_add(1), STEP, 0xf1de_83e1_9937_733d);
    lemma_multiply_back(j.wrapping_add(1), STEP, 0xf1de_83e1_9937_733d);
}

} // verus!
