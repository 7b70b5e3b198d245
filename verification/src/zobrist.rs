//! Zobrist keys: one fixed pseudo-random word per piece and square, castling
//! mask, en-passant file and side to move.

use vstd::prelude::*;
use crate::bits::{bit, group_bits};
use crate::types::{Bitboard, Color, PieceKind, Square};

verus! {

/// Start of the key sequence; changing it changes every key.
pub const ZOBRIST_SEED: u64 = 0x246C_CB2A_3B12_4D05;

/// Step between consecutive generator states.
pub const ZOBRIST_STEP: u64 = 0x9E37_79B9_7F4A_7C15;

/// The splitmix64 output function.
pub open spec fn mix(s: u64) -> u64 {
    let x = (s ^ (s >> 30)).wrapping_mul(0xBF58_476D_1CE4_E5B9);
    let y = (x ^ (x >> 27)).wrapping_mul(0x94D0_49BB_1331_11EB);
    y ^ (y >> 31)
}

/// The `n`-th key of the sequence, counted from 0.
pub open spec fn key(n: int) -> u64 {
    mix(ZOBRIST_SEED.wrapping_add(((n + 1) as u64).wrapping_mul(ZOBRIST_STEP)))
}

/// Key of a piece on a square.
pub open spec fn piece_key(c: int, k: int, sq: int) -> u64 {
    key(c * 384 + k * 64 + sq)
}

/// Key of a castling mask.
pub open spec fn castling_key(mask: int) -> u64 {
    key(768 + mask)
}

/// Key of an en-passant file.
pub open spec fn ep_key(file: int) -> u64 {
    key(784 + file)
}

/// Key of Black being to move.
pub open spec fn side_key() -> u64 {
    key(792)
}

fn nth_key(n: u64) -> (r: u64)
    requires
        n < 1000,
    ensures
        r == key(n as int),
{
    let s: u64 = ZOBRIST_SEED.wrapping_add((n + 1).wrapping_mul(ZOBRIST_STEP));
    let x: u64 = (s ^ (s >> 30)).wrapping_mul(0xBF58_476D_1CE4_E5B9);
    let y: u64 = (x ^ (x >> 27)).wrapping_mul(0x94D0_49BB_1331_11EB);
    y ^ (y >> 31)
}

pub fn zobrist_piece(color: Color, kind: PieceKind, sq: Square) -> (r: u64)
    requires
        sq.ok(),
    ensures
        r == piece_key(color.idx(), kind.idx(), sq.0 as int),
{
    nth_key(color.index() as u64 * 384 + kind.index() as u64 * 64 + sq.0 as u64)
}

pub fn zobrist_castling(mask: u8) -> (r: u64)
    requires
        mask < 16,
    ensures
        r == castling_key(mask as int),
{
    nth_key(768 + mask as u64)
}

pub fn zobrist_ep(file: u8) -> (r: u64)
    requires
        file < 8,
    ensures
        r == ep_key(file as int),
{
    nth_key(784 + file as u64)
}

pub fn zobrist_side() -> (r: u64)
    ensures
        r == side_key(),
{
    nth_key(792)
}

/// Exclusive or is associative and commutative, and undoes itself.
pub proof fn lemma_xor(a: u64, b: u64, c: u64)
    ensures
        a ^ b == b ^ a,
        (a ^ b) ^ c == a ^ (b ^ c),
        a ^ a == 0,
        a ^ 0 == a,
        (a ^ b) ^ b == a,
        (a ^ b) ^ c == (a ^ c) ^ b,
{
    assert(a ^ b == b ^ a && (a ^ b) ^ c == a ^ (b ^ c) && a ^ a == 0 && a ^ 0 == a && (a ^ b) ^ b == a && (a ^ b)
        ^ c == (a ^ c) ^ b) by (bit_vector);
}

/// Exclusive or of the keys of the squares of `x` below `n`.
pub open spec fn xor_keys(c: int, k: int, x: u64, n: int) -> u64
    decreases n,
{
    if n <= 0 {
        0
    } else if bit(x, n - 1) {
        xor_keys(c, k, x, n - 1) ^ piece_key(c, k, n - 1)
    } else {
        xor_keys(c, k, x, n - 1)
    }
}

proof fn lemma_xor_keys_same(c: int, k: int, x: u64, y: u64, n: int)
    requires
        forall|i: int| 0 <= i < n ==> bit(x, i) == #[trigger] bit(y, i),
    ensures
        xor_keys(c, k, x, n) == xor_keys(c, k, y, n),
    decreases n,
{
    if n > 0 {
        assert(bit(x, n - 1) == bit(y, n - 1));
        lemma_xor_keys_same(c, k, x, y, n - 1);
    }
}

/// Adding one square adds its key.
pub proof fn lemma_xor_keys_add(c: int, k: int, x: u64, y: u64, s: int, n: int)
    requires
        0 <= s < n <= 64,
        !bit(x, s),
        bit(y, s),
        forall|i: int| i != s ==> bit(x, i) == #[trigger] bit(y, i),
    ensures
        xor_keys(c, k, y, n) == xor_keys(c, k, x, n) ^ piece_key(c, k, s),
    decreases n,
{
    if n - 1 == s {
        lemma_xor_keys_same(c, k, x, y, n - 1);
    } else {
        lemma_xor_keys_add(c, k, x, y, s, n - 1);
        assert(bit(x, n - 1) == bit(y, n - 1));
        lemma_xor(xor_keys(c, k, x, n - 1), piece_key(c, k, s), piece_key(c, k, n - 1));
    }
}

proof fn lemma_xor_keys_none(c: int, k: int, n: int)
    ensures
        xor_keys(c, k, 0, n) == 0,
    decreases n,
{
    broadcast use group_bits;
    if n > 0 {
        lemma_xor_keys_none(c, k, n - 1);
    }
}

/// Exclusive or of the keys of one kind of piece on all squares of a set.
pub fn zobrist_set(color: Color, kind: PieceKind, set: Bitboard) -> (r: u64)
    ensures
        r == xor_keys(color.idx(), kind.idx(), set.0, 64),
{
    let mut rem = set;
    let mut h: u64 = 0;
    let ghost c = color.idx();
    let ghost k = kind.idx();
    proof {
        lemma_xor(xor_keys(c, k, set.0, 64), 0, 0);
    }
    while rem.0 != 0
        invariant
            c == color.idx(),
            k == kind.idx(),
            xor_keys(c, k, rem.0, 64) ^ h == xor_keys(c, k, set.0, 64),
        decreases rem.0,
    {
        let sq = rem.lowest();
        let rest = rem.without_lowest();
        let z: u64 = zobrist_piece(color, kind, sq);
        proof {
            assert(rem.has(sq.0 as int));
            assert(!rest.has(sq.0 as int));
            assert forall|i: int| i != sq.0 implies bit(rest.0, i) == #[trigger] bit(rem.0, i) by {
                assert(rest.has(i) == (rem.has(i) && i != rem.members()[0]));
            }
            lemma_xor_keys_add(c, k, rest.0, rem.0, sq.0 as int, 64);
            lemma_xor(xor_keys(c, k, rest.0, 64), z, h);
            lemma_xor(z, h, 0);
        }
        h = h ^ z;
        rem = rest;
    }
    proof {
        lemma_xor_keys_none(c, k, 64);
        lemma_xor(0, h, 0);
        lemma_xor(h, 0, 0);
    }
    h
}

} // verus!
