//! Which squares a piece attacks.

use vstd::prelude::*;
use crate::bits::{bit, group_bits, lemma_bits_extensional, lemma_file_mask, lemma_named_masks, lemma_word_of, word_of};
use crate::board::{Board, Position};
use crate::types::{magnitude, Bitboard, Color, PieceKind, Square};

verus! {

/// File difference from square `a` to square `b`.
pub open spec fn dfile(a: int, b: int) -> int {
    b % 8 - a % 8
}

/// Rank difference from square `a` to square `b`.
pub open spec fn drank(a: int, b: int) -> int {
    b / 8 - a / 8
}

/// A square of the board.
pub open spec fn is_square(i: int) -> bool {
    0 <= i < 64
}

/// Knight move: two squares along one axis and one along the other.
pub open spec fn knight_hits(a: int, b: int) -> bool {
    let f = magnitude(dfile(a, b));
    let r = magnitude(drank(a, b));
    (f == 1 && r == 2) || (f == 2 && r == 1)
}

/// King step: to one of the eight neighbours.
pub open spec fn king_hits(a: int, b: int) -> bool {
    a != b && magnitude(dfile(a, b)) <= 1 && magnitude(drank(a, b)) <= 1
}

/// Pawn capture: one rank forward, one file to either side.
pub open spec fn pawn_hits(color: Color, a: int, b: int) -> bool {
    magnitude(dfile(a, b)) == 1 && drank(a, b) == (match color {
        Color::White => 1int,
        Color::Black => -1int,
    })
}

/// The square `n` steps from `sq` in direction (`df`, `dr`) is on the board.
pub open spec fn ray_on_board(sq: int, df: int, dr: int, n: int) -> bool {
    0 <= sq % 8 + n * df < 8 && 0 <= sq / 8 + n * dr < 8
}

/// The square `n` steps from `sq` in direction (`df`, `dr`).
pub open spec fn ray_square(sq: int, df: int, dr: int, n: int) -> int {
    (sq / 8 + n * dr) * 8 + (sq % 8 + n * df)
}

/// A slider on `sq` reaches the square `n` steps away: it is on the board and
/// no square on the way is occupied.
pub open spec fn ray_open(occ: u64, sq: int, df: int, dr: int, n: int) -> bool {
    &&& ray_on_board(sq, df, dr, n)
    &&& forall|k: int| 1 <= k < n ==> !bit(occ, #[trigger] ray_square(sq, df, dr, k))
}

/// A slider on `a` reaches `b` along one direction.
pub open spec fn ray_hits(occ: u64, a: int, df: int, dr: int, b: int) -> bool {
    exists|n: int| 1 <= n < 8 && #[trigger] ray_open(occ, a, df, dr, n) && b == ray_square(a, df, dr, n)
}

/// A bishop on `a` attacks `b`.
pub open spec fn bishop_hits(occ: u64, a: int, b: int) -> bool {
    ||| ray_hits(occ, a, 1, 1, b)
    ||| ray_hits(occ, a, 1, -1, b)
    ||| ray_hits(occ, a, -1, 1, b)
    ||| ray_hits(occ, a, -1, -1, b)
}

/// A rook on `a` attacks `b`.
pub open spec fn rook_hits(occ: u64, a: int, b: int) -> bool {
    ||| ray_hits(occ, a, 0, 1, b)
    ||| ray_hits(occ, a, 0, -1, b)
    ||| ray_hits(occ, a, 1, 0, b)
    ||| ray_hits(occ, a, -1, 0, b)
}

/// A queen on `a` attacks `b`.
pub open spec fn queen_hits(occ: u64, a: int, b: int) -> bool {
    bishop_hits(occ, a, b) || rook_hits(occ, a, b)
}

/// A piece of the given kind and color on `a` attacks `b`.
pub open spec fn piece_hits(kind: PieceKind, color: Color, occ: u64, a: int, b: int) -> bool {
    match kind {
        PieceKind::Pawn => pawn_hits(color, a, b),
        PieceKind::Knight => knight_hits(a, b),
        PieceKind::Bishop => bishop_hits(occ, a, b),
        PieceKind::Rook => rook_hits(occ, a, b),
        PieceKind::Queen => queen_hits(occ, a, b),
        PieceKind::King => king_hits(a, b),
    }
}

/// A piece of `color` on `from` attacks `sq`, sliders seeing `occ`.
pub open spec fn hit_from(p: Position, occ: u64, color: Color, from: int, sq: int) -> bool {
    exists|kind: PieceKind|
        #[trigger] p.set_of(color, kind).has(from) && piece_hits(kind, color, occ, from, sq)
}

/// Some piece of `by` attacks `sq`.
pub open spec fn attacked(p: Position, sq: int, by: Color) -> bool {
    exists|from: int| is_square(from) && #[trigger] hit_from(p, p.occupied().0, by, from, sq)
}

/// The squares of `by` from which a piece attacks `sq`.
pub open spec fn attacker_set(p: Position, sq: int, by: Color) -> u64 {
    word_of(|i: int| hit_from(p, p.occupied().0, by, i, sq))
}

/// The squares of either color from which a piece attacks `sq`, sliders seeing
/// `occ`.
pub open spec fn all_attacker_set(p: Position, sq: int, occ: u64) -> u64 {
    word_of(|i: int| hit_from(p, occ, Color::White, i, sq) || hit_from(p, occ, Color::Black, i, sq))
}

/// The king of `color` is attacked.
pub open spec fn in_check(p: Position, color: Color) -> bool {
    attacked(p, p.king_at(color), color.other())
}

/// Bit `i` of a word with one set bit shifted up, without two files.
proof fn lemma_jump_up(sq: u64, k: u64, mask: u64, i: int)
    requires
        sq < 64,
        k < 64,
    ensures
        bit((1u64 << sq << k) & !mask, i) == (i < 64 && i == sq + k && !bit(mask, i)),
{
    broadcast use group_bits;
}

proof fn lemma_jump_down(sq: u64, k: u64, mask: u64, i: int)
    requires
        sq < 64,
        k < 64,
    ensures
        bit(((1u64 << sq) >> k) & !mask, i) == (i >= 0 && i == sq - k && !bit(mask, i)),
{
    broadcast use group_bits;
}

proof fn lemma_edge_files()
    ensures
        forall|i: int| #[trigger] bit(Bitboard::FILE_A, i) == (0 <= i < 64 && i % 8 == 0),
        forall|i: int| #[trigger] bit(Bitboard::FILE_B, i) == (0 <= i < 64 && i % 8 == 1),
        forall|i: int| #[trigger] bit(Bitboard::FILE_G, i) == (0 <= i < 64 && i % 8 == 6),
        forall|i: int| #[trigger] bit(Bitboard::FILE_H, i) == (0 <= i < 64 && i % 8 == 7),
{
    lemma_named_masks();
    assert forall|i: int| #[trigger] bit(Bitboard::FILE_A, i) == (0 <= i < 64 && i % 8 == 0) by {
        lemma_file_mask(0, i);
    }
    assert forall|i: int| #[trigger] bit(Bitboard::FILE_B, i) == (0 <= i < 64 && i % 8 == 1) by {
        lemma_file_mask(1, i);
    }
    assert forall|i: int| #[trigger] bit(Bitboard::FILE_G, i) == (0 <= i < 64 && i % 8 == 6) by {
        lemma_file_mask(6, i);
    }
    assert forall|i: int| #[trigger] bit(Bitboard::FILE_H, i) == (0 <= i < 64 && i % 8 == 7) by {
        lemma_file_mask(7, i);
    }
}

/// The squares that a knight on `sq` attacks.
pub fn knight_attacks(sq: Square) -> (r: Bitboard)
    requires
        sq.ok(),
    ensures
        forall|t: int| #[trigger] r.has(t) == (is_square(t) && knight_hits(sq.0 as int, t)),
{
    let b: u64 = 1u64 << (sq.0 as u64);
    let ab: u64 = Bitboard::FILE_A | Bitboard::FILE_B;
    let gh: u64 = Bitboard::FILE_G | Bitboard::FILE_H;
    // Each jump loses the targets that wrapped around the board edge.
    let n1: u64 = (b << 17) & !Bitboard::FILE_A;
    let n2: u64 = (b << 15) & !Bitboard::FILE_H;
    let n3: u64 = (b << 10) & !ab;
    let n4: u64 = (b << 6) & !gh;
    let s1: u64 = (b >> 15) & !Bitboard::FILE_A;
    let s2: u64 = (b >> 17) & !Bitboard::FILE_H;
    let s3: u64 = (b >> 6) & !ab;
    let s4: u64 = (b >> 10) & !gh;
    let r = Bitboard(n1 | n2 | n3 | n4 | s1 | s2 | s3 | s4);
    proof {
        broadcast use group_bits;
        lemma_edge_files();
        let s = sq.0 as u64;
        assert forall|t: int| #[trigger] r.has(t) == (is_square(t) && knight_hits(sq.0 as int, t)) by {
            lemma_jump_up(s, 17, Bitboard::FILE_A, t);
            lemma_jump_up(s, 15, Bitboard::FILE_H, t);
            lemma_jump_up(s, 10, ab, t);
            lemma_jump_up(s, 6, gh, t);
            lemma_jump_down(s, 15, Bitboard::FILE_A, t);
            lemma_jump_down(s, 17, Bitboard::FILE_H, t);
            lemma_jump_down(s, 6, ab, t);
            lemma_jump_down(s, 10, gh, t);
            if is_square(t) {
                let d = t - s;
                assert(bit(ab, t) == (t % 8 == 0 || t % 8 == 1));
                assert(bit(gh, t) == (t % 8 == 6 || t % 8 == 7));
                lemma_knight_offsets(s as int, t);
            }
        }
    }
    r
}

proof fn lemma_knight_offsets(s: int, t: int)
    requires
        is_square(s),
        is_square(t),
    ensures
        knight_hits(s, t) == ((t == s + 17 && t % 8 != 0) || (t == s + 15 && t % 8 != 7) || (t == s + 10 && t % 8 != 0
            && t % 8 != 1) || (t == s + 6 && t % 8 != 6 && t % 8 != 7) || (t == s - 15 && t % 8 != 0) || (t == s - 17
            && t % 8 != 7) || (t == s - 6 && t % 8 != 0 && t % 8 != 1) || (t == s - 10 && t % 8 != 6 && t % 8 != 7)),
{
    let sf = s % 8;
    let sr = s / 8;
    let tf = t % 8;
    let tr = t / 8;
    assert(s == sr * 8 + sf && t == tr * 8 + tf);
}

/// The squares that a king on `sq` attacks.
pub fn king_attacks(sq: Square) -> (r: Bitboard)
    requires
        sq.ok(),
    ensures
        forall|t: int| #[trigger] r.has(t) == (is_square(t) && king_hits(sq.0 as int, t)),
{
    let b = sq.bitboard();
    let r = b.north() | b.south() | b.east() | b.west() | b.north_east() | b.north_west() | b.south_east()
        | b.south_west();
    proof {
        broadcast use group_bits;
        let s = sq.0 as int;
        assert forall|t: int| #[trigger] r.has(t) == (is_square(t) && king_hits(s, t)) by {
            if is_square(t) {
                lemma_king_offsets(s, t);
            }
        }
    }
    r
}

proof fn lemma_king_offsets(s: int, t: int)
    requires
        is_square(s),
        is_square(t),
    ensures
        king_hits(s, t) == (t == s + 8 || t == s - 8 || (t == s + 1 && t % 8 != 0) || (t == s - 1 && t % 8 != 7) || (t
            == s + 9 && t % 8 != 0) || (t == s + 7 && t % 8 != 7) || (t == s - 7 && t % 8 != 0) || (t == s - 9 && t % 8
            != 7)),
{
    let sf = s % 8;
    let sr = s / 8;
    let tf = t % 8;
    let tr = t / 8;
    assert(s == sr * 8 + sf && t == tr * 8 + tf);
}

/// The squares that a pawn of `color` on `sq` attacks.
pub fn pawn_attacks(sq: Square, color: Color) -> (r: Bitboard)
    requires
        sq.ok(),
    ensures
        forall|t: int| #[trigger] r.has(t) == (is_square(t) && pawn_hits(color, sq.0 as int, t)),
{
    let b = sq.bitboard();
    let r = match color {
        Color::White => b.north_east() | b.north_west(),
        Color::Black => b.south_east() | b.south_west(),
    };
    proof {
        broadcast use group_bits;
        let s = sq.0 as int;
        assert forall|t: int| #[trigger] r.has(t) == (is_square(t) && pawn_hits(color, s, t)) by {
            if is_square(t) {
                lemma_pawn_offsets(s, t);
            }
        }
    }
    r
}

pub proof fn lemma_pawn_offsets(s: int, t: int)
    requires
        is_square(s),
        is_square(t),
    ensures
        pawn_hits(Color::White, s, t) == ((t == s + 9 && t % 8 != 0) || (t == s + 7 && t % 8 != 7)),
        pawn_hits(Color::Black, s, t) == ((t == s - 7 && t % 8 != 0) || (t == s - 9 && t % 8 != 7)),
{
    let sf = s % 8;
    let sr = s / 8;
    let tf = t % 8;
    let tr = t / 8;
    assert(s == sr * 8 + sf && t == tr * 8 + tf);
}

/// A step index that is on the board lies within the board's width.
proof fn lemma_ray_bound(sq: int, df: int, dr: int, n: int)
    requires
        is_square(sq),
        -1 <= df <= 1,
        -1 <= dr <= 1,
        df != 0 || dr != 0,
        n >= 0,
        ray_on_board(sq, df, dr, n),
    ensures
        n < 8,
        0 <= ray_square(sq, df, dr, n) < 64,
{
    if df == 1 {
        assert(n * df == n) by (nonlinear_arith)
            requires df == 1;
    } else if df == -1 {
        assert(n * df == -n) by (nonlinear_arith)
            requires df == -1;
    } else if dr == 1 {
        assert(n * dr == n) by (nonlinear_arith)
            requires dr == 1;
    } else {
        assert(n * dr == -n) by (nonlinear_arith)
            requires dr == -1;
    }
}

/// The squares that a slider on `sq` attacks in one direction: those up to and
/// including the first occupied one.
pub fn ray_attacks(sq: Square, occupancy: Bitboard, df: i8, dr: i8) -> (r: Bitboard)
    requires
        sq.ok(),
        -1 <= df <= 1,
        -1 <= dr <= 1,
        df != 0 || dr != 0,
    ensures
        forall|t: int| #[trigger] r.has(t) == ray_hits(occupancy.0, sq.0 as int, df as int, dr as int, t),
{
    let mut attacks = Bitboard(0);
    let mut f: i8 = sq.file() as i8 + df;
    let mut k: i8 = sq.rank() as i8 + dr;
    let ghost s = sq.0 as int;
    let ghost d = df as int;
    let ghost e = dr as int;
    let ghost occ = occupancy.0;
    let ghost mut n: int = 1;
    let mut blocked = false;
    proof {
        broadcast use group_bits;
        assert(1 * d == d && 1 * e == e);
        assert forall|t: int| !#[trigger] attacks.has(t) by {}
    }
    while !blocked && 0 <= f && f < 8 && 0 <= k && k < 8
        invariant
            sq.ok(),
            s == sq.0,
            d == df,
            e == dr,
            occ == occupancy.0,
            -1 <= df <= 1,
            -1 <= dr <= 1,
            df != 0 || dr != 0,
            1 <= n <= 9,
            !blocked ==> f == s % 8 + n * d && k == s / 8 + n * e,
            -1 <= f <= 8,
            -1 <= k <= 8,
            !blocked ==> forall|j: int| 1 <= j < n ==> !bit(occ, #[trigger] ray_square(s, d, e, j)),
            blocked ==> n >= 2 && bit(occ, ray_square(s, d, e, n - 1)),
            forall|j: int| 1 <= j < n ==> #[trigger] ray_open(occ, s, d, e, j),
            forall|t: int| #[trigger] attacks.has(t) ==> ray_hits(occ, s, d, e, t),
            forall|j: int| 1 <= j < n ==> attacks.has(#[trigger] ray_square(s, d, e, j)),
        decreases 10 - n,
    {
        let target = Square::new(f as u8, k as u8);
        let ghost before = attacks;
        attacks = attacks.set(target);
        proof {
            assert(ray_on_board(s, d, e, n));
            lemma_ray_bound(s, d, e, n);
            assert(target.0 == ray_square(s, d, e, n));
            assert(ray_open(occ, s, d, e, n));
            assert(ray_hits(occ, s, d, e, target.0 as int));
            assert forall|t: int| #[trigger] attacks.has(t) implies ray_hits(occ, s, d, e, t) by {
                if t != target.0 {
                    assert(before.has(t));
                }
            }
            assert forall|j: int| 1 <= j < n + 1 implies attacks.has(#[trigger] ray_square(s, d, e, j)) by {
                if j < n {
                    assert(before.has(ray_square(s, d, e, j)));
                }
            }
        }
        if occupancy.is_set(target) {
            blocked = true;
        } else {
            f = f + df;
            k = k + dr;
        }
        proof {
            assert((n + 1) * d == n * d + d) by (nonlinear_arith);
            assert((n + 1) * e == n * e + e) by (nonlinear_arith);
            n = n + 1;
        }
    }
    proof {
        assert forall|t: int| ray_hits(occ, s, d, e, t) implies attacks.has(t) by {
            let m = choose|m: int| 1 <= m < 8 && #[trigger] ray_open(occ, s, d, e, m) && t == ray_square(s, d, e, m);
            if m >= n {
                if blocked {
                    assert(bit(occ, ray_square(s, d, e, n - 1)));
                } else {
                    lemma_ray_convex(s, d, e, n, m);
                }
                assert(false);
            }
        }
    }
    attacks
}

/// If a step is on the board, so are the steps before it.
pub proof fn lemma_ray_convex(sq: int, df: int, dr: int, n: int, m: int)
    requires
        is_square(sq),
        0 <= n <= m,
        -1 <= df <= 1,
        -1 <= dr <= 1,
        ray_on_board(sq, df, dr, m),
    ensures
        ray_on_board(sq, df, dr, n),
{
    if df == 1 {
        assert(n * df == n && m * df == m) by (nonlinear_arith)
            requires df == 1;
    } else if df == -1 {
        assert(n * df == -n && m * df == -m) by (nonlinear_arith)
            requires df == -1;
    } else {
        assert(n * df == 0 && m * df == 0) by (nonlinear_arith)
            requires df == 0;
    }
    if dr == 1 {
        assert(n * dr == n && m * dr == m) by (nonlinear_arith)
            requires dr == 1;
    } else if dr == -1 {
        assert(n * dr == -n && m * dr == -m) by (nonlinear_arith)
            requires dr == -1;
    } else {
        assert(n * dr == 0 && m * dr == 0) by (nonlinear_arith)
            requires dr == 0;
    }
}

/// Compute bishop attacks from `sq` given `occupancy` (all pieces).
pub fn bishop_attacks(sq: Square, occupancy: Bitboard) -> (r: Bitboard)
    requires
        sq.ok(),
    ensures
        forall|t: int| #[trigger] r.has(t) == bishop_hits(occupancy.0, sq.0 as int, t),
{
    broadcast use group_bits;
    ray_attacks(sq, occupancy, 1, 1) | ray_attacks(sq, occupancy, 1, -1) | ray_attacks(sq, occupancy, -1, 1)
        | ray_attacks(sq, occupancy, -1, -1)
}

/// Compute rook attacks from `sq` given `occupancy` (all pieces).
pub fn rook_attacks(sq: Square, occupancy: Bitboard) -> (r: Bitboard)
    requires
        sq.ok(),
    ensures
        forall|t: int| #[trigger] r.has(t) == rook_hits(occupancy.0, sq.0 as int, t),
{
    broadcast use group_bits;
    ray_attacks(sq, occupancy, 0, 1) | ray_attacks(sq, occupancy, 0, -1) | ray_attacks(sq, occupancy, 1, 0)
        | ray_attacks(sq, occupancy, -1, 0)
}

/// Compute queen attacks (bishop + rook).
pub fn queen_attacks(sq: Square, occupancy: Bitboard) -> (r: Bitboard)
    requires
        sq.ok(),
    ensures
        forall|t: int| #[trigger] r.has(t) == queen_hits(occupancy.0, sq.0 as int, t),
{
    broadcast use group_bits;
    bishop_attacks(sq, occupancy) | rook_attacks(sq, occupancy)
}

proof fn lemma_ray_reverse(occ: u64, a: int, df: int, dr: int, b: int)
    requires
        is_square(a),
        -1 <= df <= 1,
        -1 <= dr <= 1,
        df != 0 || dr != 0,
        ray_hits(occ, a, df, dr, b),
    ensures
        is_square(b),
        ray_hits(occ, b, -df, -dr, a),
{
    let n = choose|n: int| 1 <= n < 8 && #[trigger] ray_open(occ, a, df, dr, n) && b == ray_square(a, df, dr, n);
    lemma_ray_bound(a, df, dr, n);
    let bf = a % 8 + n * df;
    let br = a / 8 + n * dr;
    assert(b % 8 == bf && b / 8 == br);
    assert(n * (-df) == -(n * df)) by (nonlinear_arith);
    assert(n * (-dr) == -(n * dr)) by (nonlinear_arith);
    assert(ray_square(b, -df, -dr, n) == a);
    assert forall|k: int| 1 <= k < n implies !bit(occ, #[trigger] ray_square(b, -df, -dr, k)) by {
        assert(k * (-df) == (n - k) * df - n * df) by (nonlinear_arith);
        assert(k * (-dr) == (n - k) * dr - n * dr) by (nonlinear_arith);
        assert(ray_square(b, -df, -dr, k) == ray_square(a, df, dr, n - k));
    }
    assert(ray_open(occ, b, -df, -dr, n));
}

/// Attacks of pieces other than pawns go both ways; a pawn attacks as a pawn
/// of the other color attacks it back.
pub proof fn law_attack_symmetry(kind: PieceKind, color: Color, occ: u64, a: int, b: int)
    requires
        is_square(a),
        is_square(b),
    ensures
        piece_hits(kind, color, occ, a, b) == piece_hits(kind, color.other(), occ, b, a),
{
    lemma_slider_symmetry(occ, a, b);
    lemma_slider_symmetry(occ, b, a);
}

proof fn lemma_slider_symmetry(occ: u64, a: int, b: int)
    requires
        is_square(a),
    ensures
        bishop_hits(occ, a, b) ==> bishop_hits(occ, b, a),
        rook_hits(occ, a, b) ==> rook_hits(occ, b, a),
{
    if ray_hits(occ, a, 1, 1, b) {
        lemma_ray_reverse(occ, a, 1, 1, b);
    }
    if ray_hits(occ, a, 1, -1, b) {
        lemma_ray_reverse(occ, a, 1, -1, b);
    }
    if ray_hits(occ, a, -1, 1, b) {
        lemma_ray_reverse(occ, a, -1, 1, b);
    }
    if ray_hits(occ, a, -1, -1, b) {
        lemma_ray_reverse(occ, a, -1, -1, b);
    }
    if ray_hits(occ, a, 0, 1, b) {
        lemma_ray_reverse(occ, a, 0, 1, b);
    }
    if ray_hits(occ, a, 0, -1, b) {
        lemma_ray_reverse(occ, a, 0, -1, b);
    }
    if ray_hits(occ, a, 1, 0, b) {
        lemma_ray_reverse(occ, a, 1, 0, b);
    }
    if ray_hits(occ, a, -1, 0, b) {
        lemma_ray_reverse(occ, a, -1, 0, b);
    }
}

/// The pieces of `by` that attack `sq`, given what sliders see.
fn attackers_with(board: &Board, sq: Square, by: Color, occ: Bitboard) -> (r: Bitboard)
    requires
        sq.ok(),
    ensures
        forall|i: int| #[trigger] r.has(i) == (is_square(i) && hit_from(board@, occ.0, by, i, sq.0 as int)),
{
    let queens = board.set_of(by, PieceKind::Queen);
    // From the target outwards: a pawn that attacks `sq` stands where a pawn
    // of the other color on `sq` would attack.
    let pawns = pawn_attacks(sq, by.opposite()) & board.set_of(by, PieceKind::Pawn);
    let knights = knight_attacks(sq) & board.set_of(by, PieceKind::Knight);
    let king = king_attacks(sq) & board.set_of(by, PieceKind::King);
    let diagonal = bishop_attacks(sq, occ) & (board.set_of(by, PieceKind::Bishop) | queens);
    let straight = rook_attacks(sq, occ) & (board.set_of(by, PieceKind::Rook) | queens);
    let r = pawns | knights | king | diagonal | straight;
    proof {
        broadcast use group_bits;
        let s = sq.0 as int;
        let p = board@;
        assert forall|i: int| #[trigger] r.has(i) == (is_square(i) && hit_from(p, occ.0, by, i, s)) by {
            if is_square(i) {
                law_attack_symmetry(PieceKind::Pawn, by, occ.0, i, s);
                law_attack_symmetry(PieceKind::Knight, by, occ.0, i, s);
                law_attack_symmetry(PieceKind::King, by, occ.0, i, s);
                law_attack_symmetry(PieceKind::Bishop, by, occ.0, i, s);
                law_attack_symmetry(PieceKind::Rook, by, occ.0, i, s);
                if r.has(i) {
                    if pawns.has(i) {
                        assert(p.set_of(by, PieceKind::Pawn).has(i) && piece_hits(PieceKind::Pawn, by, occ.0, i, s));
                    } else if knights.has(i) {
                        assert(p.set_of(by, PieceKind::Knight).has(i) && piece_hits(PieceKind::Knight, by, occ.0, i, s));
                    } else if king.has(i) {
                        assert(p.set_of(by, PieceKind::King).has(i) && piece_hits(PieceKind::King, by, occ.0, i, s));
                    } else if diagonal.has(i) {
                        if p.set_of(by, PieceKind::Bishop).has(i) {
                            assert(piece_hits(PieceKind::Bishop, by, occ.0, i, s));
                        } else {
                            assert(p.set_of(by, PieceKind::Queen).has(i));
                            assert(piece_hits(PieceKind::Queen, by, occ.0, i, s));
                        }
                    } else {
                        if p.set_of(by, PieceKind::Rook).has(i) {
                            assert(piece_hits(PieceKind::Rook, by, occ.0, i, s));
                        } else {
                            assert(p.set_of(by, PieceKind::Queen).has(i));
                            assert(piece_hits(PieceKind::Queen, by, occ.0, i, s));
                        }
                    }
                }
                if hit_from(p, occ.0, by, i, s) {
                    let kind = choose|kind: PieceKind|
                        #[trigger] p.set_of(by, kind).has(i) && piece_hits(kind, by, occ.0, i, s);
                    assert(p.set_of(by, kind).has(i));
                }
            }
        }
    }
    r
}

/// Check if `sq` is attacked by any piece of color `by_color`.
pub fn is_square_attacked(board: &Board, sq: Square, by_color: Color) -> (r: bool)
    requires
        sq.ok(),
    ensures
        r == attacked(board@, sq.0 as int, by_color),
{
    let set = attackers_of(board, sq, by_color);
    proof {
        if exists|i: int| #[trigger] set.has(i) {
            let i = choose|i: int| #[trigger] set.has(i);
            assert(hit_from(board@, board@.occupied().0, by_color, i, sq.0 as int));
        }
        if attacked(board@, sq.0 as int, by_color) {
            let i = choose|i: int|
                is_square(i) && #[trigger] hit_from(board@, board@.occupied().0, by_color, i, sq.0 as int);
            assert(set.has(i));
        }
    }
    !set.is_empty()
}

/// Return a bitboard of all pieces of `by_color` that attack `sq`.
pub fn attackers_of(board: &Board, sq: Square, by_color: Color) -> (r: Bitboard)
    requires
        sq.ok(),
    ensures
        forall|i: int| #[trigger]
            r.has(i) == (is_square(i) && hit_from(board@, board@.occupied().0, by_color, i, sq.0 as int)),
        r.0 == attacker_set(board@, sq.0 as int, by_color),
{
    let r = attackers_with(board, sq, by_color, board.all_occupancy());
    proof {
        lemma_word_of(|i: int| hit_from(board@, board@.occupied().0, by_color, i, sq.0 as int));
        assert forall|i: int| 0 <= i < 64 implies bit(r.0, i) == bit(attacker_set(board@, sq.0 as int, by_color), i) by {
            assert(r.has(i) == bit(r.0, i));
        }
        lemma_bits_extensional(r.0, attacker_set(board@, sq.0 as int, by_color));
    }
    r
}

/// Return a bitboard of all pieces (both colors) that attack `sq`, using a
/// custom `occupancy` bitboard for sliding piece rays.
pub fn all_attackers_of(board: &Board, sq: Square, occupancy: Bitboard) -> (r: Bitboard)
    requires
        sq.ok(),
    ensures
        forall|i: int| #[trigger]
            r.has(i) == (is_square(i) && (hit_from(board@, occupancy.0, Color::White, i, sq.0 as int) || hit_from(
                board@,
                occupancy.0,
                Color::Black,
                i,
                sq.0 as int,
            ))),
        r.0 == all_attacker_set(board@, sq.0 as int, occupancy.0),
{
    broadcast use group_bits;
    let r = attackers_with(board, sq, Color::White, occupancy) | attackers_with(board, sq, Color::Black, occupancy);
    proof {
        let (p, s, o) = (board@, sq.0 as int, occupancy.0);
        lemma_word_of(|i: int| hit_from(p, o, Color::White, i, s) || hit_from(p, o, Color::Black, i, s));
        assert forall|i: int| 0 <= i < 64 implies bit(r.0, i) == bit(all_attacker_set(p, s, o), i) by {
            assert(r.has(i) == bit(r.0, i));
        }
        lemma_bits_extensional(r.0, all_attacker_set(p, s, o));
    }
    r
}

/// Check if the side to move is in check.
pub fn is_in_check(board: &Board) -> (r: bool)
    ensures
        r == in_check(board@, board@.side),
{
    let king_sq = board.king_square(board.side_to_move);
    is_square_attacked(board, king_sq, board.side_to_move.opposite())
}

} // verus!
