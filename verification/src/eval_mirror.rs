//! The evaluation treats both colors alike: a position with colors swapped and
//! ranks reversed has the opposite score.

use vstd::prelude::*;
use crate::arith::{max_of, quot};
use crate::attacks::{bishop_hits, is_square, king_hits, knight_hits, pawn_hits, piece_hits, queen_hits, ray_hits, ray_on_board, ray_open, ray_square, rook_hits};
use crate::bits::{bit, group_bits, lemma_bits_extensional, lemma_no_bits, lemma_squares_members, lemma_word_of, pairs_over, popcount, squares, squares_from, sum_over, word_of};
use crate::board::Position;
use crate::eval::{endgame_scale, fortress_scale, major_count, minor_up, minor_up_scale, mixed, opposite_bishops, pawnless_scale, queen_against_pawns, rook_ending_scale, score_of, term, terms_sum, versus};
use crate::eval_base::{beside_word, file_word, front_word, game_phase, hit_by_piece, king_distance, material_of, material_term, npm, pawn_span, placed_fn, placement_sum, rank_word, rel_rank, soft_cap, table_square, upper_word};
use crate::eval_params::EvalParams;
use crate::eval_pawns::{advancement, blockade, connected_bonus, escorts, has_passed_neighbour, is_passed, king_race, passed_pawn, passer_base, passer_scale, pawn_fn, pawn_term, promotion_square, rook_behind, runaway, side_pawns, weak_pawn};
use crate::eval_pieces::{assault, bearing, bears_fn, doubled_rooks, file_danger, in_zone, king_place, on_file_fn, pair_bonus, rook_fn, rook_on_file, rook_on_rank, safety_term, safety_weight, shelter_files, shield, shut_in, side_rooks, side_safety, storm};
use crate::eval_terms::{attack_map, blocked_bishops, blocked_fn, center_word, closedness, exchanges, extra_islands, file_held, islands, kind_count, kind_mobility, majority_term, material_balance, minor_count, mobility_fn, mopup_term, outpost_fn, piece_units, reach, shade, side_center, side_connectivity, side_imbalance, side_minor_bonus, side_mobility, side_space, side_threats, space_term, wide_center_word};
use crate::movegen::forward;
use crate::types::{kind_at, magnitude, Color, Piece, PieceKind};

verus! {

// Squares and words.
/// The square on the same file with the ranks reversed.
pub open spec fn mir(i: int) -> int {
    (7 - i / 8) * 8 + i % 8
}

/// A word with the ranks reversed.
#[verifier::opaque]
pub open spec fn flipw(x: u64) -> u64 {
    word_of(|i: int| bit(x, mir(i)))
}

broadcast proof fn lemma_flip_bit(x: u64, i: int)
    ensures
        #[trigger] bit(flipw(x), i) == (is_square(i) && bit(x, mir(i))),
{
    reveal(flipw);
    lemma_word_of(|i: int| bit(x, mir(i)));
}

broadcast proof fn lemma_flip_and(x: u64, y: u64)
    ensures
        #[trigger] (flipw(x) & flipw(y)) == flipw(x & y),
{
    broadcast use group_bits, lemma_flip_bit;
    lemma_bits_extensional(flipw(x) & flipw(y), flipw(x & y));
}

broadcast proof fn lemma_flip_or(x: u64, y: u64)
    ensures
        #[trigger] (flipw(x) | flipw(y)) == flipw(x | y),
{
    broadcast use group_bits, lemma_flip_bit;
    lemma_bits_extensional(flipw(x) | flipw(y), flipw(x | y));
}

broadcast proof fn lemma_flip_not(x: u64)
    ensures
        #[trigger] (!flipw(x)) == flipw(!x),
{
    broadcast use group_bits, lemma_flip_bit;
    lemma_bits_extensional(!flipw(x), flipw(!x));
}

broadcast proof fn lemma_flip_zero(x: u64)
    ensures
        (#[trigger] flipw(x) == 0) == (x == 0),
{
    broadcast use group_bits, lemma_flip_bit;
    if x == 0 {
        lemma_no_bits(flipw(x));
    }
    if flipw(x) == 0 {
        assert forall|i: int| 0 <= i < 64 implies !bit(x, i) by {
            assert(mir(mir(i)) == i);
            assert(!bit(flipw(x), mir(i)));
        }
        lemma_no_bits(x);
    }
}

/// The sum of a function over the first `n` squares.
spec fn total(h: spec_fn(int) -> int, n: int) -> int
    decreases n,
{
    if n <= 0 { 0 } else { total(h, n - 1) + h(n - 1) }
}

spec fn row(h: spec_fn(int) -> int, r: int) -> int {
    h(8 * r) + h(8 * r + 1) + h(8 * r + 2) + h(8 * r + 3) + h(8 * r + 4) + h(8 * r + 5) + h(8 * r + 6) + h(8 * r + 7)
}

proof fn lemma_row(h: spec_fn(int) -> int, r: int)
    requires
        r >= 0,
    ensures
        total(h, 8 * r + 8) == total(h, 8 * r) + row(h, r),
{
    reveal_with_fuel(total, 9);
}

proof fn lemma_rows(h: spec_fn(int) -> int)
    ensures
        total(h, 64) == row(h, 0) + row(h, 1) + row(h, 2) + row(h, 3) + row(h, 4) + row(h, 5) + row(h, 6) + row(h, 7),
{
    lemma_row(h, 0);
    lemma_row(h, 1);
    lemma_row(h, 2);
    lemma_row(h, 3);
    lemma_row(h, 4);
    lemma_row(h, 5);
    lemma_row(h, 6);
    lemma_row(h, 7);
    assert(total(h, 0) == 0);
}

proof fn lemma_row_flip(g: spec_fn(int) -> int, h: spec_fn(int) -> int, r: int)
    requires
        0 <= r < 8,
        forall|i: int| 0 <= i < 64 ==> #[trigger] g(i) == h(mir(i)),
    ensures
        row(g, r) == row(h, 7 - r),
{
    assert forall|k: int| 0 <= k < 8 implies #[trigger] mir(8 * r + k) == 8 * (7 - r) + k by {
    }
    assert(mir(8 * r) == 8 * (7 - r)) by {
        assert(mir(8 * r + 0) == 8 * (7 - r) + 0);
    }
    assert(g(8 * r) == h(8 * (7 - r)));
    assert(g(8 * r + 1) == h(8 * (7 - r) + 1));
    assert(g(8 * r + 2) == h(8 * (7 - r) + 2));
    assert(g(8 * r + 3) == h(8 * (7 - r) + 3));
    assert(g(8 * r + 4) == h(8 * (7 - r) + 4));
    assert(g(8 * r + 5) == h(8 * (7 - r) + 5));
    assert(g(8 * r + 6) == h(8 * (7 - r) + 6));
    assert(g(8 * r + 7) == h(8 * (7 - r) + 7));
}

spec fn held(x: u64, f: spec_fn(int) -> int) -> spec_fn(int) -> int {
    |i: int| if bit(x, i) { f(i) } else { 0 }
}

proof fn lemma_sum_total(x: u64, f: spec_fn(int) -> int, n: int)
    requires
        0 <= n <= 64,
    ensures
        sum_over(squares_from(x, n), f) + total(held(x, f), n) == total(held(x, f), 64),
    decreases 64 - n,
{
    if n < 64 {
        lemma_sum_total(x, f, n + 1);
        let rest = squares_from(x, n + 1);
        if bit(x, n) {
            let s = squares_from(x, n);
            assert(s == seq![n] + rest);
            assert(s.drop_first() =~= rest);
            assert(s[0] == n);
        }
    }
}

/// Sums over mirrored sets are equal where the functions are mirrored.
proof fn lemma_sum_flip(x: u64, f: spec_fn(int) -> int, g: spec_fn(int) -> int)
    requires
        forall|i: int| is_square(i) && bit(x, i) ==> #[trigger] f(mir(i)) == g(i),
    ensures
        sum_over(squares(flipw(x)), f) == sum_over(squares(x), g),
{
    broadcast use lemma_flip_bit;
    let a = held(flipw(x), f);
    let b = held(x, g);
    lemma_sum_total(flipw(x), f, 0);
    lemma_sum_total(x, g, 0);
    assert forall|i: int| 0 <= i < 64 implies #[trigger] a(i) == b(mir(i)) by {
        assert(mir(mir(i)) == i);
        assert(is_square(mir(i)));
        if bit(x, mir(i)) {
            assert(f(mir(mir(i))) == g(mir(i)));
        }
    }
    lemma_rows(a);
    lemma_rows(b);
    lemma_row_flip(a, b, 0);
    lemma_row_flip(a, b, 1);
    lemma_row_flip(a, b, 2);
    lemma_row_flip(a, b, 3);
    lemma_row_flip(a, b, 4);
    lemma_row_flip(a, b, 5);
    lemma_row_flip(a, b, 6);
    lemma_row_flip(a, b, 7);
}

spec fn first_of(f: spec_fn(int) -> (int, int)) -> spec_fn(int) -> int {
    |i: int| f(i).0
}

spec fn second_of(f: spec_fn(int) -> (int, int)) -> spec_fn(int) -> int {
    |i: int| f(i).1
}

proof fn lemma_pairs_split(s: Seq<int>, f: spec_fn(int) -> (int, int))
    ensures
        pairs_over(s, f) == (sum_over(s, first_of(f)), sum_over(s, second_of(f))),
    decreases s.len(),
{
    if s.len() > 0 {
        lemma_pairs_split(s.drop_first(), f);
    }
}

proof fn lemma_pairs_flip(x: u64, f: spec_fn(int) -> (int, int), g: spec_fn(int) -> (int, int))
    requires
        forall|i: int| is_square(i) && bit(x, i) ==> #[trigger] f(mir(i)) == g(i),
    ensures
        pairs_over(squares(flipw(x)), f) == pairs_over(squares(x), g),
{
    lemma_pairs_split(squares(flipw(x)), f);
    lemma_pairs_split(squares(x), g);
    assert forall|i: int| is_square(i) && bit(x, i) implies #[trigger] first_of(f)(mir(i)) == first_of(g)(i) by {
        assert(f(mir(i)) == g(i));
    }
    assert forall|i: int| is_square(i) && bit(x, i) implies #[trigger] second_of(f)(mir(i)) == second_of(g)(i) by {
        assert(f(mir(i)) == g(i));
    }
    lemma_sum_flip(x, first_of(f), first_of(g));
    lemma_sum_flip(x, second_of(f), second_of(g));
}

proof fn lemma_sum_ones(s: Seq<int>)
    ensures
        sum_over(s, |i: int| 1int) == s.len(),
    decreases s.len(),
{
    if s.len() > 0 {
        lemma_sum_ones(s.drop_first());
    }
}

broadcast proof fn lemma_flip_count(x: u64)
    ensures
        #[trigger] popcount(flipw(x)) == popcount(x),
{
    let f = |i: int| 1int;
    lemma_sum_ones(squares(flipw(x)));
    lemma_sum_ones(squares(x));
    lemma_sum_flip(x, f, f);
}

broadcast group group_flip {
    lemma_flip_bit,
    lemma_flip_and,
    lemma_flip_or,
    lemma_flip_not,
    lemma_flip_zero,
    lemma_flip_count,
}

/// A word of a mirrored predicate is the mirrored word.
proof fn lemma_flip_word(f: spec_fn(int) -> bool, g: spec_fn(int) -> bool)
    requires
        forall|i: int| is_square(i) ==> #[trigger] g(i) == f(mir(i)),
    ensures
        flipw(word_of(f)) == word_of(g),
{
    broadcast use group_bits, lemma_flip_bit;
    lemma_word_of(f);
    lemma_word_of(g);
    assert forall|i: int| 0 <= i < 64 implies bit(flipw(word_of(f)), i) == bit(word_of(g), i) by {
        assert(is_square(mir(i)));
        assert(g(i) == f(mir(i)));
    }
    lemma_bits_extensional(flipw(word_of(f)), word_of(g));
}

// Attacks.
/// A step along a mirrored ray.
proof fn lemma_ray_mirror(a: int, df: int, dr: int, n: int)
    requires
        is_square(a),
    ensures
        ray_on_board(mir(a), df, -dr, n) == ray_on_board(a, df, dr, n),
        ray_on_board(a, df, dr, n) ==> ray_square(mir(a), df, -dr, n) == mir(ray_square(a, df, dr, n)),
        ray_on_board(a, df, dr, n) ==> is_square(ray_square(a, df, dr, n)),
{
    let x = n * df;
    let y = n * dr;
    assert(n * (-dr) == -y) by (nonlinear_arith)
        requires
            y == n * dr,
    ;
    assert(mir(a) / 8 == 7 - a / 8 && mir(a) % 8 == a % 8);
}

proof fn lemma_between_on_board(a: int, d: int, n: int, k: int)
    requires
        0 <= a < 8,
        0 <= a + n * d < 8,
        -1 <= d <= 1,
        1 <= k < n,
    ensures
        0 <= a + k * d < 8,
{
    assert(d == -1 || d == 0 || d == 1);
    if d == 0 {
        assert(k * d == 0);
    } else if d == 1 {
        assert(k * d == k && n * d == n);
    } else {
        assert(k * d == -k && n * d == -n) by (nonlinear_arith)
            requires
                d == -1,
        ;
    }
}

proof fn lemma_open_flip(occ: u64, a: int, df: int, dr: int, n: int)
    requires
        is_square(a),
        -1 <= df <= 1,
        -1 <= dr <= 1,
        ray_open(occ, a, df, dr, n),
    ensures
        ray_open(flipw(occ), mir(a), df, -dr, n),
{
    lemma_ray_mirror(a, df, dr, n);
    assert forall|k: int| 1 <= k < n implies !bit(flipw(occ), #[trigger] ray_square(mir(a), df, -dr, k)) by {
        lemma_between_on_board(a % 8, df, n, k);
        lemma_between_on_board(a / 8, dr, n, k);
        lemma_ray_mirror(a, df, dr, k);
        let s = ray_square(a, df, dr, k);
        assert(!bit(occ, s));
        lemma_flip_bit(occ, mir(s));
        lemma_mir(s);
    }
}

proof fn lemma_mir(s: int)
    requires
        is_square(s),
    ensures
        mir(mir(s)) == s,
        is_square(mir(s)),
        mir(s) / 8 == 7 - s / 8,
        mir(s) % 8 == s % 8,
{
}

proof fn lemma_ray_half(occ: u64, a: int, df: int, dr: int, b: int)
    requires
        is_square(a),
        -1 <= df <= 1,
        -1 <= dr <= 1,
        ray_hits(occ, a, df, dr, b),
    ensures
        ray_hits(flipw(occ), mir(a), df, -dr, mir(b)),
{
    let n = choose|n: int| 1 <= n < 8 && #[trigger] ray_open(occ, a, df, dr, n) && b == ray_square(a, df, dr, n);
    lemma_ray_mirror(a, df, dr, n);
    lemma_open_flip(occ, a, df, dr, n);
    assert(ray_open(flipw(occ), mir(a), df, -dr, n) && mir(b) == ray_square(mir(a), df, -dr, n));
}

proof fn lemma_ray_flip(occ: u64, a: int, df: int, dr: int, b: int)
    requires
        is_square(a),
        is_square(b),
        -1 <= df <= 1,
        -1 <= dr <= 1,
    ensures
        ray_hits(flipw(occ), mir(a), df, -dr, mir(b)) == ray_hits(occ, a, df, dr, b),
{
    lemma_mir(a);
    lemma_mir(b);
    if ray_hits(occ, a, df, dr, b) {
        lemma_ray_half(occ, a, df, dr, b);
    }
    if ray_hits(flipw(occ), mir(a), df, -dr, mir(b)) {
        lemma_ray_half(flipw(occ), mir(a), df, -dr, mir(b));
        lemma_flip_twice(occ);
        assert(-(-dr) == dr);
    }
}

proof fn lemma_flip_twice(x: u64)
    ensures
        flipw(flipw(x)) == x,
{
    broadcast use group_bits, lemma_flip_bit;
    assert forall|i: int| 0 <= i < 64 implies bit(flipw(flipw(x)), i) == bit(x, i) by {
        assert(is_square(mir(i)));
        assert(mir(mir(i)) == i);
    }
    lemma_bits_extensional(flipw(flipw(x)), x);
}

/// Pieces attack mirrored squares from mirrored squares.
proof fn lemma_hits_flip(kind: PieceKind, c: Color, occ: u64, a: int, b: int)
    requires
        is_square(a),
        is_square(b),
    ensures
        piece_hits(kind, c.other(), flipw(occ), mir(a), mir(b)) == piece_hits(kind, c, occ, a, b),
{
    lemma_ray_flip(occ, a, 1, 1, b);
    lemma_ray_flip(occ, a, 1, -1, b);
    lemma_ray_flip(occ, a, -1, 1, b);
    lemma_ray_flip(occ, a, -1, -1, b);
    lemma_ray_flip(occ, a, 0, 1, b);
    lemma_ray_flip(occ, a, 0, -1, b);
    lemma_ray_flip(occ, a, 1, 0, b);
    lemma_ray_flip(occ, a, -1, 0, b);
    lemma_mir(a);
    lemma_mir(b);
}

// Positions.
/// A piece of the other color.
pub open spec fn recolored(sq: Option<Piece>) -> Option<Piece> {
    match sq {
        Some(piece) => Some(Piece { kind: piece.kind, color: piece.color.other() }),
        None => None,
    }
}

/// `q` is `p` with colors swapped and ranks reversed.
pub open spec fn mirrors(p: Position, q: Position) -> bool {
    &&& forall|c: Color, k: PieceKind| (#[trigger] q.set_of(c, k)).0 == flipw(p.set_of(c.other(), k).0)
    &&& q.occupancy[0].0 == flipw(p.occupancy[1].0)
    &&& q.occupancy[1].0 == flipw(p.occupancy[0].0)
    &&& forall|i: int| is_square(i) ==> #[trigger] q.mailbox[i] == recolored(p.mailbox[mir(i)])
    &&& q.side == p.side.other()
}

/// What the evaluation of mirrored positions is compared on: one king and at
/// most two rooks a side.
pub open spec fn comparable(p: Position) -> bool {
    &&& p.one_king(Color::White)
    &&& p.one_king(Color::Black)
    &&& p.set_of(Color::White, PieceKind::Rook).size() <= 2
    &&& p.set_of(Color::Black, PieceKind::Rook).size() <= 2
}

/// The only square of a mirrored set is the mirrored one.
proof fn lemma_only_flip(x: u64)
    requires
        popcount(x) == 1,
    ensures
        squares(flipw(x)).len() == 1,
        is_square(squares(x)[0]),
        squares(flipw(x))[0] == mir(squares(x)[0]),
        bit(x, squares(x)[0]),
{
    broadcast use group_bits, group_flip;
    lemma_squares_members(x);
    lemma_squares_members(flipw(x));
    assert(popcount(flipw(x)) == 1);
    let j = squares(flipw(x))[0];
    assert(squares(flipw(x)).contains(j));
    assert(bit(x, mir(j)));
    assert(squares(x).contains(mir(j)));
    let k = choose|k: int| 0 <= k < squares(x).len() && squares(x)[k] == mir(j);
    assert(k == 0);
    assert(mir(mir(j)) == j);
}

proof fn lemma_kings_flip(p: Position, q: Position)
    requires
        mirrors(p, q),
        comparable(p),
    ensures
        forall|c: Color| #[trigger] q.king_at(c) == mir(p.king_at(c.other())),
        forall|c: Color| is_square(#[trigger] p.king_at(c)),
        forall|c: Color| is_square(#[trigger] q.king_at(c)),
{
    broadcast use group_bits, group_flip;
    assert forall|c: Color| #[trigger] q.king_at(c) == mir(p.king_at(c.other())) && is_square(p.king_at(c.other())) && is_square(q.king_at(c)) by {
        let x = p.set_of(c.other(), PieceKind::King).0;
        assert(p.one_king(c.other()));
        lemma_only_flip(x);
        assert(q.set_of(c, PieceKind::King).0 == flipw(x));
        assert(x != 0) by {
            if x == 0 {
                assert(!bit(0u64, squares(x)[0]));
            }
        }
    }
    assert forall|c: Color| is_square(#[trigger] p.king_at(c)) by {
        assert(q.king_at(c.other()) == mir(p.king_at(c.other().other())));
        assert(c.other().other() == c);
    }
}

// Regions.
proof fn lemma_region_words(f: int, r: int)
    ensures
        flipw(file_word(f)) == file_word(f),
        flipw(beside_word(f)) == beside_word(f),
        flipw(rank_word(r)) == rank_word(7 - r),
        flipw(shelter_files(f)) == shelter_files(f),
{
    lemma_flip_word(|i: int| i % 8 == f, |i: int| i % 8 == f);
    lemma_flip_word(|i: int| i % 8 == f - 1 || i % 8 == f + 1, |i: int| i % 8 == f - 1 || i % 8 == f + 1);
    lemma_flip_word(|i: int| i / 8 == r, |i: int| i / 8 == 7 - r);
    lemma_flip_word(|i: int| f - 1 <= i % 8 <= f + 1, |i: int| f - 1 <= i % 8 <= f + 1);
}

proof fn lemma_side_words(c: Color, sq: int, lo: int)
    requires
        is_square(sq),
    ensures
        flipw(front_word(sq, c)) == front_word(mir(sq), c.other()),
        flipw(front_word(sq, c.other())) == front_word(mir(sq), c),
        flipw(upper_word(c, lo)) == upper_word(c.other(), lo),
        rel_rank(c.other(), mir(sq)) == rel_rank(c, sq),
        mir(sq) % 8 == sq % 8,
        mir(sq) / 8 == 7 - sq / 8,
{
    lemma_mir(sq);
    lemma_front(c, sq);
    lemma_front(c.other(), sq);
    let f = |i: int| rel_rank(c, i) >= lo;
    let g = |i: int| rel_rank(c.other(), i) >= lo;
    assert forall|i: int| is_square(i) implies #[trigger] g(i) == f(mir(i)) by {
        lemma_mir(i);
    }
    lemma_flip_word(f, g);
}

proof fn lemma_front(c: Color, sq: int)
    requires
        is_square(sq),
    ensures
        flipw(front_word(sq, c)) == front_word(mir(sq), c.other()),
{
    let oc = c.other();
    let ms = mir(sq);
    lemma_mir(sq);
    lemma_front_bits(c, sq);
    lemma_front_bits(oc, ms);
    assert forall|i: int| 0 <= i < 64 implies bit(flipw(front_word(sq, c)), i) == bit(front_word(ms, oc), i) by {
        lemma_mir(i);
        lemma_flip_bit(front_word(sq, c), i);
    }
    lemma_bits_extensional(flipw(front_word(sq, c)), front_word(ms, oc));
}

proof fn lemma_front_bits(color: Color, sq: int)
    ensures
        forall|i: int| #[trigger]
            bit(front_word(sq, color), i) == (0 <= i < 64 && match color {
                Color::White => i / 8 > sq / 8,
                Color::Black => i / 8 < sq / 8,
            }),
{
    lemma_word_of(
        |i: int|
            match color {
                Color::White => i / 8 > sq / 8,
                Color::Black => i / 8 < sq / 8,
            },
    );
}

proof fn lemma_span_flip(x: u64, c: Color)
    ensures
        pawn_span(flipw(x), c.other()) == flipw(pawn_span(x, c)),
{
    broadcast use group_bits, lemma_flip_bit;
    let f = |t: int| exists|s: int| #[trigger] bit(x, s) && pawn_hits(c, s, t);
    let g = |t: int| exists|s: int| #[trigger] bit(flipw(x), s) && pawn_hits(c.other(), s, t);
    assert forall|t: int| is_square(t) implies #[trigger] g(t) == f(mir(t)) by {
        lemma_mir(t);
        if g(t) {
            let s = choose|s: int| #[trigger] bit(flipw(x), s) && pawn_hits(c.other(), s, t);
            lemma_mir(s);
            assert(bit(x, mir(s)) && pawn_hits(c, mir(s), mir(t)));
        }
        if f(mir(t)) {
            let s = choose|s: int| #[trigger] bit(x, s) && pawn_hits(c, s, mir(t));
            lemma_mir(s);
            assert(bit(flipw(x), mir(s)) && pawn_hits(c.other(), mir(s), t));
        }
    }
    lemma_flip_word(f, g);
}

/// Sets and counts of mirrored positions.
proof fn lemma_counts(p: Position, q: Position)
    requires
        mirrors(p, q),
    ensures
        forall|c: Color, k: PieceKind| (#[trigger] q.set_of(c, k)).size() == p.set_of(c.other(), k).size(),
        forall|c: Color, k: PieceKind| ((#[trigger] q.set_of(c, k)).0 == 0) == (p.set_of(c.other(), k).0 == 0),
        q.occupied().0 == flipw(p.occupied().0),
        q.occupied().size() == p.occupied().size(),
        forall|c: Color| q.occupancy[#[trigger] c.idx()].0 == flipw(p.occupancy[c.other().idx()].0),
        game_phase(q) == game_phase(p),
{
    broadcast use group_flip;
    assert(p.occupancy[1].0 | p.occupancy[0].0 == p.occupancy[0].0 | p.occupancy[1].0) by {
        broadcast use group_bits;
        lemma_bits_extensional(p.occupancy[1].0 | p.occupancy[0].0, p.occupancy[0].0 | p.occupancy[1].0);
    }
    assert forall|c: Color, k: PieceKind| (#[trigger] q.set_of(c, k)).size() == p.set_of(c.other(), k).size() by {
        assert(q.set_of(c, k).0 == flipw(p.set_of(c.other(), k).0));
    }
}

proof fn lemma_distance_flip(a: int, b: int)
    requires
        is_square(a),
        is_square(b),
    ensures
        king_distance(mir(a), mir(b)) == king_distance(a, b),
{
    lemma_mir(a);
    lemma_mir(b);
}

// Pawns.
proof fn lemma_passed_flip(p: Position, q: Position, c: Color, sq: int)
    requires
        mirrors(p, q),
        is_square(sq),
    ensures
        is_passed(q, c.other(), mir(sq)) == is_passed(p, c, sq),
{
    broadcast use group_flip;
    lemma_side_words(c, sq, 0);
    lemma_region_words(sq % 8, 0);
    assert(q.set_of(c, PieceKind::Pawn).0 == flipw(p.set_of(c.other(), PieceKind::Pawn).0));
    assert(c.other().other() == c);
}

proof fn lemma_weak_flip(p: Position, q: Position, c: Color, params: EvalParams, sq: int)
    requires
        mirrors(p, q),
        is_square(sq),
    ensures
        weak_pawn(q, c.other(), params, mir(sq)) == weak_pawn(p, c, params, sq),
{
    broadcast use group_flip;
    let oc = c.other();
    assert(oc.other() == c);
    lemma_side_words(c, sq, 0);
    lemma_region_words(sq % 8, sq / 8);
    assert(q.set_of(oc, PieceKind::Pawn).0 == flipw(p.set_of(c, PieceKind::Pawn).0));
    assert(q.set_of(c, PieceKind::Pawn).0 == flipw(p.set_of(oc, PieceKind::Pawn).0));
    lemma_span_flip(p.set_of(oc, PieceKind::Pawn).0, oc);
    let stop = sq + forward(c);
    assert(mir(sq) + forward(oc) == mir(stop));
    assert(is_square(mir(stop)) == is_square(stop));
    if is_square(stop) {
        lemma_mir(stop);
    }
}

proof fn lemma_hit_flip(p: Position, q: Position, sq: int, c: Color)
    requires
        mirrors(p, q),
        is_square(sq),
    ensures
        hit_by_piece(q, mir(sq), c.other()) == hit_by_piece(p, sq, c),
{
    lemma_counts(p, q);
    lemma_mirrors_back(p, q);
    lemma_mir(sq);
    assert(c.other().other() == c);
    if hit_by_piece(p, sq, c) {
        lemma_hit_half(p, q, sq, c);
    }
    if hit_by_piece(q, mir(sq), c.other()) {
        lemma_hit_half(q, p, mir(sq), c.other());
    }
}

proof fn lemma_mirrors_back(p: Position, q: Position)
    requires
        mirrors(p, q),
    ensures
        forall|c: Color, k: PieceKind| (#[trigger] p.set_of(c, k)).0 == flipw(q.set_of(c.other(), k).0),
        p.occupied().0 == flipw(q.occupied().0),
{
    lemma_counts(p, q);
    lemma_flip_twice(p.occupied().0);
    assert forall|c: Color, k: PieceKind| (#[trigger] p.set_of(c, k)).0 == flipw(q.set_of(c.other(), k).0) by {
        assert(q.set_of(c.other(), k).0 == flipw(p.set_of(c.other().other(), k).0));
        assert(c.other().other() == c);
        lemma_flip_twice(p.set_of(c, k).0);
    }
}

proof fn lemma_hit_half(p: Position, q: Position, sq: int, c: Color)
    requires
        forall|c: Color, k: PieceKind| (#[trigger] q.set_of(c, k)).0 == flipw(p.set_of(c.other(), k).0),
        q.occupied().0 == flipw(p.occupied().0),
        is_square(sq),
        hit_by_piece(p, sq, c),
    ensures
        hit_by_piece(q, mir(sq), c.other()),
{
    broadcast use group_bits, lemma_flip_bit;
    let oc = c.other();
    assert(oc.other() == c);
    lemma_mir(sq);
    lemma_span_flip(p.set_of(c, PieceKind::Pawn).0, c);
    assert(q.set_of(oc, PieceKind::Pawn).0 == flipw(p.set_of(c, PieceKind::Pawn).0));
    let o = p.occupied().0;
    if bit(pawn_span(p.set_of(c, PieceKind::Pawn).0, c), sq) {
    } else if exists|s: int| #[trigger] p.set_of(c, PieceKind::Knight).has(s) && knight_hits(s, sq) {
        let s = choose|s: int| #[trigger] p.set_of(c, PieceKind::Knight).has(s) && knight_hits(s, sq);
        lemma_reaches_flip(p, q, PieceKind::Knight, c, s, sq);
        assert(q.set_of(oc, PieceKind::Knight).has(mir(s)) && knight_hits(mir(s), mir(sq)));
    } else if exists|s: int| #[trigger] p.set_of(c, PieceKind::Bishop).has(s) && bishop_hits(o, s, sq) {
        let s = choose|s: int| #[trigger] p.set_of(c, PieceKind::Bishop).has(s) && bishop_hits(o, s, sq);
        lemma_reaches_flip(p, q, PieceKind::Bishop, c, s, sq);
        assert(q.set_of(oc, PieceKind::Bishop).has(mir(s)) && bishop_hits(q.occupied().0, mir(s), mir(sq)));
    } else if exists|s: int| #[trigger] p.set_of(c, PieceKind::Rook).has(s) && rook_hits(o, s, sq) {
        let s = choose|s: int| #[trigger] p.set_of(c, PieceKind::Rook).has(s) && rook_hits(o, s, sq);
        lemma_reaches_flip(p, q, PieceKind::Rook, c, s, sq);
        assert(q.set_of(oc, PieceKind::Rook).has(mir(s)) && rook_hits(q.occupied().0, mir(s), mir(sq)));
    } else {
        let s = choose|s: int| #[trigger] p.set_of(c, PieceKind::Queen).has(s) && queen_hits(o, s, sq);
        lemma_reaches_flip(p, q, PieceKind::Queen, c, s, sq);
        assert(q.set_of(oc, PieceKind::Queen).has(mir(s)) && queen_hits(q.occupied().0, mir(s), mir(sq)));
    }
}

proof fn lemma_reaches_flip(p: Position, q: Position, kind: PieceKind, c: Color, s: int, t: int)
    requires
        forall|c: Color, k: PieceKind| (#[trigger] q.set_of(c, k)).0 == flipw(p.set_of(c.other(), k).0),
        q.occupied().0 == flipw(p.occupied().0),
        is_square(t),
        p.set_of(c, kind).has(s),
        piece_hits(kind, c, p.occupied().0, s, t),
    ensures
        q.set_of(c.other(), kind).has(mir(s)),
        piece_hits(kind, c.other(), q.occupied().0, mir(s), mir(t)),
        is_square(s),
{
    broadcast use group_bits, lemma_flip_bit;
    assert(is_square(s));
    lemma_mir(s);
    lemma_hits_flip(kind, c, p.occupied().0, s, t);
    assert(q.set_of(c.other(), kind).0 == flipw(p.set_of(c.other().other(), kind).0));
    assert(c.other().other() == c);
}

proof fn lemma_neighbour_half(p: Position, q: Position, c: Color, sq: int)
    requires
        mirrors(p, q),
        is_square(sq),
        has_passed_neighbour(p, c, sq),
    ensures
        has_passed_neighbour(q, c.other(), mir(sq)),
{
    broadcast use group_bits, group_flip;
    let oc = c.other();
    assert(oc.other() == c);
    let x = p.set_of(c, PieceKind::Pawn).0 & beside_word(sq % 8);
    let s = choose|s: int| #[trigger] bit(p.set_of(c, PieceKind::Pawn).0 & beside_word(sq % 8), s) && is_passed(p, c, s);
    assert(bit(x, s));
    assert(is_square(s));
    lemma_mir(s);
    lemma_mir(sq);
    lemma_region_words(sq % 8, 0);
    lemma_passed_flip(p, q, c, s);
    assert(q.set_of(oc, PieceKind::Pawn).0 == flipw(p.set_of(c, PieceKind::Pawn).0));
    assert(bit(flipw(x), mir(s)));
    assert(bit(q.set_of(oc, PieceKind::Pawn).0 & beside_word(mir(sq) % 8), mir(s)) && is_passed(q, oc, mir(s)));
}

/// Mirroring twice gives the position back, as far as it is looked at.
proof fn lemma_mirrors_symmetric(p: Position, q: Position)
    requires
        mirrors(p, q),
        p.mailbox.len() == 64,
    ensures
        mirrors(q, p),
{
    lemma_mirrors_back(p, q);
    lemma_flip_twice(p.occupancy[0].0);
    lemma_flip_twice(p.occupancy[1].0);
    assert forall|i: int| is_square(i) implies #[trigger] p.mailbox[i] == recolored(q.mailbox[mir(i)]) by {
        lemma_mir(i);
        assert(q.mailbox[mir(i)] == recolored(p.mailbox[mir(mir(i))]));
    }
}

proof fn lemma_promotion_flip(c: Color, sq: int)
    requires
        is_square(sq),
    ensures
        promotion_square(c.other(), mir(sq)) == mir(promotion_square(c, sq)),
        is_square(promotion_square(c, sq)),
{
    lemma_mir(sq);
}

proof fn lemma_blockade_flip(p: Position, q: Position, c: Color, params: EvalParams, sq: int, a: int)
    requires
        mirrors(p, q),
        is_square(sq),
    ensures
        blockade(q, c.other(), params, mir(sq), a) == blockade(p, c, params, sq, a),
{
    let oc = c.other();
    assert(oc.other() == c);
    let stop = sq + forward(c);
    assert(mir(sq) + forward(oc) == mir(stop));
    assert(is_square(mir(stop)) == is_square(stop));
    lemma_promotion_flip(c, sq);
    lemma_hit_flip(p, q, promotion_square(c, sq), oc);
    if is_square(stop) {
        lemma_mir(stop);
        lemma_hit_flip(p, q, stop, oc);
        assert(q.mailbox[mir(stop)] == recolored(p.mailbox[stop]));
    }
}

proof fn lemma_escorts_flip(p: Position, q: Position, c: Color, params: EvalParams, sq: int, a: int)
    requires
        mirrors(p, q),
        is_square(sq),
    ensures
        escorts(q, c.other(), params, mir(sq), a) == escorts(p, c, params, sq, a),
        rook_behind(q, c.other(), mir(sq)) == rook_behind(p, c, sq),
{
    broadcast use group_flip;
    let oc = c.other();
    assert(oc.other() == c);
    lemma_counts(p, q);
    lemma_side_words(c, sq, 0);
    lemma_region_words(sq % 8, 0);
    assert(q.set_of(oc, PieceKind::Rook).0 == flipw(p.set_of(c, PieceKind::Rook).0));
    assert(q.set_of(c, PieceKind::Rook).0 == flipw(p.set_of(oc, PieceKind::Rook).0));
    assert((q.set_of(oc, PieceKind::Queen).0 == 0) == (p.set_of(c, PieceKind::Queen).0 == 0));
}

proof fn lemma_race_flip(p: Position, q: Position, c: Color, params: EvalParams, sq: int, a: int)
    requires
        mirrors(p, q),
        comparable(p),
        is_square(sq),
    ensures
        king_race(q, c.other(), params, mir(sq), a) == king_race(p, c, params, sq, a),
        runaway(q, c.other(), mir(sq)) == runaway(p, c, sq),
{
    let oc = c.other();
    assert(oc.other() == c);
    lemma_counts(p, q);
    lemma_kings_flip(p, q);
    lemma_promotion_flip(c, sq);
    lemma_side_words(c, sq, 0);
    lemma_escorts_flip(p, q, c, params, sq, a);
    let goal = promotion_square(c, sq);
    assert(q.king_at(oc) == mir(p.king_at(c)));
    assert(q.king_at(c) == mir(p.king_at(oc)));
    lemma_distance_flip(p.king_at(c), goal);
    lemma_distance_flip(p.king_at(oc), goal);
    assert((q.set_of(c, PieceKind::Knight).0 == 0) == (p.set_of(oc, PieceKind::Knight).0 == 0));
    assert((q.set_of(c, PieceKind::Bishop).0 == 0) == (p.set_of(oc, PieceKind::Bishop).0 == 0));
    assert((q.set_of(c, PieceKind::Rook).0 == 0) == (p.set_of(oc, PieceKind::Rook).0 == 0));
    assert((q.set_of(c, PieceKind::Queen).0 == 0) == (p.set_of(oc, PieceKind::Queen).0 == 0));
    assert((q.set_of(oc, PieceKind::Queen).0 == 0) == (p.set_of(c, PieceKind::Queen).0 == 0));
}

proof fn lemma_passer_flip(p: Position, q: Position, c: Color, params: EvalParams, sq: int)
    requires
        mirrors(p, q),
        comparable(p),
        p.mailbox.len() == 64,
        is_square(sq),
    ensures
        passed_pawn(q, c.other(), params, mir(sq)) == passed_pawn(p, c, params, sq),
{
    let oc = c.other();
    assert(oc.other() == c);
    let a = advancement(c, sq);
    lemma_side_words(c, sq, 0);
    lemma_counts(p, q);
    assert((q.set_of(c, PieceKind::Rook).0 == 0) == (p.set_of(oc, PieceKind::Rook).0 == 0));
    assert((q.set_of(c, PieceKind::Queen).0 == 0) == (p.set_of(oc, PieceKind::Queen).0 == 0));
    assert(q.set_of(c, PieceKind::Bishop).size() == p.set_of(oc, PieceKind::Bishop).size());
    assert(passer_scale(q, oc) == passer_scale(p, c));
    lemma_mirrors_symmetric(p, q);
    lemma_mir(sq);
    if has_passed_neighbour(p, c, sq) {
        lemma_neighbour_half(p, q, c, sq);
    }
    if has_passed_neighbour(q, oc, mir(sq)) {
        lemma_neighbour_half(q, p, oc, mir(sq));
    }
    assert(passer_base(q, oc, params, a) == passer_base(p, c, params, a));
    assert(connected_bonus(q, oc, params, mir(sq), a) == connected_bonus(p, c, params, sq, a));
    lemma_blockade_flip(p, q, c, params, sq, a);
    lemma_escorts_flip(p, q, c, params, sq, a);
    lemma_race_flip(p, q, c, params, sq, a);
}

proof fn lemma_pawns_flip(p: Position, q: Position, c: Color, params: EvalParams)
    requires
        mirrors(p, q),
        comparable(p),
        p.mailbox.len() == 64,
    ensures
        side_pawns(q, c.other(), params) == side_pawns(p, c, params),
{
    let oc = c.other();
    assert(oc.other() == c);
    let x = p.set_of(c, PieceKind::Pawn).0;
    let f = pawn_fn(q, oc, params);
    let g = pawn_fn(p, c, params);
    assert forall|i: int| is_square(i) && bit(x, i) implies #[trigger] f(mir(i)) == g(i) by {
        lemma_weak_flip(p, q, c, params, i);
        lemma_passed_flip(p, q, c, i);
        lemma_passer_flip(p, q, c, params, i);
    }
    lemma_pairs_flip(x, f, g);
    assert(q.set_of(oc, PieceKind::Pawn).0 == flipw(x));
}

// Rooks.
proof fn lemma_rook_flip(p: Position, q: Position, c: Color, params: EvalParams, sq: int)
    requires
        mirrors(p, q),
        comparable(p),
        is_square(sq),
    ensures
        rook_on_file(q, c.other(), params, mir(sq)) == rook_on_file(p, c, params, sq),
        rook_on_rank(q, c.other(), params, mir(sq)) == rook_on_rank(p, c, params, sq),
{
    broadcast use group_flip;
    let oc = c.other();
    assert(oc.other() == c);
    lemma_side_words(c, sq, 4);
    lemma_region_words(sq % 8, 0);
    lemma_kings_flip(p, q);
    assert(q.set_of(oc, PieceKind::Pawn).0 == flipw(p.set_of(c, PieceKind::Pawn).0));
    assert(q.set_of(c, PieceKind::Pawn).0 == flipw(p.set_of(oc, PieceKind::Pawn).0));
    assert(q.king_at(c) == mir(p.king_at(oc)));
    lemma_side_words(c, p.king_at(oc), 0);
}

proof fn lemma_pair_of_squares(x: u64)
    requires
        popcount(x) == 2,
    ensures
        is_square(squares(x)[0]),
        is_square(squares(x)[1]),
        squares(flipw(x)).len() == 2,
        (squares(flipw(x))[0] % 8 == squares(flipw(x))[1] % 8) == (squares(x)[0] % 8 == squares(x)[1] % 8),
{
    broadcast use group_bits, group_flip;
    lemma_squares_members(x);
    lemma_squares_members(flipw(x));
    assert(popcount(flipw(x)) == 2);
    let s = squares(x);
    let t = squares(flipw(x));
    assert(t.contains(t[0]) && t.contains(t[1]));
    lemma_mir(t[0]);
    lemma_mir(t[1]);
    assert(s.contains(mir(t[0])) && s.contains(mir(t[1])));
    let a = choose|a: int| 0 <= a < s.len() && s[a] == mir(t[0]);
    let b = choose|b: int| 0 <= b < s.len() && s[b] == mir(t[1]);
    assert(t[0] < t[1]);
    assert(a != b);
}

proof fn lemma_rooks_flip(p: Position, q: Position, c: Color, params: EvalParams)
    requires
        mirrors(p, q),
        comparable(p),
    ensures
        side_rooks(q, c.other(), params) == side_rooks(p, c, params),
{
    broadcast use group_flip;
    let oc = c.other();
    assert(oc.other() == c);
    let x = p.set_of(c, PieceKind::Rook).0;
    let f = rook_fn(q, oc, params);
    let g = rook_fn(p, c, params);
    assert forall|i: int| is_square(i) && bit(x, i) implies #[trigger] f(mir(i)) == g(i) by {
        lemma_rook_flip(p, q, c, params, i);
    }
    lemma_pairs_flip(x, f, g);
    assert(q.set_of(oc, PieceKind::Rook).0 == flipw(x));
    lemma_region_words(0, 6);
    lemma_region_words(0, 1);
    assert(doubled_rooks(q, oc, params) == doubled_rooks(p, c, params)) by {
        if popcount(x) >= 2 {
            assert(popcount(x) == 2);
            lemma_pair_of_squares(x);
            lemma_second_on_file(squares(x));
            lemma_second_on_file(squares(flipw(x)));
        }
    }
}

proof fn lemma_second_on_file(s: Seq<int>)
    requires
        s.len() == 2,
    ensures
        sum_over(s.drop_first(), on_file_fn(s[0] % 8)) == if s[1] % 8 == s[0] % 8 { 1int } else { 0 },
{
    let f = on_file_fn(s[0] % 8);
    assert(s.drop_first().drop_first() =~= Seq::<int>::empty());
    assert(sum_over(s.drop_first().drop_first(), f) == 0);
    assert(s.drop_first()[0] == s[1]);
}

// King safety.
proof fn lemma_bearing_flip(p: Position, q: Position, kind: PieceKind, c: Color, king: int)
    requires
        mirrors(p, q),
        is_square(king),
    ensures
        bearing(q, kind, c.other(), mir(king)) == bearing(p, kind, c, king),
{
    let oc = c.other();
    assert(oc.other() == c);
    lemma_counts(p, q);
    let x = p.set_of(c, kind).0;
    let f = bears_fn(q, kind, oc, mir(king));
    let g = bears_fn(p, kind, c, king);
    let o = p.occupied().0;
    let qo = q.occupied().0;
    lemma_mir(king);
    assert forall|i: int| is_square(i) && bit(x, i) implies #[trigger] f(mir(i)) == g(i) by {
        lemma_mir(i);
        if exists|t: int| is_square(t) && #[trigger] in_zone(king, t) && piece_hits(kind, c, o, i, t) {
            let t = choose|t: int| is_square(t) && #[trigger] in_zone(king, t) && piece_hits(kind, c, o, i, t);
            lemma_mir(t);
            lemma_hits_flip(kind, c, o, i, t);
            assert(in_zone(mir(king), mir(t)) && piece_hits(kind, oc, qo, mir(i), mir(t)));
        }
        if exists|t: int| is_square(t) && #[trigger] in_zone(mir(king), t) && piece_hits(kind, oc, qo, mir(i), t) {
            let t = choose|t: int| is_square(t) && #[trigger] in_zone(mir(king), t) && piece_hits(kind, oc, qo, mir(i), t);
            lemma_mir(t);
            lemma_hits_flip(kind, c, o, i, mir(t));
            assert(in_zone(king, mir(t)) && piece_hits(kind, c, o, i, mir(t)));
        }
    }
    lemma_sum_flip(x, f, g);
    assert(q.set_of(oc, kind).0 == flipw(x));
}

proof fn lemma_npm_flip(p: Position, q: Position, c: Color, params: EvalParams)
    requires
        mirrors(p, q),
    ensures
        npm(q, c.other(), params) == npm(p, c, params),
{
    lemma_counts(p, q);
    let oc = c.other();
    assert(oc.other() == c);
    assert(q.set_of(oc, PieceKind::Knight).size() == p.set_of(c, PieceKind::Knight).size());
    assert(q.set_of(oc, PieceKind::Bishop).size() == p.set_of(c, PieceKind::Bishop).size());
    assert(q.set_of(oc, PieceKind::Rook).size() == p.set_of(c, PieceKind::Rook).size());
    assert(q.set_of(oc, PieceKind::Queen).size() == p.set_of(c, PieceKind::Queen).size());
}

proof fn lemma_assault_flip(p: Position, q: Position, c: Color, params: EvalParams)
    requires
        mirrors(p, q),
        comparable(p),
    ensures
        assault(q, c.other(), params) == assault(p, c, params),
{
    broadcast use group_flip;
    let oc = c.other();
    assert(oc.other() == c);
    lemma_counts(p, q);
    lemma_kings_flip(p, q);
    let king = p.king_at(c);
    let qk = q.king_at(oc);
    assert(qk == mir(king));
    lemma_bearing_flip(p, q, PieceKind::Knight, oc, king);
    lemma_bearing_flip(p, q, PieceKind::Bishop, oc, king);
    lemma_bearing_flip(p, q, PieceKind::Rook, oc, king);
    lemma_bearing_flip(p, q, PieceKind::Queen, oc, king);
    lemma_npm_flip(p, q, c, params);
    lemma_npm_flip(p, q, oc, params);
    let f = |t: int| king_hits(king, t);
    let g = |t: int| king_hits(qk, t);
    lemma_mir(king);
    assert forall|i: int| is_square(i) implies #[trigger] g(i) == f(mir(i)) by {
        lemma_mir(i);
    }
    lemma_flip_word(f, g);
    assert(q.occupancy[oc.idx()].0 == flipw(p.occupancy[c.idx()].0));
}

proof fn lemma_safety_flip(p: Position, q: Position, c: Color, phase: int, params: EvalParams)
    requires
        mirrors(p, q),
        comparable(p),
    ensures
        side_safety(q, c.other(), phase, params) == side_safety(p, c, phase, params),
{
    broadcast use group_flip;
    let oc = c.other();
    assert(oc.other() == c);
    lemma_counts(p, q);
    lemma_kings_flip(p, q);
    let king = p.king_at(c);
    assert(q.king_at(oc) == mir(king));
    lemma_mir(king);
    lemma_side_words(c, king, 0);
    lemma_assault_flip(p, q, c, params);
    let f = king % 8;
    lemma_region_words(f, king / 8 + 1);
    lemma_region_words(f - 1, king / 8 - 1);
    lemma_region_words(f + 1, king / 8 + 2);
    lemma_region_words(f, king / 8 - 2);
    lemma_region_words(f, 3);
    lemma_region_words(f, 4);
    let own = p.set_of(c, PieceKind::Pawn).0;
    let enemy = p.set_of(oc, PieceKind::Pawn).0;
    assert(q.set_of(oc, PieceKind::Pawn).0 == flipw(own));
    assert(q.set_of(c, PieceKind::Pawn).0 == flipw(enemy));
    assert(shield(q, oc, params) == shield(p, c, params));
    assert(file_danger(q, oc, params, f - 1) == file_danger(p, c, params, f - 1));
    assert(file_danger(q, oc, params, f) == file_danger(p, c, params, f));
    assert(file_danger(q, oc, params, f + 1) == file_danger(p, c, params, f + 1));
    assert(king_place(q, oc, params) == king_place(p, c, params));
    assert(rank_word(3) | rank_word(4) == rank_word(4) | rank_word(3)) by {
        broadcast use group_bits;
        lemma_bits_extensional(rank_word(3) | rank_word(4), rank_word(4) | rank_word(3));
    }
    assert(storm(q, oc) == storm(p, c));
    assert((q.set_of(c, PieceKind::Queen).0 == 0) == (p.set_of(oc, PieceKind::Queen).0 == 0));
    assert((q.set_of(c, PieceKind::Rook).0 == 0) == (p.set_of(oc, PieceKind::Rook).0 == 0));
    assert((q.set_of(c, PieceKind::Bishop).0 == 0) == (p.set_of(oc, PieceKind::Bishop).0 == 0));
    assert(safety_weight(q, oc, phase) == safety_weight(p, c, phase));
}

// Mobility, center, protection, threats.
proof fn lemma_mobility_flip(p: Position, q: Position, kind: PieceKind, c: Color, params: EvalParams)
    requires
        mirrors(p, q),
    ensures
        kind_mobility(q, kind, c.other(), params) == kind_mobility(p, kind, c, params),
{
    let oc = c.other();
    assert(oc.other() == c);
    let x = p.set_of(c, kind).0;
    let f = mobility_fn(q, kind, oc, params);
    let g = mobility_fn(p, kind, c, params);
    assert forall|i: int| is_square(i) && bit(x, i) implies #[trigger] f(mir(i)) == g(i) by {
        broadcast use group_flip;
        lemma_reach_flip(p, q, kind, c, i);
        lemma_side_words(c, i, 4);
        lemma_side_words(c, i, 6);
    }
    lemma_pairs_flip(x, f, g);
    assert(q.set_of(oc, kind).0 == flipw(x));
}

proof fn lemma_reach_flip(p: Position, q: Position, kind: PieceKind, c: Color, sq: int)
    requires
        mirrors(p, q),
        is_square(sq),
    ensures
        reach(q, kind, c.other(), mir(sq)) == flipw(reach(p, kind, c, sq)),
{
    broadcast use group_flip;
    let oc = c.other();
    assert(oc.other() == c);
    lemma_counts(p, q);
    let ms = mir(sq);
    let f = |t: int| piece_hits(kind, c, p.occupied().0, sq, t);
    let g = |t: int| piece_hits(kind, oc, q.occupied().0, ms, t);
    assert forall|i: int| is_square(i) implies #[trigger] g(i) == f(mir(i)) by {
        lemma_mir(i);
        lemma_hits_flip(kind, c, p.occupied().0, sq, mir(i));
    }
    lemma_flip_word(f, g);
    assert(q.occupancy[oc.idx()].0 == flipw(p.occupancy[c.idx()].0));
}

proof fn lemma_center_flip(p: Position, q: Position, c: Color, params: EvalParams)
    requires
        mirrors(p, q),
    ensures
        side_center(q, c.other(), params) == side_center(p, c, params),
{
    broadcast use group_flip;
    let oc = c.other();
    assert(oc.other() == c);
    lemma_counts(p, q);
    lemma_flip_word(|i: int| 3 <= i % 8 <= 4 && 3 <= i / 8 <= 4, |i: int| 3 <= i % 8 <= 4 && 3 <= i / 8 <= 4);
    lemma_flip_word(
        |i: int| (3 <= i % 8 <= 4 && 3 <= i / 8 <= 4) || ((i % 8 == 2 || i % 8 == 5) && 2 <= i / 8 <= 5),
        |i: int| (3 <= i % 8 <= 4 && 3 <= i / 8 <= 4) || ((i % 8 == 2 || i % 8 == 5) && 2 <= i / 8 <= 5),
    );
    assert(flipw(center_word()) == center_word());
    assert(flipw(wide_center_word()) == wide_center_word());
    assert(q.set_of(oc, PieceKind::Pawn).0 == flipw(p.set_of(c, PieceKind::Pawn).0));
    assert(q.set_of(oc, PieceKind::Knight).0 == flipw(p.set_of(c, PieceKind::Knight).0));
    assert(q.set_of(oc, PieceKind::Bishop).0 == flipw(p.set_of(c, PieceKind::Bishop).0));
}

proof fn lemma_connectivity_flip(p: Position, q: Position, c: Color, params: EvalParams)
    requires
        mirrors(p, q),
    ensures
        side_connectivity(q, c.other(), params) == side_connectivity(p, c, params),
{
    broadcast use group_flip;
    let oc = c.other();
    assert(oc.other() == c);
    let pawns = p.set_of(c, PieceKind::Pawn).0;
    let x = p.set_of(c, PieceKind::Knight).0 & pawn_span(pawns, c);
    lemma_span_flip(pawns, c);
    assert(q.set_of(oc, PieceKind::Pawn).0 == flipw(pawns));
    assert(q.set_of(oc, PieceKind::Knight).0 == flipw(p.set_of(c, PieceKind::Knight).0));
    assert(q.set_of(c, PieceKind::Pawn).0 == flipw(p.set_of(oc, PieceKind::Pawn).0));
    let f = outpost_fn(q, oc, params);
    let g = outpost_fn(p, c, params);
    assert forall|i: int| is_square(i) && bit(x, i) implies #[trigger] f(mir(i)) == g(i) by {
        lemma_side_words(c, i, 0);
        lemma_region_words(i % 8, 0);
    }
    lemma_sum_flip(x, f, g);
}

proof fn lemma_map_flip(p: Position, q: Position, kind: PieceKind, c: Color)
    requires
        mirrors(p, q),
    ensures
        attack_map(q, kind, c.other()) == flipw(attack_map(p, kind, c)),
{
    broadcast use group_bits, lemma_flip_bit;
    let oc = c.other();
    assert(oc.other() == c);
    lemma_counts(p, q);
    lemma_mirrors_back(p, q);
    let f = |t: int|
        exists|s: int| #[trigger] p.set_of(c, kind).has(s) && piece_hits(kind, c, p.occupied().0, s, t);
    let g = |t: int|
        exists|s: int| #[trigger] q.set_of(oc, kind).has(s) && piece_hits(kind, oc, q.occupied().0, s, t);
    assert forall|i: int| is_square(i) implies #[trigger] g(i) == f(mir(i)) by {
        lemma_mir(i);
        if f(mir(i)) {
            let s = choose|s: int| #[trigger] p.set_of(c, kind).has(s) && piece_hits(kind, c, p.occupied().0, s, mir(i));
            lemma_reaches_flip(p, q, kind, c, s, mir(i));
            assert(q.set_of(oc, kind).has(mir(s)) && piece_hits(kind, oc, q.occupied().0, mir(s), i));
        }
        if g(i) {
            let s = choose|s: int| #[trigger] q.set_of(oc, kind).has(s) && piece_hits(kind, oc, q.occupied().0, s, i);
            lemma_reaches_flip(q, p, kind, oc, s, i);
            assert(p.set_of(c, kind).has(mir(s)) && piece_hits(kind, c, p.occupied().0, mir(s), mir(i)));
        }
    }
    lemma_flip_word(f, g);
}

proof fn lemma_threats_flip(p: Position, q: Position, c: Color, params: EvalParams)
    requires
        mirrors(p, q),
    ensures
        side_threats(q, c.other(), params) == side_threats(p, c, params),
{
    broadcast use group_flip;
    let oc = c.other();
    assert(oc.other() == c);
    lemma_npm_flip(p, q, c, params);
    lemma_npm_flip(p, q, oc, params);
    lemma_span_flip(p.set_of(c, PieceKind::Pawn).0, c);
    lemma_span_flip(p.set_of(oc, PieceKind::Pawn).0, oc);
    lemma_map_flip(p, q, PieceKind::Knight, c);
    lemma_map_flip(p, q, PieceKind::Bishop, c);
    lemma_map_flip(p, q, PieceKind::Rook, c);
    assert(q.set_of(oc, PieceKind::Pawn).0 == flipw(p.set_of(c, PieceKind::Pawn).0));
    assert(q.set_of(c, PieceKind::Pawn).0 == flipw(p.set_of(oc, PieceKind::Pawn).0));
    assert(q.set_of(c, PieceKind::Knight).0 == flipw(p.set_of(oc, PieceKind::Knight).0));
    assert(q.set_of(c, PieceKind::Bishop).0 == flipw(p.set_of(oc, PieceKind::Bishop).0));
    assert(q.set_of(c, PieceKind::Rook).0 == flipw(p.set_of(oc, PieceKind::Rook).0));
    assert(q.set_of(c, PieceKind::Queen).0 == flipw(p.set_of(oc, PieceKind::Queen).0));
}

// Material.
proof fn lemma_placed_flip(x: u64, table: Seq<i32>, c: Color, material: int)
    ensures
        sum_over(squares(flipw(x)), placed_fn(table, c.other(), material)) == sum_over(
            squares(x),
            placed_fn(table, c, material),
        ),
{
    let f = placed_fn(table, c.other(), material);
    let g = placed_fn(table, c, material);
    assert forall|i: int| is_square(i) && bit(x, i) implies #[trigger] f(mir(i)) == g(i) by {
        lemma_mir(i);
        assert(table_square(c.other(), mir(i)) == table_square(c, i));
    }
    lemma_sum_flip(x, f, g);
}

proof fn lemma_kind_sets(p: Position, q: Position, k: int)
    requires
        mirrors(p, q),
        0 <= k < 6,
    ensures
        q.pieces[0][k].0 == flipw(p.pieces[1][k].0),
        q.pieces[1][k].0 == flipw(p.pieces[0][k].0),
{
    let kind = kind_at(k);
    assert(kind.idx() == k);
    assert(q.set_of(Color::White, kind).0 == flipw(p.set_of(Color::Black, kind).0));
    assert(q.set_of(Color::Black, kind).0 == flipw(p.set_of(Color::White, kind).0));
}

proof fn lemma_placement_flip(p: Position, q: Position, material: Seq<i32>, tables: Seq<[i32; 64]>, n: int)
    requires
        mirrors(p, q),
        n <= 6,
    ensures
        placement_sum(q, material, tables, n) == -placement_sum(p, material, tables, n),
    decreases n,
{
    if n > 0 {
        let k = n - 1;
        lemma_placement_flip(p, q, material, tables, k);
        lemma_kind_sets(p, q, k);
        let m = material_of(material, k);
        lemma_placed_flip(p.pieces[1][k].0, tables[k]@, Color::Black, m);
        lemma_placed_flip(p.pieces[0][k].0, tables[k]@, Color::White, m);
    }
}

proof fn lemma_material_flip(p: Position, q: Position, params: EvalParams)
    requires
        mirrors(p, q),
    ensures
        material_term(q, params) == (-material_term(p, params).0, -material_term(p, params).1),
{
    lemma_counts(p, q);
    lemma_placement_flip(p, q, params.material_mg@, params.pst_mg@, 6);
    lemma_placement_flip(p, q, params.material_eg@, params.pst_eg@, 6);
    lemma_kind_sets(p, q, 5);
    lemma_placed_flip(p.pieces[1][5].0, params.pst_eg@[5]@, Color::Black, 0);
    lemma_placed_flip(p.pieces[0][5].0, params.pst_eg@[5]@, Color::White, 0);
    lemma_placed_flip(p.pieces[1][5].0, params.pst_mg@[5]@, Color::Black, 0);
    lemma_placed_flip(p.pieces[0][5].0, params.pst_mg@[5]@, Color::White, 0);
    assert(q.set_of(Color::White, PieceKind::Queen).size() == p.set_of(Color::Black, PieceKind::Queen).size());
    assert(q.set_of(Color::Black, PieceKind::Queen).size() == p.set_of(Color::White, PieceKind::Queen).size());
}

// Small terms.
proof fn lemma_or_swap(x: u64, y: u64)
    ensures
        x | y == y | x,
{
    broadcast use group_bits;
    lemma_bits_extensional(x | y, y | x);
}

proof fn lemma_kind_counts(p: Position, q: Position, c: Color)
    requires
        mirrors(p, q),
    ensures
        forall|k: PieceKind| #[trigger] kind_count(q, c.other(), k) == kind_count(p, c, k),
        minor_count(q, c.other()) == minor_count(p, c),
        major_count(q, c.other()) == major_count(p, c),
        piece_units(q, c.other()) == piece_units(p, c),
{
    lemma_counts(p, q);
    let oc = c.other();
    assert(oc.other() == c);
    assert forall|k: PieceKind| #[trigger] kind_count(q, oc, k) == kind_count(p, c, k) by {
        assert(q.set_of(oc, k).size() == p.set_of(c, k).size());
    }
    assert(kind_count(q, oc, PieceKind::Knight) == kind_count(p, c, PieceKind::Knight));
    assert(kind_count(q, oc, PieceKind::Bishop) == kind_count(p, c, PieceKind::Bishop));
    assert(kind_count(q, oc, PieceKind::Rook) == kind_count(p, c, PieceKind::Rook));
    assert(kind_count(q, oc, PieceKind::Queen) == kind_count(p, c, PieceKind::Queen));
}

proof fn lemma_pair_flip(p: Position, q: Position, c: Color, params: EvalParams)
    requires
        mirrors(p, q),
    ensures
        pair_bonus(q, c.other(), params) == pair_bonus(p, c, params),
        closedness(q) == closedness(p),
        side_minor_bonus(q, c.other(), params) == side_minor_bonus(p, c, params),
{
    broadcast use group_flip;
    let oc = c.other();
    assert(oc.other() == c);
    lemma_counts(p, q);
    lemma_kind_counts(p, q, c);
    let w = p.set_of(Color::White, PieceKind::Pawn).0;
    let b = p.set_of(Color::Black, PieceKind::Pawn).0;
    assert(q.set_of(Color::White, PieceKind::Pawn).0 == flipw(b));
    assert(q.set_of(Color::Black, PieceKind::Pawn).0 == flipw(w));
    lemma_or_swap(w, b);
    assert(q.set_of(oc, PieceKind::Bishop).size() == p.set_of(c, PieceKind::Bishop).size());
    assert(kind_count(q, oc, PieceKind::Knight) == kind_count(p, c, PieceKind::Knight));
    assert(kind_count(q, oc, PieceKind::Bishop) == kind_count(p, c, PieceKind::Bishop));
}

proof fn lemma_imbalance_flip(p: Position, q: Position, c: Color, params: EvalParams)
    requires
        mirrors(p, q),
    ensures
        side_imbalance(q, c.other(), params) == side_imbalance(p, c, params),
{
    let oc = c.other();
    assert(oc.other() == c);
    lemma_kind_counts(p, q, c);
    lemma_kind_counts(p, q, oc);
    assert(kind_count(q, oc, PieceKind::Rook) == kind_count(p, c, PieceKind::Rook));
    assert(kind_count(q, c, PieceKind::Rook) == kind_count(p, oc, PieceKind::Rook));
    assert(kind_count(q, oc, PieceKind::Knight) == kind_count(p, c, PieceKind::Knight));
    assert(kind_count(q, oc, PieceKind::Queen) == kind_count(p, c, PieceKind::Queen));
    assert(kind_count(q, c, PieceKind::Queen) == kind_count(p, oc, PieceKind::Queen));
    assert(exchanges(q, oc) == exchanges(p, c));
}

proof fn lemma_space_flip(p: Position, q: Position, c: Color)
    requires
        mirrors(p, q),
    ensures
        side_space(q, c.other()) == side_space(p, c),
{
    broadcast use group_flip;
    let oc = c.other();
    assert(oc.other() == c);
    lemma_counts(p, q);
    lemma_span_flip(p.set_of(oc, PieceKind::Pawn).0, oc);
    assert(q.set_of(c, PieceKind::Pawn).0 == flipw(p.set_of(oc, PieceKind::Pawn).0));
    let low = rank_word(1) | rank_word(2) | rank_word(3);
    let high = rank_word(4) | rank_word(5) | rank_word(6);
    lemma_region_words(0, 1);
    lemma_region_words(0, 2);
    lemma_region_words(0, 3);
    lemma_region_words(0, 4);
    lemma_region_words(0, 5);
    lemma_region_words(0, 6);
    assert(rank_word(6) | rank_word(5) | rank_word(4) == high) by {
        broadcast use group_bits;
        lemma_bits_extensional(rank_word(6) | rank_word(5) | rank_word(4), high);
    }
    assert(rank_word(3) | rank_word(2) | rank_word(1) == low) by {
        broadcast use group_bits;
        lemma_bits_extensional(rank_word(3) | rank_word(2) | rank_word(1), low);
    }
    assert(flipw(low) == high);
    assert(flipw(high) == low);
}

proof fn lemma_bishops_flip(p: Position, q: Position, c: Color)
    requires
        mirrors(p, q),
    ensures
        blocked_bishops(q, c.other()) == blocked_bishops(p, c),
{
    let oc = c.other();
    assert(oc.other() == c);
    let x = p.set_of(c, PieceKind::Bishop).0;
    let f = blocked_fn(q, oc);
    let g = blocked_fn(p, c);
    assert(q.set_of(oc, PieceKind::Pawn).0 == flipw(p.set_of(c, PieceKind::Pawn).0));
    assert forall|i: int| is_square(i) && bit(x, i) implies #[trigger] f(mir(i)) == g(i) by {
        broadcast use group_flip;
        lemma_mir(i);
        let dark = (i % 8 + i / 8) % 2 == 0;
        lemma_shade_flip(dark);
        assert(((mir(i) % 8 + mir(i) / 8) % 2 == 0) == !dark);
    }
    lemma_sum_flip(x, f, g);
    assert(q.set_of(oc, PieceKind::Bishop).0 == flipw(x));
}

proof fn lemma_shade_flip(dark: bool)
    ensures
        flipw(shade(dark)) == shade(!dark),
{
    let other = !dark;
    let f = |i: int| ((i % 8 + i / 8) % 2 == 0) == dark;
    let g = |i: int| ((i % 8 + i / 8) % 2 == 0) == other;
    assert forall|i: int| is_square(i) implies #[trigger] g(i) == f(mir(i)) by {
        lemma_mir(i);
    }
    lemma_flip_word(f, g);
}

proof fn lemma_trapped_flip(p: Position, q: Position, c: Color)
    requires
        mirrors(p, q),
    ensures
        shut_in(q, c.other()) == shut_in(p, c),
{
    broadcast use group_bits, lemma_flip_bit;
    let oc = c.other();
    assert(oc.other() == c);
    assert(q.set_of(oc, PieceKind::Bishop).0 == flipw(p.set_of(c, PieceKind::Bishop).0));
    assert(q.set_of(c, PieceKind::Pawn).0 == flipw(p.set_of(oc, PieceKind::Pawn).0));
    assert(mir(48) == 8 && mir(41) == 17 && mir(55) == 15 && mir(46) == 22);
    assert(mir(8) == 48 && mir(17) == 41 && mir(15) == 55 && mir(22) == 46);
}

proof fn lemma_islands_flip(x: u64, n: int)
    ensures
        islands(flipw(x), n) == islands(x, n),
    decreases n,
{
    broadcast use group_flip;
    if n > 0 {
        lemma_islands_flip(x, n - 1);
        lemma_region_words(n - 1, 0);
        lemma_region_words(n - 2, 0);
        assert(file_held(flipw(x), n - 1) == file_held(x, n - 1));
        assert(file_held(flipw(x), n - 2) == file_held(x, n - 2));
    }
}

// Signs.
proof fn lemma_quot_odd(a: int, b: int)
    requires
        b > 0,
    ensures
        quot(-a, b) == -quot(a, b),
{
    if a == 0 {
        assert(0int / b == 0) by (nonlinear_arith)
            requires
                b > 0,
        ;
    }
}

proof fn lemma_cap_odd(v: int, cap: int)
    requires
        cap > 0,
    ensures
        soft_cap(-v, cap) == -soft_cap(v, cap),
{
    assert((-v) * cap == -(v * cap)) by (nonlinear_arith);
    lemma_quot_odd(v * cap, magnitude(v) + cap);
}

proof fn lemma_product_odd(a: int, b: int)
    ensures
        (-a) * b == -(a * b),
        b * (-a) == -(b * a),
{
    assert((-a) * b == -(a * b)) by (nonlinear_arith);
    assert(b * (-a) == -(b * a)) by (nonlinear_arith);
}

proof fn lemma_mopup_flip(p: Position, q: Position, phase: int)
    requires
        mirrors(p, q),
        comparable(p),
    ensures
        mopup_term(q, phase) == -mopup_term(p, phase),
{
    lemma_kings_flip(p, q);
    lemma_kind_counts(p, q, Color::White);
    lemma_kind_counts(p, q, Color::Black);
    assert forall|k: PieceKind| #[trigger] kind_count(q, Color::White, k) == kind_count(p, Color::Black, k) by {
        assert(Color::Black.other() == Color::White);
    }
    assert forall|k: PieceKind| #[trigger] kind_count(q, Color::Black, k) == kind_count(p, Color::White, k) by {
        assert(Color::White.other() == Color::Black);
    }
    assert(material_balance(q) == -material_balance(p));
    let w = p.king_at(Color::White);
    let b = p.king_at(Color::Black);
    assert(q.king_at(Color::White) == mir(b));
    assert(q.king_at(Color::Black) == mir(w));
    lemma_mir(w);
    lemma_mir(b);
    lemma_distance_flip(w, b);
    lemma_distance_flip(b, w);
}

proof fn lemma_majority_flip(p: Position, q: Position)
    requires
        mirrors(p, q),
    ensures
        majority_term(q) == (-majority_term(p).0, -majority_term(p).1),
{
    lemma_kind_counts(p, q, Color::White);
    lemma_kind_counts(p, q, Color::Black);
    let more = kind_count(p, Color::White, PieceKind::Pawn) - kind_count(p, Color::Black, PieceKind::Pawn);
    assert(kind_count(q, Color::White, PieceKind::Pawn) == kind_count(p, Color::Black, PieceKind::Pawn));
    assert(kind_count(q, Color::Black, PieceKind::Pawn) == kind_count(p, Color::White, PieceKind::Pawn));
    let scale = max_of(6 - magnitude(piece_units(p, Color::White) - piece_units(p, Color::Black)), 0);
    lemma_product_odd(more, scale);
}

proof fn lemma_space_term_flip(p: Position, q: Position)
    requires
        mirrors(p, q),
    ensures
        space_term(q) == (-space_term(p).0, -space_term(p).1),
{
    lemma_counts(p, q);
    lemma_space_flip(p, q, Color::White);
    lemma_space_flip(p, q, Color::Black);
    let d = side_space(p, Color::White) - side_space(p, Color::Black);
    let n = max_of(p.occupied().size() - 10, 0);
    lemma_product_odd(d, n);
    lemma_quot_odd(d * n, 8);
}

/// A pair with both signs changed.
spec fn opposite(t: (int, int)) -> (int, int) {
    (-t.0, -t.1)
}

proof fn lemma_term_flip_low(p: Position, q: Position, params: EvalParams, pawns: (int, int), n: int)
    requires
        mirrors(p, q),
        comparable(p),
        0 <= n < 9,
    ensures
        term(q, params, opposite(pawns), n) == opposite(term(p, params, pawns, n)),
{
    let w = Color::White;
    let b = Color::Black;
    lemma_counts(p, q);
    let phase = game_phase(p);
    if n == 0 {
        lemma_material_flip(p, q, params);
    } else if n == 1 {
        lemma_cap_odd(pawns.0, 250);
        lemma_cap_odd(pawns.1, 300);
    } else if n == 2 {
        lemma_pair_flip(p, q, w, params);
        lemma_pair_flip(p, q, b, params);
    } else if n == 3 {
        lemma_rooks_flip(p, q, w, params);
        lemma_rooks_flip(p, q, b, params);
    } else if n == 4 {
        lemma_safety_flip(p, q, w, phase, params);
        lemma_safety_flip(p, q, b, phase, params);
        lemma_cap_odd(safety_term(p, phase, params), 220);
    } else if n == 5 {
        lemma_mobility_side(p, q, w, params);
        lemma_mobility_side(p, q, b, params);
        let m = versus(side_mobility(p, w, params), side_mobility(p, b, params));
        lemma_cap_odd(m.0, 130);
        lemma_cap_odd(m.1, 150);
    } else if n == 6 {
        lemma_center_flip(p, q, w, params);
        lemma_center_flip(p, q, b, params);
        lemma_cap_odd(side_center(p, w, params) - side_center(p, b, params), 80);
    } else if n == 7 {
        lemma_connectivity_flip(p, q, w, params);
        lemma_connectivity_flip(p, q, b, params);
        lemma_quot_odd(side_connectivity(p, w, params) - side_connectivity(p, b, params), 2);
    } else {
        lemma_threats_flip(p, q, w, params);
        lemma_threats_flip(p, q, b, params);
        let t = versus(side_threats(p, w, params), side_threats(p, b, params));
        lemma_cap_odd(t.0, 170);
        lemma_cap_odd(t.1, 130);
    }
}

proof fn lemma_mobility_side(p: Position, q: Position, c: Color, params: EvalParams)
    requires
        mirrors(p, q),
    ensures
        side_mobility(q, c.other(), params) == side_mobility(p, c, params),
{
    lemma_mobility_flip(p, q, PieceKind::Knight, c, params);
    lemma_mobility_flip(p, q, PieceKind::Bishop, c, params);
    lemma_mobility_flip(p, q, PieceKind::Rook, c, params);
    lemma_mobility_flip(p, q, PieceKind::Queen, c, params);
}

proof fn lemma_term_flip_high(p: Position, q: Position, params: EvalParams, pawns: (int, int), n: int)
    requires
        mirrors(p, q),
        comparable(p),
        9 <= n < 18,
    ensures
        term(q, params, opposite(pawns), n) == opposite(term(p, params, pawns, n)),
{
    let w = Color::White;
    let b = Color::Black;
    lemma_counts(p, q);
    if n == 9 {
    } else if n == 10 {
        lemma_imbalance_flip(p, q, w, params);
        lemma_imbalance_flip(p, q, b, params);
    } else if n == 11 {
        lemma_majority_flip(p, q);
    } else if n == 12 {
        lemma_mopup_flip(p, q, game_phase(p));
    } else if n == 13 {
        lemma_space_term_flip(p, q);
        lemma_quot_odd(space_term(p).1, 2);
    } else if n == 14 {
        lemma_bishops_flip(p, q, w);
        lemma_bishops_flip(p, q, b);
        let d = blocked_bishops(p, w) - blocked_bishops(p, b);
        lemma_product_odd(d, params.bad_bishop_mg as int);
        lemma_product_odd(d, params.bad_bishop_eg as int);
    } else if n == 15 {
        lemma_pair_flip(p, q, w, params);
        lemma_pair_flip(p, q, b, params);
    } else if n == 16 {
        lemma_trapped_flip(p, q, w);
        lemma_trapped_flip(p, q, b);
        let d = shut_in(p, w) - shut_in(p, b);
        lemma_product_odd(d, params.trapped_bishop_mg as int);
        lemma_product_odd(d, params.trapped_bishop_eg as int);
    } else {
        lemma_islands_flip(p.set_of(w, PieceKind::Pawn).0, 8);
        lemma_islands_flip(p.set_of(b, PieceKind::Pawn).0, 8);
        assert(q.set_of(w, PieceKind::Pawn).0 == flipw(p.set_of(b, PieceKind::Pawn).0));
        assert(q.set_of(b, PieceKind::Pawn).0 == flipw(p.set_of(w, PieceKind::Pawn).0));
        let d = extra_islands(p, w) - extra_islands(p, b);
        lemma_product_odd(d, params.pawn_islands_mg as int);
        lemma_product_odd(d, params.pawn_islands_eg as int);
    }
}

proof fn lemma_sum_of_terms(p: Position, q: Position, params: EvalParams, pawns: (int, int), n: int)
    requires
        mirrors(p, q),
        comparable(p),
        n <= 18,
    ensures
        terms_sum(q, params, opposite(pawns), n) == opposite(terms_sum(p, params, pawns, n)),
    decreases n,
{
    if n > 0 {
        lemma_sum_of_terms(p, q, params, pawns, n - 1);
        if n - 1 < 9 {
            lemma_term_flip_low(p, q, params, pawns, n - 1);
        } else {
            lemma_term_flip_high(p, q, params, pawns, n - 1);
        }
    }
}

// Endgames.
proof fn lemma_fortress_flip(p: Position, q: Position, c: Color)
    requires
        mirrors(p, q),
    ensures
        fortress_scale(q, c.other()) == fortress_scale(p, c),
        queen_against_pawns(q, c.other()) == queen_against_pawns(p, c),
        pawnless_scale(q, c.other()) == pawnless_scale(p, c),
        minor_up(q, c.other()) == minor_up(p, c),
{
    broadcast use group_flip;
    let oc = c.other();
    assert(oc.other() == c);
    lemma_kind_counts(p, q, c);
    lemma_kind_counts(p, q, oc);
    lemma_region_words(0, 6);
    lemma_region_words(0, 5);
    lemma_region_words(0, 1);
    lemma_region_words(0, 2);
    assert(q.set_of(oc, PieceKind::Pawn).0 == flipw(p.set_of(c, PieceKind::Pawn).0));
    assert(kind_count(q, oc, PieceKind::Pawn) == kind_count(p, c, PieceKind::Pawn));
    assert(kind_count(q, c, PieceKind::Pawn) == kind_count(p, oc, PieceKind::Pawn));
    assert(kind_count(q, oc, PieceKind::Queen) == kind_count(p, c, PieceKind::Queen));
    assert(kind_count(q, c, PieceKind::Queen) == kind_count(p, oc, PieceKind::Queen));
    assert(kind_count(q, oc, PieceKind::Rook) == kind_count(p, c, PieceKind::Rook));
    assert(kind_count(q, c, PieceKind::Rook) == kind_count(p, oc, PieceKind::Rook));
}

proof fn lemma_minor_up_flip(p: Position, q: Position, c: Color)
    requires
        mirrors(p, q),
    ensures
        minor_up_scale(q, c.other()) == minor_up_scale(p, c),
{
    let oc = c.other();
    assert(oc.other() == c);
    lemma_kind_counts(p, q, c);
    lemma_kind_counts(p, q, oc);
    assert(kind_count(q, oc, PieceKind::Pawn) == kind_count(p, c, PieceKind::Pawn));
    assert(kind_count(q, c, PieceKind::Pawn) == kind_count(p, oc, PieceKind::Pawn));
    let x = p.set_of(oc, PieceKind::Pawn).0;
    assert(q.set_of(c, PieceKind::Pawn).0 == flipw(x));
    if kind_count(p, oc, PieceKind::Pawn) == 1 {
        lemma_only_flip(x);
        lemma_mir(squares(x)[0]);
    }
}

proof fn lemma_bishop_shades(p: Position, q: Position)
    requires
        mirrors(p, q),
    ensures
        opposite_bishops(q) == opposite_bishops(p),
{
    let w = Color::White;
    let b = Color::Black;
    lemma_kind_counts(p, q, w);
    lemma_kind_counts(p, q, b);
    assert(kind_count(q, w, PieceKind::Bishop) == kind_count(p, b, PieceKind::Bishop));
    assert(kind_count(q, b, PieceKind::Bishop) == kind_count(p, w, PieceKind::Bishop));
    assert(kind_count(q, w, PieceKind::Knight) == kind_count(p, b, PieceKind::Knight));
    assert(kind_count(q, b, PieceKind::Knight) == kind_count(p, w, PieceKind::Knight));
    let x = p.set_of(w, PieceKind::Bishop).0;
    let y = p.set_of(b, PieceKind::Bishop).0;
    assert(q.set_of(b, PieceKind::Bishop).0 == flipw(x));
    assert(q.set_of(w, PieceKind::Bishop).0 == flipw(y));
    if kind_count(p, w, PieceKind::Bishop) == 1 && kind_count(p, b, PieceKind::Bishop) == 1 {
        lemma_only_flip(x);
        lemma_only_flip(y);
        lemma_mir(squares(x)[0]);
        lemma_mir(squares(y)[0]);
    }
}

proof fn lemma_scale_flip(p: Position, q: Position, params: EvalParams, eval: int, phase: int)
    requires
        mirrors(p, q),
        eval != 0,
    ensures
        endgame_scale(q, params, -eval, phase) == endgame_scale(p, params, eval, phase),
{
    let w = Color::White;
    let b = Color::Black;
    lemma_bishop_shades(p, q);
    lemma_fortress_flip(p, q, w);
    lemma_fortress_flip(p, q, b);
    lemma_minor_up_flip(p, q, w);
    lemma_minor_up_flip(p, q, b);
    lemma_kind_counts(p, q, w);
    lemma_kind_counts(p, q, b);
    assert(w.other() == b && b.other() == w);
    assert(kind_count(q, w, PieceKind::Pawn) == kind_count(p, b, PieceKind::Pawn));
    assert(kind_count(q, b, PieceKind::Pawn) == kind_count(p, w, PieceKind::Pawn));
    assert(kind_count(q, w, PieceKind::Rook) == kind_count(p, b, PieceKind::Rook));
    assert(kind_count(q, b, PieceKind::Rook) == kind_count(p, w, PieceKind::Rook));
    assert(kind_count(q, w, PieceKind::Queen) == kind_count(p, b, PieceKind::Queen));
    assert(kind_count(q, b, PieceKind::Queen) == kind_count(p, w, PieceKind::Queen));
    assert(rook_ending_scale(q) == rook_ending_scale(p));
    assert(!(queen_against_pawns(p, w) && queen_against_pawns(p, b)));
    assert(!(minor_up(p, w) && minor_up(p, b)));
}

/// Swapping the colors and reversing the ranks changes the sign of the
/// evaluation and nothing else: it treats both colors alike. Each side has one
/// king and at most two rooks.
pub proof fn law_evaluation_is_symmetric(p: Position, q: Position, params: EvalParams)
    requires
        mirrors(p, q),
        comparable(p),
        p.mailbox.len() == 64,
    ensures
        score_of(q, params) == -score_of(p, params),
{
    let pawns = pawn_term(p, params);
    lemma_pawns_flip(p, q, Color::White, params);
    lemma_pawns_flip(p, q, Color::Black, params);
    assert(pawn_term(q, params) == opposite(pawns));
    lemma_sum_of_terms(p, q, params, pawns, 18);
    lemma_counts(p, q);
    let t = terms_sum(p, params, pawns, 18);
    let phase = game_phase(p);
    let x = t.0 * (256 - phase) + t.1 * phase;
    lemma_product_odd(t.0, 256 - phase);
    lemma_product_odd(t.1, phase);
    lemma_quot_odd(x, 256);
    let m = mixed(p, params, pawns);
    assert(mixed(q, params, opposite(pawns)) == -m);
    if m != 0 {
        lemma_scale_flip(p, q, params, m, phase);
        let scale = endgame_scale(p, params, m, phase);
        lemma_product_odd(m, scale);
        lemma_quot_odd(m * scale, 128);
    } else {
        assert(m * endgame_scale(p, params, m, phase) == 0);
        assert(m * endgame_scale(q, params, m, phase) == 0);
    }
}

} // verus!
