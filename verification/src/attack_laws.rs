//! Laws of attacks: how the sets of attackers relate.

use vstd::prelude::*;
use crate::attacks::{all_attacker_set, attacked, attacker_set, bishop_hits, hit_from, is_square, lemma_ray_convex, piece_hits, queen_hits, ray_hits, ray_open, ray_square, rook_hits};
use crate::bits::{bit, group_bits, lemma_bits_extensional, lemma_no_bits, lemma_word_of};
use crate::board::Position;
use crate::types::{Color, PieceKind};

verus! {

proof fn lemma_attacker_bits(p: Position, sq: int, by: Color)
    ensures
        forall|i: int| #[trigger]
            bit(attacker_set(p, sq, by), i) == (is_square(i) && hit_from(p, p.occupied().0, by, i, sq)),
{
    lemma_word_of(|i: int| hit_from(p, p.occupied().0, by, i, sq));
}

proof fn lemma_all_attacker_bits(p: Position, sq: int, occ: u64)
    ensures
        forall|i: int| #[trigger]
            bit(all_attacker_set(p, sq, occ), i) == (is_square(i) && (hit_from(p, occ, Color::White, i, sq) || hit_from(
                p,
                occ,
                Color::Black,
                i,
                sq,
            ))),
{
    lemma_word_of(|i: int| hit_from(p, occ, Color::White, i, sq) || hit_from(p, occ, Color::Black, i, sq));
}

/// A square is attacked exactly if it has an attacker: a piece of the color
/// that attacks it from where it stands.
pub proof fn law_attacked_iff_attackers(p: Position, sq: int, by: Color)
    ensures
        attacked(p, sq, by) <==> attacker_set(p, sq, by) != 0,
        attacked(p, sq, by) <==> exists|s: int, k: PieceKind|
            is_square(s) && #[trigger] p.set_of(by, k).has(s) && piece_hits(k, by, p.occupied().0, s, sq),
{
    broadcast use group_bits;
    lemma_attacker_bits(p, sq, by);
    let set = attacker_set(p, sq, by);
    let occ = p.occupied().0;
    if attacked(p, sq, by) {
        let i = choose|i: int| is_square(i) && #[trigger] hit_from(p, occ, by, i, sq);
        assert(bit(set, i));
        let k = choose|k: PieceKind| #[trigger] p.set_of(by, k).has(i) && piece_hits(k, by, occ, i, sq);
        assert(p.set_of(by, k).has(i) && piece_hits(k, by, occ, i, sq));
    } else {
        assert forall|i: int| 0 <= i < 64 implies !bit(set, i) by {
            assert(is_square(i));
            assert(!hit_from(p, occ, by, i, sq));
        }
        lemma_no_bits(set);
    }
    if exists|s: int, k: PieceKind|
        is_square(s) && #[trigger] p.set_of(by, k).has(s) && piece_hits(k, by, occ, s, sq) {
        let (s, k) = choose|s: int, k: PieceKind|
            is_square(s) && #[trigger] p.set_of(by, k).has(s) && piece_hits(k, by, occ, s, sq);
        assert(hit_from(p, occ, by, s, sq));
    }
}

/// With the pieces where they are, the attackers of both colors are those of
/// White and those of Black.
pub proof fn law_attackers_of_both_colors(p: Position, sq: int)
    ensures
        all_attacker_set(p, sq, p.occupied().0) == attacker_set(p, sq, Color::White) | attacker_set(p, sq, Color::Black),
{
    broadcast use group_bits;
    lemma_attacker_bits(p, sq, Color::White);
    lemma_attacker_bits(p, sq, Color::Black);
    lemma_all_attacker_bits(p, sq, p.occupied().0);
    lemma_bits_extensional(
        all_attacker_set(p, sq, p.occupied().0),
        attacker_set(p, sq, Color::White) | attacker_set(p, sq, Color::Black),
    );
}

/// Every blocker of one occupancy is one of another.
pub open spec fn blocks_less(few: u64, many: u64) -> bool {
    forall|i: int| #[trigger] bit(few, i) ==> bit(many, i)
}

proof fn lemma_ray_with_fewer(few: u64, many: u64, a: int, df: int, dr: int, b: int)
    requires
        blocks_less(few, many),
        ray_hits(many, a, df, dr, b),
    ensures
        ray_hits(few, a, df, dr, b),
{
    let n = choose|n: int| 1 <= n < 8 && #[trigger] ray_open(many, a, df, dr, n) && b == ray_square(a, df, dr, n);
    assert forall|k: int| 1 <= k < n implies !bit(few, #[trigger] ray_square(a, df, dr, k)) by {
        assert(!bit(many, ray_square(a, df, dr, k)));
    }
    assert(ray_open(few, a, df, dr, n));
}

/// What a piece attacks it attacks with fewer blockers too.
pub proof fn lemma_hits_with_fewer(kind: PieceKind, c: Color, few: u64, many: u64, a: int, b: int)
    requires
        blocks_less(few, many),
        piece_hits(kind, c, many, a, b),
    ensures
        piece_hits(kind, c, few, a, b),
{
    assert forall|df: int, dr: int| #[trigger] ray_hits(many, a, df, dr, b) implies ray_hits(few, a, df, dr, b) by {
        lemma_ray_with_fewer(few, many, a, df, dr, b);
    }
    assert(bishop_hits(many, a, b) ==> bishop_hits(few, a, b));
    assert(rook_hits(many, a, b) ==> rook_hits(few, a, b));
    assert(queen_hits(many, a, b) ==> queen_hits(few, a, b));
}

proof fn lemma_hit_with_fewer(p: Position, few: u64, many: u64, c: Color, i: int, sq: int)
    requires
        blocks_less(few, many),
        hit_from(p, many, c, i, sq),
    ensures
        hit_from(p, few, c, i, sq),
{
    let k = choose|k: PieceKind| #[trigger] p.set_of(c, k).has(i) && piece_hits(k, c, many, i, sq);
    lemma_hits_with_fewer(k, c, few, many, i, sq);
    assert(p.set_of(c, k).has(i) && piece_hits(k, c, few, i, sq));
}

/// More blockers never give more attackers.
pub proof fn law_blockers_only_remove_attackers(p: Position, sq: int, few: u64, many: u64)
    requires
        blocks_less(few, many),
    ensures
        forall|i: int| #[trigger] bit(all_attacker_set(p, sq, many), i) ==> bit(all_attacker_set(p, sq, few), i),
{
    lemma_all_attacker_bits(p, sq, few);
    lemma_all_attacker_bits(p, sq, many);
    assert forall|i: int| #[trigger] bit(all_attacker_set(p, sq, many), i) implies bit(
        all_attacker_set(p, sq, few),
        i,
    ) by {
        if hit_from(p, many, Color::White, i, sq) {
            lemma_hit_with_fewer(p, few, many, Color::White, i, sq);
        } else {
            lemma_hit_with_fewer(p, few, many, Color::Black, i, sq);
        }
    }
}

/// A bishop, rook or queen of either color.
pub open spec fn is_slider(p: Position, i: int) -> bool {
    exists|c: Color, k: PieceKind|
        (k == PieceKind::Bishop || k == PieceKind::Rook || k == PieceKind::Queen) && #[trigger] p.set_of(c, k).has(i)
}

proof fn lemma_leaper(p: Position, c: Color, one: u64, other: u64, i: int, sq: int)
    requires
        !is_slider(p, i),
        hit_from(p, one, c, i, sq),
    ensures
        hit_from(p, other, c, i, sq),
{
    let k = choose|k: PieceKind| #[trigger] p.set_of(c, k).has(i) && piece_hits(k, c, one, i, sq);
    assert(p.set_of(c, k).has(i) && piece_hits(k, c, other, i, sq));
}

/// The occupancy matters for sliders only: whether any other piece attacks a
/// square does not depend on it.
pub proof fn law_only_sliders_are_blocked(p: Position, sq: int, one: u64, other: u64, i: int)
    requires
        !is_slider(p, i),
    ensures
        bit(all_attacker_set(p, sq, one), i) == bit(all_attacker_set(p, sq, other), i),
{
    lemma_all_attacker_bits(p, sq, one);
    lemma_all_attacker_bits(p, sq, other);
    if hit_from(p, one, Color::White, i, sq) {
        lemma_leaper(p, Color::White, one, other, i, sq);
    }
    if hit_from(p, one, Color::Black, i, sq) {
        lemma_leaper(p, Color::Black, one, other, i, sq);
    }
    if hit_from(p, other, Color::White, i, sq) {
        lemma_leaper(p, Color::White, other, one, i, sq);
    }
    if hit_from(p, other, Color::Black, i, sq) {
        lemma_leaper(p, Color::Black, other, one, i, sq);
    }
}

/// Two occupancies agree but for one square.
pub open spec fn same_but_for(one: u64, other: u64, sq: int) -> bool {
    forall|i: int| i != sq ==> #[trigger] bit(one, i) == bit(other, i)
}

proof fn lemma_ray_to_target(one: u64, other: u64, a: int, df: int, dr: int, b: int)
    requires
        is_square(a),
        -1 <= df <= 1,
        -1 <= dr <= 1,
        df != 0 || dr != 0,
        same_but_for(one, other, b),
        ray_hits(one, a, df, dr, b),
    ensures
        ray_hits(other, a, df, dr, b),
{
    let n = choose|n: int| 1 <= n < 8 && #[trigger] ray_open(one, a, df, dr, n) && b == ray_square(a, df, dr, n);
    assert forall|k: int| 1 <= k < n implies !bit(other, #[trigger] ray_square(a, df, dr, k)) by {
        lemma_ray_convex(a, df, dr, k, n);
        let x = k * df;
        let y = k * dr;
        let u = n * df;
        let v = n * dr;
        assert(0 <= a % 8 + x < 8 && 0 <= a % 8 + u < 8);
        if ray_square(a, df, dr, k) == b {
            assert((a / 8 + y) * 8 + (a % 8 + x) == (a / 8 + v) * 8 + (a % 8 + u));
            assert(x == u && y == v);
            assert(df == 0 && dr == 0) by (nonlinear_arith)
                requires
                    k < n,
                    k * df == n * df,
                    k * dr == n * dr,
            ;
        }
        assert(!bit(one, ray_square(a, df, dr, k)));
    }
    assert(ray_open(other, a, df, dr, n));
}

proof fn lemma_hits_target(kind: PieceKind, c: Color, one: u64, other: u64, a: int, b: int)
    requires
        is_square(a),
        same_but_for(one, other, b),
        piece_hits(kind, c, one, a, b),
    ensures
        piece_hits(kind, c, other, a, b),
{
    assert forall|df: int, dr: int|
        -1 <= df <= 1 && -1 <= dr <= 1 && (df != 0 || dr != 0) && #[trigger] ray_hits(one, a, df, dr, b) implies ray_hits(
        other,
        a,
        df,
        dr,
        b,
    ) by {
        lemma_ray_to_target(one, other, a, df, dr, b);
    }
    assert(bishop_hits(one, a, b) ==> bishop_hits(other, a, b));
    assert(rook_hits(one, a, b) ==> rook_hits(other, a, b));
    assert(queen_hits(one, a, b) ==> queen_hits(other, a, b));
}

proof fn lemma_hit_target(p: Position, one: u64, other: u64, c: Color, i: int, sq: int)
    requires
        is_square(i),
        same_but_for(one, other, sq),
        hit_from(p, one, c, i, sq),
    ensures
        hit_from(p, other, c, i, sq),
{
    let k = choose|k: PieceKind| #[trigger] p.set_of(c, k).has(i) && piece_hits(k, c, one, i, sq);
    lemma_hits_target(k, c, one, other, i, sq);
    assert(p.set_of(c, k).has(i) && piece_hits(k, c, other, i, sq));
}

/// Whether the attacked square is occupied does not matter.
pub proof fn law_target_does_not_block(p: Position, sq: int, one: u64, other: u64)
    requires
        same_but_for(one, other, sq),
    ensures
        all_attacker_set(p, sq, one) == all_attacker_set(p, sq, other),
{
    lemma_all_attacker_bits(p, sq, one);
    lemma_all_attacker_bits(p, sq, other);
    assert forall|i: int| 0 <= i < 64 implies bit(all_attacker_set(p, sq, one), i) == bit(
        all_attacker_set(p, sq, other),
        i,
    ) by {
        if hit_from(p, one, Color::White, i, sq) {
            lemma_hit_target(p, one, other, Color::White, i, sq);
        }
        if hit_from(p, one, Color::Black, i, sq) {
            lemma_hit_target(p, one, other, Color::Black, i, sq);
        }
        if hit_from(p, other, Color::White, i, sq) {
            lemma_hit_target(p, other, one, Color::White, i, sq);
        }
        if hit_from(p, other, Color::Black, i, sq) {
            lemma_hit_target(p, other, one, Color::Black, i, sq);
        }
    }
    lemma_bits_extensional(all_attacker_set(p, sq, one), all_attacker_set(p, sq, other));
}

} // verus!
