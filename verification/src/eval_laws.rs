//! Laws of the evaluation: what counts on the board, and for whom.

use vstd::prelude::*;
use crate::arith::{max_of, min_of, quot};
use crate::attacks::{bishop_hits, is_square, knight_hits, pawn_hits, piece_hits, queen_hits, rook_hits};
use crate::bits::{bit, group_bits, lemma_no_bits, lemma_squares_zero, lemma_word_of, popcount, squares_from, sum_over};
use crate::board::Position;
use crate::eval::{endgame_scale, keys_of, opposite_bishops, pawn_key, queen_against_pawns, term};
use crate::eval_base::{attack_scale, beside_word, both, file_word, front_word, game_phase, hit_by_piece, king_distance, material_of, material_term, npm, pawn_span, placed_fn, placement_sum, rank_word, soft_cap, tapered, upper_word};
use crate::eval_params::EvalParams;
use crate::eval_pawns::{blockade, connected_bonus, escorts, is_passed, king_race, passed_pawn, passer_base, passer_scale, promotion_square, rook_behind, runaway, weak_pawn};
use crate::eval_pieces::{assault, bearing, bears_fn, file_danger, king_place, pair_bonus, rook_on_file, rook_on_rank, safety_term, safety_weight, shelter_files, shield, shut_in, side_rooks, side_safety, storm};
use crate::eval_terms::{blocked_bishops, blocked_fn, center_word, extra_islands, file_held, islands, kind_count, majority_term, material_balance, minors_of, mobility_fn, mopup_term, outpost_fn, piece_units, reach, shade, side_center, side_connectivity, side_imbalance, side_minor_bonus, side_mobility, side_space, side_threats, space_term, threat, wide_center_word};
use crate::movegen::forward;
use crate::movegen_laws::lemma_set_is_mailbox;
use crate::types::{magnitude, Color, Piece, PieceKind};

verus! {

// Counting on the board.
/// How many of the first `n` squares have a property.
pub open spec fn how_many(f: spec_fn(int) -> bool, n: int) -> int
    decreases n,
{
    if n <= 0 { 0 } else { how_many(f, n - 1) + if f(n - 1) { 1int } else { 0 } }
}

/// The sum of a function over the first `n` squares.
pub open spec fn total_of(g: spec_fn(int) -> int, n: int) -> int
    decreases n,
{
    if n <= 0 { 0 } else { total_of(g, n - 1) + g(n - 1) }
}

/// A piece of a kind and color stands on a square.
pub open spec fn stands(p: Position, c: Color, k: PieceKind, i: int) -> bool {
    p.mailbox[i] == Some(Piece { kind: k, color: c })
}

proof fn lemma_count_from(x: u64, f: spec_fn(int) -> bool, n: int)
    requires
        0 <= n <= 64,
        forall|i: int| 0 <= i < 64 ==> #[trigger] bit(x, i) == f(i),
    ensures
        squares_from(x, n).len() + how_many(f, n) == how_many(f, 64),
    decreases 64 - n,
{
    if n < 64 {
        lemma_count_from(x, f, n + 1);
        assert(bit(x, n) == f(n));
    }
}

/// The size of a set is the number of its squares.
pub proof fn lemma_count(x: u64, f: spec_fn(int) -> bool)
    requires
        forall|i: int| 0 <= i < 64 ==> #[trigger] bit(x, i) == f(i),
    ensures
        popcount(x) == how_many(f, 64),
{
    lemma_count_from(x, f, 0);
}

spec fn only(x: u64, g: spec_fn(int) -> int) -> spec_fn(int) -> int {
    |i: int| if bit(x, i) { g(i) } else { 0 }
}

proof fn lemma_total_from(x: u64, g: spec_fn(int) -> int, n: int)
    requires
        0 <= n <= 64,
    ensures
        sum_over(squares_from(x, n), g) + total_of(only(x, g), n) == total_of(only(x, g), 64),
    decreases 64 - n,
{
    if n < 64 {
        lemma_total_from(x, g, n + 1);
        let rest = squares_from(x, n + 1);
        if bit(x, n) {
            let s = squares_from(x, n);
            assert(s == seq![n] + rest);
            assert(s.drop_first() =~= rest);
            assert(s[0] == n);
        }
    }
}

// Material and placement.
/// What a piece on a square is worth to White by given values and tables: the
/// value of its kind, the king aside, and the entry of its table, which Black
/// reads with the ranks reversed.
pub open spec fn worth_on(p: Position, material: Seq<i32>, tables: Seq<[i32; 64]>, i: int) -> int {
    match p.mailbox[i] {
        None => 0,
        Some(piece) => {
            let base = match piece.kind {
                PieceKind::Pawn => material[0] as int,
                PieceKind::Knight => material[1] as int,
                PieceKind::Bishop => material[2] as int,
                PieceKind::Rook => material[3] as int,
                PieceKind::Queen => material[4] as int,
                PieceKind::King => 0,
            };
            let table = match piece.kind {
                PieceKind::Pawn => tables[0]@,
                PieceKind::Knight => tables[1]@,
                PieceKind::Bishop => tables[2]@,
                PieceKind::Rook => tables[3]@,
                PieceKind::Queen => tables[4]@,
                PieceKind::King => tables[5]@,
            };
            match piece.color {
                Color::White => base + table[i],
                Color::Black => -(base + table[(7 - i / 8) * 8 + i % 8]),
            }
        },
    }
}

spec fn part(p: Position, material: Seq<i32>, tables: Seq<[i32; 64]>, k: int) -> spec_fn(int) -> int {
    |i: int|
        (if bit(p.pieces[0][k].0, i) { material_of(material, k) + tables[k]@[i] } else { 0 }) - if bit(
            p.pieces[1][k].0,
            i,
        ) { material_of(material, k) + tables[k]@[(7 - i / 8) * 8 + i % 8] } else { 0 }
}

proof fn lemma_difference(a: spec_fn(int) -> int, b: spec_fn(int) -> int, d: spec_fn(int) -> int, n: int)
    requires
        forall|i: int| 0 <= i < n ==> #[trigger] d(i) == a(i) - b(i),
    ensures
        total_of(d, n) == total_of(a, n) - total_of(b, n),
    decreases n,
{
    if n > 0 {
        lemma_difference(a, b, d, n - 1);
        assert(d(n - 1) == a(n - 1) - b(n - 1));
    }
}

proof fn lemma_part(p: Position, material: Seq<i32>, tables: Seq<[i32; 64]>, k: int)
    ensures
        sum_over(p.pieces[0][k].members(), placed_fn(tables[k]@, Color::White, material_of(material, k))) - sum_over(
            p.pieces[1][k].members(),
            placed_fn(tables[k]@, Color::Black, material_of(material, k)),
        ) == total_of(part(p, material, tables, k), 64),
{
    let g = placed_fn(tables[k]@, Color::White, material_of(material, k));
    let h = placed_fn(tables[k]@, Color::Black, material_of(material, k));
    let x = p.pieces[0][k].0;
    let y = p.pieces[1][k].0;
    lemma_total_from(x, g, 0);
    lemma_total_from(y, h, 0);
    let d = part(p, material, tables, k);
    assert forall|i: int| 0 <= i < 64 implies #[trigger] d(i) == only(x, g)(i) - only(y, h)(i) by {}
    lemma_difference(only(x, g), only(y, h), d, 64);
}

spec fn parts(p: Position, material: Seq<i32>, tables: Seq<[i32; 64]>, i: int) -> int {
    part(p, material, tables, 0)(i) + part(p, material, tables, 1)(i) + part(p, material, tables, 2)(i) + part(
        p,
        material,
        tables,
        3,
    )(i) + part(p, material, tables, 4)(i) + part(p, material, tables, 5)(i)
}

proof fn lemma_parts_on(p: Position, material: Seq<i32>, tables: Seq<[i32; 64]>, i: int)
    requires
        p.consistent(),
        0 <= i < 64,
    ensures
        parts(p, material, tables, i) == worth_on(p, material, tables, i),
{
    assert(p.pieces[0][0].has(i) || !p.pieces[0][0].has(i));
    assert(p.pieces[0][1].has(i) || !p.pieces[0][1].has(i));
    assert(p.pieces[0][2].has(i) || !p.pieces[0][2].has(i));
    assert(p.pieces[0][3].has(i) || !p.pieces[0][3].has(i));
    assert(p.pieces[0][4].has(i) || !p.pieces[0][4].has(i));
    assert(p.pieces[0][5].has(i) || !p.pieces[0][5].has(i));
    assert(p.pieces[1][0].has(i) || !p.pieces[1][0].has(i));
    assert(p.pieces[1][1].has(i) || !p.pieces[1][1].has(i));
    assert(p.pieces[1][2].has(i) || !p.pieces[1][2].has(i));
    assert(p.pieces[1][3].has(i) || !p.pieces[1][3].has(i));
    assert(p.pieces[1][4].has(i) || !p.pieces[1][4].has(i));
    assert(p.pieces[1][5].has(i) || !p.pieces[1][5].has(i));
}

proof fn lemma_parts_total(p: Position, material: Seq<i32>, tables: Seq<[i32; 64]>, n: int)
    requires
        p.consistent(),
        0 <= n <= 64,
    ensures
        total_of(part(p, material, tables, 0), n) + total_of(part(p, material, tables, 1), n) + total_of(
            part(p, material, tables, 2),
            n,
        ) + total_of(part(p, material, tables, 3), n) + total_of(part(p, material, tables, 4), n) + total_of(
            part(p, material, tables, 5),
            n,
        ) == total_of(|i: int| worth_on(p, material, tables, i), n),
    decreases n,
{
    if n > 0 {
        lemma_parts_total(p, material, tables, n - 1);
        lemma_parts_on(p, material, tables, n - 1);
    }
}

/// Material and placement are what the pieces on the board are worth, square by
/// square: White's add, Black's take off.
pub proof fn law_every_piece_is_counted(p: Position, material: Seq<i32>, tables: Seq<[i32; 64]>)
    requires
        p.consistent(),
    ensures
        placement_sum(p, material, tables, 6) == total_of(|i: int| worth_on(p, material, tables, i), 64),
{
    reveal_with_fuel(placement_sum, 7);
    lemma_part(p, material, tables, 0);
    lemma_part(p, material, tables, 1);
    lemma_part(p, material, tables, 2);
    lemma_part(p, material, tables, 3);
    lemma_part(p, material, tables, 4);
    lemma_part(p, material, tables, 5);
    lemma_parts_total(p, material, tables, 64);
}

/// With a queen on the board the material term is what the pieces are worth, in
/// the middlegame and in the endgame. The endgame value never depends on queens.
pub proof fn law_material_term(p: Position, params: EvalParams)
    requires
        p.consistent(),
    ensures
        material_term(p, params).1 == total_of(
            |i: int| worth_on(p, params.material_eg@, params.pst_eg@, i),
            64,
        ),
        p.set_of(Color::White, PieceKind::Queen).size() > 0 || p.set_of(Color::Black, PieceKind::Queen).size() > 0
            ==> material_term(p, params).0 == total_of(|i: int| worth_on(p, params.material_mg@, params.pst_mg@, i), 64),
{
    law_every_piece_is_counted(p, params.material_mg@, params.pst_mg@);
    law_every_piece_is_counted(p, params.material_eg@, params.pst_eg@);
}

// Phase.
/// The phase runs from 0 with all pieces to 256 with none but kings and pawns,
/// and each piece that leaves moves it on, a queen more than a rook, a rook more
/// than a minor piece.
pub proof fn law_phase_runs_with_the_pieces(p: Position, q: Position)
    ensures
        both(p, PieceKind::Knight) == 0 && both(p, PieceKind::Bishop) == 0 && both(p, PieceKind::Rook) == 0 && both(
            p,
            PieceKind::Queen,
        ) == 0 ==> game_phase(p) == 256,
        both(p, PieceKind::Knight) == 4 && both(p, PieceKind::Bishop) == 4 && both(p, PieceKind::Rook) == 4 && both(
            p,
            PieceKind::Queen,
        ) == 2 ==> game_phase(p) == 0,
        both(p, PieceKind::Knight) <= both(q, PieceKind::Knight) && both(p, PieceKind::Bishop) <= both(
            q,
            PieceKind::Bishop,
        ) && both(p, PieceKind::Rook) <= both(q, PieceKind::Rook) && both(p, PieceKind::Queen) <= both(
            q,
            PieceKind::Queen,
        ) ==> game_phase(p) >= game_phase(q),
        both(p, PieceKind::Knight) + both(p, PieceKind::Bishop) + 2 * both(p, PieceKind::Rook) + 6 * both(
            p,
            PieceKind::Queen,
        ) == both(q, PieceKind::Knight) + both(q, PieceKind::Bishop) + 2 * both(q, PieceKind::Rook) + 6 * both(
            q,
            PieceKind::Queen,
        ) ==> game_phase(p) == game_phase(q),
{
}

/// The middlegame value counts alone at the beginning, the endgame value alone at
/// the end, and in between the mix lies between them.
pub proof fn law_values_are_mixed_by_phase(mg: int, eg: int, phase: int)
    requires
        0 <= phase <= 256,
    ensures
        phase == 0 ==> tapered(mg, eg, phase) == mg,
        phase == 256 ==> tapered(mg, eg, phase) == eg,
        mg == eg ==> tapered(mg, eg, phase) == mg,
        0 <= mg <= eg ==> mg <= tapered(mg, eg, phase) <= eg,
        0 <= eg <= mg ==> eg <= tapered(mg, eg, phase) <= mg,
{
    let x = mg * (256 - phase) + eg * phase;
    let d = eg - mg;
    assert(x == 256 * mg + d * phase) by (nonlinear_arith)
        requires
            x == mg * (256 - phase) + eg * phase,
            d == eg - mg,
    ;
    if phase == 0 {
        assert(d * phase == 0) by (nonlinear_arith)
            requires
                phase == 0,
        ;
    }
    if phase == 256 {
        assert(d * phase == 256 * d) by (nonlinear_arith)
            requires
                phase == 256,
        ;
    }
    if d == 0 {
        assert(d * phase == 0) by (nonlinear_arith)
            requires
                d == 0,
        ;
    } else if d > 0 {
        assert(0 <= d * phase <= 256 * d) by (nonlinear_arith)
            requires
                d > 0,
                0 <= phase <= 256,
        ;
    } else {
        assert(256 * d <= d * phase <= 0) by (nonlinear_arith)
            requires
                d < 0,
                0 <= phase <= 256,
        ;
    }
}

/// A capped term keeps its sign and never exceeds its cap.
pub proof fn law_caps_keep_the_sign(value: int, cap: int)
    requires
        cap > 0,
    ensures
        value >= 0 ==> 0 <= soft_cap(value, cap) <= cap && soft_cap(value, cap) <= value,
        value <= 0 ==> -cap <= soft_cap(value, cap) <= 0 && soft_cap(value, cap) >= value,
        soft_cap(-value, cap) == -soft_cap(value, cap),
{
    let a = magnitude(value);
    let s = a + cap;
    assert(0 <= (a * cap) / s <= cap && (a * cap) / s <= a) by (nonlinear_arith)
        requires
            a >= 0,
            cap > 0,
            s == a + cap,
    ;
    assert(value * cap == (if value >= 0 { a * cap } else { -(a * cap) })) by (nonlinear_arith)
        requires
            a == (if value >= 0 { value } else { -value }),
    ;
    assert((-value) * cap == -(value * cap)) by (nonlinear_arith);
    assert(a * cap >= 0) by (nonlinear_arith)
        requires
            a >= 0,
            cap > 0,
    ;
}

/// The side to move has the tempo: White's adds, Black's takes off, as much in
/// the middlegame as in the endgame.
pub proof fn law_tempo_is_for_the_side_to_move(p: Position, params: EvalParams, pawns: (int, int))
    ensures
        p.side == Color::White ==> term(p, params, pawns, 9) == (params.tempo as int, params.tempo as int),
        p.side == Color::Black ==> term(p, params, pawns, 9) == (-params.tempo as int, -params.tempo as int),
{
}

// Pawns.
/// A square lies in front of another, seen from a side.
pub open spec fn ahead(c: Color, sq: int, i: int) -> bool {
    match c {
        Color::White => i / 8 > sq / 8,
        Color::Black => i / 8 < sq / 8,
    }
}

proof fn lemma_words(f: int, r: int, sq: int, c: Color)
    ensures
        forall|i: int| #[trigger] bit(file_word(f), i) == (0 <= i < 64 && i % 8 == f),
        forall|i: int| #[trigger] bit(rank_word(r), i) == (0 <= i < 64 && i / 8 == r),
        forall|i: int| #[trigger] bit(beside_word(f), i) == (0 <= i < 64 && (i % 8 == f - 1 || i % 8 == f + 1)),
        forall|i: int| #[trigger] bit(front_word(sq, c), i) == (0 <= i < 64 && ahead(c, sq, i)),
{
    lemma_word_of(|i: int| i % 8 == f);
    lemma_word_of(|i: int| i / 8 == r);
    lemma_word_of(|i: int| i % 8 == f - 1 || i % 8 == f + 1);
    lemma_word_of(
        |i: int|
            match c {
                Color::White => i / 8 > sq / 8,
                Color::Black => i / 8 < sq / 8,
            },
    );
}

/// A pawn is passed exactly if no enemy pawn stands in front of it on its own
/// file or on a file beside it.
pub proof fn law_passed_pawns(p: Position, c: Color, sq: int)
    requires
        p.consistent(),
        0 <= sq < 64,
    ensures
        is_passed(p, c, sq) <==> forall|i: int|
            0 <= i < 64 && #[trigger] stands(p, c.other(), PieceKind::Pawn, i) && sq % 8 - 1 <= i % 8 <= sq % 8 + 1
                ==> !ahead(c, sq, i),
{
    broadcast use group_bits;
    lemma_words(sq % 8, 0, sq, c);
    let enemy = p.set_of(c.other(), PieceKind::Pawn).0;
    let zone = front_word(sq, c) & (file_word(sq % 8) | beside_word(sq % 8));
    let x = enemy & zone;
    assert forall|i: int| 0 <= i < 64 implies #[trigger] bit(x, i) == (stands(p, c.other(), PieceKind::Pawn, i) && sq % 8
        - 1 <= i % 8 <= sq % 8 + 1 && ahead(c, sq, i)) by {
        lemma_set_is_mailbox(p, c.other(), PieceKind::Pawn, i);
    }
    if x != 0 {
        if forall|i: int|
            0 <= i < 64 && #[trigger] stands(p, c.other(), PieceKind::Pawn, i) && sq % 8 - 1 <= i % 8 <= sq % 8 + 1
                ==> !ahead(c, sq, i) {
            assert forall|i: int| 0 <= i < 64 implies !bit(x, i) by {
                assert(stands(p, c.other(), PieceKind::Pawn, i) || !stands(p, c.other(), PieceKind::Pawn, i));
            }
            lemma_no_bits(x);
        }
    } else {
        assert forall|i: int|
            0 <= i < 64 && #[trigger] stands(p, c.other(), PieceKind::Pawn, i) && sq % 8 - 1 <= i % 8 <= sq % 8 + 1 implies !ahead(
            c,
            sq,
            i,
        ) by {
            assert(!bit(x, i));
        }
    }
}

proof fn lemma_empty_or_not(x: u64, f: spec_fn(int) -> bool)
    requires
        forall|i: int| 0 <= i < 64 ==> #[trigger] bit(x, i) == f(i),
    ensures
        x == 0 <==> forall|i: int| 0 <= i < 64 ==> !#[trigger] f(i),
{
    broadcast use group_bits;
    if forall|i: int| 0 <= i < 64 ==> !#[trigger] f(i) {
        assert forall|i: int| 0 <= i < 64 implies !bit(x, i) by {
            assert(!f(i));
        }
        lemma_no_bits(x);
    }
    if x == 0 {
        assert forall|i: int| 0 <= i < 64 implies !#[trigger] f(i) by {
            assert(!bit(x, i));
        }
    }
}

/// What a pawn loses by its place, from the pawns around it: it is doubled if
/// another own pawn stands on its file, isolated if none stands on a file beside
/// it, and otherwise backward if all of those are ahead of it and an enemy pawn
/// guards the square in front of it.
pub proof fn law_weak_pawns(p: Position, c: Color, params: EvalParams, sq: int)
    requires
        p.consistent(),
        8 <= sq < 56,
    ensures
        ({
            let on_file = how_many(|i: int| stands(p, c, PieceKind::Pawn, i) && i % 8 == sq % 8, 64);
            let doubled = on_file > 1;
            let isolated = forall|i: int|
                0 <= i < 64 && (i % 8 == sq % 8 - 1 || i % 8 == sq % 8 + 1) ==> !#[trigger] stands(
                    p,
                    c,
                    PieceKind::Pawn,
                    i,
                );
            let behind = forall|i: int|
                0 <= i < 64 && (i % 8 == sq % 8 - 1 || i % 8 == sq % 8 + 1) && #[trigger] stands(p, c, PieceKind::Pawn, i)
                    ==> ahead(c, sq, i);
            let stop = if c == Color::White { sq + 8 } else { sq - 8 };
            let guarded = exists|i: int|
                0 <= i < 64 && #[trigger] stands(p, c.other(), PieceKind::Pawn, i) && pawn_hits(c.other(), i, stop);
            let w = weak_pawn(p, c, params, sq);
            &&& w.0 == (if doubled { params.doubled_pawn_mg as int } else { 0 }) + (if isolated {
                params.isolated_pawn_mg as int
            } else {
                0
            }) + (if doubled && isolated { params.doubled_isolated_mg as int } else { 0 }) + (if !isolated && behind
                && guarded { params.backward_pawn_mg as int } else { 0 })
            &&& w.1 == (if doubled { params.doubled_pawn_eg as int } else { 0 }) + (if isolated {
                params.isolated_pawn_eg as int
            } else {
                0
            }) + (if doubled && isolated { params.doubled_isolated_eg as int } else { 0 }) + (if !isolated && behind
                && guarded { params.backward_pawn_eg as int } else { 0 })
        }),
{
    broadcast use group_bits;
    let f = sq % 8;
    let own = p.set_of(c, PieceKind::Pawn).0;
    let enemy = p.set_of(c.other(), PieceKind::Pawn).0;
    lemma_words(f, sq / 8, sq, c.other());
    assert forall|i: int| 0 <= i < 64 implies #[trigger] bit(own, i) == stands(p, c, PieceKind::Pawn, i) by {
        lemma_set_is_mailbox(p, c, PieceKind::Pawn, i);
    }
    assert forall|i: int| 0 <= i < 64 implies #[trigger] bit(enemy, i) == stands(p, c.other(), PieceKind::Pawn, i) by {
        lemma_set_is_mailbox(p, c.other(), PieceKind::Pawn, i);
    }
    lemma_count(own & file_word(f), |i: int| stands(p, c, PieceKind::Pawn, i) && i % 8 == sq % 8);
    let beside = |i: int| stands(p, c, PieceKind::Pawn, i) && (i % 8 == sq % 8 - 1 || i % 8 == sq % 8 + 1);
    lemma_empty_or_not(own & beside_word(f), beside);
    let support = |i: int| beside(i) && !ahead(c, sq, i);
    let x = own & beside_word(f) & (front_word(sq, c.other()) | rank_word(sq / 8));
    assert forall|i: int| 0 <= i < 64 implies #[trigger] bit(x, i) == support(i) by {
        assert(ahead(c.other(), sq, i) || i / 8 == sq / 8 <==> !ahead(c, sq, i));
    }
    lemma_empty_or_not(x, support);
    let isolated = forall|i: int|
        0 <= i < 64 && (i % 8 == sq % 8 - 1 || i % 8 == sq % 8 + 1) ==> !#[trigger] stands(p, c, PieceKind::Pawn, i);
    assert(isolated <==> own & beside_word(f) == 0) by {
        if isolated {
            assert forall|i: int| 0 <= i < 64 implies !#[trigger] beside(i) by {
                assert(stands(p, c, PieceKind::Pawn, i) || !stands(p, c, PieceKind::Pawn, i));
            }
        } else {
            let i = choose|i: int|
                0 <= i < 64 && (i % 8 == sq % 8 - 1 || i % 8 == sq % 8 + 1) && #[trigger] stands(p, c, PieceKind::Pawn, i);
            assert(beside(i));
        }
    }
    let behind = forall|i: int|
        0 <= i < 64 && (i % 8 == sq % 8 - 1 || i % 8 == sq % 8 + 1) && #[trigger] stands(p, c, PieceKind::Pawn, i) ==> ahead(
            c,
            sq,
            i,
        );
    assert(behind <==> x == 0) by {
        if behind {
            assert forall|i: int| 0 <= i < 64 implies !#[trigger] support(i) by {
                assert(stands(p, c, PieceKind::Pawn, i) || !stands(p, c, PieceKind::Pawn, i));
            }
        } else {
            let i = choose|i: int|
                0 <= i < 64 && (i % 8 == sq % 8 - 1 || i % 8 == sq % 8 + 1) && #[trigger] stands(p, c, PieceKind::Pawn, i)
                    && !ahead(c, sq, i);
            assert(support(i));
        }
    }
    let stop = sq + forward(c);
    lemma_word_of(|t: int| exists|g: int| #[trigger] bit(enemy, g) && pawn_hits(c.other(), g, t));
    let guarded = exists|i: int|
        0 <= i < 64 && #[trigger] stands(p, c.other(), PieceKind::Pawn, i) && pawn_hits(c.other(), i, stop);
    assert(guarded <==> bit(pawn_span(enemy, c.other()), stop)) by {
        if guarded {
            let i = choose|i: int|
                0 <= i < 64 && #[trigger] stands(p, c.other(), PieceKind::Pawn, i) && pawn_hits(c.other(), i, stop);
            assert(bit(enemy, i) && pawn_hits(c.other(), i, stop));
        } else if bit(pawn_span(enemy, c.other()), stop) {
            let g = choose|g: int| #[trigger] bit(enemy, g) && pawn_hits(c.other(), g, stop);
            assert(stands(p, c.other(), PieceKind::Pawn, g));
        }
    }
}

// Pieces.
/// Two bishops are worth a bonus that grows as pawns leave the board, and one is
/// not.
pub proof fn law_bishop_pairs(p: Position, c: Color, params: EvalParams)
    requires
        p.consistent(),
    ensures
        ({
            let pawns = how_many(
                |i: int| stands(p, Color::White, PieceKind::Pawn, i) || stands(p, Color::Black, PieceKind::Pawn, i),
                64,
            );
            let bishops = how_many(|i: int| stands(p, c, PieceKind::Bishop, i), 64);
            &&& bishops < 2 ==> pair_bonus(p, c, params) == (0int, 0int)
            &&& bishops >= 2 ==> pair_bonus(p, c, params).0 == params.bishop_pair_base_mg + 16 - pawns
            &&& bishops >= 2 ==> pair_bonus(p, c, params).1 == params.bishop_pair_base_eg + 2 * (16 - pawns)
        }),
{
    broadcast use group_bits;
    let w = p.set_of(Color::White, PieceKind::Pawn).0;
    let b = p.set_of(Color::Black, PieceKind::Pawn).0;
    let f = |i: int| stands(p, Color::White, PieceKind::Pawn, i) || stands(p, Color::Black, PieceKind::Pawn, i);
    assert forall|i: int| 0 <= i < 64 implies #[trigger] bit(w | b, i) == f(i) by {
        lemma_set_is_mailbox(p, Color::White, PieceKind::Pawn, i);
        lemma_set_is_mailbox(p, Color::Black, PieceKind::Pawn, i);
    }
    lemma_count(w | b, f);
    let g = |i: int| stands(p, c, PieceKind::Bishop, i);
    assert forall|i: int| 0 <= i < 64 implies #[trigger] bit(p.set_of(c, PieceKind::Bishop).0, i) == g(i) by {
        lemma_set_is_mailbox(p, c, PieceKind::Bishop, i);
    }
    lemma_count(p.set_of(c, PieceKind::Bishop).0, g);
}

/// A rook's file: open without any pawn, half open without an own one; and it is
/// worth something behind an own pawn that has crossed the middle.
pub proof fn law_rooks_like_open_files(p: Position, c: Color, params: EvalParams, sq: int)
    requires
        p.consistent(),
        0 <= sq < 64,
    ensures
        ({
            let own = exists|i: int| 0 <= i < 64 && i % 8 == sq % 8 && #[trigger] stands(p, c, PieceKind::Pawn, i);
            let enemy = exists|i: int|
                0 <= i < 64 && i % 8 == sq % 8 && #[trigger] stands(p, c.other(), PieceKind::Pawn, i);
            let r = rook_on_file(p, c, params, sq);
            &&& !own && !enemy ==> r == (params.rook_open_file_mg as int, params.rook_open_file_eg as int)
            &&& !own && enemy ==> r == (params.rook_semi_open_mg as int, params.rook_semi_open_eg as int)
            &&& own ==> r == (0int, 0int) || r == (6int, 8int)
        }),
{
    broadcast use group_bits;
    lemma_words(sq % 8, 0, sq, c);
    let own = p.set_of(c, PieceKind::Pawn).0;
    let enemy = p.set_of(c.other(), PieceKind::Pawn).0;
    let f = |i: int| i % 8 == sq % 8 && stands(p, c, PieceKind::Pawn, i);
    let g = |i: int| i % 8 == sq % 8 && stands(p, c.other(), PieceKind::Pawn, i);
    assert forall|i: int| 0 <= i < 64 implies #[trigger] bit(own & file_word(sq % 8), i) == f(i) by {
        lemma_set_is_mailbox(p, c, PieceKind::Pawn, i);
    }
    assert forall|i: int| 0 <= i < 64 implies #[trigger] bit(enemy & file_word(sq % 8), i) == g(i) by {
        lemma_set_is_mailbox(p, c.other(), PieceKind::Pawn, i);
    }
    lemma_empty_or_not(own & file_word(sq % 8), f);
    lemma_empty_or_not(enemy & file_word(sq % 8), g);
    if own & file_word(sq % 8) == 0 {
        assert forall|i: int| 0 <= i < 64 && i % 8 == sq % 8 implies !#[trigger] stands(p, c, PieceKind::Pawn, i) by {
            assert(!f(i));
        }
        assert(own & file_word(sq % 8) & upper_word(c, 4) == 0) by {
            let y = own & file_word(sq % 8) & upper_word(c, 4);
            assert forall|i: int| 0 <= i < 64 implies !bit(y, i) by {
                assert(!bit(own & file_word(sq % 8), i));
            }
            lemma_no_bits(y);
        }
    } else {
        let i = choose|i: int| 0 <= i < 64 && #[trigger] f(i);
        assert(stands(p, c, PieceKind::Pawn, i));
    }
    if enemy & file_word(sq % 8) == 0 {
        assert forall|i: int| 0 <= i < 64 && i % 8 == sq % 8 implies !#[trigger] stands(
            p,
            c.other(),
            PieceKind::Pawn,
            i,
        ) by {
            assert(!g(i));
        }
    } else {
        let i = choose|i: int| 0 <= i < 64 && #[trigger] g(i);
        assert(stands(p, c.other(), PieceKind::Pawn, i));
    }
}

/// How many pieces of a kind a side has.
pub open spec fn number_of(p: Position, c: Color, k: PieceKind) -> int {
    how_many(|i: int| stands(p, c, k, i), 64)
}

/// The size of a piece set is the number of such pieces on the board.
pub proof fn lemma_number(p: Position, c: Color, k: PieceKind)
    requires
        p.consistent(),
    ensures
        p.set_of(c, k).size() == number_of(p, c, k),
{
    let f = |i: int| stands(p, c, k, i);
    assert forall|i: int| 0 <= i < 64 implies #[trigger] bit(p.set_of(c, k).0, i) == f(i) by {
        lemma_set_is_mailbox(p, c, k, i);
    }
    lemma_count(p.set_of(c, k).0, f);
}

proof fn lemma_numbers(p: Position, c: Color)
    requires
        p.consistent(),
    ensures
        kind_count(p, c, PieceKind::Pawn) == number_of(p, c, PieceKind::Pawn),
        kind_count(p, c, PieceKind::Knight) == number_of(p, c, PieceKind::Knight),
        kind_count(p, c, PieceKind::Bishop) == number_of(p, c, PieceKind::Bishop),
        kind_count(p, c, PieceKind::Rook) == number_of(p, c, PieceKind::Rook),
        kind_count(p, c, PieceKind::Queen) == number_of(p, c, PieceKind::Queen),
{
    lemma_number(p, c, PieceKind::Pawn);
    lemma_number(p, c, PieceKind::Knight);
    lemma_number(p, c, PieceKind::Bishop);
    lemma_number(p, c, PieceKind::Rook);
    lemma_number(p, c, PieceKind::Queen);
}

// Passed pawns.
/// A passed pawn is worth the more the further it has come, where its bonuses are
/// not negative.
pub proof fn law_passed_pawns_grow(p: Position, c: Color, params: EvalParams, a: int, b: int)
    requires
        0 <= a <= b <= 6,
        params.passed_pawn_adv_mg >= 0,
        params.passed_pawn_adv_eg >= 0,
    ensures
        passer_base(p, c, params, a).0 <= passer_base(p, c, params, b).0,
        passer_base(p, c, params, a).1 <= passer_base(p, c, params, b).1,
{
    let scale = passer_scale(p, c);
    assert(74 <= scale <= 100);
    let mg = params.passed_pawn_adv_mg as int;
    let eg = params.passed_pawn_adv_eg as int;
    assert(a * a <= b * b) by (nonlinear_arith)
        requires
            0 <= a <= b,
    ;
    let (x, y) = (a * a, b * b);
    assert(x * mg <= y * mg && x * eg <= y * eg) by (nonlinear_arith)
        requires
            x <= y,
            mg >= 0,
            eg >= 0,
    ;
    let (u, v) = (params.passed_pawn_base_mg + x * mg, params.passed_pawn_base_mg + y * mg);
    let (s, t) = (params.passed_pawn_base_eg + x * eg, params.passed_pawn_base_eg + y * eg);
    assert(u * scale <= v * scale && s * scale <= t * scale) by (nonlinear_arith)
        requires
            u <= v,
            s <= t,
            scale >= 0,
    ;
    if a >= 4 {
        assert((a - 3) * (a - 3) <= (b - 3) * (b - 3)) by (nonlinear_arith)
            requires
                4 <= a <= b,
        ;
    } else if b >= 4 {
        assert((b - 3) * (b - 3) >= 0) by (nonlinear_arith);
    }
}

/// A passed pawn gains by an own king near its goal and by an enemy king far from
/// it, where the bonuses for both are not negative.
pub proof fn law_kings_race_for_passed_pawns(
    p: Position,
    q: Position,
    c: Color,
    params: EvalParams,
    sq: int,
    a: int,
)
    requires
        a >= 0,
        params.king_passer_own_eg >= 0,
        params.king_passer_enemy_eg >= 0,
        king_distance(p.king_at(c), if c == Color::White { 56 + sq % 8 } else { sq % 8 }) <= king_distance(
            q.king_at(c),
            if c == Color::White { 56 + sq % 8 } else { sq % 8 },
        ),
        king_distance(p.king_at(c.other()), if c == Color::White { 56 + sq % 8 } else { sq % 8 }) >= king_distance(
            q.king_at(c.other()),
            if c == Color::White { 56 + sq % 8 } else { sq % 8 },
        ),
    ensures
        king_race(p, c, params, sq, a) >= king_race(q, c, params, sq, a),
{
    let goal = promotion_square(c, sq);
    let o = params.king_passer_own_eg as int;
    let e = params.king_passer_enemy_eg as int;
    let (d1, d2) = (7 - king_distance(p.king_at(c), goal), 7 - king_distance(q.king_at(c), goal));
    let (e1, e2) = (king_distance(p.king_at(c.other()), goal), king_distance(q.king_at(c.other()), goal));
    let n = 1 + a;
    assert(d1 * o * n >= d2 * o * n && e1 * e * n >= e2 * e * n) by (nonlinear_arith)
        requires
            d1 >= d2,
            e1 >= e2,
            o >= 0,
            e >= 0,
            n >= 0,
    ;
}

/// Kings move one step at a time in any direction.
pub proof fn law_king_distance(a: int, b: int)
    ensures
        king_distance(a, b) == king_distance(b, a),
        0 <= a < 64 && 0 <= b < 64 && king_distance(a, b) == 0 ==> a == b,
        king_distance(a, b) <= 1 <==> -1 <= a % 8 - b % 8 <= 1 && -1 <= a / 8 - b / 8 <= 1,
        king_distance(a, b) >= a % 8 - b % 8,
        king_distance(a, b) >= a / 8 - b / 8,
{
}

/// A blockade never helps a passed pawn, where the penalties for it are not
/// bonuses.
pub proof fn law_blockades_never_help(p: Position, c: Color, params: EvalParams, sq: int, a: int)
    requires
        a >= 0,
        params.blocked_passer_mg <= 0,
        params.blocked_passer_eg <= 0,
    ensures
        blockade(p, c, params, sq, a).0 <= 0,
        blockade(p, c, params, sq, a).1 <= 0,
{
}

/// A pawn runs away only from a king that is too far from its goal, counting who
/// is to move, and never past a queen.
pub proof fn law_runaway_pawns(p: Position, c: Color, sq: int)
    requires
        0 <= sq < 64,
    ensures
        ({
            let goal = if c == Color::White { 56 + sq % 8 } else { sq % 8 };
            let steps = if c == Color::White { 7 - sq / 8 } else { sq / 8 };
            let d = king_distance(p.king_at(c.other()), goal);
            &&& runaway(p, c, sq) >= 0
            &&& d <= steps ==> runaway(p, c, sq) == 0
            &&& p.side != c && d <= steps + 1 ==> runaway(p, c, sq) == 0
            &&& d > steps + 1 && p.set_of(c.other(), PieceKind::Knight).0 == 0 && p.set_of(
                c.other(),
                PieceKind::Bishop,
            ).0 == 0 && p.set_of(c.other(), PieceKind::Rook).0 == 0 && p.set_of(c.other(), PieceKind::Queen).0 == 0
                ==> runaway(p, c, sq) == 350
        }),
{
}

/// A passed pawn is worth the sum of what speaks for it.
pub proof fn law_passed_pawns_add_up(p: Position, c: Color, params: EvalParams, sq: int)
    requires
        0 <= sq < 64,
    ensures
        ({
            let a = if c == Color::White { sq / 8 - 1 } else { 6 - sq / 8 };
            let v = passed_pawn(p, c, params, sq);
            &&& v.0 == passer_base(p, c, params, a).0 + connected_bonus(p, c, params, sq, a).0 + blockade(
                p,
                c,
                params,
                sq,
                a,
            ).0 + escorts(p, c, params, sq, a).0
            &&& v.1 == passer_base(p, c, params, a).1 + connected_bonus(p, c, params, sq, a).1 + king_race(
                p,
                c,
                params,
                sq,
                a,
            ) + blockade(p, c, params, sq, a).1 + escorts(p, c, params, sq, a).1 + runaway(p, c, sq)
        }),
{
}

// The king.
/// A king is the safer the more of its own pawns shield it, the fewer enemy pieces
/// bear on it and the fewer enemy pawns come near, by the weight of the phase.
pub proof fn law_king_safety_directions(p: Position, q: Position, c: Color, phase: int, params: EvalParams)
    requires
        p.king_at(c) == q.king_at(c),
        safety_weight(p, c, phase) == safety_weight(q, c, phase),
        shield(p, c, params) >= shield(q, c, params),
        assault(p, c, params) <= assault(q, c, params),
        storm(p, c) <= storm(q, c),
        forall|f: int| #[trigger] file_danger(p, c, params, f) == file_danger(q, c, params, f),
    ensures
        side_safety(p, c, phase, params) >= side_safety(q, c, phase, params),
        0 <= safety_weight(p, c, phase),
{
    let f = p.king_at(c) % 8;
    let x = shield(p, c, params) + file_danger(p, c, params, f - 1) + file_danger(p, c, params, f) + file_danger(
        p,
        c,
        params,
        f + 1,
    ) + king_place(p, c, params) - assault(p, c, params) - storm(p, c) * 15;
    let y = shield(q, c, params) + file_danger(q, c, params, f - 1) + file_danger(q, c, params, f) + file_danger(
        q,
        c,
        params,
        f + 1,
    ) + king_place(q, c, params) - assault(q, c, params) - storm(q, c) * 15;
    let w = safety_weight(p, c, phase);
    assert(x >= y);
    assert(x * w >= y * w) by (nonlinear_arith)
        requires
            x >= y,
            w >= 0,
    ;
}

/// The safety of the kings counts for White less for Black, and not at all in the
/// endgame.
pub proof fn law_king_safety_is_compared(p: Position, phase: int, params: EvalParams)
    ensures
        phase > 200 ==> safety_term(p, phase, params) == 0,
        phase <= 200 ==> safety_term(p, phase, params) == side_safety(p, Color::White, phase, params) - side_safety(
            p,
            Color::Black,
            phase,
            params,
        ),
{
}

/// The shield are the own pawns on the three files about the king, one and two
/// ranks in front of it.
pub proof fn law_shields_stand_in_front(p: Position, c: Color, params: EvalParams)
    requires
        p.consistent(),
    ensures
        ({
            let king = p.king_at(c);
            let near = how_many(
                |i: int|
                    stands(p, c, PieceKind::Pawn, i) && king % 8 - 1 <= i % 8 <= king % 8 + 1 && i / 8 == (if c
                        == Color::White { king / 8 + 1 } else { king / 8 - 1 }),
                64,
            );
            let far = how_many(
                |i: int|
                    stands(p, c, PieceKind::Pawn, i) && king % 8 - 1 <= i % 8 <= king % 8 + 1 && i / 8 == (if c
                        == Color::White { king / 8 + 2 } else { king / 8 - 2 }),
                64,
            );
            shield(p, c, params) == near * params.ks_shield_1 + far * params.ks_shield_2
        }),
{
    broadcast use group_bits;
    let king = p.king_at(c);
    let own = p.set_of(c, PieceKind::Pawn).0;
    let files = shelter_files(king % 8);
    let up: int = if c == Color::White { 1 } else { -1 };
    lemma_word_of(|i: int| king % 8 - 1 <= i % 8 <= king % 8 + 1);
    lemma_words(0, king / 8 + up, 0, c);
    assert forall|i: int| 0 <= i < 64 implies #[trigger] bit(own, i) == stands(p, c, PieceKind::Pawn, i) by {
        lemma_set_is_mailbox(p, c, PieceKind::Pawn, i);
    }
    lemma_count(
        own & files & rank_word(king / 8 + up),
        |i: int|
            stands(p, c, PieceKind::Pawn, i) && king % 8 - 1 <= i % 8 <= king % 8 + 1 && i / 8 == (if c == Color::White {
                king / 8 + 1
            } else {
                king / 8 - 1
            }),
    );
    lemma_words(0, king / 8 + 2 * up, 0, c);
    lemma_count(
        own & files & rank_word(king / 8 + 2 * up),
        |i: int|
            stands(p, c, PieceKind::Pawn, i) && king % 8 - 1 <= i % 8 <= king % 8 + 1 && i / 8 == (if c == Color::White {
                king / 8 + 2
            } else {
                king / 8 - 2
            }),
    );
}

/// Enemy pawns on the two middle ranks of the files about the king storm it.
pub proof fn law_storms_come_from_the_enemy(p: Position, c: Color)
    requires
        p.consistent(),
    ensures
        storm(p, c) == how_many(
            |i: int|
                stands(p, c.other(), PieceKind::Pawn, i) && p.king_at(c) % 8 - 1 <= i % 8 <= p.king_at(c) % 8 + 1 && (i / 8
                    == 3 || i / 8 == 4),
            64,
        ),
{
    broadcast use group_bits;
    let king = p.king_at(c);
    let enemy = p.set_of(c.other(), PieceKind::Pawn).0;
    lemma_word_of(|i: int| king % 8 - 1 <= i % 8 <= king % 8 + 1);
    lemma_words(0, 3, 0, c);
    lemma_words(0, 4, 0, c);
    assert forall|i: int| 0 <= i < 64 implies #[trigger] bit(enemy, i) == stands(p, c.other(), PieceKind::Pawn, i) by {
        lemma_set_is_mailbox(p, c.other(), PieceKind::Pawn, i);
    }
    lemma_count(
        enemy & shelter_files(king % 8) & (rank_word(3) | rank_word(4)),
        |i: int|
            stands(p, c.other(), PieceKind::Pawn, i) && p.king_at(c) % 8 - 1 <= i % 8 <= p.king_at(c) % 8 + 1 && (i / 8 == 3
                || i / 8 == 4),
    );
}

/// No attack without attackers: where no enemy piece bears on the squares about
/// the king, nothing is taken off for one.
pub proof fn law_attacks_need_attackers(p: Position, c: Color, params: EvalParams)
    requires
        p.set_of(c.other(), PieceKind::Knight).0 == 0,
        p.set_of(c.other(), PieceKind::Bishop).0 == 0,
        p.set_of(c.other(), PieceKind::Rook).0 == 0,
        p.set_of(c.other(), PieceKind::Queen).0 == 0,
    ensures
        assault(p, c, params) == 0,
{
    lemma_squares_zero();
}

/// A king on an open file is in danger, and less so on a half-open one; a file
/// that only own pawns hold costs a little.
pub proof fn law_files_near_the_king(p: Position, c: Color, params: EvalParams, f: int)
    requires
        p.consistent(),
        0 <= f < 8,
    ensures
        ({
            let own = exists|i: int| 0 <= i < 64 && i % 8 == f && #[trigger] stands(p, c, PieceKind::Pawn, i);
            let enemy = exists|i: int| 0 <= i < 64 && i % 8 == f && #[trigger] stands(p, c.other(), PieceKind::Pawn, i);
            file_danger(p, c, params, f) == (if !own && !enemy {
                params.ks_open_file as int
            } else if !own {
                params.ks_semi_open as int
            } else if !enemy {
                -10
            } else {
                0
            })
        }),
{
    lemma_file_holds(p, c, f);
    lemma_file_holds(p, c.other(), f);
}

proof fn lemma_file_holds(p: Position, c: Color, f: int)
    requires
        p.consistent(),
    ensures
        p.set_of(c, PieceKind::Pawn).0 & file_word(f) != 0 <==> exists|i: int|
            0 <= i < 64 && i % 8 == f && #[trigger] stands(p, c, PieceKind::Pawn, i),
{
    broadcast use group_bits;
    lemma_words(f, 0, 0, c);
    let own = p.set_of(c, PieceKind::Pawn).0;
    let g = |i: int| i % 8 == f && stands(p, c, PieceKind::Pawn, i);
    assert forall|i: int| 0 <= i < 64 implies #[trigger] bit(own & file_word(f), i) == g(i) by {
        lemma_set_is_mailbox(p, c, PieceKind::Pawn, i);
    }
    lemma_empty_or_not(own & file_word(f), g);
    if own & file_word(f) != 0 {
        let i = choose|i: int| 0 <= i < 64 && #[trigger] g(i);
        assert(stands(p, c, PieceKind::Pawn, i));
    } else {
        assert forall|i: int| 0 <= i < 64 && i % 8 == f implies !#[trigger] stands(p, c, PieceKind::Pawn, i) by {
            assert(!g(i));
        }
    }
}

// Mobility, center and space.
/// The reach of a piece are the squares that it attacks and that its own side
/// does not hold.
pub proof fn law_reach(p: Position, kind: PieceKind, c: Color, sq: int, t: int)
    requires
        p.consistent(),
        0 <= t < 64,
    ensures
        bit(reach(p, kind, c, sq), t) <==> piece_hits(kind, c, p.occupied().0, sq, t) && !(p.mailbox[t] is Some
            && p.mailbox[t]->Some_0.color == c),
{
    broadcast use group_bits;
    lemma_word_of(|t: int| piece_hits(kind, c, p.occupied().0, sq, t));
    assert(p.occupancy[c.idx()].has(t) || !p.occupancy[c.idx()].has(t));
}

/// A piece is worth the more the further it reaches, where mobility is rewarded.
pub proof fn law_mobility_is_rewarded(p: Position, q: Position, c: Color, params: EvalParams, a: int, b: int)
    requires
        params.mobility_knight_mg >= 0,
        params.mobility_knight_eg >= 0,
        params.mobility_bishop_mg >= 0,
        params.mobility_bishop_eg >= 0,
        params.mobility_rook_mg >= 0,
        params.mobility_queen_mg >= 0,
        params.mobility_queen_eg >= 0,
    ensures
        popcount(reach(p, PieceKind::Knight, c, a)) >= popcount(reach(q, PieceKind::Knight, c, b)) ==> mobility_fn(
            p,
            PieceKind::Knight,
            c,
            params,
        )(a).0 >= mobility_fn(q, PieceKind::Knight, c, params)(b).0 && mobility_fn(p, PieceKind::Knight, c, params)(a).1
            >= mobility_fn(q, PieceKind::Knight, c, params)(b).1,
        popcount(reach(p, PieceKind::Bishop, c, a)) >= popcount(reach(q, PieceKind::Bishop, c, b)) ==> mobility_fn(
            p,
            PieceKind::Bishop,
            c,
            params,
        )(a).0 >= mobility_fn(q, PieceKind::Bishop, c, params)(b).0 && mobility_fn(p, PieceKind::Bishop, c, params)(a).1
            >= mobility_fn(q, PieceKind::Bishop, c, params)(b).1,
        popcount(reach(p, PieceKind::Rook, c, a)) >= popcount(reach(q, PieceKind::Rook, c, b)) ==> mobility_fn(
            p,
            PieceKind::Rook,
            c,
            params,
        )(a).0 >= mobility_fn(q, PieceKind::Rook, c, params)(b).0,
        popcount(reach(p, PieceKind::Queen, c, a)) >= popcount(reach(q, PieceKind::Queen, c, b)) ==> mobility_fn(
            p,
            PieceKind::Queen,
            c,
            params,
        )(a).0 >= mobility_fn(q, PieceKind::Queen, c, params)(b).0 && mobility_fn(p, PieceKind::Queen, c, params)(a).1
            >= mobility_fn(q, PieceKind::Queen, c, params)(b).1,
{
    lemma_more(
        popcount(reach(p, PieceKind::Knight, c, a)) as int,
        popcount(reach(q, PieceKind::Knight, c, b)) as int,
        params.mobility_knight_mg as int,
        params.mobility_knight_eg as int,
    );
    lemma_more(
        popcount(reach(p, PieceKind::Bishop, c, a)) as int,
        popcount(reach(q, PieceKind::Bishop, c, b)) as int,
        params.mobility_bishop_mg as int,
        params.mobility_bishop_eg as int,
    );
    lemma_more(
        popcount(reach(p, PieceKind::Rook, c, a)) as int,
        popcount(reach(q, PieceKind::Rook, c, b)) as int,
        params.mobility_rook_mg as int,
        0,
    );
    lemma_more(
        popcount(reach(p, PieceKind::Queen, c, a)) as int,
        popcount(reach(q, PieceKind::Queen, c, b)) as int,
        params.mobility_queen_mg as int,
        params.mobility_queen_eg as int,
    );
}

proof fn lemma_more(x: int, y: int, u: int, v: int)
    requires
        u >= 0,
        v >= 0,
    ensures
        x >= y ==> x * u >= y * u && x * v >= y * v,
{
    if x >= y {
        assert(x * u >= y * u && x * v >= y * v) by (nonlinear_arith)
            requires
                x >= y,
                u >= 0,
                v >= 0,
        ;
    }
}

/// Space are the free squares of the second to fourth ranks, counted from the own
/// side, that no enemy pawn guards.
pub proof fn law_space_is_behind_the_pawns(p: Position, c: Color)
    requires
        p.consistent(),
    ensures
        side_space(p, c) == how_many(
            |i: int|
                p.mailbox[i] is None && (if c == Color::White { 1 <= i / 8 <= 3 } else { 4 <= i / 8 <= 6 }) && !(exists|j: int|
                    0 <= j < 64 && #[trigger] stands(p, c.other(), PieceKind::Pawn, j) && pawn_hits(c.other(), j, i)),
            64,
        ),
{
    broadcast use group_bits;
    let e = c.other();
    let enemy = p.set_of(e, PieceKind::Pawn).0;
    let f = |i: int|
        p.mailbox[i] is None && (if c == Color::White { 1 <= i / 8 <= 3 } else { 4 <= i / 8 <= 6 }) && !(exists|j: int|
            0 <= j < 64 && #[trigger] stands(p, e, PieceKind::Pawn, j) && pawn_hits(e, j, i));
    lemma_words(0, 1, 0, c);
    lemma_words(0, 2, 0, c);
    lemma_words(0, 3, 0, c);
    lemma_words(0, 4, 0, c);
    lemma_words(0, 5, 0, c);
    lemma_words(0, 6, 0, c);
    let zone = match c {
        Color::White => rank_word(1) | rank_word(2) | rank_word(3),
        Color::Black => rank_word(4) | rank_word(5) | rank_word(6),
    };
    let x = zone & !pawn_span(enemy, e) & !p.occupied().0;
    lemma_word_of(|t: int| exists|g: int| #[trigger] bit(enemy, g) && pawn_hits(e, g, t));
    assert forall|i: int| 0 <= i < 64 implies #[trigger] bit(x, i) == f(i) by {
        assert(p.occupancy[0].has(i) || !p.occupancy[0].has(i));
        assert(p.occupancy[1].has(i) || !p.occupancy[1].has(i));
        assert(bit(p.occupied().0, i) <==> p.mailbox[i] is Some);
        if bit(pawn_span(enemy, e), i) {
            let g = choose|g: int| #[trigger] bit(enemy, g) && pawn_hits(e, g, i);
            lemma_set_is_mailbox(p, e, PieceKind::Pawn, g);
            assert(stands(p, e, PieceKind::Pawn, g));
        } else if exists|j: int| 0 <= j < 64 && #[trigger] stands(p, e, PieceKind::Pawn, j) && pawn_hits(e, j, i) {
            let j = choose|j: int| 0 <= j < 64 && #[trigger] stands(p, e, PieceKind::Pawn, j) && pawn_hits(e, j, i);
            lemma_set_is_mailbox(p, e, PieceKind::Pawn, j);
            assert(bit(enemy, j) && pawn_hits(e, j, i));
        }
    }
    lemma_count(x, f);
}

/// More space is better for the side that has it.
pub proof fn law_space_favours_its_side(p: Position)
    ensures
        side_space(p, Color::White) >= side_space(p, Color::Black) ==> space_term(p).0 >= 0 && space_term(p).1 >= 0,
        side_space(p, Color::White) <= side_space(p, Color::Black) ==> space_term(p).0 <= 0 && space_term(p).1 <= 0,
{
    let d = side_space(p, Color::White) - side_space(p, Color::Black);
    let n = max_of(p.occupied().size() - 10, 0);
    if d >= 0 {
        assert(d * n >= 0) by (nonlinear_arith)
            requires
                d >= 0,
                n >= 0,
        ;
    }
    if d <= 0 {
        assert(d * n <= 0) by (nonlinear_arith)
            requires
                d <= 0,
                n >= 0,
        ;
    }
}

// Material relations.
/// More pawns count for the side that has them, as long as the pieces are about
/// even, and nothing otherwise.
pub proof fn law_pawn_majorities(p: Position)
    requires
        p.consistent(),
    ensures
        ({
            let more = number_of(p, Color::White, PieceKind::Pawn) - number_of(p, Color::Black, PieceKind::Pawn);
            let w = 3 * number_of(p, Color::White, PieceKind::Knight) + 3 * number_of(p, Color::White, PieceKind::Bishop)
                + 5 * number_of(p, Color::White, PieceKind::Rook) + 9 * number_of(p, Color::White, PieceKind::Queen);
            let b = 3 * number_of(p, Color::Black, PieceKind::Knight) + 3 * number_of(p, Color::Black, PieceKind::Bishop)
                + 5 * number_of(p, Color::Black, PieceKind::Rook) + 9 * number_of(p, Color::Black, PieceKind::Queen);
            let off = if w > b { w - b } else { b - w };
            &&& more >= 0 ==> majority_term(p).0 >= 0 && majority_term(p).1 >= 0
            &&& more <= 0 ==> majority_term(p).0 <= 0 && majority_term(p).1 <= 0
            &&& off >= 6 ==> majority_term(p) == (0int, 0int)
            &&& off == 0 ==> majority_term(p) == (30 * more, 60 * more)
        }),
{
    lemma_numbers(p, Color::White);
    lemma_numbers(p, Color::Black);
    let more = number_of(p, Color::White, PieceKind::Pawn) - number_of(p, Color::Black, PieceKind::Pawn);
    let scale = max_of(6 - magnitude(piece_units(p, Color::White) - piece_units(p, Color::Black)), 0);
    if more >= 0 {
        assert(more * scale >= 0) by (nonlinear_arith)
            requires
                more >= 0,
                scale >= 0,
        ;
    }
    if more <= 0 {
        assert(more * scale <= 0) by (nonlinear_arith)
            requires
                more <= 0,
                scale >= 0,
        ;
    }
    if scale == 0 {
        assert(more * scale == 0) by (nonlinear_arith)
            requires
                scale == 0,
        ;
    }
    if scale == 6 {
        assert(more * scale == 6 * more) by (nonlinear_arith)
            requires
                scale == 6,
        ;
    }
}

/// With a large lead in the endgame the winning side gains, never the losing one,
/// and the more the closer its king is to the other, and the closer that is to a
/// corner.
pub proof fn law_mopping_up(p: Position, phase: int)
    requires
        is_square(p.king_at(Color::White)),
        is_square(p.king_at(Color::Black)),
    ensures
        material_balance(p) >= 300 ==> mopup_term(p, phase) >= 0,
        material_balance(p) <= -300 ==> mopup_term(p, phase) <= 0,
        phase < 128 || -300 < material_balance(p) < 300 ==> mopup_term(p, phase) == 0,
{
    let balance = material_balance(p);
    let (winner, loser) = if balance > 0 { (Color::White, Color::Black) } else { (Color::Black, Color::White) };
    let l = p.king_at(loser);
    let corner = magnitude(l % 8 * 2 - 7) + magnitude(l / 8 * 2 - 7);
    let close = 14 - king_distance(p.king_at(winner), l) * 2;
    let x = corner * 8 + close * 6;
    let y = min_of(magnitude(balance), 1500) / 3;
    assert(x * y >= 0) by (nonlinear_arith)
        requires
            x >= 0,
            y >= 0,
    ;
}

/// A lead is counted in the usual values: a queen outweighs a rook, a rook a
/// minor piece, and each counts for the side that has it.
pub proof fn law_material_balance(p: Position)
    requires
        p.consistent(),
    ensures
        material_balance(p) == 94 * (number_of(p, Color::White, PieceKind::Pawn) - number_of(
            p,
            Color::Black,
            PieceKind::Pawn,
        )) + 281 * (number_of(p, Color::White, PieceKind::Knight) - number_of(p, Color::Black, PieceKind::Knight)) + 297
            * (number_of(p, Color::White, PieceKind::Bishop) - number_of(p, Color::Black, PieceKind::Bishop)) + 512 * (
        number_of(p, Color::White, PieceKind::Rook) - number_of(p, Color::Black, PieceKind::Rook)) + 936 * (number_of(
            p,
            Color::White,
            PieceKind::Queen,
        ) - number_of(p, Color::Black, PieceKind::Queen)),
{
    lemma_numbers(p, Color::White);
    lemma_numbers(p, Color::Black);
}

/// Knights gain in closed positions, bishops in open ones.
pub proof fn law_closed_positions_suit_knights(p: Position, c: Color, params: EvalParams)
    requires
        p.consistent(),
    ensures
        ({
            let pawns = how_many(
                |i: int| stands(p, Color::White, PieceKind::Pawn, i) || stands(p, Color::Black, PieceKind::Pawn, i),
                64,
            );
            &&& pawns > 10 ==> side_minor_bonus(p, c, params) == number_of(p, c, PieceKind::Knight)
                * params.knight_closed_bonus * (pawns - 10)
            &&& pawns <= 10 ==> side_minor_bonus(p, c, params) == number_of(p, c, PieceKind::Bishop)
                * params.bishop_open_bonus * (10 - pawns)
        }),
{
    broadcast use group_bits;
    lemma_numbers(p, c);
    let w = p.set_of(Color::White, PieceKind::Pawn).0;
    let b = p.set_of(Color::Black, PieceKind::Pawn).0;
    let f = |i: int| stands(p, Color::White, PieceKind::Pawn, i) || stands(p, Color::Black, PieceKind::Pawn, i);
    assert forall|i: int| 0 <= i < 64 implies #[trigger] bit(w | b, i) == f(i) by {
        lemma_set_is_mailbox(p, Color::White, PieceKind::Pawn, i);
        lemma_set_is_mailbox(p, Color::Black, PieceKind::Pawn, i);
    }
    lemma_count(w | b, f);
}

/// A bishop is shut in on a7 or h7, counted from its own side, by an enemy pawn on
/// b6 or g6.
pub proof fn law_trapped_bishops(p: Position, c: Color)
    requires
        p.consistent(),
    ensures
        c == Color::White ==> shut_in(p, c) == (if stands(p, c, PieceKind::Bishop, 48) && stands(
            p,
            Color::Black,
            PieceKind::Pawn,
            41,
        ) { 1int } else { 0 }) + (if stands(p, c, PieceKind::Bishop, 55) && stands(p, Color::Black, PieceKind::Pawn, 46) {
            1int
        } else {
            0
        }),
        c == Color::Black ==> shut_in(p, c) == (if stands(p, c, PieceKind::Bishop, 8) && stands(
            p,
            Color::White,
            PieceKind::Pawn,
            17,
        ) { 1int } else { 0 }) + (if stands(p, c, PieceKind::Bishop, 15) && stands(p, Color::White, PieceKind::Pawn, 22) {
            1int
        } else {
            0
        }),
{
    lemma_set_is_mailbox(p, c, PieceKind::Bishop, 48);
    lemma_set_is_mailbox(p, c, PieceKind::Bishop, 55);
    lemma_set_is_mailbox(p, c, PieceKind::Bishop, 8);
    lemma_set_is_mailbox(p, c, PieceKind::Bishop, 15);
    lemma_set_is_mailbox(p, c.other(), PieceKind::Pawn, 41);
    lemma_set_is_mailbox(p, c.other(), PieceKind::Pawn, 46);
    lemma_set_is_mailbox(p, c.other(), PieceKind::Pawn, 17);
    lemma_set_is_mailbox(p, c.other(), PieceKind::Pawn, 22);
}

/// What is counted for one side counts against it for the other: the terms are
/// White's share less Black's, capped where they can grow large.
pub proof fn law_terms_are_white_less_black(p: Position, params: EvalParams, pawns: (int, int))
    ensures
        ({
            let w = Color::White;
            let b = Color::Black;
            &&& term(p, params, pawns, 1) == (soft_cap(pawns.0, 250), soft_cap(pawns.1, 300))
            &&& term(p, params, pawns, 2).0 == pair_bonus(p, w, params).0 - pair_bonus(p, b, params).0
            &&& term(p, params, pawns, 2).1 == pair_bonus(p, w, params).1 - pair_bonus(p, b, params).1
            &&& term(p, params, pawns, 3).0 == side_rooks(p, w, params).0 - side_rooks(p, b, params).0
            &&& term(p, params, pawns, 3).1 == side_rooks(p, w, params).1 - side_rooks(p, b, params).1
            &&& term(p, params, pawns, 4).1 == 0
            &&& term(p, params, pawns, 5).0 == soft_cap(
                side_mobility(p, w, params).0 - side_mobility(p, b, params).0,
                130,
            )
            &&& term(p, params, pawns, 5).1 == soft_cap(
                side_mobility(p, w, params).1 - side_mobility(p, b, params).1,
                150,
            )
            &&& term(p, params, pawns, 6).0 == soft_cap(side_center(p, w, params) - side_center(p, b, params), 80)
            &&& term(p, params, pawns, 7).0 == side_connectivity(p, w, params) - side_connectivity(p, b, params)
            &&& term(p, params, pawns, 8).0 == soft_cap(side_threats(p, w, params).0 - side_threats(p, b, params).0, 170)
            &&& term(p, params, pawns, 8).1 == soft_cap(side_threats(p, w, params).1 - side_threats(p, b, params).1, 130)
            &&& term(p, params, pawns, 10).0 == side_imbalance(p, w, params).0 - side_imbalance(p, b, params).0
            &&& term(p, params, pawns, 10).1 == side_imbalance(p, w, params).1 - side_imbalance(p, b, params).1
            &&& term(p, params, pawns, 12).0 == 0
            &&& term(p, params, pawns, 14).0 == params.bad_bishop_mg * (blocked_bishops(p, w) - blocked_bishops(p, b))
            &&& term(p, params, pawns, 14).1 == params.bad_bishop_eg * (blocked_bishops(p, w) - blocked_bishops(p, b))
            &&& term(p, params, pawns, 15).0 == side_minor_bonus(p, w, params) - side_minor_bonus(p, b, params)
            &&& term(p, params, pawns, 15).1 == term(p, params, pawns, 15).0
            &&& term(p, params, pawns, 16).0 == params.trapped_bishop_mg * (shut_in(p, w) - shut_in(p, b))
            &&& term(p, params, pawns, 16).1 == params.trapped_bishop_eg * (shut_in(p, w) - shut_in(p, b))
            &&& term(p, params, pawns, 17).0 == params.pawn_islands_mg * (extra_islands(p, w) - extra_islands(p, b))
            &&& term(p, params, pawns, 17).1 == params.pawn_islands_eg * (extra_islands(p, w) - extra_islands(p, b))
        }),
{
}

/// A rook is worth more on the seventh rank, counted from its own side, and more
/// still if it holds the enemy king on the eighth.
pub proof fn law_rooks_like_advanced_ranks(p: Position, c: Color, params: EvalParams, sq: int)
    requires
        0 <= sq < 64,
    ensures
        ({
            let rank = if c == Color::White { sq / 8 } else { 7 - sq / 8 };
            let king = p.king_at(c.other()) / 8;
            let held = if c == Color::White { king == 7 } else { king == 0 };
            let r = rook_on_rank(p, c, params, sq);
            &&& rank <= 2 ==> r == (0int, 0int)
            &&& rank == 3 ==> r == (8int, 6int)
            &&& rank == 4 ==> r == (12int, 20int)
            &&& rank == 5 ==> r == (0int, 10int)
            &&& rank == 6 && held ==> r == (params.rook_seventh_mg + 15, params.rook_seventh_eg + 40)
            &&& rank == 6 && !held ==> r == (params.rook_seventh_mg as int, params.rook_seventh_eg + 10)
            &&& rank == 7 ==> r == (15int, 45int)
        }),
{
}

/// A king in the middle of its first two ranks has not castled; one that has left
/// its first three ranks is far from home.
pub proof fn law_kings_belong_at_home(p: Position, c: Color, params: EvalParams)
    requires
        is_square(p.king_at(c)),
    ensures
        ({
            let file = p.king_at(c) % 8;
            let rank = if c == Color::White { p.king_at(c) / 8 } else { 7 - p.king_at(c) / 8 };
            &&& rank <= 1 && 2 <= file <= 5 ==> king_place(p, c, params) == params.ks_center_king
            &&& rank <= 1 && (file < 2 || file > 5) ==> king_place(p, c, params) == 0
            &&& rank == 2 ==> king_place(p, c, params) == 0
            &&& rank == 3 ==> king_place(p, c, params) == -135
            &&& rank == 4 ==> king_place(p, c, params) == -240
            &&& rank == 5 ==> king_place(p, c, params) == -375
            &&& rank == 6 ==> king_place(p, c, params) == -540
            &&& rank == 7 ==> king_place(p, c, params) == -735
        }),
{
}

/// A bishop is the worse the more own pawns stand on squares of its color.
pub proof fn law_bad_bishops(p: Position, c: Color, sq: int)
    requires
        p.consistent(),
        0 <= sq < 64,
    ensures
        blocked_fn(p, c)(sq) == how_many(
            |i: int| stands(p, c, PieceKind::Pawn, i) && (i % 8 + i / 8) % 2 == (sq % 8 + sq / 8) % 2,
            64,
        ),
{
    broadcast use group_bits;
    let own = p.set_of(c, PieceKind::Pawn).0;
    let dark = (sq % 8 + sq / 8) % 2 == 0;
    lemma_word_of(|i: int| ((i % 8 + i / 8) % 2 == 0) == dark);
    let f = |i: int| stands(p, c, PieceKind::Pawn, i) && (i % 8 + i / 8) % 2 == (sq % 8 + sq / 8) % 2;
    assert forall|i: int| 0 <= i < 64 implies #[trigger] bit(own & shade(dark), i) == f(i) by {
        lemma_set_is_mailbox(p, c, PieceKind::Pawn, i);
    }
    lemma_count(own & shade(dark), f);
}

/// The center counts by the pawns on its four squares and by the minor pieces on
/// and beside it.
pub proof fn law_center_control(p: Position, c: Color, params: EvalParams)
    requires
        p.consistent(),
        p.occupied().size() < 20,
    ensures
        side_center(p, c, params) == params.center_pawn_bonus * how_many(
            |i: int| stands(p, c, PieceKind::Pawn, i) && (i == 27 || i == 28 || i == 35 || i == 36),
            64,
        ) + params.center_knight_bonus * how_many(
            |i: int| stands(p, c, PieceKind::Knight, i) && near_center(i),
            64,
        ) + params.center_bishop_bonus * how_many(|i: int| stands(p, c, PieceKind::Bishop, i) && near_center(i), 64),
{
    broadcast use group_bits;
    lemma_word_of(|i: int| 3 <= i % 8 <= 4 && 3 <= i / 8 <= 4);
    lemma_word_of(
        |i: int| (3 <= i % 8 <= 4 && 3 <= i / 8 <= 4) || ((i % 8 == 2 || i % 8 == 5) && 2 <= i / 8 <= 5),
    );
    let f = |i: int| stands(p, c, PieceKind::Pawn, i) && (i == 27 || i == 28 || i == 35 || i == 36);
    let g = |i: int| stands(p, c, PieceKind::Knight, i) && near_center(i);
    let h = |i: int| stands(p, c, PieceKind::Bishop, i) && near_center(i);
    let x = p.set_of(c, PieceKind::Pawn).0 & center_word();
    let y = p.set_of(c, PieceKind::Knight).0 & wide_center_word();
    let z = p.set_of(c, PieceKind::Bishop).0 & wide_center_word();
    assert forall|i: int| 0 <= i < 64 implies #[trigger] bit(x, i) == f(i) by {
        lemma_set_is_mailbox(p, c, PieceKind::Pawn, i);
    }
    assert forall|i: int| 0 <= i < 64 implies #[trigger] bit(y, i) == g(i) by {
        lemma_set_is_mailbox(p, c, PieceKind::Knight, i);
    }
    assert forall|i: int| 0 <= i < 64 implies #[trigger] bit(z, i) == h(i) by {
        lemma_set_is_mailbox(p, c, PieceKind::Bishop, i);
    }
    lemma_count(x, f);
    lemma_count(y, g);
    lemma_count(z, h);
    lemma_swap(how_many(f, 64), params.center_pawn_bonus as int);
    lemma_swap(how_many(g, 64), params.center_knight_bonus as int);
    lemma_swap(how_many(h, 64), params.center_bishop_bonus as int);
}

proof fn lemma_swap(a: int, b: int)
    ensures
        a * b == b * a,
{
    assert(a * b == b * a) by (nonlinear_arith);
}

/// The four center squares, and the third to sixth ranks of the files beside.
pub open spec fn near_center(i: int) -> bool {
    i == 27 || i == 28 || i == 35 || i == 36 || (i % 8 == 2 || i % 8 == 5) && 2 <= i / 8 <= 5
}

/// Threats count for the side that makes them, where they are rewarded at all, and
/// there are none against a side without pieces.
pub proof fn law_threats_favour_the_attacker(p: Position, c: Color, params: EvalParams)
    requires
        params.threat_pawn_minor_mg >= 0,
        params.threat_pawn_rook_mg >= 0,
        params.threat_minor_rook_mg >= 0,
        params.threat_piece_queen_mg >= 0,
        params.threat_hanging_mg >= 0,
        params.threat_pawn_minor_eg >= 0,
        params.threat_pawn_rook_eg >= 0,
        params.threat_minor_rook_eg >= 0,
        params.threat_piece_queen_eg >= 0,
        params.threat_hanging_eg >= 0,
    ensures
        side_threats(p, c, params).0 >= 0,
        side_threats(p, c, params).1 >= 0,
        p.set_of(c.other(), PieceKind::Knight).0 == 0 && p.set_of(c.other(), PieceKind::Bishop).0 == 0 && p.set_of(
            c.other(),
            PieceKind::Rook,
        ).0 == 0 && p.set_of(c.other(), PieceKind::Queen).0 == 0 ==> side_threats(p, c, params) == (0int, 0int),
{
    broadcast use group_bits;
    let e = c.other();
    let scale = attack_scale(npm(p, c, params) - npm(p, e, params));
    assert(160 <= scale <= 300);
    assert forall|n: int, w: int| n >= 0 && w >= 0 implies #[trigger] threat(n, w, scale) >= 0 by {
        assert(n * w * scale >= 0) by (nonlinear_arith)
            requires
                n >= 0,
                w >= 0,
                scale >= 0,
        ;
    }
    assert forall|w: int| #[trigger] threat(0, w, scale) == 0 by {
        assert(0 * w * scale == 0) by (nonlinear_arith);
    }
    if p.set_of(e, PieceKind::Knight).0 == 0 && p.set_of(e, PieceKind::Bishop).0 == 0 && p.set_of(e, PieceKind::Rook).0
        == 0 && p.set_of(e, PieceKind::Queen).0 == 0 {
        assert forall|x: u64| #[trigger] popcount(x & minors_of(p, e)) == 0 by {
            assert forall|i: int| 0 <= i < 64 implies !bit(x & minors_of(p, e), i) by {}
            lemma_no_bits(x & minors_of(p, e));
            lemma_squares_zero();
        }
        assert forall|x: u64| #[trigger] popcount(x & 0u64) == 0 by {
            assert forall|i: int| 0 <= i < 64 implies !bit(x & 0u64, i) by {}
            lemma_no_bits(x & 0u64);
            lemma_squares_zero();
        }
        let all = minors_of(p, e) | p.set_of(e, PieceKind::Rook).0 | p.set_of(e, PieceKind::Queen).0;
        assert forall|x: u64| #[trigger] popcount(x & all) == 0 by {
            assert forall|i: int| 0 <= i < 64 implies !bit(x & all, i) by {}
            lemma_no_bits(x & all);
            lemma_squares_zero();
        }
    }
}

/// Pawn islands: one for each group of neighbouring files that hold pawns, so that
/// an unbroken chain is one and pawns on every other file are as many as there
/// are files.
pub proof fn law_pawn_islands(pawns: u64, n: int)
    requires
        0 <= n <= 8,
    ensures
        0 <= islands(pawns, n) <= n,
        (forall|f: int| 0 <= f < n ==> !#[trigger] file_held(pawns, f)) ==> islands(pawns, n) == 0,
        n > 0 && (forall|f: int| 0 <= f < n ==> #[trigger] file_held(pawns, f)) ==> islands(pawns, n) == 1,
        n > 0 && file_held(pawns, n - 1) && !file_held(pawns, n - 2) ==> islands(pawns, n) == islands(pawns, n - 1) + 1,
        n > 0 && (!file_held(pawns, n - 1) || file_held(pawns, n - 2)) ==> islands(pawns, n) == islands(pawns, n - 1),
    decreases n,
{
    if n > 0 {
        law_pawn_islands(pawns, n - 1);
        if forall|f: int| 0 <= f < n ==> #[trigger] file_held(pawns, f) {
            assert(file_held(pawns, n - 1));
            if n > 1 {
                assert(file_held(pawns, n - 2));
            }
        }
        if forall|f: int| 0 <= f < n ==> !#[trigger] file_held(pawns, f) {
            assert(!file_held(pawns, n - 1));
        }
    }
}

/// Imbalances count for the side that has the better of them: a second rook or
/// knight, the exchange, a queen against minor pieces.
pub proof fn law_imbalances(p: Position, c: Color, params: EvalParams)
    requires
        p.consistent(),
    ensures
        ({
            let e = c.other();
            let rooks = number_of(p, c, PieceKind::Rook);
            let knights = number_of(p, c, PieceKind::Knight);
            let minors = number_of(p, c, PieceKind::Knight) + number_of(p, c, PieceKind::Bishop);
            let other_minors = number_of(p, e, PieceKind::Knight) + number_of(p, e, PieceKind::Bishop);
            let queens = number_of(p, c, PieceKind::Queen) - number_of(p, e, PieceKind::Queen);
            let more = rooks - number_of(p, e, PieceKind::Rook);
            let v = side_imbalance(p, c, params);
            &&& rooks < 2 && knights < 2 && queens <= 0 && (more <= 0 || other_minors <= minors) ==> v == (0int, 0int)
            &&& rooks >= 2 && knights < 2 && queens <= 0 && more <= 0 ==> v == (
                params.imbalance_rook_pair_mg as int,
                params.imbalance_rook_pair_eg as int,
            )
            &&& rooks < 2 && knights >= 2 && queens <= 0 && more <= 0 ==> v == (0int, params.imbalance_knight_pair_eg as int)
            &&& rooks == 1 && knights < 2 && queens <= 0 && more == 1 && other_minors > minors ==> v == (
                params.imbalance_exchange_mg as int,
                params.imbalance_exchange_eg as int,
            )
            &&& rooks < 2 && knights < 2 && queens > 0 && more <= 0 && other_minors > minors + 1 ==> v == (
                params.imbalance_queen_vs_minors_mg as int,
                params.imbalance_queen_vs_minors_eg as int,
            )
        }),
{
    lemma_numbers(p, c);
    lemma_numbers(p, c.other());
    let one: int = 1;
    assert(one * params.imbalance_exchange_mg == params.imbalance_exchange_mg);
    assert(one * params.imbalance_exchange_eg == params.imbalance_exchange_eg);
    assert(0 * params.imbalance_exchange_mg == 0 && 0 * params.imbalance_exchange_eg == 0);
}

/// The default parameters point the right way: pieces are worth what their kind
/// is, weaknesses cost and strengths gain.
pub proof fn law_defaults_point_the_right_way(d: EvalParams)
    requires
        d.is_default(),
    ensures
        0 < d.material_mg@[0] < d.material_mg@[1] < d.material_mg@[2] < d.material_mg@[3] < d.material_mg@[4],
        0 < d.material_eg@[0] < d.material_eg@[1] < d.material_eg@[2] < d.material_eg@[3] < d.material_eg@[4],
        d.doubled_pawn_mg < 0 && d.doubled_pawn_eg < 0,
        d.isolated_pawn_mg < 0 && d.isolated_pawn_eg < 0,
        d.doubled_isolated_mg < 0 && d.doubled_isolated_eg < 0,
        d.backward_pawn_mg < 0 && d.backward_pawn_eg < 0,
        d.passed_pawn_base_mg > 0 && d.passed_pawn_base_eg > 0,
        d.passed_pawn_adv_mg > 0 && d.passed_pawn_adv_eg > 0,
        d.connected_passer_base_mg > 0 && d.connected_passer_base_eg > 0,
        d.rook_behind_passer_mg > 0 && d.rook_behind_passer_eg > 0,
        d.blocked_passer_mg < 0 && d.blocked_passer_eg < 0,
        d.king_passer_own_eg > 0 && d.king_passer_enemy_eg > 0,
        d.bishop_pair_base_mg > 0 && d.bishop_pair_base_eg > 0,
        d.rook_open_file_mg > d.rook_semi_open_mg > 0,
        d.rook_open_file_eg > d.rook_semi_open_eg > 0,
        d.rook_seventh_mg > 0 && d.rook_seventh_eg > 0,
        d.trapped_bishop_mg < 0 && d.trapped_bishop_eg < 0,
        d.ks_shield_1 > 0 && d.ks_shield_2 > 0,
        d.ks_open_file < 0 && d.ks_semi_open < 0 && d.ks_center_king < 0,
        d.ks_knight_weight > 0 && d.ks_bishop_weight > 0 && d.ks_rook_weight > 0 && d.ks_queen_weight > 0,
        d.mobility_knight_mg > 0 && d.mobility_bishop_mg > 0 && d.mobility_rook_mg > 0 && d.mobility_queen_mg > 0,
        d.mobility_knight_eg > 0 && d.mobility_bishop_eg > 0 && d.mobility_rook_eg > 0 && d.mobility_queen_eg > 0,
        d.center_pawn_bonus > 0 && d.center_knight_bonus > 0 && d.center_bishop_bonus > 0,
        d.pawn_protected_knight > 0 && d.knight_outpost > 0,
        d.threat_pawn_minor_mg > 0 && d.threat_pawn_rook_mg > 0 && d.threat_minor_rook_mg > 0,
        d.threat_piece_queen_mg > 0 && d.threat_hanging_mg > 0,
        d.tempo > 0,
        d.bad_bishop_mg < 0 && d.bad_bishop_eg < 0,
        d.knight_closed_bonus > 0 && d.bishop_open_bonus > 0,
        d.pawn_islands_mg < 0 && d.pawn_islands_eg < 0,
        20 <= d.ocb_scale_factor < 128,
        d.imbalance_exchange_mg > 0 && d.imbalance_exchange_eg > 0,
{
}

/// A knight on an outpost is one that an own pawn protects; it is worth more where
/// no enemy pawn can drive it away.
pub proof fn law_outposts(p: Position, c: Color, params: EvalParams, sq: int)
    requires
        p.consistent(),
        0 <= sq < 64,
    ensures
        ({
            let chased = exists|i: int|
                0 <= i < 64 && (i % 8 == sq % 8 - 1 || i % 8 == sq % 8 + 1) && ahead(c, sq, i) && #[trigger] stands(
                    p,
                    c.other(),
                    PieceKind::Pawn,
                    i,
                );
            &&& chased ==> outpost_fn(p, c, params)(sq) == params.pawn_protected_knight
            &&& !chased ==> outpost_fn(p, c, params)(sq) == params.pawn_protected_knight + params.knight_outpost
        }),
{
    broadcast use group_bits;
    lemma_words(sq % 8, 0, sq, c);
    let enemy = p.set_of(c.other(), PieceKind::Pawn).0;
    let x = enemy & beside_word(sq % 8) & front_word(sq, c);
    let f = |i: int|
        (i % 8 == sq % 8 - 1 || i % 8 == sq % 8 + 1) && ahead(c, sq, i) && stands(p, c.other(), PieceKind::Pawn, i);
    assert forall|i: int| 0 <= i < 64 implies #[trigger] bit(x, i) == f(i) by {
        lemma_set_is_mailbox(p, c.other(), PieceKind::Pawn, i);
    }
    lemma_empty_or_not(x, f);
    if x == 0 {
        assert forall|i: int|
            0 <= i < 64 && (i % 8 == sq % 8 - 1 || i % 8 == sq % 8 + 1) && ahead(c, sq, i) implies !#[trigger] stands(
            p,
            c.other(),
            PieceKind::Pawn,
            i,
        ) by {
            assert(!f(i));
        }
    } else {
        let i = choose|i: int| 0 <= i < 64 && #[trigger] f(i);
        assert(stands(p, c.other(), PieceKind::Pawn, i));
    }
}

/// A rook stands behind an own passed pawn on its file.
pub proof fn law_rooks_behind_passed_pawns(p: Position, c: Color, sq: int)
    requires
        p.consistent(),
        0 <= sq < 64,
    ensures
        rook_behind(p, c, sq) <==> exists|i: int|
            0 <= i < 64 && i % 8 == sq % 8 && i / 8 != sq / 8 && !ahead(c, sq, i) && #[trigger] stands(
                p,
                c,
                PieceKind::Rook,
                i,
            ),
{
    broadcast use group_bits;
    lemma_words(sq % 8, 0, sq, c.other());
    let rooks = p.set_of(c, PieceKind::Rook).0;
    let x = rooks & front_word(sq, c.other()) & file_word(sq % 8);
    let f = |i: int| i % 8 == sq % 8 && i / 8 != sq / 8 && !ahead(c, sq, i) && stands(p, c, PieceKind::Rook, i);
    assert forall|i: int| 0 <= i < 64 implies #[trigger] bit(x, i) == f(i) by {
        lemma_set_is_mailbox(p, c, PieceKind::Rook, i);
    }
    lemma_empty_or_not(x, f);
    if x == 0 {
        assert forall|i: int| 0 <= i < 64 && i % 8 == sq % 8 && i / 8 != sq / 8 && !ahead(c, sq, i) implies !#[trigger] stands(
            p,
            c,
            PieceKind::Rook,
            i,
        ) by {
            assert(!f(i));
        }
    } else {
        let i = choose|i: int| 0 <= i < 64 && #[trigger] f(i);
        assert(stands(p, c, PieceKind::Rook, i));
    }
}

/// The scale of an endgame: none is taken off while there are many pieces, and a
/// side that is ahead without pawns cannot win with a single minor piece; two
/// minor pieces keep a quarter.
pub proof fn law_endgame_scales(p: Position, params: EvalParams, eval: int, phase: int)
    requires
        !opposite_bishops(p),
        !queen_against_pawns(p, Color::White),
        !queen_against_pawns(p, Color::Black),
    ensures
        phase < 128 ==> endgame_scale(p, params, eval, phase) == 128,
        0 <= endgame_scale(p, params, eval, phase) <= 128,
        ({
            let c = if eval > 0 { Color::White } else { Color::Black };
            let pawns = p.set_of(c, PieceKind::Pawn).size();
            let minors = p.set_of(c, PieceKind::Knight).size() + p.set_of(c, PieceKind::Bishop).size();
            let majors = p.set_of(c, PieceKind::Rook).size() + p.set_of(c, PieceKind::Queen).size();
            &&& phase >= 128 && pawns == 0 && majors == 0 && minors <= 1 ==> endgame_scale(p, params, eval, phase) == 0
            &&& phase >= 128 && pawns == 0 && majors == 0 && minors == 2 ==> endgame_scale(p, params, eval, phase) == 32
        }),
{
}

/// King safety counts the less the further the game has gone, more while the enemy
/// has a queen, and never more than fully.
pub proof fn law_safety_weight(p: Position, c: Color, phase: int)
    requires
        0 <= phase <= 256,
    ensures
        0 <= safety_weight(p, c, phase) <= 256,
        p.set_of(c.other(), PieceKind::Queen).0 != 0 && 3 <= p.king_at(c) % 8 <= 5 ==> safety_weight(p, c, phase) >= 128,
        (p.king_at(c) % 8 <= 2 || p.king_at(c) % 8 >= 6) && (c == Color::White && p.king_at(c) / 8 <= 1 || c
            == Color::Black && p.king_at(c) / 8 >= 6) ==> safety_weight(p, c, phase) <= 64,
        forall|later: int| phase <= later <= 256 ==> #[trigger] safety_weight(p, c, later) <= safety_weight(p, c, phase),
{
}

/// An attack on a king never makes it safer, where attackers weigh something.
pub proof fn law_attacks_cost_safety(p: Position, c: Color, params: EvalParams)
    requires
        params.ks_knight_weight >= 0,
        params.ks_bishop_weight >= 0,
        params.ks_rook_weight >= 0,
        params.ks_queen_weight >= 0,
    ensures
        assault(p, c, params) >= 0,
{
    let e = c.other();
    let king = p.king_at(c);
    let n = bearing(p, PieceKind::Knight, e, king);
    let b = bearing(p, PieceKind::Bishop, e, king);
    let k = bearing(p, PieceKind::Rook, e, king);
    let q = bearing(p, PieceKind::Queen, e, king);
    lemma_bearing_nonnegative(p, PieceKind::Knight, e, king);
    lemma_bearing_nonnegative(p, PieceKind::Bishop, e, king);
    lemma_bearing_nonnegative(p, PieceKind::Rook, e, king);
    lemma_bearing_nonnegative(p, PieceKind::Queen, e, king);
    let (w1, w2, w3, w4) = (
        params.ks_knight_weight as int,
        params.ks_bishop_weight as int,
        params.ks_rook_weight as int,
        params.ks_queen_weight as int,
    );
    assert(n * w1 >= 0 && b * w2 >= 0 && k * w3 >= 0 && q * w4 >= 0) by (nonlinear_arith)
        requires
            n >= 0,
            b >= 0,
            k >= 0,
            q >= 0,
            w1 >= 0,
            w2 >= 0,
            w3 >= 0,
            w4 >= 0,
    ;
    let raw = n * w1 + b * w2 + k * w3 + q * w4;
    let scale = attack_scale(npm(p, e, params) - npm(p, c, params));
    assert(raw * scale >= 0) by (nonlinear_arith)
        requires
            raw >= 0,
            scale >= 0,
    ;
    let weight = quot(raw * scale, 256);
    let attackers = n + b + k + q;
    assert(weight * attackers >= 0) by (nonlinear_arith)
        requires
            weight >= 0,
            attackers >= 0,
    ;
}

proof fn lemma_bearing_nonnegative(p: Position, kind: PieceKind, c: Color, king: int)
    ensures
        bearing(p, kind, c, king) >= 0,
{
    lemma_sum_nonnegative(p.set_of(c, kind).members(), bears_fn(p, kind, c, king));
}

proof fn lemma_sum_nonnegative(s: Seq<int>, f: spec_fn(int) -> int)
    requires
        forall|i: int| #[trigger] f(i) >= 0,
    ensures
        sum_over(s, f) >= 0,
    decreases s.len(),
{
    if s.len() > 0 {
        lemma_sum_nonnegative(s.drop_first(), f);
    }
}

/// A square is hit by a side exactly if one of its pieces other than the king
/// attacks it.
pub proof fn law_hit_by_a_piece(p: Position, sq: int, c: Color)
    requires
        p.consistent(),
        0 <= sq < 64,
    ensures
        hit_by_piece(p, sq, c) <==> exists|i: int, k: PieceKind|
            0 <= i < 64 && k != PieceKind::King && #[trigger] stands(p, c, k, i) && piece_hits(
                k,
                c,
                p.occupied().0,
                i,
                sq,
            ),
{
    broadcast use group_bits;
    let pawns = p.set_of(c, PieceKind::Pawn).0;
    lemma_word_of(|t: int| exists|f: int| #[trigger] bit(pawns, f) && pawn_hits(c, f, t));
    if exists|i: int, k: PieceKind|
        0 <= i < 64 && k != PieceKind::King && #[trigger] stands(p, c, k, i) && piece_hits(k, c, p.occupied().0, i, sq) {
        let (i, k) = choose|i: int, k: PieceKind|
            0 <= i < 64 && k != PieceKind::King && #[trigger] stands(p, c, k, i) && piece_hits(
                k,
                c,
                p.occupied().0,
                i,
                sq,
            );
        lemma_set_is_mailbox(p, c, k, i);
        assert(p.set_of(c, k).has(i));
        if k == PieceKind::Pawn {
            assert(bit(pawns, i) && pawn_hits(c, i, sq));
        }
    }
    if hit_by_piece(p, sq, c) {
        if bit(pawn_span(pawns, c), sq) {
            let f = choose|f: int| #[trigger] bit(pawns, f) && pawn_hits(c, f, sq);
            lemma_set_is_mailbox(p, c, PieceKind::Pawn, f);
            assert(stands(p, c, PieceKind::Pawn, f));
        } else if exists|s: int| #[trigger] p.set_of(c, PieceKind::Knight).has(s) && knight_hits(s, sq) {
            let s = choose|s: int| #[trigger] p.set_of(c, PieceKind::Knight).has(s) && knight_hits(s, sq);
            lemma_set_is_mailbox(p, c, PieceKind::Knight, s);
            assert(stands(p, c, PieceKind::Knight, s));
        } else if exists|s: int| #[trigger] p.set_of(c, PieceKind::Bishop).has(s) && bishop_hits(p.occupied().0, s, sq) {
            let s = choose|s: int| #[trigger] p.set_of(c, PieceKind::Bishop).has(s) && bishop_hits(p.occupied().0, s, sq);
            lemma_set_is_mailbox(p, c, PieceKind::Bishop, s);
            assert(stands(p, c, PieceKind::Bishop, s));
        } else if exists|s: int| #[trigger] p.set_of(c, PieceKind::Rook).has(s) && rook_hits(p.occupied().0, s, sq) {
            let s = choose|s: int| #[trigger] p.set_of(c, PieceKind::Rook).has(s) && rook_hits(p.occupied().0, s, sq);
            lemma_set_is_mailbox(p, c, PieceKind::Rook, s);
            assert(stands(p, c, PieceKind::Rook, s));
        } else {
            let s = choose|s: int| #[trigger] p.set_of(c, PieceKind::Queen).has(s) && queen_hits(p.occupied().0, s, sq);
            lemma_set_is_mailbox(p, c, PieceKind::Queen, s);
            assert(stands(p, c, PieceKind::Queen, s));
        }
    }
}

/// The keys of a position's facets see only their own pieces: the pawns, the
/// pieces of one color without its pawns, or the minor or the major pieces with
/// the kings.
pub proof fn law_keys_see_their_own_pieces(p: Position, q: Position)
    ensures
        (forall|c: Color| #[trigger] p.set_of(c, PieceKind::Pawn) == q.set_of(c, PieceKind::Pawn)) ==> {
            &&& keys_of(p).pawn == keys_of(q).pawn
            &&& pawn_key(p) == pawn_key(q)
        },
        (forall|k: PieceKind|
            k != PieceKind::Pawn ==> #[trigger] p.set_of(Color::White, k) == q.set_of(Color::White, k)) ==> keys_of(p).white
            == keys_of(q).white,
        (forall|k: PieceKind|
            k != PieceKind::Pawn ==> #[trigger] p.set_of(Color::Black, k) == q.set_of(Color::Black, k)) ==> keys_of(p).black
            == keys_of(q).black,
        (forall|c: Color, k: PieceKind|
            (k == PieceKind::Knight || k == PieceKind::Bishop || k == PieceKind::King) ==> #[trigger] p.set_of(c, k)
                == q.set_of(c, k)) ==> keys_of(p).minor == keys_of(q).minor,
        (forall|c: Color, k: PieceKind|
            (k == PieceKind::Rook || k == PieceKind::Queen || k == PieceKind::King) ==> #[trigger] p.set_of(c, k)
                == q.set_of(c, k)) ==> keys_of(p).major == keys_of(q).major,
{
}

} // verus!
