//! Pawn structure terms of the evaluation.

use vstd::prelude::*;
use crate::arith::{div_i64, quot};
use crate::attacks::is_square;
use crate::bits::{bit, group_bits, lemma_squares_members, lemma_squares_zero, pairs_over, popcount};
use crate::board::{Board, Position};
use crate::eval_base::{adjacent_files, beside_word, chebyshev_distance, count, file_bitboard, file_word, front_span_mask, front_word, hit_by_piece, king_distance, pawn_attack_span, pawn_span, prod, quotient, rank_bitboard, rank_word, rel_rank, relative_rank, square_attacked_by};
use crate::eval_params::EvalParams;
use crate::movegen::forward;
use crate::types::{Color, PieceKind, Square};

verus! {

// Pawn structure.
/// The pawn's file is free of enemy pawns in front of it, and so are the files
/// beside it.
pub open spec fn is_passed(p: Position, color: Color, sq: int) -> bool {
    let enemy = p.set_of(color.other(), PieceKind::Pawn).0;
    enemy & (front_word(sq, color) & (file_word(sq % 8) | beside_word(sq % 8))) == 0
}

/// Ranks that a pawn has advanced.
pub open spec fn advancement(color: Color, sq: int) -> int {
    rel_rank(color, sq) - 1
}

/// Doubled, isolated and backward pawns.
pub open spec fn weak_pawn(p: Position, color: Color, params: EvalParams, sq: int) -> (int, int) {
    let own = p.set_of(color, PieceKind::Pawn).0;
    let enemy = p.set_of(color.other(), PieceKind::Pawn).0;
    let f = sq % 8;
    let doubled = popcount(own & file_word(f)) > 1;
    let isolated = own & beside_word(f) == 0;
    let unsupported = own & beside_word(f) & (front_word(sq, color.other()) | rank_word(sq / 8)) == 0;
    let stop = sq + forward(color);
    let backward = !isolated && unsupported && is_square(stop) && bit(pawn_span(enemy, color.other()), stop);
    let d = if doubled { (params.doubled_pawn_mg as int, params.doubled_pawn_eg as int) } else { (0, 0) };
    let i = if isolated { (params.isolated_pawn_mg as int, params.isolated_pawn_eg as int) } else { (0, 0) };
    let c = if doubled && isolated {
        (params.doubled_isolated_mg as int, params.doubled_isolated_eg as int)
    } else {
        (0, 0)
    };
    let b = if backward { (params.backward_pawn_mg as int, params.backward_pawn_eg as int) } else { (0, 0) };
    (d.0 + i.0 + c.0 + b.0, d.1 + i.1 + c.1 + b.1)
}

/// How much of a passed pawn's bonus is left against the enemy's pieces.
pub open spec fn passer_scale(p: Position, color: Color) -> int {
    let e = color.other();
    100 - (if p.set_of(e, PieceKind::Rook).0 != 0 { 12int } else { 0 }) - (if p.set_of(e, PieceKind::Bishop).size() >= 2 {
        8int
    } else {
        0
    }) - (if p.set_of(e, PieceKind::Queen).0 != 0 { 6int } else { 0 })
}

/// The bonus for a passed pawn, quadratic in its advancement.
pub open spec fn passer_base(p: Position, color: Color, params: EvalParams, a: int) -> (int, int) {
    let scale = passer_scale(p, color);
    let far = if a >= 4 { (a - 3) * (a - 3) * 20 } else { 0 };
    let near = if a >= 5 { (a - 4) * 60 } else { 0 };
    (
        quot((params.passed_pawn_base_mg + a * a * params.passed_pawn_adv_mg) * scale, 100) + far + near,
        quot((params.passed_pawn_base_eg + a * a * params.passed_pawn_adv_eg) * scale, 100) + far * 2 + near * 2,
    )
}

/// A passed pawn of the color stands on a file beside.
pub open spec fn has_passed_neighbour(p: Position, color: Color, sq: int) -> bool {
    exists|s: int| #[trigger] bit(p.set_of(color, PieceKind::Pawn).0 & beside_word(sq % 8), s) && is_passed(p, color, s)
}

pub open spec fn connected_bonus(p: Position, color: Color, params: EvalParams, sq: int, a: int) -> (int, int) {
    if has_passed_neighbour(p, color, sq) {
        (
            params.connected_passer_base_mg + a * params.connected_passer_adv_mg + a * a * params.connected_passer_sq_mg,
            params.connected_passer_base_eg + a * params.connected_passer_adv_eg + a * a * params.connected_passer_sq_eg,
        )
    } else {
        (0, 0)
    }
}

/// The square on which a pawn promotes.
pub open spec fn promotion_square(color: Color, sq: int) -> int {
    match color {
        Color::White => 56 + sq % 8,
        Color::Black => sq % 8,
    }
}

/// Bonus for kings: own near, enemy far from the promotion square.
pub open spec fn king_race(p: Position, color: Color, params: EvalParams, sq: int, a: int) -> int {
    let goal = promotion_square(color, sq);
    quot((7 - king_distance(p.king_at(color), goal)) * params.king_passer_own_eg * (1 + a), 4) + quot(
        king_distance(p.king_at(color.other()), goal) * params.king_passer_enemy_eg * (1 + a),
        4,
    )
}

/// A piece in front of the pawn, and enemy control of the squares ahead.
pub open spec fn blockade(p: Position, color: Color, params: EvalParams, sq: int, a: int) -> (int, int) {
    let stop = sq + forward(color);
    let e = color.other();
    let front = if !is_square(stop) {
        (0, 0)
    } else {
        let blocked = match p.mailbox[stop] {
            None => (0, 0),
            Some(piece) => if piece.color == e {
                let pen = if piece.kind == PieceKind::Rook { 25int } else { 15 };
                (params.blocked_passer_mg - (pen + a * 2), params.blocked_passer_eg - (pen * 2 + a * 6))
            } else {
                (params.blocked_passer_mg as int, params.blocked_passer_eg as int)
            },
        };
        if hit_by_piece(p, stop, e) {
            (blocked.0 - (10 + a * 4), blocked.1 - (10 + a * 4) * 2)
        } else {
            blocked
        }
    };
    if hit_by_piece(p, promotion_square(color, sq), e) {
        (front.0 - (15 + a * 6), front.1 - (15 + a * 6) * 2)
    } else {
        front
    }
}

/// An own rook stands behind the pawn on its file.
pub open spec fn rook_behind(p: Position, color: Color, sq: int) -> bool {
    p.set_of(color, PieceKind::Rook).0 & front_word(sq, color.other()) & file_word(sq % 8) != 0
}

/// Rooks behind and in front of the pawn, and the own queen.
pub open spec fn escorts(p: Position, color: Color, params: EvalParams, sq: int, a: int) -> (int, int) {
    let behind = if rook_behind(p, color, sq) {
        let synergy = if a >= 4 { (a - 3) * 25 } else { 0 };
        (params.rook_behind_passer_mg + synergy, params.rook_behind_passer_eg + synergy * 2)
    } else {
        (0, 0)
    };
    let frozen = if p.set_of(color.other(), PieceKind::Rook).0 & front_word(sq, color) & file_word(sq % 8) != 0 {
        (-(a * a * 2), -(10 + a * a * 6))
    } else {
        (0, 0)
    };
    let queen = if p.set_of(color, PieceKind::Queen).0 != 0 && a >= 3 {
        let s = (a - 2) * (a - 2) * 15;
        (s, s * 2 + if a >= 5 { 100int } else { 0 })
    } else {
        (0, 0)
    };
    (behind.0 + frozen.0 + queen.0, behind.1 + frozen.1 + queen.1)
}

/// Bonus for a pawn that the enemy king cannot catch.
pub open spec fn runaway(p: Position, color: Color, sq: int) -> int {
    let e = color.other();
    let steps = 7 - rel_rank(color, sq) + if p.side == color { 0int } else { 1 };
    if king_distance(p.king_at(e), promotion_square(color, sq)) > steps {
        let minors = p.set_of(e, PieceKind::Knight).0 != 0 || p.set_of(e, PieceKind::Bishop).0 != 0;
        let rooks = p.set_of(e, PieceKind::Rook).0 != 0;
        let queens = p.set_of(e, PieceKind::Queen).0 != 0;
        if !minors && !rooks && !queens {
            350
        } else if rooks && !minors && !queens && rook_behind(p, color, sq) {
            250
        } else if p.set_of(color, PieceKind::Queen).0 != 0 {
            200
        } else {
            0
        }
    } else {
        0
    }
}

/// Everything that counts for a passed pawn.
pub open spec fn passed_pawn(p: Position, color: Color, params: EvalParams, sq: int) -> (int, int) {
    let a = advancement(color, sq);
    let base = passer_base(p, color, params, a);
    let conn = connected_bonus(p, color, params, sq, a);
    let block = blockade(p, color, params, sq, a);
    let esc = escorts(p, color, params, sq, a);
    (
        base.0 + conn.0 + block.0 + esc.0,
        base.1 + conn.1 + king_race(p, color, params, sq, a) + block.1 + esc.1 + runaway(p, color, sq),
    )
}

/// The value of one pawn in the pawn structure.
pub open spec fn pawn_fn(p: Position, color: Color, params: EvalParams) -> spec_fn(int) -> (int, int) {
    |sq: int|
        {
            let weak = weak_pawn(p, color, params, sq);
            if is_passed(p, color, sq) {
                let pass = passed_pawn(p, color, params, sq);
                (weak.0 + pass.0, weak.1 + pass.1)
            } else {
                weak
            }
        }
}

/// The pawn structure of one side.
pub open spec fn side_pawns(p: Position, color: Color, params: EvalParams) -> (int, int) {
    pairs_over(p.set_of(color, PieceKind::Pawn).members(), pawn_fn(p, color, params))
}

/// The pawn structure, White's less Black's.
pub open spec fn pawn_term(p: Position, params: EvalParams) -> (int, int) {
    let w = side_pawns(p, Color::White, params);
    let b = side_pawns(p, Color::Black, params);
    (w.0 - b.0, w.1 - b.1)
}

pub(crate) fn weak_pawn_value(board: &Board, color: Color, params: &EvalParams, sq: Square) -> (r: (i64, i64))
    requires
        sq.ok(),
        params.tame(),
    ensures
        r.0 == weak_pawn(board@, color, *params, sq.0 as int).0,
        r.1 == weak_pawn(board@, color, *params, sq.0 as int).1,
        -4000 <= r.0 <= 4000,
        -4000 <= r.1 <= 4000,
{
    let own = board.set_of(color, PieceKind::Pawn);
    let enemy = board.set_of(color.opposite(), PieceKind::Pawn);
    let file: u8 = sq.file();
    let adj = adjacent_files(file);
    let doubled = (own & file_bitboard(file)).count() > 1;
    let isolated = (own & adj).0 == 0;
    let mut mg: i64 = 0;
    let mut eg: i64 = 0;
    if doubled {
        mg = mg + params.doubled_pawn_mg as i64;
        eg = eg + params.doubled_pawn_eg as i64;
    }
    if isolated {
        mg = mg + params.isolated_pawn_mg as i64;
        eg = eg + params.isolated_pawn_eg as i64;
    }
    if doubled && isolated {
        mg = mg + params.doubled_isolated_mg as i64;
        eg = eg + params.doubled_isolated_eg as i64;
    }
    if !isolated {
        // No own pawn beside or behind on the next files can support it, and
        // the square in front is attacked by enemy pawns.
        let behind_and_level = front_span_mask(sq, color.opposite()) | rank_bitboard(sq.rank());
        if (own & adj & behind_and_level).0 == 0 {
            let span = pawn_attack_span(enemy, color.opposite());
            let stop = step_ahead(color, sq);
            if let Some(s) = stop {
                if span.is_set(s) {
                    mg = mg + params.backward_pawn_mg as i64;
                    eg = eg + params.backward_pawn_eg as i64;
                }
            }
        }
    }
    (mg, eg)
}

pub(crate) fn step_ahead(color: Color, sq: Square) -> (r: Option<Square>)
    requires
        sq.ok(),
    ensures
        r is Some <==> is_square(sq.0 + forward(color)),
        r is Some ==> r->Some_0.ok() && r->Some_0.0 == sq.0 + forward(color),
{
    match color {
        Color::White => if sq.0 < 56 {
            Some(Square(sq.0 + 8))
        } else {
            None
        },
        Color::Black => if sq.0 >= 8 {
            Some(Square(sq.0 - 8))
        } else {
            None
        },
    }
}

pub(crate) fn is_passed_pawn(board: &Board, color: Color, sq: Square) -> (r: bool)
    requires
        sq.ok(),
    ensures
        r == is_passed(board@, color, sq.0 as int),
{
    let enemy = board.set_of(color.opposite(), PieceKind::Pawn);
    let block = front_span_mask(sq, color) & (file_bitboard(sq.file()) | adjacent_files(sq.file()));
    (enemy & block).0 == 0
}

#[verifier::rlimit(60)]
pub(crate) fn passer_base_value(board: &Board, color: Color, params: &EvalParams, a: i64) -> (r: (i64, i64))
    requires
        -1 <= a <= 6,
        params.tame(),
    ensures
        r.0 == passer_base(board@, color, *params, a as int).0,
        r.1 == passer_base(board@, color, *params, a as int).1,
        -38_000 <= r.0 <= 38_000,
        -38_000 <= r.1 <= 38_000,
{
    let e = color.opposite();
    let mut scale: i64 = 100;
    if board.set_of(e, PieceKind::Rook).0 != 0 {
        scale = scale - 12;
    }
    if board.set_of(e, PieceKind::Bishop).count() >= 2 {
        scale = scale - 8;
    }
    if board.set_of(e, PieceKind::Queen).0 != 0 {
        scale = scale - 6;
    }
    let aa: i64 = prod(a, a, Ghost(6), Ghost(6));
    let raw_mg: i64 = params.passed_pawn_base_mg as i64 + prod(
        aa,
        params.passed_pawn_adv_mg as i64,
        Ghost(36),
        Ghost(1000),
    );
    let raw_eg: i64 = params.passed_pawn_base_eg as i64 + prod(
        aa,
        params.passed_pawn_adv_eg as i64,
        Ghost(36),
        Ghost(1000),
    );
    let far: i64 = if a >= 4 { prod(a - 3, a - 3, Ghost(3), Ghost(3)) * 20 } else { 0 };
    let near: i64 = if a >= 5 { (a - 4) * 60 } else { 0 };
    let sm: i64 = prod(raw_mg, scale, Ghost(37_000), Ghost(100));
    let se: i64 = prod(raw_eg, scale, Ghost(37_000), Ghost(100));
    let mg: i64 = div_i64(sm, 100);
    let eg: i64 = div_i64(se, 100);
    (mg + far + near, eg + far * 2 + near * 2)
}

pub(crate) fn connected_value(board: &Board, color: Color, params: &EvalParams, sq: Square, a: i64) -> (r: (i64, i64))
    requires
        sq.ok(),
        -1 <= a <= 6,
        params.tame(),
    ensures
        r.0 == connected_bonus(board@, color, *params, sq.0 as int, a as int).0,
        r.1 == connected_bonus(board@, color, *params, sq.0 as int, a as int).1,
        -43_000 <= r.0 <= 43_000,
        -43_000 <= r.1 <= 43_000,
{
    let beside = board.set_of(color, PieceKind::Pawn) & adjacent_files(sq.file());
    let mut rem = beside;
    let mut found = false;
    while rem.0 != 0 && !found
        invariant
            forall|s: int| #[trigger] rem.has(s) ==> beside.has(s),
            found ==> exists|s: int| #[trigger] beside.has(s) && is_passed(board@, color, s),
            !found ==> forall|s: int| #[trigger] beside.has(s) && !rem.has(s) ==> !is_passed(board@, color, s),
        decreases rem.0,
    {
        let s = rem.lowest();
        let rest = rem.without_lowest();
        if is_passed_pawn(board, color, s) {
            found = true;
            proof {
                assert(beside.has(s.0 as int));
            }
        }
        proof {
            assert forall|i: int| #[trigger] rest.has(i) implies beside.has(i) by {
                assert(rem.has(i));
            }
            assert forall|i: int| !found && #[trigger] beside.has(i) && !rest.has(i) implies !is_passed(
                board@,
                color,
                i,
            ) by {
                if rem.has(i) {
                    assert(i == s.0);
                }
            }
        }
        rem = rest;
    }
    proof {
        broadcast use group_bits;
        assert(beside.0 == board@.set_of(color, PieceKind::Pawn).0 & beside_word(sq.0 as int % 8));
        if !found {
            assert(forall|s: int| !#[trigger] rem.has(s));
        }
    }
    if found {
        let aa: i64 = prod(a, a, Ghost(6), Ghost(6));
        (
            params.connected_passer_base_mg as i64 + prod(
                a,
                params.connected_passer_adv_mg as i64,
                Ghost(6),
                Ghost(1000),
            ) + prod(aa, params.connected_passer_sq_mg as i64, Ghost(36), Ghost(1000)),
            params.connected_passer_base_eg as i64 + prod(
                a,
                params.connected_passer_adv_eg as i64,
                Ghost(6),
                Ghost(1000),
            ) + prod(aa, params.connected_passer_sq_eg as i64, Ghost(36), Ghost(1000)),
        )
    } else {
        (0, 0)
    }
}

pub(crate) fn promotion_square_of(color: Color, sq: Square) -> (r: Square)
    requires
        sq.ok(),
    ensures
        r.ok(),
        r.0 == promotion_square(color, sq.0 as int),
{
    match color {
        Color::White => Square::new(sq.file(), 7),
        Color::Black => Square::new(sq.file(), 0),
    }
}

pub(crate) fn king_race_value(board: &Board, color: Color, params: &EvalParams, sq: Square, a: i64) -> (r: i64)
    requires
        sq.ok(),
        -1 <= a <= 6,
        params.tame(),
    ensures
        r == king_race(board@, color, *params, sq.0 as int, a as int),
        -98_000 <= r <= 98_000,
{
    let goal = promotion_square_of(color, sq);
    let own: i64 = 7 - chebyshev_distance(board.king_square(color), goal);
    let other: i64 = chebyshev_distance(board.king_square(color.opposite()), goal);
    let x: i64 = prod(
        prod(own, params.king_passer_own_eg as i64, Ghost(7), Ghost(1000)),
        1 + a,
        Ghost(7000),
        Ghost(7),
    );
    let y: i64 = prod(
        prod(other, params.king_passer_enemy_eg as i64, Ghost(7), Ghost(1000)),
        1 + a,
        Ghost(7000),
        Ghost(7),
    );
    quotient(x, 4) + quotient(y, 4)
}

pub(crate) fn blockade_value(board: &Board, color: Color, params: &EvalParams, sq: Square, a: i64) -> (r: (i64, i64))
    requires
        sq.ok(),
        -1 <= a <= 6,
        params.tame(),
    ensures
        r.0 == blockade(board@, color, *params, sq.0 as int, a as int).0,
        r.1 == blockade(board@, color, *params, sq.0 as int, a as int).1,
        -2000 <= r.0 <= 2000,
        -2000 <= r.1 <= 2000,
{
    let e = color.opposite();
    let mut mg: i64 = 0;
    let mut eg: i64 = 0;
    if let Some(stop) = step_ahead(color, sq) {
        if let Some(piece) = board.piece_at(stop) {
            mg = mg + params.blocked_passer_mg as i64;
            eg = eg + params.blocked_passer_eg as i64;
            if piece.color == e {
                let pen: i64 = if piece.kind == PieceKind::Rook { 25 } else { 15 };
                mg = mg - (pen + a * 2);
                eg = eg - (pen * 2 + a * 6);
            }
        }
        if square_attacked_by(board, stop, e) {
            let contain: i64 = 10 + a * 4;
            mg = mg - contain;
            eg = eg - contain * 2;
        }
    }
    if square_attacked_by(board, promotion_square_of(color, sq), e) {
        let contain: i64 = 15 + a * 6;
        mg = mg - contain;
        eg = eg - contain * 2;
    }
    (mg, eg)
}

pub(crate) fn has_rook_behind(board: &Board, color: Color, sq: Square) -> (r: bool)
    requires
        sq.ok(),
    ensures
        r == rook_behind(board@, color, sq.0 as int),
{
    let behind = front_span_mask(sq, color.opposite());
    (board.set_of(color, PieceKind::Rook) & behind & file_bitboard(sq.file())).0 != 0
}

pub(crate) fn escorts_value(board: &Board, color: Color, params: &EvalParams, sq: Square, a: i64) -> (r: (i64, i64))
    requires
        sq.ok(),
        -1 <= a <= 6,
        params.tame(),
    ensures
        r.0 == escorts(board@, color, *params, sq.0 as int, a as int).0,
        r.1 == escorts(board@, color, *params, sq.0 as int, a as int).1,
        -3000 <= r.0 <= 3000,
        -3000 <= r.1 <= 3000,
{
    let mut mg: i64 = 0;
    let mut eg: i64 = 0;
    if has_rook_behind(board, color, sq) {
        let synergy: i64 = if a >= 4 { (a - 3) * 25 } else { 0 };
        mg = mg + params.rook_behind_passer_mg as i64 + synergy;
        eg = eg + params.rook_behind_passer_eg as i64 + synergy * 2;
    }
    let ahead = front_span_mask(sq, color);
    let aa: i64 = prod(a, a, Ghost(6), Ghost(6));
    if (board.set_of(color.opposite(), PieceKind::Rook) & ahead & file_bitboard(sq.file())).0 != 0 {
        mg = mg - aa * 2;
        eg = eg - (10 + aa * 6);
    }
    if board.set_of(color, PieceKind::Queen).0 != 0 && a >= 3 {
        let bb: i64 = prod(a - 2, a - 2, Ghost(4), Ghost(4));
        let s: i64 = bb * 15;
        mg = mg + s;
        eg = eg + s * 2;
        if a >= 5 {
            eg = eg + 100;
        }
    }
    (mg, eg)
}

pub(crate) fn runaway_value(board: &Board, color: Color, sq: Square) -> (r: i64)
    requires
        sq.ok(),
    ensures
        r == runaway(board@, color, sq.0 as int),
        0 <= r <= 350,
{
    let e = color.opposite();
    let mut steps: i64 = 7 - relative_rank(color, sq);
    // The enemy to move gains a step.
    if board.side_to_move != color {
        steps = steps + 1;
    }
    if chebyshev_distance(board.king_square(e), promotion_square_of(color, sq)) > steps {
        let minors = board.set_of(e, PieceKind::Knight).0 != 0 || board.set_of(e, PieceKind::Bishop).0 != 0;
        let rooks = board.set_of(e, PieceKind::Rook).0 != 0;
        let queens = board.set_of(e, PieceKind::Queen).0 != 0;
        if !minors && !rooks && !queens {
            return 350;
        }
        if rooks && !minors && !queens && has_rook_behind(board, color, sq) {
            return 250;
        }
        if board.set_of(color, PieceKind::Queen).0 != 0 {
            return 200;
        }
    }
    0
}

pub(crate) fn passed_pawn_value(board: &Board, color: Color, params: &EvalParams, sq: Square) -> (r: (i64, i64))
    requires
        sq.ok(),
        params.tame(),
    ensures
        r.0 == passed_pawn(board@, color, *params, sq.0 as int).0,
        r.1 == passed_pawn(board@, color, *params, sq.0 as int).1,
        -190_000 <= r.0 <= 190_000,
        -190_000 <= r.1 <= 190_000,
{
    let a: i64 = relative_rank(color, sq) - 1;
    let base = passer_base_value(board, color, params, a);
    let conn = connected_value(board, color, params, sq, a);
    let race: i64 = king_race_value(board, color, params, sq, a);
    let block = blockade_value(board, color, params, sq, a);
    let esc = escorts_value(board, color, params, sq, a);
    let run: i64 = runaway_value(board, color, sq);
    (base.0 + conn.0 + block.0 + esc.0, base.1 + conn.1 + race + block.1 + esc.1 + run)
}

pub(crate) fn pawn_structure_for_color(board: &Board, color: Color, params: &EvalParams) -> (r: (i64, i64))
    requires
        params.tame(),
    ensures
        r.0 == side_pawns(board@, color, *params).0,
        r.1 == side_pawns(board@, color, *params).1,
        -12_800_000 <= r.0 <= 12_800_000,
        -12_800_000 <= r.1 <= 12_800_000,
{
    let set = board.set_of(color, PieceKind::Pawn);
    let ghost f = pawn_fn(board@, color, *params);
    let mut mg: i64 = 0;
    let mut eg: i64 = 0;
    let mut rem = set;
    proof {
        lemma_squares_members(set.0);
    }
    while rem.0 != 0
        invariant
            params.tame(),
            f == pawn_fn(board@, color, *params),
            rem.members().len() <= 64,
            mg + pairs_over(rem.members(), f).0 == pairs_over(set.members(), f).0,
            eg + pairs_over(rem.members(), f).1 == pairs_over(set.members(), f).1,
            -200_000 * (64 - rem.members().len()) <= mg <= 200_000 * (64 - rem.members().len()),
            -200_000 * (64 - rem.members().len()) <= eg <= 200_000 * (64 - rem.members().len()),
        decreases rem.0,
    {
        let sq = rem.lowest();
        let weak = weak_pawn_value(board, color, params, sq);
        mg = mg + weak.0;
        eg = eg + weak.1;
        if is_passed_pawn(board, color, sq) {
            let pass = passed_pawn_value(board, color, params, sq);
            mg = mg + pass.0;
            eg = eg + pass.1;
        }
        rem = rem.without_lowest();
    }
    proof {
        lemma_squares_zero();
    }
    (mg, eg)
}

/// Pawn structure of both sides, White's less Black's.
pub fn pawn_structure(board: &Board, params: &EvalParams) -> (r: (i32, i32))
    requires
        params.tame(),
    ensures
        r.0 == pawn_term(board@, *params).0,
        r.1 == pawn_term(board@, *params).1,
{
    let w = pawn_structure_for_color(board, Color::White, params);
    let b = pawn_structure_for_color(board, Color::Black, params);
    ((w.0 - b.0) as i32, (w.1 - b.1) as i32)
}

} // verus!
