//! Piece and king terms of the evaluation.

use vstd::prelude::*;
use crate::arith::{div_i64, max_of, min_of, quot};
use crate::attacks::{bishop_attacks, is_square, king_attacks, king_hits, knight_attacks, piece_hits, queen_attacks, rook_attacks};
use crate::bits::{group_bits, lemma_is_word, lemma_squares_members, lemma_squares_zero, pairs_over, popcount, sum_over, word_of};
use crate::board::{Board, Position};
use crate::eval_base::{adjacent_files, attack_scale, attack_scale_from_material_delta, count, file_bitboard, file_word, meets, non_pawn_material_mg, npm, prod, quotient, rank_bitboard, rank_word, rel_rank, relative_rank, upper_half, upper_word};
use crate::eval_params::EvalParams;
use crate::types::{Bitboard, Color, PieceKind, Square};

verus! {

// Bishop pair.
/// Bonus of a side with two bishops; larger with fewer pawns.
pub open spec fn pair_bonus(p: Position, color: Color, params: EvalParams) -> (int, int) {
    let pawns = popcount(p.set_of(Color::White, PieceKind::Pawn).0 | p.set_of(Color::Black, PieceKind::Pawn).0) as int;
    if p.set_of(color, PieceKind::Bishop).size() >= 2 {
        (params.bishop_pair_base_mg + (16 - pawns), params.bishop_pair_base_eg + (16 - pawns) * 2)
    } else {
        (0, 0)
    }
}

pub(crate) fn pair_bonus_value(board: &Board, color: Color, params: &EvalParams) -> (r: (i64, i64))
    requires
        params.tame(),
    ensures
        r.0 == pair_bonus(board@, color, *params).0,
        r.1 == pair_bonus(board@, color, *params).1,
        -1100 <= r.0 <= 1100,
        -1100 <= r.1 <= 1100,
{
    let pawns: i64 = count(board.set_of(Color::White, PieceKind::Pawn) | board.set_of(Color::Black, PieceKind::Pawn));
    if board.set_of(color, PieceKind::Bishop).count() >= 2 {
        (params.bishop_pair_base_mg as i64 + (16 - pawns), params.bishop_pair_base_eg as i64 + (16 - pawns) * 2)
    } else {
        (0, 0)
    }
}

// Rooks.
/// A rook on an open or half-open file, or behind an advanced own pawn.
pub open spec fn rook_on_file(p: Position, color: Color, params: EvalParams, sq: int) -> (int, int) {
    let own = p.set_of(color, PieceKind::Pawn).0;
    let enemy = p.set_of(color.other(), PieceKind::Pawn).0;
    let file = file_word(sq % 8);
    let open = if own & file == 0 {
        if enemy & file == 0 {
            (params.rook_open_file_mg as int, params.rook_open_file_eg as int)
        } else {
            (params.rook_semi_open_mg as int, params.rook_semi_open_eg as int)
        }
    } else {
        (0, 0)
    };
    let backing = if own & file & upper_word(color, 4) != 0 { (6, 8) } else { (0int, 0int) };
    (open.0 + backing.0, open.1 + backing.1)
}

/// A rook on an advanced rank. On the seventh, it may hold the enemy king on
/// the eighth.
pub open spec fn rook_on_rank(p: Position, color: Color, params: EvalParams, sq: int) -> (int, int) {
    let rank = rel_rank(color, sq);
    if rank == 3 {
        (8, 6)
    } else if rank == 4 {
        (12, 20)
    } else if rank == 5 {
        (0, 10)
    } else if rank == 6 {
        if rel_rank(color, p.king_at(color.other())) == 7 {
            (params.rook_seventh_mg + 15, params.rook_seventh_eg + 40)
        } else {
            (params.rook_seventh_mg as int, params.rook_seventh_eg + 10)
        }
    } else if rank == 7 {
        (15, 45)
    } else {
        (0, 0)
    }
}

/// The value of one rook's activity.
pub open spec fn rook_fn(p: Position, color: Color, params: EvalParams) -> spec_fn(int) -> (int, int) {
    |sq: int|
        (
            rook_on_file(p, color, params, sq).0 + rook_on_rank(p, color, params, sq).0,
            rook_on_file(p, color, params, sq).1 + rook_on_rank(p, color, params, sq).1,
        )
}

/// How many squares of a list lie on a file.
pub open spec fn on_file_fn(file: int) -> spec_fn(int) -> int {
    |sq: int| if sq % 8 == file { 1int } else { 0 }
}

/// Bonus for two or more rooks: those on the file of the first one, and two on
/// the seventh rank.
pub open spec fn doubled_rooks(p: Position, color: Color, params: EvalParams) -> (int, int) {
    let rooks = p.set_of(color, PieceKind::Rook);
    if rooks.size() >= 2 {
        let s = rooks.members();
        let n = sum_over(s.drop_first(), on_file_fn(s[0] % 8));
        let seventh = match color {
            Color::White => rank_word(6),
            Color::Black => rank_word(1),
        };
        let pair = if popcount(rooks.0 & seventh) >= 2 {
            (params.doubled_rook_7th_mg as int, params.doubled_rook_7th_eg as int)
        } else {
            (0, 0)
        };
        (n * params.doubled_rook_file_mg + pair.0, n * params.doubled_rook_file_eg + pair.1)
    } else {
        (0, 0)
    }
}

/// Rook activity of one side.
pub open spec fn side_rooks(p: Position, color: Color, params: EvalParams) -> (int, int) {
    let a = pairs_over(p.set_of(color, PieceKind::Rook).members(), rook_fn(p, color, params));
    let b = doubled_rooks(p, color, params);
    (a.0 + b.0, a.1 + b.1)
}

fn rook_file_value(board: &Board, color: Color, params: &EvalParams, sq: Square) -> (r: (i64, i64))
    requires
        sq.ok(),
        params.tame(),
    ensures
        r.0 == rook_on_file(board@, color, *params, sq.0 as int).0,
        r.1 == rook_on_file(board@, color, *params, sq.0 as int).1,
        -1010 <= r.0 <= 1010,
        -1010 <= r.1 <= 1010,
{
    let own = board.set_of(color, PieceKind::Pawn);
    let enemy = board.set_of(color.opposite(), PieceKind::Pawn);
    let file = file_bitboard(sq.file());
    let mut mg: i64 = 0;
    let mut eg: i64 = 0;
    if (own & file).0 == 0 {
        if (enemy & file).0 == 0 {
            mg = params.rook_open_file_mg as i64;
            eg = params.rook_open_file_eg as i64;
        } else {
            mg = params.rook_semi_open_mg as i64;
            eg = params.rook_semi_open_eg as i64;
        }
    }
    if (own & file & upper_half(color, 4)).0 != 0 {
        mg = mg + 6;
        eg = eg + 8;
    }
    (mg, eg)
}

fn rook_rank_value(board: &Board, color: Color, params: &EvalParams, sq: Square) -> (r: (i64, i64))
    requires
        sq.ok(),
        params.tame(),
    ensures
        r.0 == rook_on_rank(board@, color, *params, sq.0 as int).0,
        r.1 == rook_on_rank(board@, color, *params, sq.0 as int).1,
        -1050 <= r.0 <= 1050,
        -1050 <= r.1 <= 1050,
{
    let rank: i64 = relative_rank(color, sq);
    if rank == 3 {
        (8, 6)
    } else if rank == 4 {
        (12, 20)
    } else if rank == 5 {
        (0, 10)
    } else if rank == 6 {
        if relative_rank(color, board.king_square(color.opposite())) == 7 {
            (params.rook_seventh_mg as i64 + 15, params.rook_seventh_eg as i64 + 40)
        } else {
            (params.rook_seventh_mg as i64, params.rook_seventh_eg as i64 + 10)
        }
    } else if rank == 7 {
        (15, 45)
    } else {
        (0, 0)
    }
}

fn rook_value(board: &Board, color: Color, params: &EvalParams, sq: Square) -> (r: (i64, i64))
    requires
        sq.ok(),
        params.tame(),
    ensures
        r.0 == rook_fn(board@, color, *params)(sq.0 as int).0,
        r.1 == rook_fn(board@, color, *params)(sq.0 as int).1,
        -2100 <= r.0 <= 2100,
        -2100 <= r.1 <= 2100,
{
    let a = rook_file_value(board, color, params, sq);
    let b = rook_rank_value(board, color, params, sq);
    (a.0 + b.0, a.1 + b.1)
}

pub(crate) fn doubled_rooks_value(board: &Board, color: Color, params: &EvalParams) -> (r: (i64, i64))
    requires
        params.tame(),
    ensures
        r.0 == doubled_rooks(board@, color, *params).0,
        r.1 == doubled_rooks(board@, color, *params).1,
        -65_000 <= r.0 <= 65_000,
        -65_000 <= r.1 <= 65_000,
{
    let rooks = board.set_of(color, PieceKind::Rook);
    if rooks.count() < 2 {
        return (0, 0);
    }
    proof {
        lemma_squares_members(rooks.0);
        if rooks.0 == 0 {
            lemma_squares_zero();
        }
    }
    let first = rooks.lowest();
    let others = rooks.without_lowest();
    let ghost f = on_file_fn(first.0 as int % 8);
    let mut n: i64 = 0;
    let mut rem = others;
    while rem.0 != 0
        invariant
            f == on_file_fn(first.0 as int % 8),
            rem.members().len() <= 63,
            n + sum_over(rem.members(), f) == sum_over(others.members(), f),
            0 <= n <= 63 - rem.members().len(),
        decreases rem.0,
    {
        let sq = rem.lowest();
        if sq.file() == first.file() {
            n = n + 1;
        }
        rem = rem.without_lowest();
    }
    proof {
        lemma_squares_zero();
    }
    let mut mg: i64 = prod(n, params.doubled_rook_file_mg as i64, Ghost(63), Ghost(1000));
    let mut eg: i64 = prod(n, params.doubled_rook_file_eg as i64, Ghost(63), Ghost(1000));
    let seventh = match color {
        Color::White => rank_bitboard(6),
        Color::Black => rank_bitboard(1),
    };
    if (rooks & seventh).count() >= 2 {
        mg = mg + params.doubled_rook_7th_mg as i64;
        eg = eg + params.doubled_rook_7th_eg as i64;
    }
    (mg, eg)
}

pub(crate) fn side_rooks_value(board: &Board, color: Color, params: &EvalParams) -> (r: (i64, i64))
    requires
        params.tame(),
    ensures
        r.0 == side_rooks(board@, color, *params).0,
        r.1 == side_rooks(board@, color, *params).1,
        -200_000 <= r.0 <= 200_000,
        -200_000 <= r.1 <= 200_000,
{
    let set = board.set_of(color, PieceKind::Rook);
    let ghost f = rook_fn(board@, color, *params);
    let mut mg: i64 = 0;
    let mut eg: i64 = 0;
    let mut rem = set;
    proof {
        lemma_squares_members(set.0);
    }
    while rem.0 != 0
        invariant
            params.tame(),
            f == rook_fn(board@, color, *params),
            rem.members().len() <= 64,
            mg + pairs_over(rem.members(), f).0 == pairs_over(set.members(), f).0,
            eg + pairs_over(rem.members(), f).1 == pairs_over(set.members(), f).1,
            -2100 * (64 - rem.members().len()) <= mg <= 2100 * (64 - rem.members().len()),
            -2100 * (64 - rem.members().len()) <= eg <= 2100 * (64 - rem.members().len()),
        decreases rem.0,
    {
        let sq = rem.lowest();
        let v = rook_value(board, color, params, sq);
        mg = mg + v.0;
        eg = eg + v.1;
        rem = rem.without_lowest();
    }
    proof {
        lemma_squares_zero();
    }
    let d = doubled_rooks_value(board, color, params);
    (mg + d.0, eg + d.1)
}

// Trapped bishops.
/// Bishops that have gone to a7 or h7 and are shut in by a pawn on b6 or g6,
/// counted from their own side.
pub open spec fn shut_in(p: Position, color: Color) -> int {
    let bishops = p.set_of(color, PieceKind::Bishop);
    let pawns = p.set_of(color.other(), PieceKind::Pawn);
    let (a7, b6, h7, g6) = match color {
        Color::White => (48int, 41int, 55int, 46int),
        Color::Black => (8int, 17int, 15int, 22int),
    };
    (if bishops.has(a7) && pawns.has(b6) { 1int } else { 0 }) + (if bishops.has(h7) && pawns.has(g6) {
        1int
    } else {
        0
    })
}

pub(crate) fn trapped_bishops(board: &Board, color: Color) -> (r: i64)
    ensures
        r == shut_in(board@, color),
        0 <= r <= 2,
{
    let bishops = board.set_of(color, PieceKind::Bishop);
    let pawns = board.set_of(color.opposite(), PieceKind::Pawn);
    let (a7, b6, h7, g6) = match color {
        Color::White => (Square(48), Square(41), Square(55), Square(46)),
        Color::Black => (Square(8), Square(17), Square(15), Square(22)),
    };
    let mut n: i64 = 0;
    if bishops.is_set(a7) && pawns.is_set(b6) {
        n = n + 1;
    }
    if bishops.is_set(h7) && pawns.is_set(g6) {
        n = n + 1;
    }
    n
}

// King safety.
/// The king's file and the files beside it.
pub open spec fn shelter_files(f: int) -> u64 {
    word_of(|i: int| f - 1 <= i % 8 <= f + 1)
}

/// How much king safety counts in this phase.
pub open spec fn safety_weight(p: Position, color: Color, phase: int) -> int {
    let e = color.other();
    let queens = p.set_of(e, PieceKind::Queen).0 != 0;
    let w0 = max_of(256 - phase, 0);
    let w1 = if queens { max_of(w0, 128) } else { w0 };
    let w2 = if !queens && p.set_of(e, PieceKind::Rook).0 != 0 && p.set_of(e, PieceKind::Bishop).0 != 0 {
        max_of(w1, 96)
    } else {
        w1
    };
    let file = p.king_at(color) % 8;
    if (file >= 6 || file <= 2) && rel_rank(color, p.king_at(color)) <= 1 { min_of(w2, 64) } else { w2 }
}

/// Own pawns one and two ranks in front of the king.
pub open spec fn shield(p: Position, color: Color, params: EvalParams) -> int {
    let king = p.king_at(color);
    let pawns = p.set_of(color, PieceKind::Pawn).0 & shelter_files(king % 8);
    let up = match color {
        Color::White => 1int,
        Color::Black => -1int,
    };
    popcount(pawns & rank_word(king / 8 + up)) * params.ks_shield_1 + popcount(pawns & rank_word(king / 8 + 2 * up))
        * params.ks_shield_2
}

/// Penalty for one file near the king.
pub open spec fn file_danger(p: Position, color: Color, params: EvalParams, f: int) -> int {
    if f < 0 || f > 7 {
        0
    } else {
        let own = p.set_of(color, PieceKind::Pawn).0 & file_word(f) != 0;
        let enemy = p.set_of(color.other(), PieceKind::Pawn).0 & file_word(f) != 0;
        if !own {
            if !enemy { params.ks_open_file as int } else { params.ks_semi_open as int }
        } else if !enemy {
            -10
        } else {
            0
        }
    }
}

/// Penalties for the king's place: uncastled, or far from home.
pub open spec fn king_place(p: Position, color: Color, params: EvalParams) -> int {
    let king = p.king_at(color);
    let rank = rel_rank(color, king);
    (if 2 <= king % 8 <= 5 && rank <= 1 { params.ks_center_king as int } else { 0 }) - (if rank >= 3 {
        rank * rank * 15
    } else {
        0
    })
}

/// A square in the king's zone: the king's own and the eight around it.
pub open spec fn in_zone(king: int, t: int) -> bool {
    t == king || king_hits(king, t)
}

/// One if a piece on the square bears on the king's zone.
pub open spec fn bears_fn(p: Position, kind: PieceKind, color: Color, king: int) -> spec_fn(int) -> int {
    |s: int|
        if exists|t: int| is_square(t) && #[trigger] in_zone(king, t) && piece_hits(kind, color, p.occupied().0, s, t) {
            1int
        } else {
            0
        }
}

/// How many pieces of a kind bear on the king's zone.
pub open spec fn bearing(p: Position, kind: PieceKind, color: Color, king: int) -> int {
    sum_over(p.set_of(color, kind).members(), bears_fn(p, kind, color, king))
}

/// Penalty for attackers near the king of `color`.
pub open spec fn assault(p: Position, color: Color, params: EvalParams) -> int {
    let e = color.other();
    let king = p.king_at(color);
    let n = bearing(p, PieceKind::Knight, e, king);
    let b = bearing(p, PieceKind::Bishop, e, king);
    let k = bearing(p, PieceKind::Rook, e, king);
    let q = bearing(p, PieceKind::Queen, e, king);
    let attackers = n + b + k + q;
    let raw = n * params.ks_knight_weight + b * params.ks_bishop_weight + k * params.ks_rook_weight + q
        * params.ks_queen_weight;
    let weight = quot(raw * attack_scale(npm(p, e, params) - npm(p, color, params)), 256);
    let moves = popcount(word_of(|t: int| king_hits(king, t)) & !p.occupancy[color.idx()].0) as int;
    if attackers >= 1 {
        quot(weight * attackers, 4) + if moves <= 2 { (3 - moves) * 20 } else { 0 }
    } else {
        0
    }
}

/// Enemy pawns on the fourth and fifth ranks near the king.
pub open spec fn storm(p: Position, color: Color) -> int {
    popcount(
        p.set_of(color.other(), PieceKind::Pawn).0 & shelter_files(p.king_at(color) % 8) & (rank_word(3) | rank_word(4)),
    ) as int
}

/// The safety of one king.
pub open spec fn side_safety(p: Position, color: Color, phase: int, params: EvalParams) -> int {
    let f = p.king_at(color) % 8;
    let score = shield(p, color, params) + file_danger(p, color, params, f - 1) + file_danger(p, color, params, f)
        + file_danger(p, color, params, f + 1) + king_place(p, color, params) - assault(p, color, params) - storm(
        p,
        color,
    ) * 15;
    quot(score * safety_weight(p, color, phase), 256)
}

/// King safety, White's less Black's; none in the endgame.
pub open spec fn safety_term(p: Position, phase: int, params: EvalParams) -> int {
    if phase > 200 {
        0
    } else {
        side_safety(p, Color::White, phase, params) - side_safety(p, Color::Black, phase, params)
    }
}

pub(crate) fn shelter(king_file: u8) -> (r: Bitboard)
    requires
        king_file < 8,
    ensures
        r.0 == shelter_files(king_file as int),
{
    let r = file_bitboard(king_file) | adjacent_files(king_file);
    proof {
        broadcast use group_bits;
        lemma_is_word(r.0, |i: int| king_file as int - 1 <= i % 8 <= king_file as int + 1);
    }
    r
}

pub(crate) fn safety_weight_of(board: &Board, color: Color, phase: i64) -> (r: i64)
    requires
        -11_447 <= phase <= 256,
    ensures
        r == safety_weight(board@, color, phase as int),
        0 <= r <= 11_703,
{
    let e = color.opposite();
    let king = board.king_square(color);
    let mut weight: i64 = if 256 - phase > 0 { 256 - phase } else { 0 };
    let queens = board.set_of(e, PieceKind::Queen).0 != 0;
    if queens && weight < 128 {
        weight = 128;
    }
    if !queens && board.set_of(e, PieceKind::Rook).0 != 0 && board.set_of(e, PieceKind::Bishop).0 != 0 && weight < 96 {
        weight = 96;
    }
    // A castled king at home is structurally safe.
    if (king.file() >= 6 || king.file() <= 2) && relative_rank(color, king) <= 1 && weight > 64 {
        weight = 64;
    }
    weight
}

pub(crate) proof fn lemma_off_board_rank(r: int)
    requires
        r < 0 || r > 7,
    ensures
        rank_word(r) == 0,
{
    broadcast use group_bits;
    lemma_is_word(0, |i: int| i / 8 == r);
}

pub(crate) fn rank_or_none(rank: i64) -> (r: Bitboard)
    requires
        -2 <= rank <= 9,
    ensures
        r.0 == rank_word(rank as int),
{
    if 0 <= rank && rank < 8 {
        rank_bitboard(rank as u8)
    } else {
        proof {
            lemma_off_board_rank(rank as int);
        }
        Bitboard(0)
    }
}

pub(crate) fn shield_value(board: &Board, color: Color, params: &EvalParams) -> (r: i64)
    requires
        params.tame(),
    ensures
        r == shield(board@, color, *params),
        -128_000 <= r <= 128_000,
{
    let king = board.king_square(color);
    let pawns = board.set_of(color, PieceKind::Pawn) & shelter(king.file());
    let rank: i64 = king.rank() as i64;
    let (one, two) = match color {
        Color::White => (rank_or_none(rank + 1), rank_or_none(rank + 2)),
        Color::Black => (rank_or_none(rank - 1), rank_or_none(rank - 2)),
    };
    prod(count(pawns & one), params.ks_shield_1 as i64, Ghost(64), Ghost(1000)) + prod(
        count(pawns & two),
        params.ks_shield_2 as i64,
        Ghost(64),
        Ghost(1000),
    )
}

pub(crate) fn file_danger_value(board: &Board, color: Color, params: &EvalParams, f: i64) -> (r: i64)
    requires
        -1 <= f <= 8,
        params.tame(),
    ensures
        r == file_danger(board@, color, *params, f as int),
        -1000 <= r <= 1000,
{
    if f < 0 || f > 7 {
        return 0;
    }
    let file = file_bitboard(f as u8);
    let own = (board.set_of(color, PieceKind::Pawn) & file).0 != 0;
    let enemy = (board.set_of(color.opposite(), PieceKind::Pawn) & file).0 != 0;
    if !own {
        if !enemy {
            params.ks_open_file as i64
        } else {
            params.ks_semi_open as i64
        }
    } else if !enemy {
        -10
    } else {
        0
    }
}

pub(crate) fn king_place_value(board: &Board, color: Color, params: &EvalParams) -> (r: i64)
    requires
        params.tame(),
    ensures
        r == king_place(board@, color, *params),
        -2000 <= r <= 1000,
{
    let king = board.king_square(color);
    let rank: i64 = relative_rank(color, king);
    let mut score: i64 = 0;
    if 2 <= king.file() && king.file() <= 5 && rank <= 1 {
        score = score + params.ks_center_king as i64;
    }
    if rank >= 3 {
        score = score - prod(rank, rank, Ghost(7), Ghost(7)) * 15;
    }
    score
}

/// The squares that a piece other than a pawn attacks.
pub(crate) fn piece_attacks(kind: PieceKind, sq: Square, occ: Bitboard, Ghost(color): Ghost<Color>) -> (r: Bitboard)
    requires
        sq.ok(),
        kind != PieceKind::Pawn,
    ensures
        forall|t: int| is_square(t) ==> #[trigger] r.has(t) == piece_hits(kind, color, occ.0, sq.0 as int, t),
{
    match kind {
        PieceKind::Knight => knight_attacks(sq),
        PieceKind::Bishop => bishop_attacks(sq, occ),
        PieceKind::Rook => rook_attacks(sq, occ),
        PieceKind::Queen => queen_attacks(sq, occ),
        _ => king_attacks(sq),
    }
}

pub(crate) fn bearing_count(board: &Board, kind: PieceKind, color: Color, king: Square) -> (r: i64)
    requires
        king.ok(),
        kind != PieceKind::Pawn,
    ensures
        r == bearing(board@, kind, color, king.0 as int),
        0 <= r <= 64,
{
    let occ = board.all_occupancy();
    let zone = king_attacks(king) | king.bitboard();
    let set = board.set_of(color, kind);
    let ghost f = bears_fn(board@, kind, color, king.0 as int);
    let mut n: i64 = 0;
    let mut rem = set;
    proof {
        broadcast use group_bits;
        lemma_squares_members(set.0);
        assert forall|t: int| #[trigger] zone.has(t) == (is_square(t) && in_zone(king.0 as int, t)) by {}
    }
    while rem.0 != 0
        invariant
            kind != PieceKind::Pawn,
            king.ok(),
            occ == board@.occupied(),
            f == bears_fn(board@, kind, color, king.0 as int),
            forall|t: int| #[trigger] zone.has(t) == (is_square(t) && in_zone(king.0 as int, t)),
            rem.members().len() <= 64,
            n + sum_over(rem.members(), f) == sum_over(set.members(), f),
            0 <= n <= 64 - rem.members().len(),
        decreases rem.0,
    {
        let sq = rem.lowest();
        let hits = piece_attacks(kind, sq, occ, Ghost(color));
        let touches = meets(hits, zone);
        proof {
            broadcast use group_bits;
            let k = king.0 as int;
            let s = sq.0 as int;
            if touches {
                let t = choose|t: int| #[trigger] zone.has(t) && hits.has(t);
                assert(is_square(t) && in_zone(k, t) && piece_hits(kind, color, occ.0, s, t));
            }
            if exists|t: int| is_square(t) && #[trigger] in_zone(k, t) && piece_hits(kind, color, occ.0, s, t) {
                let t = choose|t: int| is_square(t) && #[trigger] in_zone(k, t) && piece_hits(kind, color, occ.0, s, t);
                assert(zone.has(t) && hits.has(t));
            }
            assert(f(s) == if touches { 1int } else { 0 });
        }
        if touches {
            n = n + 1;
        }
        rem = rem.without_lowest();
    }
    proof {
        lemma_squares_zero();
    }
    n
}

pub(crate) fn assault_value(board: &Board, color: Color, params: &EvalParams) -> (r: i64)
    requires
        params.tame(),
    ensures
        r == assault(board@, color, *params),
        -20_000_000_000 <= r <= 20_000_000_000,
{
    let e = color.opposite();
    let king = board.king_square(color);
    let n: i64 = bearing_count(board, PieceKind::Knight, e, king);
    let b: i64 = bearing_count(board, PieceKind::Bishop, e, king);
    let k: i64 = bearing_count(board, PieceKind::Rook, e, king);
    let q: i64 = bearing_count(board, PieceKind::Queen, e, king);
    let attackers: i64 = n + b + k + q;
    let raw: i64 = prod(n, params.ks_knight_weight as i64, Ghost(64), Ghost(1000)) + prod(
        b,
        params.ks_bishop_weight as i64,
        Ghost(64),
        Ghost(1000),
    ) + prod(k, params.ks_rook_weight as i64, Ghost(64), Ghost(1000)) + prod(
        q,
        params.ks_queen_weight as i64,
        Ghost(64),
        Ghost(1000),
    );
    let scale: i64 = attack_scale_from_material_delta(
        non_pawn_material_mg(board, e, params) - non_pawn_material_mg(board, color, params),
    );
    let weight: i64 = quotient(prod(raw, scale, Ghost(256_000), Ghost(300)), 256);
    let reach = king_attacks(king);
    let moves: i64 = count(reach & board.occupancy[color.index()].complement());
    proof {
        lemma_is_word(reach.0, |t: int| king_hits(king.0 as int, t));
    }
    if attackers >= 1 {
        let mut penalty: i64 = quotient(prod(weight, attackers, Ghost(76_800_000), Ghost(256)), 4);
        if moves <= 2 {
            penalty = penalty + (3 - moves) * 20;
        }
        penalty
    } else {
        0
    }
}

pub(crate) fn king_safety_for(board: &Board, color: Color, phase: i64, params: &EvalParams) -> (r: i64)
    requires
        -11_447 <= phase <= 256,
        params.tame(),
    ensures
        r == side_safety(board@, color, phase as int, *params),
        -940_000_000_000 <= r <= 940_000_000_000,
{
    let king = board.king_square(color);
    let f: i64 = king.file() as i64;
    let weight: i64 = safety_weight_of(board, color, phase);
    let storm_zone = board.set_of(color.opposite(), PieceKind::Pawn) & shelter(king.file()) & (rank_bitboard(3)
        | rank_bitboard(4));
    let score: i64 = shield_value(board, color, params) + file_danger_value(board, color, params, f - 1)
        + file_danger_value(board, color, params, f) + file_danger_value(board, color, params, f + 1)
        + king_place_value(board, color, params) - assault_value(board, color, params) - count(storm_zone) * 15;
    let x: i64 = prod(score, weight, Ghost(20_100_000_000), Ghost(11_703));
    proof {
        lemma_small_quot(x as int);
    }
    div_i64(x, 256)
}

pub(crate) proof fn lemma_small_quot(x: int)
    requires
        -300_000_000_000_000 <= x <= 300_000_000_000_000,
    ensures
        -1_200_000_000_000 <= quot(x, 256) <= 1_200_000_000_000,
        -240_000_000_000_000 <= x <= 240_000_000_000_000 ==> -940_000_000_000 <= quot(x, 256) <= 940_000_000_000,
{
}

} // verus!
