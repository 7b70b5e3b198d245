//! Mobility, control, threats and the smaller terms of the evaluation.

use vstd::prelude::*;
use crate::arith::{max_of, min_of, quot};
use crate::attacks::{is_square, piece_hits};
use crate::bits::{bit, group_bits, lemma_is_word, lemma_squares_members, lemma_squares_zero, pairs_over, popcount, sum_over, word_of};
use crate::board::{Board, Position};
use crate::eval_base::{adjacent_files, attack_scale, attack_scale_from_material_delta, beside_word, chebyshev_distance, count, file_bitboard, file_word, front_span_mask, front_word, king_distance, non_pawn_material_mg, npm, pawn_attack_span, pawn_span, prod, quotient, rank_bitboard, rank_word, upper_half, upper_word};
use crate::eval_params::EvalParams;
use crate::eval_pieces::piece_attacks;
use crate::types::{magnitude, Bitboard, Color, PieceKind, Square};

verus! {

// Mobility.
/// The squares that a piece attacks and that its own side does not hold.
pub open spec fn reach(p: Position, kind: PieceKind, color: Color, sq: int) -> u64 {
    word_of(|t: int| piece_hits(kind, color, p.occupied().0, sq, t)) & !p.occupancy[color.idx()].0
}

/// Mobility of one piece. Knights and queens that can hardly move, and rooks
/// that reach into the enemy's half, count extra.
pub open spec fn mobility_fn(p: Position, kind: PieceKind, color: Color, params: EvalParams) -> spec_fn(int) -> (
    int,
    int,
) {
    |sq: int|
        {
            let r = reach(p, kind, color, sq);
            let c = popcount(r) as int;
            match kind {
                PieceKind::Knight => {
                    let stuck = if c <= 2 { 3 - c } else { 0 };
                    (c * params.mobility_knight_mg - stuck * 10, c * params.mobility_knight_eg - stuck * 12)
                },
                PieceKind::Bishop => (c * params.mobility_bishop_mg, c * params.mobility_bishop_eg),
                PieceKind::Rook => (
                    c * params.mobility_rook_mg,
                    c * params.mobility_rook_eg + (if r & upper_word(color, 6) != 0 { 8int } else { 0 }) + popcount(
                        r & upper_word(color, 4),
                    ),
                ),
                _ => {
                    let stuck = if c <= 3 { 4 - c } else { 0 };
                    (c * params.mobility_queen_mg - stuck * 15, c * params.mobility_queen_eg - stuck * 10)
                },
            }
        }
}

pub open spec fn kind_mobility(p: Position, kind: PieceKind, color: Color, params: EvalParams) -> (int, int) {
    pairs_over(p.set_of(color, kind).members(), mobility_fn(p, kind, color, params))
}

/// Mobility of one side.
pub open spec fn side_mobility(p: Position, color: Color, params: EvalParams) -> (int, int) {
    let n = kind_mobility(p, PieceKind::Knight, color, params);
    let b = kind_mobility(p, PieceKind::Bishop, color, params);
    let r = kind_mobility(p, PieceKind::Rook, color, params);
    let q = kind_mobility(p, PieceKind::Queen, color, params);
    (n.0 + b.0 + r.0 + q.0, n.1 + b.1 + r.1 + q.1)
}

fn mobility_value(board: &Board, kind: PieceKind, color: Color, params: &EvalParams, sq: Square) -> (r: (i64, i64))
    requires
        sq.ok(),
        kind != PieceKind::Pawn,
        params.tame(),
    ensures
        r.0 == mobility_fn(board@, kind, color, *params)(sq.0 as int).0,
        r.1 == mobility_fn(board@, kind, color, *params)(sq.0 as int).1,
        -64_100 <= r.0 <= 64_100,
        -64_100 <= r.1 <= 64_100,
{
    let occ = board.all_occupancy();
    let hits = piece_attacks(kind, sq, occ, Ghost(color));
    proof {
        lemma_is_word(hits.0, |t: int| piece_hits(kind, color, board@.occupied().0, sq.0 as int, t));
    }
    let set = hits & board.occupancy[color.index()].complement();
    let c: i64 = count(set);
    match kind {
        PieceKind::Knight => {
            let stuck: i64 = if c <= 2 { 3 - c } else { 0 };
            (
                prod(c, params.mobility_knight_mg as i64, Ghost(64), Ghost(1000)) - stuck * 10,
                prod(c, params.mobility_knight_eg as i64, Ghost(64), Ghost(1000)) - stuck * 12,
            )
        },
        PieceKind::Bishop => (
            prod(c, params.mobility_bishop_mg as i64, Ghost(64), Ghost(1000)),
            prod(c, params.mobility_bishop_eg as i64, Ghost(64), Ghost(1000)),
        ),
        PieceKind::Rook => {
            let deep: i64 = if (set & upper_half(color, 6)).0 != 0 { 8 } else { 0 };
            (
                prod(c, params.mobility_rook_mg as i64, Ghost(64), Ghost(1000)),
                prod(c, params.mobility_rook_eg as i64, Ghost(64), Ghost(1000)) + deep + count(
                    set & upper_half(color, 4),
                ),
            )
        },
        _ => {
            let stuck: i64 = if c <= 3 { 4 - c } else { 0 };
            (
                prod(c, params.mobility_queen_mg as i64, Ghost(64), Ghost(1000)) - stuck * 15,
                prod(c, params.mobility_queen_eg as i64, Ghost(64), Ghost(1000)) - stuck * 10,
            )
        },
    }
}

fn kind_mobility_value(board: &Board, kind: PieceKind, color: Color, params: &EvalParams) -> (r: (i64, i64))
    requires
        kind != PieceKind::Pawn,
        params.tame(),
    ensures
        r.0 == kind_mobility(board@, kind, color, *params).0,
        r.1 == kind_mobility(board@, kind, color, *params).1,
        -4_102_400 <= r.0 <= 4_102_400,
        -4_102_400 <= r.1 <= 4_102_400,
{
    let set = board.set_of(color, kind);
    let ghost f = mobility_fn(board@, kind, color, *params);
    let mut mg: i64 = 0;
    let mut eg: i64 = 0;
    let mut rem = set;
    proof {
        lemma_squares_members(set.0);
    }
    while rem.0 != 0
        invariant
            kind != PieceKind::Pawn,
            params.tame(),
            f == mobility_fn(board@, kind, color, *params),
            rem.members().len() <= 64,
            mg + pairs_over(rem.members(), f).0 == pairs_over(set.members(), f).0,
            eg + pairs_over(rem.members(), f).1 == pairs_over(set.members(), f).1,
            -64_100 * (64 - rem.members().len()) <= mg <= 64_100 * (64 - rem.members().len()),
            -64_100 * (64 - rem.members().len()) <= eg <= 64_100 * (64 - rem.members().len()),
        decreases rem.0,
    {
        let sq = rem.lowest();
        let v = mobility_value(board, kind, color, params, sq);
        mg = mg + v.0;
        eg = eg + v.1;
        rem = rem.without_lowest();
    }
    proof {
        lemma_squares_zero();
    }
    (mg, eg)
}

/// Mobility of one side.
pub(crate) fn pseudo_mobility(board: &Board, color: Color, params: &EvalParams) -> (r: (i64, i64))
    requires
        params.tame(),
    ensures
        r.0 == side_mobility(board@, color, *params).0,
        r.1 == side_mobility(board@, color, *params).1,
        -20_000_000 <= r.0 <= 20_000_000,
        -20_000_000 <= r.1 <= 20_000_000,
{
    let n = kind_mobility_value(board, PieceKind::Knight, color, params);
    let b = kind_mobility_value(board, PieceKind::Bishop, color, params);
    let k = kind_mobility_value(board, PieceKind::Rook, color, params);
    let q = kind_mobility_value(board, PieceKind::Queen, color, params);
    (n.0 + b.0 + k.0 + q.0, n.1 + b.1 + k.1 + q.1)
}

// Center control.
/// d4, e4, d5 and e5.
pub open spec fn center_word() -> u64 {
    word_of(|i: int| 3 <= i % 8 <= 4 && 3 <= i / 8 <= 4)
}

/// The center, and c3 to c6 and f3 to f6.
pub open spec fn wide_center_word() -> u64 {
    word_of(|i: int| (3 <= i % 8 <= 4 && 3 <= i / 8 <= 4) || ((i % 8 == 2 || i % 8 == 5) && 2 <= i / 8 <= 5))
}

/// Center control of one side: pawns in the center, minor pieces near it. With
/// many pieces left, no center pawn is a weakness and a pair a strength.
pub open spec fn side_center(p: Position, color: Color, params: EvalParams) -> int {
    let pawns = popcount(p.set_of(color, PieceKind::Pawn).0 & center_word()) as int;
    let crowded = p.occupied().size() >= 20;
    pawns * params.center_pawn_bonus + (if crowded && pawns == 0 { -20int } else { 0 }) + (if crowded && pawns >= 2 {
        15int
    } else {
        0
    }) + popcount(p.set_of(color, PieceKind::Knight).0 & wide_center_word()) * params.center_knight_bonus + popcount(
        p.set_of(color, PieceKind::Bishop).0 & wide_center_word(),
    ) * params.center_bishop_bonus
}

fn center() -> (r: Bitboard)
    ensures
        r.0 == center_word(),
        forall|i: int| #[trigger] r.has(i) == (is_square(i) && 3 <= i % 8 <= 4 && 3 <= i / 8 <= 4),
{
    broadcast use group_bits;
    let r = (file_bitboard(3) | file_bitboard(4)) & (rank_bitboard(3) | rank_bitboard(4));
    proof {
        lemma_is_word(r.0, |i: int| 3 <= i % 8 <= 4 && 3 <= i / 8 <= 4);
    }
    r
}

fn wide_center() -> (r: Bitboard)
    ensures
        r.0 == wide_center_word(),
{
    broadcast use group_bits;
    let ranks = rank_bitboard(2) | rank_bitboard(3) | rank_bitboard(4) | rank_bitboard(5);
    let r = center() | ((file_bitboard(2) | file_bitboard(5)) & ranks);
    proof {
        lemma_is_word(
            r.0,
            |i: int| (3 <= i % 8 <= 4 && 3 <= i / 8 <= 4) || ((i % 8 == 2 || i % 8 == 5) && 2 <= i / 8 <= 5),
        );
    }
    r
}

/// Center control of one side.
pub(crate) fn center_control(board: &Board, color: Color, params: &EvalParams) -> (r: i64)
    requires
        params.tame(),
    ensures
        r == side_center(board@, color, *params),
        -200_000 <= r <= 200_000,
{
    let pawns: i64 = count(board.set_of(color, PieceKind::Pawn) & center());
    let crowded = board.all_occupancy().count() >= 20;
    let mut score: i64 = prod(pawns, params.center_pawn_bonus as i64, Ghost(64), Ghost(1000));
    if crowded && pawns == 0 {
        score = score - 20;
    }
    if crowded && pawns >= 2 {
        score = score + 15;
    }
    let wide = wide_center();
    score + prod(
        count(board.set_of(color, PieceKind::Knight) & wide),
        params.center_knight_bonus as i64,
        Ghost(64),
        Ghost(1000),
    ) + prod(
        count(board.set_of(color, PieceKind::Bishop) & wide),
        params.center_bishop_bonus as i64,
        Ghost(64),
        Ghost(1000),
    )
}

// Connectivity.
/// A knight that a pawn protects, and whether enemy pawns can drive it away.
pub open spec fn outpost_fn(p: Position, color: Color, params: EvalParams) -> spec_fn(int) -> int {
    |sq: int|
        params.pawn_protected_knight + if p.set_of(color.other(), PieceKind::Pawn).0 & beside_word(sq % 8) & front_word(
            sq,
            color,
        ) == 0 { params.knight_outpost as int } else { 0 }
}

/// Protected knights of one side.
pub open spec fn side_connectivity(p: Position, color: Color, params: EvalParams) -> int {
    let set = Bitboard(p.set_of(color, PieceKind::Knight).0 & pawn_span(p.set_of(color, PieceKind::Pawn).0, color));
    sum_over(set.members(), outpost_fn(p, color, params))
}

/// Protected knights of one side.
pub(crate) fn connectivity(board: &Board, color: Color, params: &EvalParams) -> (r: i64)
    requires
        params.tame(),
    ensures
        r == side_connectivity(board@, color, *params),
        -128_000 <= r <= 128_000,
{
    let span = pawn_attack_span(board.set_of(color, PieceKind::Pawn), color);
    let set = board.set_of(color, PieceKind::Knight) & span;
    let enemy = board.set_of(color.opposite(), PieceKind::Pawn);
    let ghost f = outpost_fn(board@, color, *params);
    let mut score: i64 = 0;
    let mut rem = set;
    proof {
        lemma_squares_members(set.0);
    }
    while rem.0 != 0
        invariant
            params.tame(),
            enemy == board@.set_of(color.other(), PieceKind::Pawn),
            f == outpost_fn(board@, color, *params),
            rem.members().len() <= 64,
            score + sum_over(rem.members(), f) == sum_over(set.members(), f),
            -2000 * (64 - rem.members().len()) <= score <= 2000 * (64 - rem.members().len()),
        decreases rem.0,
    {
        let sq = rem.lowest();
        score = score + params.pawn_protected_knight as i64;
        if (enemy & adjacent_files(sq.file()) & front_span_mask(sq, color)).0 == 0 {
            score = score + params.knight_outpost as i64;
        }
        rem = rem.without_lowest();
    }
    proof {
        lemma_squares_zero();
    }
    score
}

// Threats.
/// The squares that pieces of a kind attack.
pub open spec fn attack_map(p: Position, kind: PieceKind, color: Color) -> u64 {
    word_of(
        |t: int|
            exists|s: int| #[trigger]
                p.set_of(color, kind).has(s) && piece_hits(kind, color, p.occupied().0, s, t),
    )
}

fn attack_map_of(board: &Board, kind: PieceKind, color: Color) -> (r: Bitboard)
    requires
        kind != PieceKind::Pawn,
    ensures
        r.0 == attack_map(board@, kind, color),
{
    let occ = board.all_occupancy();
    let set = board.set_of(color, kind);
    let mut map = Bitboard(0);
    let mut rem = set;
    proof {
        broadcast use group_bits;
        assert forall|t: int| is_square(t) implies #[trigger] map.has(t) == (exists|s: int| #[trigger]
            set.has(s) && !rem.has(s) && piece_hits(kind, color, occ.0, s, t)) by {}
    }
    while rem.0 != 0
        invariant
            kind != PieceKind::Pawn,
            occ == board@.occupied(),
            forall|s: int| #[trigger] rem.has(s) ==> set.has(s),
            forall|t: int|
                is_square(t) ==> #[trigger] map.has(t) == (exists|s: int| #[trigger]
                    set.has(s) && !rem.has(s) && piece_hits(kind, color, occ.0, s, t)),
        decreases rem.0,
    {
        let sq = rem.lowest();
        let rest = rem.without_lowest();
        let hits = piece_attacks(kind, sq, occ, Ghost(color));
        let ghost before = map;
        map = map | hits;
        proof {
            broadcast use group_bits;
            let q = sq.0 as int;
            assert forall|s: int| #[trigger] rest.has(s) implies set.has(s) by {
                assert(rem.has(s));
            }
            assert forall|t: int| is_square(t) implies #[trigger] map.has(t) == (exists|s: int| #[trigger]
                set.has(s) && !rest.has(s) && piece_hits(kind, color, occ.0, s, t)) by {
                if map.has(t) {
                    if hits.has(t) {
                        assert(set.has(q) && !rest.has(q) && piece_hits(kind, color, occ.0, q, t));
                    } else {
                        assert(before.has(t));
                        let s = choose|s: int| #[trigger]
                            set.has(s) && !rem.has(s) && piece_hits(kind, color, occ.0, s, t);
                        assert(set.has(s) && !rest.has(s));
                    }
                }
                if exists|s: int| #[trigger] set.has(s) && !rest.has(s) && piece_hits(kind, color, occ.0, s, t) {
                    let s = choose|s: int| #[trigger]
                        set.has(s) && !rest.has(s) && piece_hits(kind, color, occ.0, s, t);
                    if rem.has(s) {
                        assert(s == q);
                        assert(hits.has(t));
                    } else {
                        assert(before.has(t));
                    }
                }
            }
        }
        rem = rest;
    }
    proof {
        broadcast use group_bits;
        let g = |t: int| exists|s: int| #[trigger]
            board@.set_of(color, kind).has(s) && piece_hits(kind, color, board@.occupied().0, s, t);
        assert forall|t: int| 0 <= t < 64 implies #[trigger] bit(map.0, t) == g(t) by {
            assert(map.has(t) == (exists|s: int| #[trigger]
                set.has(s) && !rem.has(s) && piece_hits(kind, color, occ.0, s, t)));
            if g(t) {
                let s = choose|s: int| #[trigger] set.has(s) && piece_hits(kind, color, occ.0, s, t);
                assert(set.has(s) && !rem.has(s));
            }
        }
        lemma_is_word(map.0, g);
    }
    map
}

/// Knights and bishops.
pub open spec fn minors_of(p: Position, color: Color) -> u64 {
    p.set_of(color, PieceKind::Knight).0 | p.set_of(color, PieceKind::Bishop).0
}

/// Squares that knights and bishops attack.
pub open spec fn minor_map(p: Position, color: Color) -> u64 {
    attack_map(p, PieceKind::Knight, color) | attack_map(p, PieceKind::Bishop, color)
}

/// A number of threats, weighted by a parameter and the attacker's material.
pub open spec fn threat(n: int, weight: int, scale: int) -> int {
    quot(n * weight * scale, 256)
}

/// Threats of one side against the other's pieces: by pawns on minor pieces
/// and rooks, by minor pieces on rooks, by minor pieces and rooks on queens,
/// and by any of them on pieces that no pawn protects.
pub open spec fn side_threats(p: Position, color: Color, params: EvalParams) -> (int, int) {
    let e = color.other();
    let scale = attack_scale(npm(p, color, params) - npm(p, e, params));
    let by_pawn = pawn_span(p.set_of(color, PieceKind::Pawn).0, color);
    let by_minor = minor_map(p, color);
    let by_rook = attack_map(p, PieceKind::Rook, color);
    let minors = minors_of(p, e);
    let rooks = p.set_of(e, PieceKind::Rook).0;
    let queens = p.set_of(e, PieceKind::Queen).0;
    let a = popcount(by_pawn & minors) as int;
    let b = popcount(by_pawn & rooks) as int;
    let c = popcount(by_minor & rooks) as int;
    let d = popcount((by_minor | by_rook) & queens) as int;
    let h = popcount(
        (by_pawn | by_minor | by_rook) & !pawn_span(p.set_of(e, PieceKind::Pawn).0, e) & (minors | rooks | queens),
    ) as int;
    (
        threat(a, params.threat_pawn_minor_mg as int, scale) + threat(b, params.threat_pawn_rook_mg as int, scale)
            + threat(c, params.threat_minor_rook_mg as int, scale) + threat(
            d,
            params.threat_piece_queen_mg as int,
            scale,
        ) + threat(h, params.threat_hanging_mg as int, scale),
        threat(a, params.threat_pawn_minor_eg as int, scale) + threat(b, params.threat_pawn_rook_eg as int, scale)
            + threat(c, params.threat_minor_rook_eg as int, scale) + threat(
            d,
            params.threat_piece_queen_eg as int,
            scale,
        ) + threat(h, params.threat_hanging_eg as int, scale),
    )
}

fn threat_value(n: i64, weight: i32, scale: i64) -> (r: i64)
    requires
        0 <= n <= 64,
        -1000 <= weight <= 1000,
        160 <= scale <= 300,
    ensures
        r == threat(n as int, weight as int, scale as int),
        -19_200_000 <= r <= 19_200_000,
{
    quotient(prod(prod(n, weight as i64, Ghost(64), Ghost(1000)), scale, Ghost(64_000), Ghost(300)), 256)
}

/// Threats of one side.
pub(crate) fn threats(board: &Board, color: Color, params: &EvalParams) -> (r: (i64, i64))
    requires
        params.tame(),
    ensures
        r.0 == side_threats(board@, color, *params).0,
        r.1 == side_threats(board@, color, *params).1,
        -100_000_000 <= r.0 <= 100_000_000,
        -100_000_000 <= r.1 <= 100_000_000,
{
    let e = color.opposite();
    let scale: i64 = attack_scale_from_material_delta(
        non_pawn_material_mg(board, color, params) - non_pawn_material_mg(board, e, params),
    );
    let by_pawn = pawn_attack_span(board.set_of(color, PieceKind::Pawn), color);
    let by_minor = attack_map_of(board, PieceKind::Knight, color) | attack_map_of(board, PieceKind::Bishop, color);
    let by_rook = attack_map_of(board, PieceKind::Rook, color);
    let minors = board.set_of(e, PieceKind::Knight) | board.set_of(e, PieceKind::Bishop);
    let rooks = board.set_of(e, PieceKind::Rook);
    let queens = board.set_of(e, PieceKind::Queen);
    let guarded = pawn_attack_span(board.set_of(e, PieceKind::Pawn), e);
    let a: i64 = count(by_pawn & minors);
    let b: i64 = count(by_pawn & rooks);
    let c: i64 = count(by_minor & rooks);
    let d: i64 = count((by_minor | by_rook) & queens);
    let h: i64 = count((by_pawn | by_minor | by_rook) & guarded.complement() & (minors | rooks | queens));
    (
        threat_value(a, params.threat_pawn_minor_mg, scale) + threat_value(b, params.threat_pawn_rook_mg, scale)
            + threat_value(c, params.threat_minor_rook_mg, scale) + threat_value(
            d,
            params.threat_piece_queen_mg,
            scale,
        ) + threat_value(h, params.threat_hanging_mg, scale),
        threat_value(a, params.threat_pawn_minor_eg, scale) + threat_value(b, params.threat_pawn_rook_eg, scale)
            + threat_value(c, params.threat_minor_rook_eg, scale) + threat_value(
            d,
            params.threat_piece_queen_eg,
            scale,
        ) + threat_value(h, params.threat_hanging_eg, scale),
    )
}

// Tempo.
/// The side to move has a small advantage.
pub open spec fn tempo_term(p: Position, params: EvalParams) -> int {
    match p.side {
        Color::White => params.tempo as int,
        Color::Black => -params.tempo,
    }
}

pub(crate) fn tempo(board: &Board, params: &EvalParams) -> (r: i64)
    requires
        params.tame(),
    ensures
        r == tempo_term(board@, *params),
        -1000 <= r <= 1000,
{
    match board.side_to_move {
        Color::White => params.tempo as i64,
        Color::Black => -(params.tempo as i64),
    }
}

// Material imbalance.
/// Number of knights and bishops.
pub open spec fn minor_count(p: Position, c: Color) -> int {
    p.set_of(c, PieceKind::Knight).size() as int + p.set_of(c, PieceKind::Bishop).size()
}

/// Number of pieces of a kind.
pub open spec fn kind_count(p: Position, c: Color, k: PieceKind) -> int {
    p.set_of(c, k).size() as int
}

/// Rooks that one side has more, each against a minor piece that the other has
/// more.
pub open spec fn exchanges(p: Position, c: Color) -> int {
    let rooks = kind_count(p, c, PieceKind::Rook) - kind_count(p, c.other(), PieceKind::Rook);
    let minors = minor_count(p, c.other()) - minor_count(p, c);
    if rooks > 0 && minors > 0 { min_of(rooks, minors) } else { 0 }
}

/// Imbalances in one side's favour: the exchange, a pair of rooks, a pair of
/// knights, and a queen against two more minor pieces.
pub open spec fn side_imbalance(p: Position, c: Color, params: EvalParams) -> (int, int) {
    let pairs = exchanges(p, c);
    let rooks = kind_count(p, c, PieceKind::Rook) >= 2;
    let knights = kind_count(p, c, PieceKind::Knight) >= 2;
    let queen = kind_count(p, c, PieceKind::Queen) > kind_count(p, c.other(), PieceKind::Queen) && minor_count(
        p,
        c.other(),
    ) > minor_count(p, c) + 1;
    (
        pairs * params.imbalance_exchange_mg + (if rooks { params.imbalance_rook_pair_mg as int } else { 0 }) + (if queen {
            params.imbalance_queen_vs_minors_mg as int
        } else {
            0
        }),
        pairs * params.imbalance_exchange_eg + (if rooks { params.imbalance_rook_pair_eg as int } else { 0 }) + (if knights {
            params.imbalance_knight_pair_eg as int
        } else {
            0
        }) + (if queen { params.imbalance_queen_vs_minors_eg as int } else { 0 }),
    )
}

/// Imbalances in one side's favour.
pub(crate) fn material_imbalance(board: &Board, c: Color, params: &EvalParams) -> (r: (i64, i64))
    requires
        params.tame(),
    ensures
        r.0 == side_imbalance(board@, c, *params).0,
        r.1 == side_imbalance(board@, c, *params).1,
        -67_000 <= r.0 <= 67_000,
        -67_000 <= r.1 <= 67_000,
{
    let e = c.opposite();
    let our_knights: i64 = count(board.set_of(c, PieceKind::Knight));
    let our_minors: i64 = our_knights + count(board.set_of(c, PieceKind::Bishop));
    let their_minors: i64 = count(board.set_of(e, PieceKind::Knight)) + count(board.set_of(e, PieceKind::Bishop));
    let our_rooks: i64 = count(board.set_of(c, PieceKind::Rook));
    let rooks: i64 = our_rooks - count(board.set_of(e, PieceKind::Rook));
    let minors: i64 = their_minors - our_minors;
    let pairs: i64 = if rooks > 0 && minors > 0 {
        if rooks < minors {
            rooks
        } else {
            minors
        }
    } else {
        0
    };
    let mut mg: i64 = prod(pairs, params.imbalance_exchange_mg as i64, Ghost(64), Ghost(1000));
    let mut eg: i64 = prod(pairs, params.imbalance_exchange_eg as i64, Ghost(64), Ghost(1000));
    if our_rooks >= 2 {
        mg = mg + params.imbalance_rook_pair_mg as i64;
        eg = eg + params.imbalance_rook_pair_eg as i64;
    }
    if our_knights >= 2 {
        eg = eg + params.imbalance_knight_pair_eg as i64;
    }
    if count(board.set_of(c, PieceKind::Queen)) > count(board.set_of(e, PieceKind::Queen)) && their_minors > our_minors
        + 1 {
        mg = mg + params.imbalance_queen_vs_minors_mg as i64;
        eg = eg + params.imbalance_queen_vs_minors_eg as i64;
    }
    (mg, eg)
}

// Pawn majority.
/// Piece material in pawn units, pawns aside.
pub open spec fn piece_units(p: Position, c: Color) -> int {
    kind_count(p, c, PieceKind::Knight) * 3 + kind_count(p, c, PieceKind::Bishop) * 3 + kind_count(
        p,
        c,
        PieceKind::Rook,
    ) * 5 + kind_count(p, c, PieceKind::Queen) * 9
}

/// Extra pawns count more the more equal the pieces are.
pub open spec fn majority_term(p: Position) -> (int, int) {
    let more = kind_count(p, Color::White, PieceKind::Pawn) - kind_count(p, Color::Black, PieceKind::Pawn);
    let scale = max_of(6 - magnitude(piece_units(p, Color::White) - piece_units(p, Color::Black)), 0);
    (more * scale * 5, more * scale * 10)
}

fn units(board: &Board, c: Color) -> (r: i64)
    ensures
        r == piece_units(board@, c),
        0 <= r <= 1280,
{
    count(board.set_of(c, PieceKind::Knight)) * 3 + count(board.set_of(c, PieceKind::Bishop)) * 3 + count(
        board.set_of(c, PieceKind::Rook),
    ) * 5 + count(board.set_of(c, PieceKind::Queen)) * 9
}

pub(crate) fn pawn_majority_advantage(board: &Board) -> (r: (i64, i64))
    ensures
        r.0 == majority_term(board@).0,
        r.1 == majority_term(board@).1,
        -4000 <= r.0 <= 4000,
        -4000 <= r.1 <= 4000,
{
    let more: i64 = count(board.set_of(Color::White, PieceKind::Pawn)) - count(
        board.set_of(Color::Black, PieceKind::Pawn),
    );
    let diff: i64 = units(board, Color::White) - units(board, Color::Black);
    let gap: i64 = if diff < 0 { -diff } else { diff };
    let scale: i64 = if 6 - gap > 0 { 6 - gap } else { 0 };
    let x: i64 = prod(more, scale, Ghost(64), Ghost(6));
    (x * 5, x * 10)
}

// Mopping up.
/// Endgame material, White's less Black's.
pub open spec fn material_balance(p: Position) -> int {
    let d = |k: PieceKind| kind_count(p, Color::White, k) - kind_count(p, Color::Black, k);
    d(PieceKind::Pawn) * 94 + d(PieceKind::Knight) * 281 + d(PieceKind::Bishop) * 297 + d(PieceKind::Rook) * 512 + d(
        PieceKind::Queen,
    ) * 936
}

/// With a large material lead in the endgame, the losing king belongs in a
/// corner and the winning king close to it.
pub open spec fn mopup_term(p: Position, phase: int) -> int {
    let balance = material_balance(p);
    if phase < 128 || magnitude(balance) < 300 {
        0
    } else {
        let (winner, loser) = if balance > 0 { (Color::White, Color::Black) } else { (Color::Black, Color::White) };
        let l = p.king_at(loser);
        let corner = magnitude(l % 8 * 2 - 7) + magnitude(l / 8 * 2 - 7);
        let close = 14 - king_distance(p.king_at(winner), l) * 2;
        let bonus = quot((corner * 8 + close * 6) * (min_of(magnitude(balance), 1500) / 3), 100);
        if balance > 0 { bonus } else { -bonus }
    }
}

fn lead(board: &Board, k: PieceKind) -> (r: i64)
    ensures
        r == kind_count(board@, Color::White, k) - kind_count(board@, Color::Black, k),
        -64 <= r <= 64,
{
    count(board.set_of(Color::White, k)) - count(board.set_of(Color::Black, k))
}

pub(crate) fn mopup_eval(board: &Board, phase: i64) -> (r: i64)
    ensures
        r == mopup_term(board@, phase as int),
        -110_000 <= r <= 110_000,
{
    let balance: i64 = lead(board, PieceKind::Pawn) * 94 + lead(board, PieceKind::Knight) * 281 + lead(
        board,
        PieceKind::Bishop,
    ) * 297 + lead(board, PieceKind::Rook) * 512 + lead(board, PieceKind::Queen) * 936;
    let size: i64 = if balance < 0 { -balance } else { balance };
    if phase < 128 || size < 300 {
        return 0;
    }
    let (winner, loser) = if balance > 0 { (Color::White, Color::Black) } else { (Color::Black, Color::White) };
    let winning_king = board.king_square(winner);
    let losing_king = board.king_square(loser);
    let cf: i64 = losing_king.file() as i64 * 2 - 7;
    let cr: i64 = losing_king.rank() as i64 * 2 - 7;
    let corner: i64 = (if cf < 0 { -cf } else { cf }) + (if cr < 0 { -cr } else { cr });
    let close: i64 = 14 - chebyshev_distance(winning_king, losing_king) * 2;
    let advantage: i64 = if size < 1500 { size } else { 1500 };
    let scale: i64 = advantage / 3;
    let bonus: i64 = quotient(prod(corner * 8 + close * 6, scale, Ghost(200), Ghost(500)), 100);
    if balance > 0 {
        bonus
    } else {
        -bonus
    }
}

// Space.
/// Free squares on a side's second to fourth ranks that no enemy pawn attacks.
pub open spec fn side_space(p: Position, c: Color) -> int {
    let zone = match c {
        Color::White => rank_word(1) | rank_word(2) | rank_word(3),
        Color::Black => rank_word(4) | rank_word(5) | rank_word(6),
    };
    popcount(zone & !pawn_span(p.set_of(c.other(), PieceKind::Pawn).0, c.other()) & !p.occupied().0) as int
}

/// Space counts with many pieces on the board.
pub open spec fn space_term(p: Position) -> (int, int) {
    let d = side_space(p, Color::White) - side_space(p, Color::Black);
    (quot(d * max_of(p.occupied().size() - 10, 0), 8), d * 2)
}

fn space_of(board: &Board, c: Color) -> (r: i64)
    ensures
        r == side_space(board@, c),
        0 <= r <= 64,
{
    let zone = match c {
        Color::White => rank_bitboard(1) | rank_bitboard(2) | rank_bitboard(3),
        Color::Black => rank_bitboard(4) | rank_bitboard(5) | rank_bitboard(6),
    };
    let attacked = pawn_attack_span(board.set_of(c.opposite(), PieceKind::Pawn), c.opposite());
    count(zone & attacked.complement() & board.all_occupancy().complement())
}

pub(crate) fn space_eval(board: &Board) -> (r: (i64, i64))
    ensures
        r.0 == space_term(board@).0,
        r.1 == space_term(board@).1,
        -4000 <= r.0 <= 4000,
        -4000 <= r.1 <= 4000,
{
    let d: i64 = space_of(board, Color::White) - space_of(board, Color::Black);
    let total: i64 = count(board.all_occupancy());
    let scale: i64 = if total - 10 > 0 { total - 10 } else { 0 };
    (quotient(prod(d, scale, Ghost(64), Ghost(54)), 8), d * 2)
}

// Bad bishops.
/// The squares of one color: a1's for `true`.
pub open spec fn shade(dark: bool) -> u64 {
    word_of(|i: int| ((i % 8 + i / 8) % 2 == 0) == dark)
}

/// Own pawns on the squares of a bishop's color.
pub open spec fn blocked_fn(p: Position, c: Color) -> spec_fn(int) -> int {
    |sq: int| popcount(p.set_of(c, PieceKind::Pawn).0 & shade((sq % 8 + sq / 8) % 2 == 0)) as int
}

/// Own pawns in the way of own bishops.
pub open spec fn blocked_bishops(p: Position, c: Color) -> int {
    sum_over(p.set_of(c, PieceKind::Bishop).members(), blocked_fn(p, c))
}

fn shade_of(dark: bool) -> (r: Bitboard)
    ensures
        r.0 == shade(dark),
{
    let r = if dark { Bitboard(0xAA55_AA55_AA55_AA55) } else { Bitboard(0x55AA_55AA_55AA_55AA) };
    proof {
        lemma_shades();
        lemma_is_word(r.0, |i: int| ((i % 8 + i / 8) % 2 == 0) == dark);
    }
    r
}

proof fn lemma_shades()
    ensures
        forall|i: int| 0 <= i < 64 ==> #[trigger] bit(0xAA55_AA55_AA55_AA55, i) == ((i % 8 + i / 8) % 2 == 0),
        forall|i: int| 0 <= i < 64 ==> #[trigger] bit(0x55AA_55AA_55AA_55AA, i) == ((i % 8 + i / 8) % 2 != 0),
{
    reveal(bit);
    assert forall|j: u64| j < 64 implies (((0xAA55_AA55_AA55_AA55u64 >> j) & 1u64 == 1u64) <==> (j % 8 + j / 8) % 2
        == 0) && (#[trigger] ((0x55AA_55AA_55AA_55AAu64 >> j) & 1u64) == 1u64 <==> (j % 8 + j / 8) % 2 != 0) by {
        assert(j < 64 ==> (((0xAA55_AA55_AA55_AA55u64 >> j) & 1u64 == 1u64) <==> (j % 8 + j / 8) % 2 == 0) && (((
        0x55AA_55AA_55AA_55AAu64 >> j) & 1u64 == 1u64) <==> (j % 8 + j / 8) % 2 != 0)) by (bit_vector);
    }
    assert forall|i: int| 0 <= i < 64 implies #[trigger] bit(0xAA55_AA55_AA55_AA55, i) == ((i % 8 + i / 8) % 2 == 0) by {
        let j = i as u64;
        assert((0x55AA_55AA_55AA_55AAu64 >> j) & 1u64 == 1u64 <==> (j % 8 + j / 8) % 2 != 0);
    }
    assert forall|i: int| 0 <= i < 64 implies #[trigger] bit(0x55AA_55AA_55AA_55AA, i) == ((i % 8 + i / 8) % 2 != 0) by {
        let j = i as u64;
        assert((0x55AA_55AA_55AA_55AAu64 >> j) & 1u64 == 1u64 <==> (j % 8 + j / 8) % 2 != 0);
    }
}

/// Own pawns in the way of own bishops.
pub(crate) fn bad_bishop(board: &Board, c: Color) -> (r: i64)
    ensures
        r == blocked_bishops(board@, c),
        0 <= r <= 4096,
{
    let pawns = board.set_of(c, PieceKind::Pawn);
    let set = board.set_of(c, PieceKind::Bishop);
    let ghost f = blocked_fn(board@, c);
    let mut n: i64 = 0;
    let mut rem = set;
    proof {
        lemma_squares_members(set.0);
    }
    while rem.0 != 0
        invariant
            pawns == board@.set_of(c, PieceKind::Pawn),
            f == blocked_fn(board@, c),
            rem.members().len() <= 64,
            n + sum_over(rem.members(), f) == sum_over(set.members(), f),
            0 <= n <= 64 * (64 - rem.members().len()),
        decreases rem.0,
    {
        let sq = rem.lowest();
        let dark = (sq.file() + sq.rank()) % 2 == 0;
        n = n + count(pawns & shade_of(dark));
        rem = rem.without_lowest();
    }
    proof {
        lemma_squares_zero();
    }
    n
}

// Knights against bishops.
/// Pawns of both colors above ten.
pub open spec fn closedness(p: Position) -> int {
    popcount(p.set_of(Color::White, PieceKind::Pawn).0 | p.set_of(Color::Black, PieceKind::Pawn).0) - 10
}

/// Knights gain in closed positions, bishops in open ones.
pub open spec fn side_minor_bonus(p: Position, c: Color, params: EvalParams) -> int {
    let d = closedness(p);
    if d > 0 {
        kind_count(p, c, PieceKind::Knight) * params.knight_closed_bonus * d
    } else {
        kind_count(p, c, PieceKind::Bishop) * params.bishop_open_bonus * (-d)
    }
}

pub(crate) fn knight_bishop_adjustment(board: &Board, c: Color, params: &EvalParams) -> (r: i64)
    requires
        params.tame(),
    ensures
        r == side_minor_bonus(board@, c, *params),
        -3_456_000 <= r <= 3_456_000,
{
    let d: i64 = count(board.set_of(Color::White, PieceKind::Pawn) | board.set_of(Color::Black, PieceKind::Pawn)) - 10;
    if d > 0 {
        let n: i64 = count(board.set_of(c, PieceKind::Knight));
        prod(prod(n, params.knight_closed_bonus as i64, Ghost(64), Ghost(1000)), d, Ghost(64_000), Ghost(54))
    } else {
        let b: i64 = count(board.set_of(c, PieceKind::Bishop));
        prod(prod(b, params.bishop_open_bonus as i64, Ghost(64), Ghost(1000)), -d, Ghost(64_000), Ghost(54))
    }
}

// Pawn islands.
/// A file holds a pawn of the set.
pub open spec fn file_held(pawns: u64, f: int) -> bool {
    f >= 0 && pawns & file_word(f) != 0
}

/// Groups of neighbouring files with pawns, among the first `n` files.
pub open spec fn islands(pawns: u64, n: int) -> int
    decreases n,
{
    if n <= 0 {
        0
    } else {
        islands(pawns, n - 1) + if file_held(pawns, n - 1) && !file_held(pawns, n - 2) { 1int } else { 0 }
    }
}

/// Islands of one side beyond the first.
pub open spec fn extra_islands(p: Position, c: Color) -> int {
    max_of(islands(p.set_of(c, PieceKind::Pawn).0, 8) - 1, 0)
}

pub(crate) fn pawn_islands(board: &Board, c: Color) -> (r: i64)
    ensures
        r == extra_islands(board@, c),
        0 <= r <= 7,
{
    let pawns = board.set_of(c, PieceKind::Pawn);
    let mut n: i64 = 0;
    let mut prev = false;
    let mut f: u8 = 0;
    while f < 8
        invariant
            f <= 8,
            n == islands(pawns.0, f as int),
            prev == file_held(pawns.0, f - 1),
            0 <= n <= f,
        decreases 8 - f,
    {
        let held = (pawns & file_bitboard(f)).0 != 0;
        if held && !prev {
            n = n + 1;
        }
        prev = held;
        f = f + 1;
    }
    if n - 1 > 0 {
        n - 1
    } else {
        0
    }
}

} // verus!
