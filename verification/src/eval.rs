//! Hand-crafted evaluation.
//!
//! Every term is tapered: it has a middlegame and an endgame value, and the
//! game phase mixes the two. Terms are stated for one side, with ranks counted
//! from that side, and the evaluation is White's sum less Black's.

use vstd::prelude::*;
use crate::arith::{clamp, div_i64, quot};
use crate::board::{Board, Position};
use crate::eval_base::{count, game_phase, material_and_pst, material_term, phase_of, prod, quotient, rank_bitboard, rank_word, soft_cap, soft_cap_signed, tapered};
use crate::eval_params::EvalParams;
use crate::eval_pawns::{pawn_structure, pawn_term};
use crate::eval_pieces::{king_safety_for, pair_bonus, pair_bonus_value, safety_term, shut_in, side_rooks, side_rooks_value, trapped_bishops};
use crate::eval_terms::{bad_bishop, blocked_bishops, center_control, connectivity, extra_islands, kind_count, knight_bishop_adjustment, majority_term, material_imbalance, minor_count, mopup_eval, mopup_term, pawn_islands, pawn_majority_advantage, pseudo_mobility, side_center, side_connectivity, side_imbalance, side_minor_bonus, side_mobility, side_threats, space_eval, space_term, tempo, tempo_term, threats};
use crate::tt::lemma_masked;
use crate::types::{magnitude, Bitboard, Color, PieceKind, Score, Square};
use crate::zobrist::lemma_xor;

verus! {

/// One term of an evaluation.
#[derive(Debug, Clone, Copy)]
pub struct EvalTerm {
    pub name: &'static str,
    pub mg: i32,
    pub eg: i32,
}

/// An evaluation with its parts.
#[derive(Debug)]
pub struct EvalBreakdown {
    pub phase: i32,
    pub terms: Vec<EvalTerm>,
    pub mg_total: i32,
    pub eg_total: i32,
    pub interpolated: i32,
    pub scale: i32,
    pub final_score: i32,
}

/// White's value less Black's.
pub open spec fn versus(w: (int, int), b: (int, int)) -> (int, int) {
    (w.0 - b.0, w.1 - b.1)
}

/// The value of the `n`-th term, given the value of the pawn structure.
pub open spec fn term(p: Position, params: EvalParams, pawns: (int, int), n: int) -> (int, int) {
    let w = Color::White;
    let b = Color::Black;
    if n == 0 {
        material_term(p, params)
    } else if n == 1 {
        (soft_cap(pawns.0, 250), soft_cap(pawns.1, 300))
    } else if n == 2 {
        versus(pair_bonus(p, w, params), pair_bonus(p, b, params))
    } else if n == 3 {
        versus(side_rooks(p, w, params), side_rooks(p, b, params))
    } else if n == 4 {
        (soft_cap(safety_term(p, game_phase(p), params), 220), 0)
    } else if n == 5 {
        let m = versus(side_mobility(p, w, params), side_mobility(p, b, params));
        (soft_cap(m.0, 130), soft_cap(m.1, 150))
    } else if n == 6 {
        (soft_cap(side_center(p, w, params) - side_center(p, b, params), 80), 0)
    } else if n == 7 {
        let c = side_connectivity(p, w, params) - side_connectivity(p, b, params);
        (c, quot(c, 2))
    } else if n == 8 {
        let t = versus(side_threats(p, w, params), side_threats(p, b, params));
        (soft_cap(t.0, 170), soft_cap(t.1, 130))
    } else if n == 9 {
        (tempo_term(p, params), tempo_term(p, params))
    } else if n == 10 {
        versus(side_imbalance(p, w, params), side_imbalance(p, b, params))
    } else if n == 11 {
        majority_term(p)
    } else if n == 12 {
        (0, mopup_term(p, game_phase(p)))
    } else if n == 13 {
        (space_term(p).0, quot(space_term(p).1, 2))
    } else if n == 14 {
        let d = blocked_bishops(p, w) - blocked_bishops(p, b);
        (params.bad_bishop_mg * d, params.bad_bishop_eg * d)
    } else if n == 15 {
        let d = side_minor_bonus(p, w, params) - side_minor_bonus(p, b, params);
        (d, d)
    } else if n == 16 {
        let d = shut_in(p, w) - shut_in(p, b);
        (params.trapped_bishop_mg * d, params.trapped_bishop_eg * d)
    } else {
        let d = extra_islands(p, w) - extra_islands(p, b);
        (params.pawn_islands_mg * d, params.pawn_islands_eg * d)
    }
}

/// The name of the `n`-th term.
pub open spec fn term_name(n: int) -> Seq<char> {
    if n == 0 {
        "material_pst"@
    } else if n == 1 {
        "pawn_structure"@
    } else if n == 2 {
        "bishop_pair"@
    } else if n == 3 {
        "rook_activity"@
    } else if n == 4 {
        "king_safety"@
    } else if n == 5 {
        "mobility"@
    } else if n == 6 {
        "center_control"@
    } else if n == 7 {
        "connectivity"@
    } else if n == 8 {
        "threats"@
    } else if n == 9 {
        "tempo"@
    } else if n == 10 {
        "material_imbalance"@
    } else if n == 11 {
        "pawn_majority"@
    } else if n == 12 {
        "mopup"@
    } else if n == 13 {
        "space"@
    } else if n == 14 {
        "bad_bishop"@
    } else if n == 15 {
        "knight_bishop_adjustment"@
    } else if n == 16 {
        "trapped_bishops"@
    } else {
        "pawn_islands"@
    }
}

/// Sum of the first `n` terms.
pub open spec fn terms_sum(p: Position, params: EvalParams, pawns: (int, int), n: int) -> (int, int)
    decreases n,
{
    if n <= 0 {
        (0, 0)
    } else {
        let rest = terms_sum(p, params, pawns, n - 1);
        let t = term(p, params, pawns, n - 1);
        (rest.0 + t.0, rest.1 + t.1)
    }
}

// Endgame scaling.
/// The bishop of a color stands on a light square.
pub open spec fn on_light(p: Position, c: Color) -> bool {
    let s = p.set_of(c, PieceKind::Bishop).members()[0];
    (s % 8 + s / 8) % 2 == 1
}

/// Rooks and queens.
pub open spec fn major_count(p: Position, c: Color) -> int {
    kind_count(p, c, PieceKind::Rook) + kind_count(p, c, PieceKind::Queen)
}

/// Opposite-colored bishops and nothing else but pawns.
pub open spec fn opposite_bishops(p: Position) -> bool {
    let w = Color::White;
    let b = Color::Black;
    &&& kind_count(p, w, PieceKind::Bishop) == 1 && kind_count(p, b, PieceKind::Bishop) == 1
    &&& kind_count(p, w, PieceKind::Knight) == 0 && kind_count(p, b, PieceKind::Knight) == 0
    &&& major_count(p, w) == 0 && major_count(p, b) == 0
    &&& on_light(p, w) != on_light(p, b)
}

/// A lone queen of `c` against pawns only.
pub open spec fn queen_against_pawns(p: Position, c: Color) -> bool {
    &&& kind_count(p, c, PieceKind::Queen) == 1
    &&& minor_count(p, c) + major_count(p, c) == 1
    &&& kind_count(p, c, PieceKind::Pawn) == 0
    &&& minor_count(p, c.other()) + major_count(p, c.other()) == 0
    &&& kind_count(p, c.other(), PieceKind::Pawn) > 0
}

/// The scale of a queen against the pawns of `c`: a single pawn must be on its
/// sixth or seventh rank.
pub open spec fn fortress_scale(p: Position, c: Color) -> Option<int> {
    let pawns = p.set_of(c, PieceKind::Pawn).0;
    let n = kind_count(p, c, PieceKind::Pawn);
    let (seventh, sixth) = match c {
        Color::White => (rank_word(6), rank_word(5)),
        Color::Black => (rank_word(1), rank_word(2)),
    };
    if n == 1 && pawns & seventh != 0 {
        Some(16)
    } else if n == 1 && pawns & sixth != 0 {
        Some(48)
    } else if n >= 2 {
        Some(64)
    } else {
        None
    }
}

/// The scale of a winning side `c` without pawns.
pub open spec fn pawnless_scale(p: Position, c: Color) -> Option<int> {
    let e = c.other();
    if kind_count(p, c, PieceKind::Pawn) != 0 {
        None
    } else if major_count(p, c) == 0 && minor_count(p, c) <= 1 {
        Some(0)
    } else if major_count(p, c) == 0 && minor_count(p, c) == 2 {
        Some(32)
    } else if major_count(p, c) == 1 && minor_count(p, c) == 0 && major_count(p, e) == 0 && minor_count(p, e) <= 1
        && kind_count(p, e, PieceKind::Pawn) == 0 {
        Some(80)
    } else {
        None
    }
}

/// The scale of a rook endgame.
pub open spec fn rook_ending_scale(p: Position) -> Option<int> {
    let w = Color::White;
    let b = Color::Black;
    let wp = kind_count(p, w, PieceKind::Pawn);
    let bp = kind_count(p, b, PieceKind::Pawn);
    let rooks = kind_count(p, w, PieceKind::Rook);
    if kind_count(p, w, PieceKind::Queen) == 0 && kind_count(p, b, PieceKind::Queen) == 0 && minor_count(p, w) == 0
        && minor_count(p, b) == 0 && rooks == kind_count(p, b, PieceKind::Rook) && rooks > 0 && wp + bp <= 6 {
        if magnitude(wp - bp) <= 1 {
            if wp + bp <= 2 { Some(48) } else { Some(80) }
        } else if magnitude(wp - bp) == 2 {
            Some(96)
        } else {
            None
        }
    } else {
        None
    }
}

/// `c` has rook and minor piece against rook.
pub open spec fn minor_up(p: Position, c: Color) -> bool {
    &&& kind_count(p, c, PieceKind::Rook) == 1 && kind_count(p, c.other(), PieceKind::Rook) == 1
    &&& kind_count(p, c, PieceKind::Queen) == 0 && kind_count(p, c.other(), PieceKind::Queen) == 0
    &&& minor_count(p, c) == 1 && minor_count(p, c.other()) == 0
}

/// The scale of rook and minor piece of `c` against rook.
pub open spec fn minor_up_scale(p: Position, c: Color) -> int {
    let e = c.other();
    let own = kind_count(p, c, PieceKind::Pawn);
    let other = kind_count(p, e, PieceKind::Pawn);
    let first = p.set_of(e, PieceKind::Pawn).members()[0] / 8;
    let far = match e {
        Color::White => first <= 4,
        Color::Black => first >= 3,
    };
    if own == 0 && other == 1 && far {
        16
    } else if own == 0 && other == 0 {
        12
    } else {
        64
    }
}

/// How much of the evaluation is left in drawish endgames, out of 128.
pub open spec fn endgame_scale(p: Position, params: EvalParams, eval: int, phase: int) -> int {
    let w = Color::White;
    let b = Color::Black;
    let winner = if eval > 0 { w } else { b };
    if phase < 128 {
        128
    } else if opposite_bishops(p) {
        clamp(params.ocb_scale_factor as int, 20, 128)
    } else if queen_against_pawns(p, w) && fortress_scale(p, b) is Some {
        fortress_scale(p, b)->Some_0
    } else if queen_against_pawns(p, b) && !queen_against_pawns(p, w) && fortress_scale(p, w) is Some {
        fortress_scale(p, w)->Some_0
    } else if pawnless_scale(p, winner) is Some {
        pawnless_scale(p, winner)->Some_0
    } else if rook_ending_scale(p) is Some {
        rook_ending_scale(p)->Some_0
    } else if minor_up(p, w) {
        minor_up_scale(p, w)
    } else if minor_up(p, b) {
        minor_up_scale(p, b)
    } else {
        128
    }
}

/// The counts of one side's pieces.
struct Army {
    pawns: i64,
    knights: i64,
    bishops: i64,
    rooks: i64,
    queens: i64,
    minors: i64,
    majors: i64,
}

impl Army {
    spec fn counts(self, p: Position, c: Color) -> bool {
        &&& self.pawns == kind_count(p, c, PieceKind::Pawn)
        &&& self.knights == kind_count(p, c, PieceKind::Knight)
        &&& self.bishops == kind_count(p, c, PieceKind::Bishop)
        &&& self.rooks == kind_count(p, c, PieceKind::Rook)
        &&& self.queens == kind_count(p, c, PieceKind::Queen)
        &&& self.minors == minor_count(p, c)
        &&& self.majors == major_count(p, c)
        &&& 0 <= self.pawns <= 64 && 0 <= self.minors <= 128 && 0 <= self.majors <= 128
    }
}

fn army_of(board: &Board, c: Color) -> (r: Army)
    ensures
        r.counts(board@, c),
{
    let pawns: i64 = count(board.set_of(c, PieceKind::Pawn));
    let knights: i64 = count(board.set_of(c, PieceKind::Knight));
    let bishops: i64 = count(board.set_of(c, PieceKind::Bishop));
    let rooks: i64 = count(board.set_of(c, PieceKind::Rook));
    let queens: i64 = count(board.set_of(c, PieceKind::Queen));
    Army { pawns, knights, bishops, rooks, queens, minors: knights + bishops, majors: rooks + queens }
}

/// The lowest square of a set that holds one or more.
fn first_square(set: Bitboard) -> (r: Square)
    requires
        set.size() > 0,
    ensures
        r.ok(),
        r.0 == set.members()[0],
{
    proof {
        if set.0 == 0 {
            crate::bits::lemma_squares_zero();
        }
    }
    set.lowest()
}

fn fortress_scale_of(board: &Board, c: Color, n: i64) -> (r: Option<i64>)
    requires
        n == kind_count(board@, c, PieceKind::Pawn),
    ensures
        r is Some <==> fortress_scale(board@, c) is Some,
        r is Some ==> r->Some_0 == fortress_scale(board@, c)->Some_0 && 0 <= r->Some_0 <= 128,
{
    let pawns = board.set_of(c, PieceKind::Pawn);
    let (seventh, sixth) = match c {
        Color::White => (rank_bitboard(6), rank_bitboard(5)),
        Color::Black => (rank_bitboard(1), rank_bitboard(2)),
    };
    if n == 1 && (pawns & seventh).0 != 0 {
        Some(16)
    } else if n == 1 && (pawns & sixth).0 != 0 {
        Some(48)
    } else if n >= 2 {
        Some(64)
    } else {
        None
    }
}

fn minor_up_scale_of(board: &Board, c: Color, own: i64, other: i64) -> (r: i64)
    requires
        own == kind_count(board@, c, PieceKind::Pawn),
        other == kind_count(board@, c.other(), PieceKind::Pawn),
    ensures
        r == minor_up_scale(board@, c),
        0 <= r <= 128,
{
    let e = c.opposite();
    if own == 0 && other == 1 {
        let sq = first_square(board.set_of(e, PieceKind::Pawn));
        let far = match e {
            Color::White => sq.rank() <= 4,
            Color::Black => sq.rank() >= 3,
        };
        if far {
            return 16;
        }
    }
    if own == 0 && other == 0 {
        12
    } else {
        64
    }
}

/// Endgame scale factor: 128 keeps the evaluation, lower values draw it
/// towards zero in drawish endgames.
pub fn endgame_scale_factor(board: &Board, params: &EvalParams, eval: i64, phase: i64) -> (r: i64)
    ensures
        r == endgame_scale(board@, *params, eval as int, phase as int),
        0 <= r <= 128,
{
    if phase < 128 {
        return 128;
    }
    let w = army_of(board, Color::White);
    let b = army_of(board, Color::Black);
    if w.bishops == 1 && b.bishops == 1 && w.knights == 0 && b.knights == 0 && w.majors == 0 && b.majors == 0 {
        let ws = first_square(board.set_of(Color::White, PieceKind::Bishop));
        let bs = first_square(board.set_of(Color::Black, PieceKind::Bishop));
        let w_light = (ws.file() + ws.rank()) % 2 == 1;
        let b_light = (bs.file() + bs.rank()) % 2 == 1;
        if w_light != b_light {
            let x: i64 = params.ocb_scale_factor as i64;
            return if x < 20 {
                20
            } else if x > 128 {
                128
            } else {
                x
            };
        }
    }
    if w.queens == 1 && w.minors + w.majors == 1 && w.pawns == 0 && b.minors + b.majors == 0 && b.pawns > 0 {
        if let Some(s) = fortress_scale_of(board, Color::Black, b.pawns) {
            return s;
        }
    } else if b.queens == 1 && b.minors + b.majors == 1 && b.pawns == 0 && w.minors + w.majors == 0 && w.pawns > 0 {
        if let Some(s) = fortress_scale_of(board, Color::White, w.pawns) {
            return s;
        }
    }
    // The winning side without pawns.
    let (win, lose) = if eval > 0 { (&w, &b) } else { (&b, &w) };
    if win.pawns == 0 {
        if win.majors == 0 && win.minors <= 1 {
            return 0;
        }
        if win.majors == 0 && win.minors == 2 {
            return 32;
        }
        if win.majors == 1 && win.minors == 0 && lose.majors == 0 && lose.minors <= 1 && lose.pawns == 0 {
            return 80;
        }
    }
    // Rook endings with equal rooks.
    if w.queens == 0 && b.queens == 0 && w.minors == 0 && b.minors == 0 && w.rooks == b.rooks && w.rooks > 0 && w.pawns
        + b.pawns <= 6 {
        let diff: i64 = if w.pawns > b.pawns { w.pawns - b.pawns } else { b.pawns - w.pawns };
        if diff <= 1 {
            return if w.pawns + b.pawns <= 2 {
                48
            } else {
                80
            };
        }
        if diff == 2 {
            return 96;
        }
    }
    // Rook and minor piece against rook.
    if w.rooks == 1 && b.rooks == 1 && w.queens == 0 && b.queens == 0 {
        if w.minors == 1 && b.minors == 0 {
            return minor_up_scale_of(board, Color::White, w.pawns, b.pawns);
        }
        if b.minors == 1 && w.minors == 0 {
            return minor_up_scale_of(board, Color::Black, b.pawns, w.pawns);
        }
    }
    128
}

// The whole evaluation.
/// The mixed value before endgame scaling.
pub open spec fn mixed(p: Position, params: EvalParams, pawns: (int, int)) -> int {
    let t = terms_sum(p, params, pawns, 18);
    tapered(t.0, t.1, game_phase(p))
}

/// The evaluation of a position for White, given the value of its pawn
/// structure.
pub open spec fn score_with_pawns(p: Position, params: EvalParams, pawns: (int, int)) -> int {
    let m = mixed(p, params, pawns);
    quot(m * endgame_scale(p, params, m, game_phase(p)), 128)
}

/// The evaluation of a position for White.
pub open spec fn score_of(p: Position, params: EvalParams) -> int {
    score_with_pawns(p, params, pawn_term(p, params))
}

fn push_term(terms: &mut Vec<EvalTerm>, collect: bool, name: &'static str, mg: i64, eg: i64)
    requires
        -2_000_000_000 <= mg <= 2_000_000_000,
        -2_000_000_000 <= eg <= 2_000_000_000,
    ensures
        collect ==> final(terms)@.len() == old(terms)@.len() + 1 && final(terms)@.last().name@ == name@ && final(terms)@.last().mg == mg && final(terms)@.last().eg == eg && (forall|i: int|
            0 <= i < old(terms)@.len() ==> #[trigger] final(terms)@[i] == old(terms)@[i]),
        !collect ==> final(terms)@ == old(terms)@,
{
    if collect {
        terms.push(EvalTerm { name, mg: mg as i32, eg: eg as i32 });
    }
}

/// The parts of an evaluation are right.
pub open spec fn breaks_down(r: EvalBreakdown, p: Position, params: EvalParams, pawns: (int, int), collect: bool) -> bool {
    let t = terms_sum(p, params, pawns, 18);
    &&& r.phase == game_phase(p)
    &&& r.mg_total == t.0
    &&& r.eg_total == t.1
    &&& r.interpolated == mixed(p, params, pawns)
    &&& r.scale == endgame_scale(p, params, mixed(p, params, pawns), game_phase(p))
    &&& r.final_score == score_with_pawns(p, params, pawns)
    &&& collect ==> r.terms@.len() == 18 && (forall|n: int|
        0 <= n < 18 ==> #[trigger] r.terms@[n].name@ == term_name(n) && r.terms@[n].mg == term(p, params, pawns, n).0
            && r.terms@[n].eg == term(p, params, pawns, n).1)
    &&& !collect ==> r.terms@.len() == 0
}

/// The first half of the terms.
fn leading_terms(board: &Board, params: &EvalParams, pawns: (i32, i32), phase: i64, n: u8) -> (r: (i64, i64))
    requires
        params.tame(),
        n < 9,
        phase == game_phase(board@),
        -11_447 <= phase <= 256,
    ensures
        r.0 == term(board@, *params, (pawns.0 as int, pawns.1 as int), n as int).0,
        r.1 == term(board@, *params, (pawns.0 as int, pawns.1 as int), n as int).1,
        n == 0 ==> -6_144_000 <= r.0 <= 6_144_000 && -6_144_000 <= r.1 <= 6_144_000,
        n == 3 || n == 7 ==> -400_000 <= r.0 <= 400_000 && -400_000 <= r.1 <= 400_000,
        n > 0 && n != 3 && n != 7 ==> -140_000 <= r.0 <= 140_000 && -140_000 <= r.1 <= 140_000,
{
    let w = Color::White;
    let b = Color::Black;
    match n {
        0 => material_and_pst(board, params),
        1 => (soft_cap_signed(pawns.0 as i64, 250), soft_cap_signed(pawns.1 as i64, 300)),
        2 => {
            let x = pair_bonus_value(board, w, params);
            let y = pair_bonus_value(board, b, params);
            (x.0 - y.0, x.1 - y.1)
        },
        3 => {
            let x = side_rooks_value(board, w, params);
            let y = side_rooks_value(board, b, params);
            (x.0 - y.0, x.1 - y.1)
        },
        4 => {
            let raw: i64 = if phase > 200 {
                0
            } else {
                king_safety_for(board, w, phase, params) - king_safety_for(board, b, phase, params)
            };
            (soft_cap_signed(raw, 220), 0)
        },
        5 => {
            let x = pseudo_mobility(board, w, params);
            let y = pseudo_mobility(board, b, params);
            (soft_cap_signed(x.0 - y.0, 130), soft_cap_signed(x.1 - y.1, 150))
        },
        6 => (soft_cap_signed(center_control(board, w, params) - center_control(board, b, params), 80), 0),
        7 => {
            let c: i64 = connectivity(board, w, params) - connectivity(board, b, params);
            (c, quotient(c, 2))
        },
        _ => {
            let x = threats(board, w, params);
            let y = threats(board, b, params);
            (soft_cap_signed(x.0 - y.0, 170), soft_cap_signed(x.1 - y.1, 130))
        },
    }
}

/// The second half of the terms.
fn trailing_terms(board: &Board, params: &EvalParams, Ghost(pawns): Ghost<(int, int)>, phase: i64, n: u8) -> (r: (
    i64,
    i64,
))
    requires
        params.tame(),
        9 <= n < 18,
        phase == game_phase(board@),
    ensures
        r.0 == term(board@, *params, pawns, n as int).0,
        r.1 == term(board@, *params, pawns, n as int).1,
        n == 14 ==> -4_096_000 <= r.0 <= 4_096_000 && -4_096_000 <= r.1 <= 4_096_000,
        n == 15 ==> -6_912_000 <= r.0 <= 6_912_000 && -6_912_000 <= r.1 <= 6_912_000,
        n != 14 && n != 15 ==> -140_000 <= r.0 <= 140_000 && -140_000 <= r.1 <= 140_000,
{
    let w = Color::White;
    let b = Color::Black;
    match n {
        9 => {
            let t: i64 = tempo(board, params);
            (t, t)
        },
        10 => {
            let x = material_imbalance(board, w, params);
            let y = material_imbalance(board, b, params);
            (x.0 - y.0, x.1 - y.1)
        },
        11 => pawn_majority_advantage(board),
        12 => (0, mopup_eval(board, phase)),
        13 => {
            let x = space_eval(board);
            (x.0, quotient(x.1, 2))
        },
        14 => {
            let d: i64 = bad_bishop(board, w) - bad_bishop(board, b);
            (
                prod(params.bad_bishop_mg as i64, d, Ghost(1000), Ghost(4096)),
                prod(params.bad_bishop_eg as i64, d, Ghost(1000), Ghost(4096)),
            )
        },
        15 => {
            let d: i64 = knight_bishop_adjustment(board, w, params) - knight_bishop_adjustment(board, b, params);
            (d, d)
        },
        16 => {
            let d: i64 = trapped_bishops(board, w) - trapped_bishops(board, b);
            (
                prod(params.trapped_bishop_mg as i64, d, Ghost(1000), Ghost(2)),
                prod(params.trapped_bishop_eg as i64, d, Ghost(1000), Ghost(2)),
            )
        },
        _ => {
            let d: i64 = pawn_islands(board, w) - pawn_islands(board, b);
            (
                prod(params.pawn_islands_mg as i64, d, Ghost(1000), Ghost(7)),
                prod(params.pawn_islands_eg as i64, d, Ghost(1000), Ghost(7)),
            )
        },
    }
}

fn name_of(n: u8) -> (r: &'static str)
    ensures
        r@ == term_name(n as int),
{
    match n {
        0 => "material_pst",
        1 => "pawn_structure",
        2 => "bishop_pair",
        3 => "rook_activity",
        4 => "king_safety",
        5 => "mobility",
        6 => "center_control",
        7 => "connectivity",
        8 => "threats",
        9 => "tempo",
        10 => "material_imbalance",
        11 => "pawn_majority",
        12 => "mopup",
        13 => "space",
        14 => "bad_bishop",
        15 => "knight_bishop_adjustment",
        16 => "trapped_bishops",
        _ => "pawn_islands",
    }
}

/// How large the sum of the first `n` terms can get.
spec fn sum_bound(n: int) -> int {
    6_144_000 + 140_000 * n + (if n > 3 { 400_000int } else { 0 }) + (if n > 7 { 400_000int } else { 0 }) + (if n > 14 { 4_096_000int } else { 0 }) + (if n > 15 { 6_912_000int } else { 0 })
}

/// Evaluate a position with a given value of its pawn structure.
pub fn evaluate_with_pawns(board: &Board, params: &EvalParams, pawns: (i32, i32), collect_terms: bool) -> (r:
    EvalBreakdown)
    requires
        params.tame(),
    ensures
        breaks_down(r, board@, *params, (pawns.0 as int, pawns.1 as int), collect_terms),
        -2_147_000_000 <= r.final_score <= 2_147_000_000,
{
    let phase: i64 = phase_of(board);
    let ghost p = board@;
    let ghost gp = (pawns.0 as int, pawns.1 as int);
    let mut mg: i64 = 0;
    let mut eg: i64 = 0;
    let mut terms: Vec<EvalTerm> = Vec::new();
    let mut n: u8 = 0;
    while n < 18
        invariant
            n <= 18,
            params.tame(),
            p == board@,
            gp == (pawns.0 as int, pawns.1 as int),
            phase == game_phase(p),
            -11_447 <= phase <= 256,
            mg == terms_sum(p, *params, gp, n as int).0,
            eg == terms_sum(p, *params, gp, n as int).1,
            -sum_bound(n as int) <= mg <= sum_bound(n as int),
            -sum_bound(n as int) <= eg <= sum_bound(n as int),
            collect_terms ==> terms@.len() == n,
            !collect_terms ==> terms@.len() == 0,
            collect_terms ==> forall|k: int|
                0 <= k < n ==> #[trigger] terms@[k].name@ == term_name(k) && terms@[k].mg == term(p, *params, gp, k).0
                    && terms@[k].eg == term(p, *params, gp, k).1,
        decreases 18 - n,
    {
        let t = if n < 9 {
            leading_terms(board, params, pawns, phase, n)
        } else {
            trailing_terms(board, params, Ghost(gp), phase, n)
        };
        mg = mg + t.0;
        eg = eg + t.1;
        let ghost before = terms@;
        push_term(&mut terms, collect_terms, name_of(n), t.0, t.1);
        n = n + 1;
        proof {
            if collect_terms {
                assert forall|k: int| 0 <= k < n implies #[trigger] terms@[k].name@ == term_name(k) && terms@[k].mg
                    == term(p, *params, gp, k).0 && terms@[k].eg == term(p, *params, gp, k).1 by {
                    if k < n - 1 {
                        assert(terms@[k] == before[k]);
                    } else {
                        assert(terms@[k] == terms@.last());
                    }
                }
            }
        }
    }
    let a: i64 = prod(mg, 256 - phase, Ghost(20_472_000), Ghost(11_703));
    let c: i64 = prod(eg, phase, Ghost(20_472_000), Ghost(11_447));
    let interpolated: i64 = div_i64(a + c, 256);
    proof {
        lemma_interpolated(a + c);
    }
    let scale: i64 = endgame_scale_factor(board, params, interpolated, phase);
    let scaled: i64 = prod(interpolated, scale, Ghost(2_147_000_000), Ghost(128));
    let final_score: i64 = div_i64(scaled, 128);
    proof {
        lemma_scaled(interpolated as int, scale as int);
    }
    EvalBreakdown {
        phase: phase as i32,
        terms,
        mg_total: mg as i32,
        eg_total: eg as i32,
        interpolated: interpolated as i32,
        scale: scale as i32,
        final_score: final_score as i32,
    }
}

proof fn lemma_interpolated(x: int)
    requires
        -549_000_000_000 <= x <= 549_000_000_000,
    ensures
        -2_147_000_000 <= quot(x, 256) <= 2_147_000_000,
{
}

proof fn lemma_scaled(x: int, s: int)
    requires
        0 <= s <= 128,
        -2_147_000_000 <= x <= 2_147_000_000,
    ensures
        -2_147_000_000 <= quot(x * s, 128) <= 2_147_000_000,
{
    if x >= 0 {
        assert(0 <= x * s <= x * 128) by (nonlinear_arith)
            requires
                x >= 0,
                0 <= s <= 128,
        ;
    } else {
        assert(x * 128 <= x * s <= 0) by (nonlinear_arith)
            requires
                x < 0,
                0 <= s <= 128,
        ;
    }
}

/// Evaluate a position term by term.
pub fn evaluate_impl(board: &Board, params: &EvalParams, collect_terms: bool) -> (r: EvalBreakdown)
    requires
        params.tame(),
    ensures
        breaks_down(r, board@, *params, pawn_term(board@, *params), collect_terms),
        -2_147_000_000 <= r.final_score <= 2_147_000_000,
{
    let pawns = pawn_structure(board, params);
    let ghost t = pawn_term(board@, *params);
    proof {
        assert((pawns.0 as int, pawns.1 as int) == t);
    }
    evaluate_with_pawns(board, params, pawns, collect_terms)
}

/// Evaluate using custom parameters (for the tuner).
pub fn evaluate_with_params(board: &Board, params: &EvalParams) -> (r: Score)
    requires
        params.tame(),
    ensures
        r.0 == score_of(board@, *params),
        -2_147_000_000 <= r.0 <= 2_147_000_000,
{
    Score(evaluate_impl(board, params, false).final_score)
}

/// Evaluate the position. Positive = White advantage (in centipawns).
pub fn evaluate(board: &Board) -> (r: Score)
    ensures
        exists|d: EvalParams| #[trigger] d.is_default() && r.0 == score_of(board@, d),
        -2_147_000_000 <= r.0 <= 2_147_000_000,
{
    let params = EvalParams::default();
    evaluate_with_params(board, &params)
}

/// A score for White from elsewhere, with the endgame scale factor applied.
pub open spec fn scaled_score(p: Position, params: EvalParams, score: int) -> int {
    quot(score * endgame_scale(p, params, score, game_phase(p)), 128)
}

/// Apply the endgame scale factor to a score for White that comes from
/// elsewhere. Returns the scaled score, still from White's perspective.
pub fn scale_for_endgame(board: &Board, score_from_white: i32) -> (r: i32)
    requires
        -2_147_000_000 <= score_from_white <= 2_147_000_000,
    ensures
        exists|d: EvalParams| #[trigger]
            d.is_default() && r == scaled_score(board@, d, score_from_white as int),
        magnitude(r as int) <= magnitude(score_from_white as int),
{
    let params = EvalParams::default();
    scale_with_params(board, &params, score_from_white)
}

/// Apply the endgame scale factor of given parameters.
pub fn scale_with_params(board: &Board, params: &EvalParams, score_from_white: i32) -> (r: i32)
    requires
        -2_147_000_000 <= score_from_white <= 2_147_000_000,
    ensures
        r == scaled_score(board@, *params, score_from_white as int),
        magnitude(r as int) <= magnitude(score_from_white as int),
{
    let phase: i64 = phase_of(board);
    let scale: i64 = endgame_scale_factor(board, params, score_from_white as i64, phase);
    proof {
        lemma_scaled(score_from_white as int, scale as int);
        lemma_scaled_magnitude(score_from_white as int, scale as int);
    }
    div_i64(prod(score_from_white as i64, scale, Ghost(2_147_000_000), Ghost(128)), 128) as i32
}

proof fn lemma_scaled_magnitude(x: int, s: int)
    requires
        0 <= s <= 128,
    ensures
        magnitude(quot(x * s, 128)) <= magnitude(x),
{
    if x >= 0 {
        assert(0 <= x * s <= x * 128) by (nonlinear_arith)
            requires
                x >= 0,
                0 <= s <= 128,
        ;
    } else {
        assert(x * 128 <= x * s <= 0) by (nonlinear_arith)
            requires
                x < 0,
                0 <= s <= 128,
        ;
    }
}

// Pawn hash table.
/// A hash of the pawns alone.
pub open spec fn pawn_key(p: Position) -> u64 {
    p.set_of(Color::White, PieceKind::Pawn).0.wrapping_mul(0xD4E8_E29E_56E8_AAB6) ^ p.set_of(
        Color::Black,
        PieceKind::Pawn,
    ).0.wrapping_mul(0x6A1E_2D3C_4B5F_8097)
}

/// Compute a hash for just the pawn configuration.
pub fn pawn_hash(board: &Board) -> (r: u64)
    ensures
        r == pawn_key(board@),
{
    let wp: u64 = board.set_of(Color::White, PieceKind::Pawn).0;
    let bp: u64 = board.set_of(Color::Black, PieceKind::Pawn).0;
    // Distinct multipliers avoid collisions between colors.
    wp.wrapping_mul(0xD4E8_E29E_56E8_AAB6) ^ bp.wrapping_mul(0x6A1E_2D3C_4B5F_8097)
}

/// One slot of the pawn hash table.
#[derive(Clone, Copy, PartialEq, Eq, Debug, Structural)]
pub struct PawnHashEntry {
    pub key: u64,
    pub data: u64,
}

/// A cache of pawn structure values.
pub struct PawnHashTable {
    entries: Vec<PawnHashEntry>,
}

/// Two's complement of a number in 32 bits.
pub open spec fn word32(x: int) -> u64 {
    (if x < 0 { x + 4294967296 } else { x }) as u64
}

/// The number of 32 bits in two's complement.
pub open spec fn signed32(w: u64) -> int {
    if w >= 2147483648 { w - 4294967296 } else { w as int }
}

/// Both values in one word.
pub open spec fn packed_pair(mg: int, eg: int) -> u64 {
    word32(mg) | (word32(eg) << 32)
}

impl PawnHashTable {
    pub closed spec fn slots(&self) -> Seq<PawnHashEntry> {
        self.entries@
    }

    pub open spec fn ok(&self) -> bool {
        self.slots().len() == 16384
    }

    /// What the table holds for a pawn hash.
    pub open spec fn found(&self, hash: u64) -> Option<(i32, i32)> {
        let e = self.slots()[(hash & 16383) as int];
        if e.key ^ e.data == hash {
            Some((signed32(e.data & 0xFFFF_FFFF) as i32, signed32((e.data >> 32) & 0xFFFF_FFFF) as i32))
        } else {
            None
        }
    }

    pub fn new() -> (r: Self)
        ensures
            r.ok(),
            forall|i: int| 0 <= i < 16384 ==> #[trigger] r.slots()[i] == (PawnHashEntry { key: 0, data: 0 }),
    {
        let mut entries: Vec<PawnHashEntry> = Vec::new();
        let mut i: usize = 0;
        while i < 16384
            invariant
                i <= 16384,
                entries@.len() == i,
                forall|j: int| 0 <= j < i ==> #[trigger] entries@[j] == (PawnHashEntry { key: 0, data: 0 }),
            decreases 16384 - i,
        {
            entries.push(PawnHashEntry { key: 0, data: 0 });
            i = i + 1;
        }
        PawnHashTable { entries }
    }

    pub fn probe(&self, hash: u64) -> (r: Option<(i32, i32)>)
        requires
            self.ok(),
        ensures
            r == self.found(hash),
    {
        proof {
            lemma_masked(hash, 16383);
        }
        let e = self.entries[(hash & 16383) as usize];
        if e.key ^ e.data != hash {
            return None;
        }
        let data: u64 = e.data;
        proof {
            lemma_masked(data, 0xFFFF_FFFF);
            lemma_masked(data >> 32, 0xFFFF_FFFF);
        }
        Some((from_word32(data & 0xFFFF_FFFF), from_word32((data >> 32) & 0xFFFF_FFFF)))
    }

    pub fn store(&mut self, hash: u64, mg: i32, eg: i32)
        requires
            old(self).ok(),
        ensures
            final(self).ok(),
            final(self).slots() == old(self).slots().update(
                (hash & 16383) as int,
                PawnHashEntry { key: hash ^ packed_pair(mg as int, eg as int), data: packed_pair(mg as int, eg as int) },
            ),
    {
        proof {
            lemma_masked(hash, 16383);
        }
        let lo: u64 = to_word32(mg);
        let hi: u64 = to_word32(eg);
        let data: u64 = lo | (hi << 32);
        self.entries[(hash & 16383) as usize] = PawnHashEntry { key: hash ^ data, data };
    }
}

fn to_word32(x: i32) -> (r: u64)
    ensures
        r == word32(x as int),
        r < 4294967296,
{
    if x < 0 {
        (x as i64 + 4294967296) as u64
    } else {
        x as u64
    }
}

fn from_word32(w: u64) -> (r: i32)
    requires
        w < 4294967296,
    ensures
        r == signed32(w),
{
    if w >= 2147483648 {
        (w as i64 - 4294967296) as i32
    } else {
        w as i32
    }
}

/// What is stored under a pawn hash is found under it.
pub proof fn law_pawn_store_then_probe(before: PawnHashTable, after: PawnHashTable, hash: u64, mg: i32, eg: i32)
    requires
        before.ok(),
        after.slots() == before.slots().update(
            (hash & 16383) as int,
            PawnHashEntry { key: hash ^ packed_pair(mg as int, eg as int), data: packed_pair(mg as int, eg as int) },
        ),
    ensures
        after.found(hash) == Some((mg, eg)),
{
    lemma_masked(hash, 16383);
    let lo = word32(mg as int);
    let hi = word32(eg as int);
    assert(lo < 4294967296 && hi < 4294967296 ==> ((lo | (hi << 32)) & 0xFFFF_FFFF == lo && ((lo | (hi << 32)) >> 32)
        & 0xFFFF_FFFF == hi)) by (bit_vector);
    lemma_xor(hash, packed_pair(mg as int, eg as int), 0);
}

/// Evaluate with a pawn hash table. A hit is taken as it is, also when it was
/// stored for a position with the same pawns but other pieces; a miss is
/// computed and stored.
pub fn evaluate_cached(board: &Board, params: &EvalParams, table: &mut PawnHashTable) -> (r: Score)
    requires
        params.tame(),
        old(table).ok(),
    ensures
        final(table).ok(),
        match old(table).found(pawn_key(board@)) {
            Some(hit) => {
                &&& r.0 == score_with_pawns(board@, *params, (hit.0 as int, hit.1 as int))
                &&& final(table).slots() == old(table).slots()
            },
            None => {
                &&& r.0 == score_of(board@, *params)
                &&& final(table).slots() == old(table).slots().update(
                    (pawn_key(board@) & 16383) as int,
                    PawnHashEntry {
                        key: pawn_key(board@) ^ packed_pair(
                            pawn_term(board@, *params).0,
                            pawn_term(board@, *params).1,
                        ),
                        data: packed_pair(pawn_term(board@, *params).0, pawn_term(board@, *params).1),
                    },
                )
            },
        },
        -2_147_000_000 <= r.0 <= 2_147_000_000,
{
    let hash: u64 = pawn_hash(board);
    let pawns = match table.probe(hash) {
        Some(hit) => hit,
        None => {
            let fresh = pawn_structure(board, params);
            table.store(hash, fresh.0, fresh.1);
            proof {
                assert((fresh.0 as int, fresh.1 as int) == pawn_term(board@, *params));
            }
            fresh
        },
    };
    Score(evaluate_with_pawns(board, params, pawns, false).final_score)
}

/// Without pawns to win with, a lone minor piece is worth nothing: the
/// evaluation is zero.
pub proof fn law_lone_minor_is_drawn(p: Position, params: EvalParams)
    requires
        game_phase(p) >= 128,
        mixed(p, params, pawn_term(p, params)) > 0,
        kind_count(p, Color::White, PieceKind::Pawn) == 0,
        major_count(p, Color::White) == 0,
        minor_count(p, Color::White) <= 1,
        !opposite_bishops(p),
        !queen_against_pawns(p, Color::Black),
    ensures
        score_of(p, params) == 0,
{
    let m = mixed(p, params, pawn_term(p, params));
    assert(endgame_scale(p, params, m, game_phase(p)) == 0);
}

/// Distinct multipliers per color and piece kind, used to hash piece placements
/// into the keys of learned corrections.
pub const PIECE_MIX: [u64; 12] = [
    0xD4E8E29E56E8AAB6,
    0x9E3779B97F4A7C15,
    0xBF58476D1CE4E5B9,
    0x94D049BB133111EB,
    0x2545F4914F6CDD1D,
    0xC2B2AE3D27D4EB4F,
    0x6A1E2D3C4B5F8097,
    0xA0761D6478BD642F,
    0xE7037ED1A0B428DB,
    0x8EBC6AF09C88C6E3,
    0x589965CC75374CC3,
    0x1D8E4E27C47D124F,
];

/// Hash keys for the facets of a position that corrections are learned by.
#[derive(Clone, Copy, PartialEq, Eq, Debug, Structural)]
pub struct CorrKeys {
    pub pawn: u64,
    /// White's placement without pawns.
    pub white: u64,
    /// Black's placement without pawns.
    pub black: u64,
    /// Knights, bishops and kings of both colors.
    pub minor: u64,
    /// Rooks, queens and kings of both colors.
    pub major: u64,
}

/// The hash of the placement of one kind of piece.
pub open spec fn mix(p: Position, c: Color, k: PieceKind) -> u64 {
    p.set_of(c, k).0.wrapping_mul(PIECE_MIX@[c.idx() * 6 + k.idx()])
}

/// The hash of the placement of one kind of piece of both colors.
pub open spec fn mix_both(p: Position, k: PieceKind) -> u64 {
    mix(p, Color::White, k) ^ mix(p, Color::Black, k)
}

/// The hash of the placement of a color's pieces other than pawns.
pub open spec fn mix_pieces(p: Position, c: Color) -> u64 {
    mix(p, c, PieceKind::Knight) ^ mix(p, c, PieceKind::Bishop) ^ mix(p, c, PieceKind::Rook) ^ mix(
        p,
        c,
        PieceKind::Queen,
    ) ^ mix(p, c, PieceKind::King)
}

/// The correction keys of a position.
pub open spec fn keys_of(p: Position) -> CorrKeys {
    CorrKeys {
        pawn: pawn_key(p),
        white: mix_pieces(p, Color::White),
        black: mix_pieces(p, Color::Black),
        minor: mix_both(p, PieceKind::Knight) ^ mix_both(p, PieceKind::Bishop) ^ mix_both(p, PieceKind::King),
        major: mix_both(p, PieceKind::Rook) ^ mix_both(p, PieceKind::Queen) ^ mix_both(p, PieceKind::King),
    }
}

fn mix_of(board: &Board, c: Color, k: PieceKind) -> (r: u64)
    ensures
        r == mix(board@, c, k),
{
    board.set_of(c, k).0.wrapping_mul(PIECE_MIX[c.index() * 6 + k.index()])
}

fn mix_of_both(board: &Board, k: PieceKind) -> (r: u64)
    ensures
        r == mix_both(board@, k),
{
    mix_of(board, Color::White, k) ^ mix_of(board, Color::Black, k)
}

fn mix_of_pieces(board: &Board, c: Color) -> (r: u64)
    ensures
        r == mix_pieces(board@, c),
{
    mix_of(board, c, PieceKind::Knight) ^ mix_of(board, c, PieceKind::Bishop) ^ mix_of(board, c, PieceKind::Rook)
        ^ mix_of(board, c, PieceKind::Queen) ^ mix_of(board, c, PieceKind::King)
}

/// The correction keys of a position.
pub fn corr_keys(board: &Board) -> (r: CorrKeys)
    ensures
        r == keys_of(board@),
{
    CorrKeys {
        pawn: pawn_hash(board),
        white: mix_of_pieces(board, Color::White),
        black: mix_of_pieces(board, Color::Black),
        minor: mix_of_both(board, PieceKind::Knight) ^ mix_of_both(board, PieceKind::Bishop) ^ mix_of_both(
            board,
            PieceKind::King,
        ),
        major: mix_of_both(board, PieceKind::Rook) ^ mix_of_both(board, PieceKind::Queen) ^ mix_of_both(
            board,
            PieceKind::King,
        ),
    }
}

/// The sum of the first `n` terms of a breakdown.
pub open spec fn listed_sum(terms: Seq<EvalTerm>, n: int) -> (int, int)
    decreases n,
{
    if n <= 0 {
        (0, 0)
    } else {
        let rest = listed_sum(terms, n - 1);
        (rest.0 + terms[n - 1].mg, rest.1 + terms[n - 1].eg)
    }
}

proof fn lemma_listed_sum(r: EvalBreakdown, p: Position, params: EvalParams, pawns: (int, int), n: int)
    requires
        breaks_down(r, p, params, pawns, true),
        n <= 18,
    ensures
        listed_sum(r.terms@, n) == terms_sum(p, params, pawns, n),
    decreases n,
{
    if n > 0 {
        lemma_listed_sum(r, p, params, pawns, n - 1);
        assert(r.terms@[n - 1].name@ == term_name(n - 1));
    }
}

/// A breakdown adds up: the totals are the sums of its terms, the interpolated
/// value mixes them by the phase, and the score is that value scaled by a part
/// of 128.
pub proof fn law_breakdown_adds_up(r: EvalBreakdown, p: Position, params: EvalParams, pawns: (int, int))
    requires
        breaks_down(r, p, params, pawns, true),
    ensures
        r.terms@.len() == 18,
        (r.mg_total as int, r.eg_total as int) == listed_sum(r.terms@, 18),
        r.interpolated == quot(r.mg_total * (256 - r.phase) + r.eg_total * r.phase, 256),
        0 <= r.scale <= 128,
        r.final_score == quot(r.interpolated * r.scale, 128),
{
    lemma_listed_sum(r, p, params, pawns, 18);
}

/// A breakdown without its terms has the same numbers.
pub proof fn law_terms_are_optional(
    a: EvalBreakdown,
    b: EvalBreakdown,
    p: Position,
    params: EvalParams,
    pawns: (int, int),
)
    requires
        breaks_down(a, p, params, pawns, true),
        breaks_down(b, p, params, pawns, false),
    ensures
        b.terms@.len() == 0,
        b.phase == a.phase,
        b.mg_total == a.mg_total,
        b.eg_total == a.eg_total,
        b.interpolated == a.interpolated,
        b.scale == a.scale,
        b.final_score == a.final_score,
{
}

} // verus!
