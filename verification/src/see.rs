//! Static Exchange Evaluation (SEE).
//!
//! The value of a capture is what it gains, less the best that the opponent
//! can get out of recapturing on the same square: each side captures with its
//! least valuable attacker or stops. Sliders behind a piece that has captured
//! join in.

use vstd::prelude::*;
use crate::attack_laws::{blocks_less, lemma_hits_with_fewer};
use crate::attacks::{all_attackers_of, bishop_attacks, bishop_hits, hit_from, is_square, law_attack_symmetry, piece_hits, rook_attacks, rook_hits};
use crate::bits::{bit, group_bits, lemma_bits_extensional, lemma_no_bits, lemma_word_of, squares, word_of};
use crate::board::{Board, Position};
use crate::movegen::pseudo_moves;
use crate::movegen_laws::{law_generated_moves_fit, lemma_set_is_mailbox};
use crate::moves::{Move, MoveFlag};
use crate::types::{kind_at, Bitboard, Color, Piece, PieceKind, Square};

verus! {

/// Exchange values of the pieces; the king's stands for more than all others.
pub open spec fn exchange_value(kind: PieceKind) -> int {
    match kind {
        PieceKind::Pawn => 100,
        PieceKind::Knight => 320,
        PieceKind::Bishop => 330,
        PieceKind::Rook => 500,
        PieceKind::Queen => 900,
        PieceKind::King => 20000,
    }
}

fn see_value(kind: PieceKind) -> (r: i32)
    ensures
        r == exchange_value(kind),
{
    match kind {
        PieceKind::Pawn => 100,
        PieceKind::Knight => 320,
        PieceKind::Bishop => 330,
        PieceKind::Rook => 500,
        PieceKind::Queen => 900,
        PieceKind::King => 20000,
    }
}

/// Exchange value of what stands on a square.
pub open spec fn value_on(p: Position, sq: int) -> int {
    match p.mailbox[sq] {
        Some(piece) => exchange_value(piece.kind),
        None => 0,
    }
}

/// What a move gains at once.
pub open spec fn first_gain(p: Position, m: Move) -> int {
    if m.kind() == MoveFlag::EnPassant {
        100
    } else {
        match m.kind().promoted() {
            Some(kind) => value_on(p, m.dst()) + exchange_value(kind) - 100,
            None => value_on(p, m.dst()),
        }
    }
}

/// What stands on the target square after the move and can be retaken.
pub open spec fn first_risk(p: Position, m: Move) -> int {
    match m.kind().promoted() {
        Some(kind) => exchange_value(kind),
        None => value_on(p, m.src()),
    }
}

/// A bishop or queen of either color.
pub open spec fn is_diagonal_slider(p: Position, i: int) -> bool {
    ||| p.set_of(Color::White, PieceKind::Bishop).has(i)
    ||| p.set_of(Color::Black, PieceKind::Bishop).has(i)
    ||| p.set_of(Color::White, PieceKind::Queen).has(i)
    ||| p.set_of(Color::Black, PieceKind::Queen).has(i)
}

/// A rook or queen of either color.
pub open spec fn is_straight_slider(p: Position, i: int) -> bool {
    ||| p.set_of(Color::White, PieceKind::Rook).has(i)
    ||| p.set_of(Color::Black, PieceKind::Rook).has(i)
    ||| p.set_of(Color::White, PieceKind::Queen).has(i)
    ||| p.set_of(Color::Black, PieceKind::Queen).has(i)
}

/// The pieces still on the board that attack the square.
pub open spec fn first_attackers(p: Position, to: int, occ: u64) -> u64 {
    word_of(
        |i: int|
            (hit_from(p, occ, Color::White, i, to) || hit_from(p, occ, Color::Black, i, to)) && bit(occ, i),
    )
}

/// The attackers once a piece has left the board: those that remain, and the
/// sliders that it uncovered.
pub open spec fn next_attackers(p: Position, to: int, attackers: u64, occ: u64) -> u64 {
    word_of(
        |i: int|
            {
                &&& bit(occ, i)
                &&& {
                    ||| bit(attackers, i)
                    ||| bishop_hits(occ, to, i) && is_diagonal_slider(p, i)
                    ||| rook_hits(occ, to, i) && is_straight_slider(p, i)
                }
            },
    )
}

/// The attackers of one side.
pub open spec fn side_attackers(p: Position, occ: u64, attackers: u64, stm: Color) -> u64 {
    attackers & occ & p.occupancy[stm.idx()].0
}

/// The least valuable kind of piece of a color in a set, from `k` up.
pub open spec fn least_kind(p: Position, set: u64, color: Color, k: int) -> int
    decreases 5 - k,
{
    if k >= 5 || set & p.pieces[color.idx()][k].0 != 0 { k } else { least_kind(p, set, color, k + 1) }
}

/// The piece that a side captures with: the lowest square among its attackers
/// of the least valuable kind.
pub open spec fn capturer(p: Position, set: u64, color: Color) -> int {
    squares(set & p.pieces[color.idx()][least_kind(p, set, color, 0)].0)[0]
}

pub open spec fn capturer_value(p: Position, set: u64, color: Color) -> int {
    exchange_value(kind_at(least_kind(p, set, color, 0)))
}

pub proof fn lemma_clear_less(x: u64, k: int)
    requires
        bit(x, k),
    ensures
        x ^ (1u64 << (k as u64)) < x,
{
    reveal(bit);
    let j = k as u64;
    assert(j < 64 && (x >> j) & 1u64 == 1u64 ==> x ^ (1u64 << j) < x) by (bit_vector);
}

pub proof fn lemma_capturer(p: Position, set: u64, color: Color)
    requires
        set & p.pieces[color.idx()][least_kind(p, set, color, 0)].0 != 0,
    ensures
        bit(set, capturer(p, set, color)),
        is_square(capturer(p, set, color)),
{
    broadcast use group_bits;
    let x = set & p.pieces[color.idx()][least_kind(p, set, color, 0)].0;
    crate::bits::lemma_pop(x);
    crate::bits::lemma_lowest(x);
    assert(bit(x, capturer(p, set, color)));
}

/// The most that the side to move can get out of recapturing a piece worth
/// `risk` on the square: nothing if it has no attacker or does better to stop.
pub open spec fn best_recapture(p: Position, to: int, occ: u64, attackers: u64, stm: Color, risk: int) -> int
    decreases occ,
{
    let mine = side_attackers(p, occ, attackers, stm);
    let pieces = mine & p.pieces[stm.idx()][least_kind(p, mine, stm, 0)].0;
    if mine == 0 || pieces == 0 {
        0
    } else {
        proof {
            lemma_capturer(p, mine, stm);
            lemma_bit_in(attackers, occ, p.occupancy[stm.idx()].0, capturer(p, mine, stm));
            lemma_clear_less(occ, capturer(p, mine, stm));
        }
        let sq = capturer(p, mine, stm);
        let next_occ = occ ^ (1u64 << (sq as u64));
        let gain = risk - best_recapture(
            p,
            to,
            next_occ,
            next_attackers(p, to, attackers, next_occ),
            stm.other(),
            capturer_value(p, mine, stm),
        );
        if gain > 0 { gain } else { 0 }
    }
}

pub proof fn lemma_bit_in(a: u64, b: u64, c: u64, i: int)
    ensures
        bit(a & b & c, i) ==> bit(a, i) && bit(b, i) && bit(c, i),
{
    broadcast use group_bits;
}

/// What the board looks like to sliders once the move is made.
pub open spec fn occ_after(p: Position, m: Move) -> u64 {
    let occ = p.occupied().0 ^ (1u64 << (m.src() as u64));
    if m.kind() == MoveFlag::EnPassant {
        occ ^ (1u64 << ((m.src() / 8 * 8 + m.dst() % 8) as u64))
    } else {
        occ
    }
}

/// The static exchange value of a move.
pub open spec fn static_exchange(p: Position, m: Move) -> int {
    let occ = occ_after(p, m);
    first_gain(p, m) - best_recapture(
        p,
        m.dst(),
        occ,
        first_attackers(p, m.dst(), occ),
        p.side.other(),
        first_risk(p, m),
    )
}

/// A recapture gains at least nothing and at most what is at risk.
proof fn lemma_recapture_bounds(p: Position, to: int, occ: u64, attackers: u64, stm: Color, risk: int)
    requires
        risk >= 0,
    ensures
        0 <= best_recapture(p, to, occ, attackers, stm, risk) <= risk,
    decreases occ,
{
    let mine = side_attackers(p, occ, attackers, stm);
    let pieces = mine & p.pieces[stm.idx()][least_kind(p, mine, stm, 0)].0;
    if mine == 0 || pieces == 0 {
    } else {
        lemma_capturer(p, mine, stm);
        lemma_bit_in(attackers, occ, p.occupancy[stm.idx()].0, capturer(p, mine, stm));
        lemma_clear_less(occ, capturer(p, mine, stm));
        let sq = capturer(p, mine, stm);
        let next_occ = occ ^ (1u64 << (sq as u64));
        lemma_recapture_bounds(
            p,
            to,
            next_occ,
            next_attackers(p, to, attackers, next_occ),
            stm.other(),
            capturer_value(p, mine, stm),
        );
    }
}

/// Find the least valuable attacker among `attackers` for `color`.
/// Returns (square, value).
fn least_valuable_attacker(board: &Board, attackers: Bitboard, color: Color) -> (r: (Square, i32))
    requires
        exists|k: int|
            0 <= k < 6 && attackers.0 & (#[trigger] board@.pieces[color.idx()][k]).0 != 0,
    ensures
        r.0.ok(),
        (r.0).0 == capturer(board@, attackers.0, color),
        r.1 == capturer_value(board@, attackers.0, color),
        attackers.0 & board@.pieces[color.idx()][least_kind(board@, attackers.0, color, 0)].0 != 0,
        attackers.has((r.0).0 as int),
{
    let ghost p = board@;
    let mut k: usize = 0;
    while k < 5
        invariant
            k <= 5,
            p == board@,
            least_kind(p, attackers.0, color, k as int) == least_kind(p, attackers.0, color, 0),
            forall|j: int| 0 <= j < k ==> attackers.0 & (#[trigger] p.pieces[color.idx()][j]).0 == 0,
            exists|j: int| 0 <= j < 6 && attackers.0 & (#[trigger] p.pieces[color.idx()][j]).0 != 0,
        decreases 5 - k,
    {
        let kind = PieceKind::ALL[k];
        let piece_bb = attackers & board.pieces[color.index()][k];
        proof {
            assert(piece_bb.0 == attackers.0 & p.pieces[color.idx()][k as int].0);
            assert(kind == kind_at(k as int));
        }
        if piece_bb.0 != 0 {
            proof {
                lemma_capturer(p, attackers.0, color);
            }
            return (piece_bb.lowest(), see_value(kind));
        }
        k = k + 1;
    }
    let piece_bb = attackers & board.pieces[color.index()][5];
    proof {
        assert(piece_bb.0 == attackers.0 & p.pieces[color.idx()][5].0);
        lemma_capturer(p, attackers.0, color);
    }
    (piece_bb.lowest(), see_value(PieceKind::King))
}

/// The attackers of one side in a consistent position are among its pieces.
proof fn lemma_attackers_are_pieces(p: Position, set: u64, color: Color)
    requires
        p.consistent(),
        set != 0,
        forall|i: int| #[trigger] bit(set, i) ==> p.occupancy[color.idx()].has(i),
    ensures
        exists|k: int| 0 <= k < 6 && set & (#[trigger] p.pieces[color.idx()][k]).0 != 0,
{
    broadcast use group_bits;
    crate::bits::lemma_lowest(set);
    let i = vstd::std_specs::bits::u64_trailing_zeros(set) as int;
    assert(bit(set, i));
    assert(p.occupancy[color.idx()].has(i));
    assert(p.mailbox[i] is Some && p.mailbox[i]->Some_0.color == color);
    let kind = p.mailbox[i]->Some_0.kind;
    lemma_set_is_mailbox(p, color, kind, i);
    let k = kind.idx();
    assert(bit(set & p.pieces[color.idx()][k].0, i));
    if set & p.pieces[color.idx()][k].0 == 0 {
        assert(bit(0u64, i));
    }
    assert(set & (p.pieces[color.idx()][k]).0 != 0);
}

/// Returns true if the SEE value of move `m` is >= `threshold`.
pub fn see_ge(board: &Board, m: Move, threshold: i32) -> (r: bool)
    requires
        board@.consistent(),
    ensures
        r == (static_exchange(board@, m) >= threshold),
{
    proof {
        law_see_bounds(board@, m);
    }
    if threshold > 1_000_000_000 {
        false
    } else if threshold < -1_000_000_000 {
        true
    } else {
        exchange_reaches(board, m, threshold)
    }
}

/// The value itself is not computed: each side in turn recaptures as long as
/// that changes the answer.
fn exchange_reaches(board: &Board, m: Move, threshold: i32) -> (r: bool)
    requires
        board@.consistent(),
        -1_000_000_000 <= threshold <= 1_000_000_000,
    ensures
        r == (static_exchange(board@, m) >= threshold),
{
    let from = m.from_sq();
    let to = m.to_sq();
    let flag = m.flag();
    let ghost p = board@;
    let ghost t = to.0 as int;

    // The initial material gain of the capture.
    let victim: i32 = match board.piece_at(to) {
        Some(piece) => see_value(piece.kind),
        None => 0,
    };
    let gain: i32 = if flag == MoveFlag::EnPassant {
        100
    } else {
        match flag.promotion_piece() {
            Some(kind) => victim + see_value(kind) - 100,
            None => victim,
        }
    };
    // The value of the piece put at risk.
    let risk: i32 = match flag.promotion_piece() {
        Some(kind) => see_value(kind),
        None => match board.piece_at(from) {
            Some(piece) => see_value(piece.kind),
            None => 0,
        },
    };
    let ghost occ0 = occ_after(p, m);
    let ghost att0 = first_attackers(p, t, occ0);
    let ghost us = p.side;
    proof {
        lemma_recapture_bounds(p, t, occ0, att0, us.other(), risk as int);
    }
    // Can the threshold be met even in the best case?
    let mut swap: i32 = gain - threshold;
    if swap < 0 {
        return false;
    }
    // Is it met even if the piece is lost?
    swap = swap - risk;
    if swap >= 0 {
        return true;
    }
    let mut occ = board.all_occupancy() ^ from.bitboard();
    // En passant also removes the captured pawn.
    if flag == MoveFlag::EnPassant {
        let ep_sq = Square::new(to.file(), from.rank());
        occ = occ ^ ep_sq.bitboard();
    }
    let diag_sliders = board.pieces[0][2] | board.pieces[1][2] | board.pieces[0][4] | board.pieces[1][4];
    let orth_sliders = board.pieces[0][3] | board.pieces[1][3] | board.pieces[0][4] | board.pieces[1][4];
    let mut attackers = all_attackers_of(board, to, occ) & occ;
    let mut stm = board.side_to_move.opposite();
    proof {
        broadcast use group_bits;
        assert(occ.0 == occ0);
        let f = |i: int|
            (hit_from(p, occ0, Color::White, i, t) || hit_from(p, occ0, Color::Black, i, t)) && bit(occ0, i);
        lemma_word_of(f);
        assert forall|i: int| 0 <= i < 64 implies bit(attackers.0, i) == bit(att0, i) by {
            assert(bit(att0, i) == f(i));
        }
        lemma_bits_extensional(attackers.0, att0);
    }
    // `swap` is what the side that just moved is ahead by, less the piece now
    // at risk: `swap + at_risk` is the most that the recapture may gain.
    let ghost mut at_risk = risk as int;
    // Whether the outcome so far is the negation of the answer.
    let ghost mut flipped = false;
    let mut done = false;
    while !done
        invariant
            p == board@,
            p.consistent(),
            to.ok(),
            t == to.0,
            us == p.side,
            diag_sliders.0 == p.pieces[0][2].0 | p.pieces[1][2].0 | p.pieces[0][4].0 | p.pieces[1][4].0,
            orth_sliders.0 == p.pieces[0][3].0 | p.pieces[1][3].0 | p.pieces[0][4].0 | p.pieces[1][4].0,
            0 <= at_risk <= 20000,
            !done ==> -20000 <= swap < 0,
            !done ==> swap + at_risk >= 0,
            forall|i: int| #[trigger] bit(attackers.0, i) ==> bit(occ.0, i),
            !done ==> flipped == (stm == us),
            !done ==> (static_exchange(p, m) >= threshold) == (flipped != (best_recapture(
                p,
                t,
                occ.0,
                attackers.0,
                stm,
                at_risk,
            ) <= swap + at_risk)),
            done ==> (static_exchange(p, m) >= threshold) == (stm != us),
        decreases occ.0, (if done { 0int } else { 1 }),
    {
        let stm_attackers = attackers & board.occupancy[stm.index()];
        let ghost mine = side_attackers(p, occ.0, attackers.0, stm);
        proof {
            broadcast use group_bits;
            assert forall|i: int| 0 <= i < 64 implies bit(stm_attackers.0, i) == bit(mine, i) by {
                assert(bit(attackers.0, i) ==> bit(occ.0, i));
            }
            lemma_bits_extensional(stm_attackers.0, mine);
        }
        if stm_attackers.is_empty() {
            done = true;
        } else {
            proof {
                broadcast use group_bits;
                lemma_attackers_are_pieces(p, mine, stm);
            }
            let (attacker_sq, attacker_val) = least_valuable_attacker(board, stm_attackers, stm);
            let ghost before_occ = occ.0;
            let ghost before_attackers = attackers.0;
            let ghost before_swap = swap as int;
            let ghost before_stm = stm;
            proof {
                lemma_bit_in(attackers.0, occ.0, p.occupancy[stm.idx()].0, attacker_sq.0 as int);
                lemma_clear_less(occ.0, attacker_sq.0 as int);
            }
            // Flip perspective: the attacker becomes the piece at risk.
            swap = -swap - 1 - attacker_val;
            occ = occ ^ attacker_sq.bitboard();
            // Sliders that stood behind the attacker join in.
            attackers = attackers | (bishop_attacks(to, occ) & diag_sliders);
            attackers = attackers | (rook_attacks(to, occ) & orth_sliders);
            attackers = attackers & occ;
            proof {
                broadcast use group_bits;
                let f = |i: int|
                    {
                        &&& bit(occ.0, i)
                        &&& {
                            ||| bit(before_attackers, i)
                            ||| bishop_hits(occ.0, t, i) && is_diagonal_slider(p, i)
                            ||| rook_hits(occ.0, t, i) && is_straight_slider(p, i)
                        }
                    };
                lemma_word_of(f);
                let next = next_attackers(p, t, before_attackers, occ.0);
                assert forall|i: int| 0 <= i < 64 implies bit(attackers.0, i) == bit(next, i) by {
                    assert(bit(next, i) == f(i));
                    assert(bit(diag_sliders.0, i) == is_diagonal_slider(p, i));
                    assert(bit(orth_sliders.0, i) == is_straight_slider(p, i));
                }
                lemma_bits_extensional(attackers.0, next);
                lemma_recapture_bounds(p, t, occ.0, attackers.0, stm.other(), attacker_val as int);
                lemma_recapture_bounds(p, t, before_occ, before_attackers, stm, at_risk);
            }
            stm = stm.opposite();
            if swap >= 0 {
                // A king may not capture into an attack.
                if attacker_val == 20000 {
                    let own = attackers & board.occupancy[stm.opposite().index()];
                    if !own.is_empty() {
                        stm = stm.opposite();
                    }
                }
                done = true;
            } else {
                proof {
                    at_risk = attacker_val as int;
                    flipped = !flipped;
                }
            }
        }
    }
    stm != board.side_to_move
}

/// An exchange never loses more than the piece that started it, and never
/// gains more than what the move takes at once.
pub proof fn law_see_bounds(p: Position, m: Move)
    ensures
        first_gain(p, m) - first_risk(p, m) <= static_exchange(p, m) <= first_gain(p, m),
{
    let occ = occ_after(p, m);
    lemma_recapture_bounds(
        p,
        m.dst(),
        occ,
        first_attackers(p, m.dst(), occ),
        p.side.other(),
        first_risk(p, m),
    );
}

/// There is one exchange value: what reaches a threshold reaches every lower
/// one. It never exceeds what a pseudo-legal move gains at once, castling aside:
/// the value of the piece taken, and for a promotion that of the new piece less
/// the pawn.
pub proof fn law_exchange_thresholds(p: Position, m: Move, low: int, high: int)
    requires
        p.sound(),
        pseudo_moves(p).contains(m),
        !m.kind().castles(),
        low <= high,
    ensures
        static_exchange(p, m) >= high ==> static_exchange(p, m) >= low,
        static_exchange(p, m) <= (match p.captured_by(m) {
            Some(piece) => exchange_value(piece.kind),
            None => 0,
        }) + (match m.kind().promoted() {
            Some(kind) => exchange_value(kind) - 100,
            None => 0,
        }),
{
    law_see_bounds(p, m);
    law_generated_moves_fit(p, m);
}

/// The value of what a move takes, and for a promotion that of the new piece less
/// the pawn.
pub open spec fn taken_value(p: Position, m: Move) -> int {
    let taken = if m.kind() == MoveFlag::EnPassant {
        100
    } else {
        match p.mailbox[m.dst()] {
            Some(piece) => match piece.kind {
                PieceKind::Pawn => 100int,
                PieceKind::Knight => 320,
                PieceKind::Bishop => 330,
                PieceKind::Rook => 500,
                PieceKind::Queen => 900,
                PieceKind::King => 20000,
            },
            None => 0,
        }
    };
    let made = match m.kind() {
        MoveFlag::PromoteKnight | MoveFlag::PromoteCaptureKnight => 220,
        MoveFlag::PromoteBishop | MoveFlag::PromoteCaptureBishop => 230,
        MoveFlag::PromoteRook | MoveFlag::PromoteCaptureRook => 400,
        MoveFlag::PromoteQueen | MoveFlag::PromoteCaptureQueen => 800,
        _ => 0int,
    };
    taken + made
}

/// No piece of a color bears on a square, even with nothing in its way. The
/// square `aside` does not count.
pub open spec fn never_reaches(p: Position, color: Color, sq: int, aside: int) -> bool {
    forall|i: int, k: PieceKind|
        0 <= i < 64 && i != aside && p.mailbox[i] == Some(Piece { kind: k, color }) ==> !#[trigger] piece_hits(
            k,
            color,
            0,
            i,
            sq,
        )
}

proof fn lemma_nothing_attacks(p: Position, to: int, occ: u64, attackers: u64, stm: Color, aside: int)
    requires
        p.consistent(),
        never_reaches(p, stm, to, aside),
        is_square(to),
        !bit(occ, aside),
        forall|i: int| #[trigger]
            bit(attackers, i) ==> is_square(i) && (hit_from(p, occ, Color::White, i, to) || hit_from(
                p,
                occ,
                Color::Black,
                i,
                to,
            ) || bishop_hits(occ, to, i) && is_diagonal_slider(p, i) || rook_hits(occ, to, i) && is_straight_slider(p, i)),
    ensures
        side_attackers(p, occ, attackers, stm) == 0,
{
    broadcast use group_bits;
    let set = side_attackers(p, occ, attackers, stm);
    assert forall|i: int| 0 <= i < 64 implies !bit(set, i) by {
        if bit(set, i) {
            assert(bit(attackers, i) && bit(occ, i) && p.occupancy[stm.idx()].has(i));
            assert(i != aside);
            assert(p.mailbox[i] is Some && p.mailbox[i]->Some_0.color == stm);
            let kind = p.mailbox[i]->Some_0.kind;
            lemma_hits_on_empty_board(p, to, occ, i, kind, stm);
            assert(p.mailbox[i] == Some(Piece { kind, color: stm }));
        }
    }
    lemma_no_bits(set);
}

proof fn lemma_hits_on_empty_board(p: Position, to: int, occ: u64, i: int, kind: PieceKind, color: Color)
    requires
        p.consistent(),
        is_square(i),
        is_square(to),
        p.mailbox[i] == Some(Piece { kind, color }),
        hit_from(p, occ, Color::White, i, to) || hit_from(p, occ, Color::Black, i, to) || bishop_hits(occ, to, i)
            && is_diagonal_slider(p, i) || rook_hits(occ, to, i) && is_straight_slider(p, i),
    ensures
        piece_hits(kind, color, 0, i, to),
{
    broadcast use group_bits;
    assert(blocks_less(0, occ)) by {
        lemma_no_bits(0);
    }
    lemma_set_is_mailbox(p, Color::White, PieceKind::Bishop, i);
    lemma_set_is_mailbox(p, Color::Black, PieceKind::Bishop, i);
    lemma_set_is_mailbox(p, Color::White, PieceKind::Rook, i);
    lemma_set_is_mailbox(p, Color::Black, PieceKind::Rook, i);
    lemma_set_is_mailbox(p, Color::White, PieceKind::Queen, i);
    lemma_set_is_mailbox(p, Color::Black, PieceKind::Queen, i);
    if bishop_hits(occ, to, i) && is_diagonal_slider(p, i) {
        law_attack_symmetry(PieceKind::Bishop, color.other(), occ, to, i);
        lemma_hits_with_fewer(PieceKind::Bishop, color, 0, occ, i, to);
    } else if rook_hits(occ, to, i) && is_straight_slider(p, i) {
        law_attack_symmetry(PieceKind::Rook, color.other(), occ, to, i);
        lemma_hits_with_fewer(PieceKind::Rook, color, 0, occ, i, to);
    } else {
        let c = if hit_from(p, occ, Color::White, i, to) { Color::White } else { Color::Black };
        let k = choose|k: PieceKind| #[trigger] p.set_of(c, k).has(i) && piece_hits(k, c, occ, i, to);
        lemma_set_is_mailbox(p, c, k, i);
        lemma_hits_with_fewer(k, c, 0, occ, i, to);
    }
}

/// A piece that is not defended is won: where no piece of the opponent bears on
/// the target, a move is worth what it takes.
pub proof fn law_undefended_pieces_are_won(p: Position, m: Move)
    requires
        p.consistent(),
        never_reaches(p, p.side.other(), m.dst(), 64),
    ensures
        static_exchange(p, m) == taken_value(p, m),
{
    broadcast use group_bits;
    let occ = occ_after(p, m);
    let to = m.dst();
    let attackers = first_attackers(p, to, occ);
    lemma_word_of(
        |i: int| (hit_from(p, occ, Color::White, i, to) || hit_from(p, occ, Color::Black, i, to)) && bit(occ, i),
    );
    lemma_nothing_attacks(p, to, occ, attackers, p.side.other(), 64);
}

proof fn lemma_left_the_board(x: u64, k: int)
    requires
        is_square(k),
    ensures
        forall|i: int| #[trigger] bit(x ^ (1u64 << (k as u64)), i) == (bit(x, i) != (i == k)),
{
    broadcast use group_bits;
}

proof fn lemma_least_is_there(p: Position, set: u64, color: Color, k: int, least: int)
    requires
        0 <= least <= k < 6,
        set & p.pieces[color.idx()][k].0 != 0,
    ensures
        set & p.pieces[color.idx()][least_kind(p, set, color, least)].0 != 0,
    decreases 5 - least,
{
    if least < 5 && set & p.pieces[color.idx()][least].0 == 0 {
        lemma_least_is_there(p, set, color, k, least + 1);
    }
}

/// A piece that is defended once and not supported is exchanged: where the
/// opponent bears on the target after the move and no other piece of the mover's
/// side can ever do so, a move is worth what it takes less what it puts there.
pub proof fn law_unsupported_pieces_are_lost(p: Position, m: Move, i: int)
    requires
        p.consistent(),
        p.mailbox[m.src()] is Some,
        m.kind() != MoveFlag::EnPassant,
        never_reaches(p, p.side, m.dst(), m.src()),
        0 <= i < 64,
        i != m.src(),
        p.mailbox[i] is Some,
        p.mailbox[i]->Some_0.color == p.side.other(),
        piece_hits(
            p.mailbox[i]->Some_0.kind,
            p.side.other(),
            p.occupied().0 ^ (1u64 << (m.src() as u64)),
            i,
            m.dst(),
        ),
    ensures
        static_exchange(p, m) == taken_value(p, m) - (match m.kind() {
            MoveFlag::PromoteKnight | MoveFlag::PromoteCaptureKnight => 320,
            MoveFlag::PromoteBishop | MoveFlag::PromoteCaptureBishop => 330,
            MoveFlag::PromoteRook | MoveFlag::PromoteCaptureRook => 500,
            MoveFlag::PromoteQueen | MoveFlag::PromoteCaptureQueen => 900,
            _ => match p.mailbox[m.src()]->Some_0.kind {
                PieceKind::Pawn => 100int,
                PieceKind::Knight => 320,
                PieceKind::Bishop => 330,
                PieceKind::Rook => 500,
                PieceKind::Queen => 900,
                PieceKind::King => 20000,
            },
        }),
{
    broadcast use group_bits;
    let us = p.side;
    let them = p.side.other();
    let to = m.dst();
    let src = m.src();
    let occ = occ_after(p, m);
    let attackers = first_attackers(p, to, occ);
    lemma_word_of(
        |j: int| (hit_from(p, occ, Color::White, j, to) || hit_from(p, occ, Color::Black, j, to)) && bit(occ, j),
    );
    let k = p.mailbox[i]->Some_0.kind;
    lemma_set_is_mailbox(p, them, k, i);
    assert(p.occupancy[them.idx()].has(i));
    lemma_left_the_board(p.occupied().0, src);
    assert(p.occupancy[p.mailbox[src]->Some_0.color.idx()].has(src));
    assert(bit(p.occupied().0, src));
    assert(bit(p.occupied().0, i));
    assert(bit(occ, i) && !bit(occ, src));
    assert(p.set_of(them, k).has(i) && piece_hits(k, them, occ, i, to));
    assert(hit_from(p, occ, them, i, to));
    assert(bit(attackers, i));
    let mine = side_attackers(p, occ, attackers, them);
    assert(bit(mine, i));
    if mine == 0 {
        lemma_no_bits(mine);
    }
    assert(bit(mine & p.pieces[them.idx()][k.idx()].0, i));
    if mine & p.pieces[them.idx()][k.idx()].0 == 0 {
        lemma_no_bits(mine & p.pieces[them.idx()][k.idx()].0);
    }
    lemma_least_is_there(p, mine, them, k.idx(), 0);
    lemma_capturer(p, mine, them);
    let sq = capturer(p, mine, them);
    lemma_bit_in(attackers, occ, p.occupancy[them.idx()].0, sq);
    let next_occ = occ ^ (1u64 << (sq as u64));
    lemma_left_the_board(occ, sq);
    let next = next_attackers(p, to, attackers, next_occ);
    lemma_word_of(
        |j: int|
            {
                &&& bit(next_occ, j)
                &&& {
                    ||| bit(attackers, j)
                    ||| bishop_hits(next_occ, to, j) && is_diagonal_slider(p, j)
                    ||| rook_hits(next_occ, to, j) && is_straight_slider(p, j)
                }
            },
    );
    let ours = side_attackers(p, next_occ, next, us);
    assert forall|j: int| 0 <= j < 64 implies !bit(ours, j) by {
        if bit(ours, j) {
            assert(bit(next, j) && bit(next_occ, j) && p.occupancy[us.idx()].has(j));
            assert(j != src);
            let kind = p.mailbox[j]->Some_0.kind;
            if bit(attackers, j) {
                lemma_hits_on_empty_board(p, to, occ, j, kind, us);
            } else {
                lemma_hits_on_empty_board(p, to, next_occ, j, kind, us);
            }
            assert(p.mailbox[j] == Some(Piece { kind, color: us }));
        }
    }
    lemma_no_bits(ours);
    assert(best_recapture(p, to, next_occ, next, us, capturer_value(p, mine, them)) == 0);
    assert(first_risk(p, m) > 0);
}

} // verus!
