//! What legal moves keep: positions that the rules allow.

use vstd::prelude::*;
use crate::attacks::{attacked, hit_from, is_square, piece_hits, ray_hits, ray_open, ray_square};
use crate::bits::{bit, group_bits, lemma_lowest, lemma_no_bits, lemma_pop, lemma_squares_members, lemma_squares_zero, popcount, squares};
use crate::board::{ep_victim, push_target, Position};
use crate::board_laws::{law_make_keeps_consistent, mailbox_after};
use crate::fen::{lemma_position_of_consistent, position_of, standard_rooks, start_piece, start_position};
use crate::movegen::{forward, legal_moves, leaves_king_safe};
use crate::movegen_laws::{is_double_push, is_step, law_generated_iff_pseudo_legal, law_generated_moves_fit, law_legal_iff, lemma_king_is_there, lemma_occupancies, lemma_set_is_mailbox, pseudo_legal};
use crate::moves::{Move, MoveFlag};
use crate::types::{CastlingRights, Color, Piece, PieceKind};
use crate::validate::position_fault;

verus! {

/// A word with one bit.
proof fn lemma_single(x: u64, k: int)
    requires
        0 <= k < 64,
        forall|i: int| #[trigger] bit(x, i) == (i == k),
    ensures
        popcount(x) == 1,
{
    broadcast use group_bits;
    assert(bit(x, k));
    if x == 0 {
        assert(!bit(0u64, k));
    }
    lemma_lowest(x);
    lemma_pop(x);
    let rest = x & (x - 1) as u64;
    assert forall|i: int| 0 <= i < 64 implies !bit(rest, i) by {
        assert(bit(rest, i) == (bit(x, i) && i != vstd::std_specs::bits::u64_trailing_zeros(x)));
    }
    lemma_no_bits(rest);
    lemma_squares_zero();
}

/// The only bit of a word.
proof fn lemma_only(x: u64, i: int)
    requires
        popcount(x) == 1,
        bit(x, i),
    ensures
        i == squares(x)[0],
{
    lemma_squares_members(x);
    assert(squares(x).contains(i));
}

/// The king of a color stands on one square alone.
proof fn lemma_king_alone(p: Position, c: Color)
    requires
        p.consistent(),
        p.one_king(c),
    ensures
        is_square(p.king_at(c)),
        forall|i: int|
            0 <= i < 64 ==> (#[trigger] p.mailbox[i] == Some(Piece { kind: PieceKind::King, color: c }) <==> i == p.king_at(c)),
{
    lemma_king_is_there(p, c);
    assert forall|i: int| 0 <= i < 64 implies (#[trigger] p.mailbox[i] == Some(Piece { kind: PieceKind::King, color: c })
        <==> i == p.king_at(c)) by {
        lemma_set_is_mailbox(p, c, PieceKind::King, i);
        if p.mailbox[i] == Some(Piece { kind: PieceKind::King, color: c }) {
            lemma_only(p.set_of(c, PieceKind::King).0, i);
        }
    }
}

/// A mailbox that shows one king of a color makes the set of one square.
proof fn lemma_one_king(p: Position, c: Color, k: int)
    requires
        p.consistent(),
        0 <= k < 64,
        forall|i: int|
            0 <= i < 64 ==> (#[trigger] p.mailbox[i] == Some(Piece { kind: PieceKind::King, color: c }) <==> i == k),
    ensures
        p.one_king(c),
{
    let x = p.set_of(c, PieceKind::King).0;
    assert forall|i: int| #[trigger] bit(x, i) == (i == k) by {
        lemma_set_is_mailbox(p, c, PieceKind::King, i);
        if is_square(i) {
            assert(p.mailbox[i] == Some(Piece { kind: PieceKind::King, color: c }) <==> i == k);
        }
    }
    lemma_single(x, k);
}

/// A move that the rules of movement allow does not take a king that is not
/// attacked.
proof fn lemma_spares_king(p: Position, m: Move)
    requires
        p.sound(),
        pseudo_legal(p, m),
        p.fits(m),
        !attacked(p, p.king_at(p.side.other()), p.side),
    ensures
        m.kind().captures() && m.kind() != MoveFlag::EnPassant ==> m.dst() != p.king_at(p.side.other()),
{
    broadcast use group_bits;
    let us = p.side;
    let from = m.src();
    let to = m.dst();
    let k = p.king_at(us.other());
    let occ = p.occupied().0;
    lemma_king_is_there(p, us);
    lemma_set_is_mailbox(p, us, PieceKind::King, p.king_at(us));
    if m.kind().captures() && m.kind() != MoveFlag::EnPassant && to == k {
        let kind = if p.set_of(us, PieceKind::Knight).has(from) && is_step(p, PieceKind::Knight, from, to, m.kind()) {
            PieceKind::Knight
        } else if p.set_of(us, PieceKind::Bishop).has(from) && is_step(p, PieceKind::Bishop, from, to, m.kind()) {
            PieceKind::Bishop
        } else if p.set_of(us, PieceKind::Rook).has(from) && is_step(p, PieceKind::Rook, from, to, m.kind()) {
            PieceKind::Rook
        } else if p.set_of(us, PieceKind::Queen).has(from) && is_step(p, PieceKind::Queen, from, to, m.kind()) {
            PieceKind::Queen
        } else if from == p.king_at(us) && is_step(p, PieceKind::King, from, to, m.kind()) {
            PieceKind::King
        } else {
            PieceKind::Pawn
        };
        assert(p.set_of(us, kind).has(from));
        assert(piece_hits(kind, us, occ, from, to));
        assert(hit_from(p, occ, us, from, to));
        assert(is_square(from));
    }
}

/// The kings after a move: theirs stays, and ours is alone.
proof fn lemma_kings_after(p: Position, m: Move)
    requires
        p.sound(),
        pseudo_legal(p, m),
        p.fits(m),
        !attacked(p, p.king_at(p.side.other()), p.side),
    ensures
        p.after(m).one_king(p.side),
        p.after(m).one_king(p.side.other()),
{
    let us = p.side;
    let them = us.other();
    let from = m.src();
    let to = m.dst();
    let a = p.after(m);
    law_make_keeps_consistent(p, m);
    lemma_spares_king(p, m);
    lemma_king_alone(p, us);
    lemma_king_alone(p, them);
    let mb = mailbox_after(p, m);
    assert(a.mailbox == mb);
    let mover = p.mailbox[from]->Some_0;
    let k_them = p.king_at(them);
    let k_us = if mover.kind == PieceKind::King { to } else { p.king_at(us) };
    assert(p.mailbox[k_them] == Some(Piece { kind: PieceKind::King, color: them }));
    assert(p.mailbox[p.king_at(us)] == Some(Piece { kind: PieceKind::King, color: us }));
    assert(mover.kind == PieceKind::King ==> from == p.king_at(us));
    assert forall|i: int| 0 <= i < 64 implies (#[trigger] a.mailbox[i] == Some(Piece { kind: PieceKind::King, color: them })
        <==> i == k_them) by {
        assert(p.mailbox[i] == Some(Piece { kind: PieceKind::King, color: them }) <==> i == k_them);
    }
    lemma_one_king(a, them, k_them);
    assert forall|i: int| 0 <= i < 64 implies (#[trigger] a.mailbox[i] == Some(Piece { kind: PieceKind::King, color: us })
        <==> i == k_us) by {
        assert(p.mailbox[i] == Some(Piece { kind: PieceKind::King, color: us }) <==> i == p.king_at(us));
    }
    lemma_one_king(a, us, k_us);
}

/// The en-passant target after a move is sound.
pub proof fn lemma_ep_after(p: Position, m: Move)
    requires
        p.sound(),
        pseudo_legal(p, m),
        p.fits(m),
    ensures
        p.after(m).ep_sound(),
{
    let us = p.side;
    let a = p.after(m);
    law_make_keeps_consistent(p, m);
    lemma_occupancies(p);
    if m.kind() == MoveFlag::DoublePawnPush {
        assert(is_double_push(p, m.src(), m.dst(), m.kind()));
        lemma_set_is_mailbox(p, us, PieceKind::Pawn, m.src());
        let sq = m.src() + forward(us);
        assert(!bit(p.occupied().0, sq));
        assert(p.mailbox[sq] is None);
        assert(push_target(us, m.src())->Some_0.0 == sq);
        assert(ep_victim(us.other(), sq) == Some(m.dst()));
    }
}

/// Legal moves lead from valid positions to valid positions: consistent
/// tables, one king a side, a sound en-passant target, and the side that has
/// just moved not in check.
pub proof fn law_legal_move_keeps_validity(p: Position, m: Move)
    requires
        p.sound(),
        position_fault(p) is None,
        legal_moves(p).contains(m),
    ensures
        p.after(m).sound(),
        position_fault(p.after(m)) is None,
{
    law_legal_iff(p, m);
    law_generated_iff_pseudo_legal(p, m);
    law_generated_moves_fit(p, m);
    law_make_keeps_consistent(p, m);
    lemma_kings_after(p, m);
    lemma_ep_after(p, m);
    assert(leaves_king_safe(p, m));
}

/// A ray from White's first rank ends on Black's king square only along its
/// file.
proof fn lemma_ray_to_e8(occ: u64, a: int, df: int, dr: int)
    requires
        0 <= a < 8,
        -1 <= df <= 1,
        -1 <= dr <= 1,
        ray_hits(occ, a, df, dr, 60),
    ensures
        df == 0 && dr == 1 && a == 4,
{
    let n = choose|n: int| 1 <= n < 8 && #[trigger] ray_open(occ, a, df, dr, n) && 60 == ray_square(a, df, dr, n);
    if dr == 1 {
        assert(n * dr == n) by (nonlinear_arith)
            requires
                dr == 1,
        ;
    } else if dr == 0 {
        assert(n * dr == 0) by (nonlinear_arith)
            requires
                dr == 0,
        ;
    } else {
        assert(n * dr == -n) by (nonlinear_arith)
            requires
                dr == -1,
        ;
    }
    if df == 1 {
        assert(n * df == n) by (nonlinear_arith)
            requires
                df == 1,
        ;
    } else if df == 0 {
        assert(n * df == 0) by (nonlinear_arith)
            requires
                df == 0,
        ;
    } else {
        assert(n * df == -n) by (nonlinear_arith)
            requires
                df == -1,
        ;
    }
}

/// The initial position is valid.
pub proof fn law_start_is_valid()
    ensures
        start_position().sound(),
        position_fault(start_position()) is None,
{
    let p = start_position();
    let mb = Seq::new(64, |i: int| start_piece(i));
    lemma_position_of_consistent(mb, Color::White, CastlingRights(15), standard_rooks(), None, 0, 1);
    let base = position_of(mb, Color::White, CastlingRights(15), standard_rooks(), None, 0, 1);
    assert(p.consistent()) by {
        assert(p.pieces == base.pieces && p.mailbox == base.mailbox && p.occupancy == base.occupancy);
    }
    assert forall|i: int| 0 <= i < 64 implies (#[trigger] p.mailbox[i] == Some(
        Piece { kind: PieceKind::King, color: Color::White },
    ) <==> i == 4) by {
        assert(p.mailbox[i] == start_piece(i));
    }
    assert forall|i: int| 0 <= i < 64 implies (#[trigger] p.mailbox[i] == Some(
        Piece { kind: PieceKind::King, color: Color::Black },
    ) <==> i == 60) by {
        assert(p.mailbox[i] == start_piece(i));
    }
    lemma_one_king(p, Color::White, 4);
    lemma_one_king(p, Color::Black, 60);
    lemma_king_alone(p, Color::Black);
    assert(p.mailbox[60] == Some(Piece { kind: PieceKind::King, color: Color::Black }));
    assert(p.king_at(Color::Black) == 60);
    let occ = p.occupied().0;
    assert forall|from: int| is_square(from) implies !#[trigger] hit_from(p, occ, Color::White, from, 60) by {
        if hit_from(p, occ, Color::White, from, 60) {
            let kind = choose|kind: PieceKind|
                #[trigger] p.set_of(Color::White, kind).has(from) && piece_hits(kind, Color::White, occ, from, 60);
            lemma_set_is_mailbox(p, Color::White, kind, from);
            assert(p.mailbox[from] == start_piece(from));
            if kind == PieceKind::Bishop || kind == PieceKind::Rook || kind == PieceKind::Queen {
                assert(0 <= from < 8 && from != 4);
                if ray_hits(occ, from, 1, 1, 60) {
                    lemma_ray_to_e8(occ, from, 1, 1);
                }
                if ray_hits(occ, from, 1, -1, 60) {
                    lemma_ray_to_e8(occ, from, 1, -1);
                }
                if ray_hits(occ, from, -1, 1, 60) {
                    lemma_ray_to_e8(occ, from, -1, 1);
                }
                if ray_hits(occ, from, -1, -1, 60) {
                    lemma_ray_to_e8(occ, from, -1, -1);
                }
                if ray_hits(occ, from, 0, 1, 60) {
                    lemma_ray_to_e8(occ, from, 0, 1);
                }
                if ray_hits(occ, from, 0, -1, 60) {
                    lemma_ray_to_e8(occ, from, 0, -1);
                }
                if ray_hits(occ, from, 1, 0, 60) {
                    lemma_ray_to_e8(occ, from, 1, 0);
                }
                if ray_hits(occ, from, -1, 0, 60) {
                    lemma_ray_to_e8(occ, from, -1, 0);
                }
            }
        }
    }
}

} // verus!
