//! Laws of making and unmaking moves.

use vstd::prelude::*;
use crate::bits::{bit, group_bits, lemma_bits_extensional};
use crate::board::{ep_victim, king_target, placement_hash, rights_after, rook_index, rook_target, with_square, without_square, Position};
use crate::moves::{Move, MoveFlag};
use crate::types::{color_at, kind_at, Bitboard, CastlingRights, Color, Piece, PieceKind, Square};
use crate::zobrist::{castling_key, ep_key, lemma_xor, lemma_xor_keys_add, piece_key, side_key, xor_keys};

verus! {

impl Position {
    /// The move can be played with the pieces where they are: a piece of the
    /// side to move stands on the origin, and the squares involved hold what
    /// the flag says.
    pub open spec fn fits(self, m: Move) -> bool {
        let us = self.side;
        let from = m.src();
        let to = m.dst();
        match self.mailbox[from] {
            None => false,
            Some(mover) => {
                &&& mover.color == us
                &&& if m.kind().castles() {
                    let kingside = m.kind() == MoveFlag::KingsideCastle;
                    let rook_from = self.rooks[rook_index(us, kingside)].0 as int;
                    let rook_to = rook_target(us, kingside);
                    &&& mover.kind == PieceKind::King
                    &&& to == king_target(us, kingside)
                    &&& self.mailbox[rook_from] == Some(Piece { kind: PieceKind::Rook, color: us })
                    &&& self.mailbox[to] is None || to == from || to == rook_from
                    &&& self.mailbox[rook_to] is None || rook_to == from || rook_to == rook_from
                } else if m.kind() == MoveFlag::EnPassant {
                    &&& mover.kind == PieceKind::Pawn
                    &&& self.mailbox[to] is None
                    &&& ep_victim(us, to) is Some
                    &&& self.mailbox[ep_victim(us, to)->Some_0] == Some(
                        Piece { kind: PieceKind::Pawn, color: us.other() },
                    )
                } else {
                    &&& m.kind().promotes() ==> mover.kind == PieceKind::Pawn
                    &&& m.kind().captures() ==> self.mailbox[to] is Some && self.mailbox[to]->Some_0.color
                        == us.other()
                    &&& !m.kind().captures() ==> self.mailbox[to] is None
                }
            },
        }
    }
}

proof fn lemma_index_round_trip()
    ensures
        forall|k: PieceKind| kind_at(#[trigger] k.idx()) == k,
        forall|c: Color| color_at(#[trigger] c.idx()) == c,
        forall|k: int| 0 <= k < 6 ==> (#[trigger] kind_at(k)).idx() == k,
        forall|c: int| 0 <= c < 2 ==> (#[trigger] color_at(c)).idx() == c,
{
}

proof fn lemma_with_square(b: Bitboard, sq: int)
    requires
        0 <= sq < 64,
    ensures
        forall|i: int| #[trigger] with_square(b, sq).has(i) == (b.has(i) || i == sq),
        forall|i: int| #[trigger] without_square(b, sq).has(i) == (b.has(i) && i != sq),
{
    broadcast use group_bits;
}

/// Putting a piece on an empty square keeps the tables consistent.
pub proof fn lemma_put_consistent(p: Position, sq: int, piece: Piece)
    requires
        p.consistent(),
        0 <= sq < 64,
        p.mailbox[sq] is None,
    ensures
        p.put(sq, piece).consistent(),
{
    lemma_index_round_trip();
    let q = p.put(sq, piece);
    let pc = piece.color.idx();
    let pk = piece.kind.idx();
    lemma_with_square(p.pieces[pc][pk], sq);
    lemma_with_square(p.occupancy[pc], sq);
    assert forall|c: int, k: int, i: int| 0 <= c < 2 && 0 <= k < 6 && 0 <= i < 64 implies (
    #[trigger] q.pieces[c][k].has(i) <==> q.mailbox[i] == Some(Piece { kind: kind_at(k), color: color_at(c) })) by {
        assert(p.pieces[c][k].has(i) <==> p.mailbox[i] == Some(Piece { kind: kind_at(k), color: color_at(c) }));
        if c == pc && k == pk {
        } else {
            assert(q.pieces[c][k] == p.pieces[c][k]);
        }
    }
    assert forall|c: int, i: int| 0 <= c < 2 && 0 <= i < 64 implies (#[trigger] q.occupancy[c].has(i) <==> (
    q.mailbox[i] is Some && q.mailbox[i]->Some_0.color == color_at(c))) by {
        assert(p.occupancy[c].has(i) <==> (p.mailbox[i] is Some && p.mailbox[i]->Some_0.color == color_at(c)));
    }
}

/// Taking a piece that is there keeps the tables consistent.
pub proof fn lemma_take_consistent(p: Position, sq: int, piece: Piece)
    requires
        p.consistent(),
        0 <= sq < 64,
        p.mailbox[sq] == Some(piece),
    ensures
        p.take(sq, piece).consistent(),
{
    lemma_index_round_trip();
    let q = p.take(sq, piece);
    let pc = piece.color.idx();
    let pk = piece.kind.idx();
    lemma_with_square(p.pieces[pc][pk], sq);
    lemma_with_square(p.occupancy[pc], sq);
    assert forall|c: int, k: int, i: int| 0 <= c < 2 && 0 <= k < 6 && 0 <= i < 64 implies (
    #[trigger] q.pieces[c][k].has(i) <==> q.mailbox[i] == Some(Piece { kind: kind_at(k), color: color_at(c) })) by {
        assert(p.pieces[c][k].has(i) <==> p.mailbox[i] == Some(Piece { kind: kind_at(k), color: color_at(c) }));
        if c == pc && k == pk {
        } else {
            assert(q.pieces[c][k] == p.pieces[c][k]);
        }
    }
    assert forall|c: int, i: int| 0 <= c < 2 && 0 <= i < 64 implies (#[trigger] q.occupancy[c].has(i) <==> (
    q.mailbox[i] is Some && q.mailbox[i]->Some_0.color == color_at(c))) by {
        assert(p.occupancy[c].has(i) <==> (p.mailbox[i] is Some && p.mailbox[i]->Some_0.color == color_at(c)));
    }
}

/// The mailbox of a consistent position determines its bitboards.
pub proof fn lemma_mailbox_determines(p: Position, q: Position)
    requires
        p.consistent(),
        q.consistent(),
        p.mailbox == q.mailbox,
    ensures
        p.pieces == q.pieces,
        p.occupancy == q.occupancy,
{
    assert forall|c: int, k: int| 0 <= c < 2 && 0 <= k < 6 implies p.pieces[c][k] == q.pieces[c][k] by {
        assert forall|i: int| 0 <= i < 64 implies bit(p.pieces[c][k].0, i) == bit(q.pieces[c][k].0, i) by {
            assert(p.pieces[c][k].has(i) == q.pieces[c][k].has(i));
        }
        lemma_bits_extensional(p.pieces[c][k].0, q.pieces[c][k].0);
    }
    assert forall|c: int| 0 <= c < 2 implies #[trigger] p.occupancy[c] == q.occupancy[c] by {
        assert forall|i: int| 0 <= i < 64 implies bit(p.occupancy[c].0, i) == bit(q.occupancy[c].0, i) by {
            assert(p.occupancy[c].has(i) == q.occupancy[c].has(i));
        }
        lemma_bits_extensional(p.occupancy[c].0, q.occupancy[c].0);
    }
    assert forall|c: int| 0 <= c < 2 implies #[trigger] p.pieces[c] == q.pieces[c] by {
        assert(p.pieces[c] =~= q.pieces[c]);
    }
    assert(p.pieces =~= q.pieces);
    assert(p.occupancy =~= q.occupancy);
}

/// The mailbox after a move that fits.
pub open spec fn mailbox_after(p: Position, m: Move) -> Seq<Option<Piece>> {
    let us = p.side;
    let mover = p.mailbox[m.src()]->Some_0;
    if m.kind().castles() {
        let kingside = m.kind() == MoveFlag::KingsideCastle;
        p.mailbox.update(m.src(), None).update(p.rooks[rook_index(us, kingside)].0 as int, None).update(
            m.dst(),
            Some(mover),
        ).update(rook_target(us, kingside), Some(Piece { kind: PieceKind::Rook, color: us }))
    } else {
        let cleared = if m.kind() == MoveFlag::EnPassant {
            p.mailbox.update(ep_victim(us, m.dst())->Some_0, None)
        } else {
            p.mailbox
        };
        cleared.update(m.src(), None).update(
            m.dst(),
            Some(
                match m.kind().promoted() {
                    Some(kind) => Piece { kind, color: us },
                    None => mover,
                },
            ),
        )
    }
}

proof fn lemma_rights_after_ok(p: Position, from: int, to: int, king_moved: bool, us: Color)
    requires
        p.castling.ok(),
    ensures
        rights_after(p, from, to, king_moved, us).ok(),
        rights_after(p, from, to, king_moved, us).0 <= p.castling.0,
{
    assert forall|x: u8, f: u8| #[trigger] (x & !f) <= x by {
        assert(x & !f <= x) by (bit_vector);
    }
}

/// Making a move that fits keeps the tables consistent, and the mailbox is the
/// old one with the moved pieces on their new squares.
pub proof fn law_make_keeps_consistent(p: Position, m: Move)
    requires
        p.consistent(),
        p.fits(m),
    ensures
        p.after(m).consistent(),
        p.after(m).mailbox == mailbox_after(p, m),
        p.after(m).rooks == p.rooks,
        p.after(m).history == p.history.push(p.hash),
        p.after(m).side == p.side.other(),
{
    let us = p.side;
    let from = m.src();
    let to = m.dst();
    let mover = p.mailbox[from]->Some_0;
    lemma_rights_after_ok(p, from, to, mover.kind == PieceKind::King, us);
    let q = p.cleared_for(m);
    let r = q.relocated(m, mover);
    if m.kind().castles() {
        let kingside = m.kind() == MoveFlag::KingsideCastle;
        let rook_from = p.rooks[rook_index(us, kingside)].0 as int;
        let rook_to = rook_target(us, kingside);
        let rook = Piece { kind: PieceKind::Rook, color: us };
        lemma_take_consistent(p, from, mover);
        let p1 = p.take(from, mover);
        lemma_take_consistent(p1, rook_from, rook);
        let p2 = p1.take(rook_from, rook);
        lemma_put_consistent(p2, to, mover);
        let p3 = p2.put(to, mover);
        lemma_put_consistent(p3, rook_to, rook);
        assert(r == p3.put(rook_to, rook));
        assert(r.mailbox =~= mailbox_after(p, m));
    } else {
        if m.kind() == MoveFlag::EnPassant {
            let v = ep_victim(us, to)->Some_0;
            let pawn = Piece { kind: PieceKind::Pawn, color: us.other() };
            lemma_take_consistent(p, v, pawn);
            assert(q == p.take(v, pawn));
        } else if p.mailbox[to] is Some {
            lemma_take_consistent(p, to, p.mailbox[to]->Some_0);
        }
        assert(q.mailbox[from] == Some(mover));
        lemma_take_consistent(q, from, mover);
        let q1 = q.take(from, mover);
        match m.kind().promoted() {
            Some(kind) => lemma_put_consistent(q1, to, Piece { kind, color: us }),
            None => lemma_put_consistent(q1, to, mover),
        }
        assert(r.mailbox =~= mailbox_after(p, m));
    }
    let a = p.after(m);
    assert(a.pieces == r.pieces && a.mailbox == r.mailbox && a.occupancy == r.occupancy);
    assert(a.shaped());
    assert forall|c: int, k: int, i: int| 0 <= c < 2 && 0 <= k < 6 && 0 <= i < 64 implies (
    #[trigger] a.pieces[c][k].has(i) <==> a.mailbox[i] == Some(Piece { kind: kind_at(k), color: color_at(c) })) by {
        assert(r.pieces[c][k].has(i) <==> r.mailbox[i] == Some(Piece { kind: kind_at(k), color: color_at(c) }));
    }
    assert forall|c: int, i: int| 0 <= c < 2 && 0 <= i < 64 implies (#[trigger] a.occupancy[c].has(i) <==> (
    a.mailbox[i] is Some && a.mailbox[i]->Some_0.color == color_at(c))) by {
        assert(r.occupancy[c].has(i) <==> (r.mailbox[i] is Some && r.mailbox[i]->Some_0.color == color_at(c)));
    }
}

proof fn lemma_same_tables(p: Position, q: Position)
    requires
        p.consistent(),
        q.shaped(),
        q.pieces == p.pieces,
        q.mailbox == p.mailbox,
        q.occupancy == p.occupancy,
    ensures
        q.consistent(),
{
    assert forall|c: int, k: int, i: int| 0 <= c < 2 && 0 <= k < 6 && 0 <= i < 64 implies (
    #[trigger] q.pieces[c][k].has(i) <==> q.mailbox[i] == Some(Piece { kind: kind_at(k), color: color_at(c) })) by {
        assert(p.pieces[c][k].has(i) <==> p.mailbox[i] == Some(Piece { kind: kind_at(k), color: color_at(c) }));
    }
    assert forall|c: int, i: int| 0 <= c < 2 && 0 <= i < 64 implies (#[trigger] q.occupancy[c].has(i) <==> (
    q.mailbox[i] is Some && q.mailbox[i]->Some_0.color == color_at(c))) by {
        assert(p.occupancy[c].has(i) <==> (p.mailbox[i] is Some && p.mailbox[i]->Some_0.color == color_at(c)));
    }
}

proof fn lemma_castle_back(p: Position, m: Move, back: Position)
    requires
        p.consistent(),
        p.fits(m),
        m.kind().castles(),
        back.consistent(),
        back.mailbox == mailbox_after(p, m),
    ensures
        ({
            let us = p.side;
            let from = m.src();
            let kingside = m.kind() == MoveFlag::KingsideCastle;
            let rook_from = p.rooks[rook_index(us, kingside)].0 as int;
            let rook_to = rook_target(us, kingside);
            let rook = Piece { kind: PieceKind::Rook, color: us };
            let king = Piece { kind: PieceKind::King, color: us };
            let last = back.take(m.dst(), king).take(rook_to, rook).put(from, king).put(rook_from, rook);
            &&& rook_to != m.dst()
            &&& rook_from != from
            &&& last.pieces == p.pieces
            &&& last.occupancy == p.occupancy
            &&& last.mailbox == p.mailbox
        }),
{
    let us = p.side;
    let from = m.src();
    let to = m.dst();
    let kingside = m.kind() == MoveFlag::KingsideCastle;
    let rook_from = p.rooks[rook_index(us, kingside)].0 as int;
    let rook_to = rook_target(us, kingside);
    let rook = Piece { kind: PieceKind::Rook, color: us };
    let king = Piece { kind: PieceKind::King, color: us };
    lemma_take_consistent(back, to, king);
    let p1 = back.take(to, king);
    lemma_take_consistent(p1, rook_to, rook);
    let p2 = p1.take(rook_to, rook);
    lemma_put_consistent(p2, from, king);
    let p3 = p2.put(from, king);
    lemma_put_consistent(p3, rook_from, rook);
    let last = p3.put(rook_from, rook);
    assert(last.mailbox =~= p.mailbox);
    lemma_mailbox_determines(last, p);
}

proof fn lemma_piece_back(p: Position, m: Move, back: Position)
    requires
        p.consistent(),
        p.fits(m),
        !m.kind().castles(),
        back.consistent(),
        back.mailbox == mailbox_after(p, m),
    ensures
        ({
            let us = p.side;
            let kind = p.mailbox[m.src()]->Some_0.kind;
            let on_board = match m.kind().promoted() {
                Some(k) => k,
                None => kind,
            };
            let p2 = back.take(m.dst(), Piece { kind: on_board, color: us }).put(m.src(), Piece { kind, color: us });
            let last = if m.kind() == MoveFlag::EnPassant {
                p2.put(ep_victim(us, m.dst())->Some_0, Piece { kind: PieceKind::Pawn, color: us.other() })
            } else {
                match p.captured_by(m) {
                    Some(cap) => p2.put(m.dst(), cap),
                    None => p2,
                }
            };
            &&& m.kind().promotes() ==> kind == PieceKind::Pawn
            &&& back.mailbox[m.dst()] == Some(Piece { kind: on_board, color: us })
            &&& last.pieces == p.pieces
            &&& last.occupancy == p.occupancy
            &&& last.mailbox == p.mailbox
        }),
{
    let us = p.side;
    let from = m.src();
    let to = m.dst();
    let kind = p.mailbox[from]->Some_0.kind;
    let on_board = match m.kind().promoted() {
        Some(k) => k,
        None => kind,
    };
    lemma_take_consistent(back, to, Piece { kind: on_board, color: us });
    let p1 = back.take(to, Piece { kind: on_board, color: us });
    lemma_put_consistent(p1, from, Piece { kind, color: us });
    let p2 = p1.put(from, Piece { kind, color: us });
    if m.kind() == MoveFlag::EnPassant {
        let v = ep_victim(us, to)->Some_0;
        let pawn = Piece { kind: PieceKind::Pawn, color: us.other() };
        lemma_put_consistent(p2, v, pawn);
        let last = p2.put(v, pawn);
        assert(last.mailbox =~= p.mailbox);
        lemma_mailbox_determines(last, p);
    } else if p.captured_by(m) is Some {
        lemma_put_consistent(p2, to, p.captured_by(m)->Some_0);
        let last = p2.put(to, p.captured_by(m)->Some_0);
        assert(last.mailbox =~= p.mailbox);
        lemma_mailbox_determines(last, p);
    } else {
        assert(p2.mailbox =~= p.mailbox);
        lemma_mailbox_determines(p2, p);
    }
}

proof fn lemma_restores_from(p: Position, m: Move, a: Position)
    requires
        p.consistent(),
        p.fits(m),
        a.consistent(),
        a.mailbox == mailbox_after(p, m),
        a.rooks == p.rooks,
        a.history == p.history.push(p.hash),
        a.side == p.side.other(),
        a.fullmove == (if p.side == Color::Black { p.fullmove + 1 } else { p.fullmove as int }),
    ensures
        a.before(m, p.captured_by(m), p.castling, p.ep, p.halfmove) == p,
{
    let back = Position { side: p.side, castling: p.castling, ep: p.ep, halfmove: p.halfmove, ..a };
    lemma_same_tables(a, back);
    assert(a.history.drop_last() =~= p.history);
    let b = a.before(m, p.captured_by(m), p.castling, p.ep, p.halfmove);
    if m.kind().castles() {
        lemma_castle_back(p, m, back);
        lemma_before_fields(a, m, p.captured_by(m), p.castling, p.ep, p.halfmove);
        assert(b.pieces == p.pieces && b.occupancy == p.occupancy && b.mailbox == p.mailbox);
    } else {
        lemma_piece_back(p, m, back);
        lemma_before_fields(a, m, p.captured_by(m), p.castling, p.ep, p.halfmove);
        assert(b.pieces == p.pieces && b.occupancy == p.occupancy && b.mailbox == p.mailbox);
    }
}

/// Taking back a move that fits restores the whole position: pieces, side to
/// move, rights, clocks, hash and history.
pub proof fn law_unmake_restores(p: Position, m: Move)
    requires
        p.consistent(),
        p.fits(m),
        p.has_clock_room(m),
    ensures
        p.after(m).before(m, p.captured_by(m), p.castling, p.ep, p.halfmove) == p,
{
    law_make_keeps_consistent(p, m);
    lemma_restores_from(p, m, p.after(m));
}

proof fn lemma_before_fields(
    a: Position,
    m: Move,
    captured: Option<Piece>,
    castling: CastlingRights,
    ep: Option<Square>,
    halfmove: u16,
)
    requires
        a.history.len() > 0,
    ensures
        ({
            let b = a.before(m, captured, castling, ep, halfmove);
            let us = a.side.other();
            let from = m.src();
            let to = m.dst();
            let back = Position { side: us, castling, ep, halfmove, ..a };
            &&& b.side == us && b.castling == castling && b.ep == ep && b.halfmove == halfmove
            &&& b.rooks == a.rooks && b.hash == a.history.last() && b.history == a.history.drop_last()
            &&& m.kind().castles() || m.kind().promotes() || a.mailbox[to] is Some ==> b.fullmove == (if us
                == Color::Black { (a.fullmove - 1) as u16 } else { a.fullmove })
            &&& m.kind().castles() ==> ({
                let kingside = m.kind() == MoveFlag::KingsideCastle;
                let rook_from = a.rooks[rook_index(us, kingside)].0 as int;
                let rook_to = rook_target(us, kingside);
                let rook = Piece { kind: PieceKind::Rook, color: us };
                let king = Piece { kind: PieceKind::King, color: us };
                let last = back.take(to, king).take(rook_to, rook).put(from, king).put(rook_from, rook);
                rook_from != from && rook_to != to ==> b.pieces == last.pieces && b.occupancy == last.occupancy
                    && b.mailbox == last.mailbox
            })
            &&& !m.kind().castles() && (m.kind().promotes() || a.mailbox[to] is Some) ==> ({
                let kind = if m.kind().promotes() { PieceKind::Pawn } else { a.mailbox[to]->Some_0.kind };
                let on_board = match m.kind().promoted() {
                    Some(k) => k,
                    None => kind,
                };
                let p2 = back.take(to, Piece { kind: on_board, color: us }).put(from, Piece { kind, color: us });
                let last = if m.kind() == MoveFlag::EnPassant {
                    match ep_victim(us, to) {
                        Some(sq) => p2.put(sq, Piece { kind: PieceKind::Pawn, color: us.other() }),
                        None => p2,
                    }
                } else {
                    match captured {
                        Some(cap) => p2.put(to, cap),
                        None => p2,
                    }
                };
                b.pieces == last.pieces && b.occupancy == last.occupancy && b.mailbox == last.mailbox
            })
        }),
{
}

proof fn lemma_placement_update(pieces: Seq<Seq<Bitboard>>, c: int, k: int, v: Bitboard, z: u64, n: int)
    requires
        0 <= c < 2,
        0 <= k < 6,
        0 <= n <= 12,
        pieces.len() == 2,
        pieces[0].len() == 6,
        pieces[1].len() == 6,
        xor_keys(c, k, v.0, 64) == xor_keys(c, k, pieces[c][k].0, 64) ^ z,
    ensures
        n <= c * 6 + k ==> placement_hash(pieces.update(c, pieces[c].update(k, v)), n) == placement_hash(pieces, n),
        n > c * 6 + k ==> placement_hash(pieces.update(c, pieces[c].update(k, v)), n) == placement_hash(pieces, n)
            ^ z,
    decreases n,
{
    if n > 0 {
        lemma_placement_update(pieces, c, k, v, z, n - 1);
        let new = pieces.update(c, pieces[c].update(k, v));
        let a = placement_hash(pieces, n - 1);
        let cc = (n - 1) / 6;
        let kk = (n - 1) % 6;
        let x = xor_keys(cc, kk, pieces[cc][kk].0, 64);
        if n - 1 == c * 6 + k {
            assert(cc == c && kk == k);
            lemma_xor(a, x, z);
        } else {
            assert(!(cc == c && kk == k));
            assert(new[cc][kk] == pieces[cc][kk]);
            lemma_xor(a, x, z);
        }
    }
}

proof fn lemma_put_hash(p: Position, sq: int, piece: Piece)
    requires
        p.consistent(),
        0 <= sq < 64,
        p.mailbox[sq] is None,
    ensures
        placement_hash(p.put(sq, piece).pieces, 12) == placement_hash(p.pieces, 12) ^ piece_key(
            piece.color.idx(),
            piece.kind.idx(),
            sq,
        ),
{
    lemma_index_round_trip();
    let c = piece.color.idx();
    let k = piece.kind.idx();
    let x = p.pieces[c][k];
    let y = with_square(x, sq);
    lemma_with_square(x, sq);
    assert(!x.has(sq));
    assert forall|i: int| i != sq implies bit(x.0, i) == #[trigger] bit(y.0, i) by {
        assert(y.has(i) == (x.has(i) || i == sq));
    }
    assert(y.has(sq));
    lemma_xor_keys_add(c, k, x.0, y.0, sq, 64);
    lemma_placement_update(p.pieces, c, k, y, piece_key(c, k, sq), 12);
}

proof fn lemma_take_hash(p: Position, sq: int, piece: Piece)
    requires
        p.consistent(),
        0 <= sq < 64,
        p.mailbox[sq] == Some(piece),
    ensures
        placement_hash(p.take(sq, piece).pieces, 12) == placement_hash(p.pieces, 12) ^ piece_key(
            piece.color.idx(),
            piece.kind.idx(),
            sq,
        ),
{
    lemma_index_round_trip();
    let c = piece.color.idx();
    let k = piece.kind.idx();
    let x = p.pieces[c][k];
    let y = without_square(x, sq);
    lemma_with_square(x, sq);
    assert(x.has(sq));
    assert(!y.has(sq));
    assert forall|i: int| i != sq implies bit(y.0, i) == #[trigger] bit(x.0, i) by {
        assert(y.has(i) == (x.has(i) && i != sq));
    }
    lemma_xor_keys_add(c, k, y.0, x.0, sq, 64);
    lemma_xor(xor_keys(c, k, y.0, 64), piece_key(c, k, sq), 0);
    lemma_placement_update(p.pieces, c, k, y, piece_key(c, k, sq), 12);
}

/// The hash kept by `make_move` is the hash computed from scratch: if it is so
/// before a move that fits, it is so after.
pub proof fn law_hash_is_incremental(p: Position, m: Move)
    requires
        p.consistent(),
        p.fits(m),
        p.hash == p.full_hash(),
    ensures
        p.after(m).hash == p.after(m).full_hash(),
{
    let us = p.side;
    let c = us.idx();
    let from = m.src();
    let to = m.dst();
    let mover = p.mailbox[from]->Some_0;
    let a = p.after(m);
    let big = placement_hash(p.pieces, 12);
    let q = p.cleared_for(m);
    let r = q.relocated(m, mover);
    let k1 = piece_key(c, mover.kind.idx(), from);
    let placed = match m.kind().promoted() {
        Some(kind) => kind,
        None => mover.kind,
    };
    let k2 = piece_key(c, placed.idx(), to);
    // What the placement hash changes by.
    let d: u64;
    if m.kind().castles() {
        let kingside = m.kind() == MoveFlag::KingsideCastle;
        let rook_from = p.rooks[rook_index(us, kingside)].0 as int;
        let rook_to = rook_target(us, kingside);
        let rook = Piece { kind: PieceKind::Rook, color: us };
        let r1 = piece_key(c, 3, rook_from);
        let r2 = piece_key(c, 3, rook_to);
        lemma_take_consistent(p, from, mover);
        lemma_take_hash(p, from, mover);
        let p1 = p.take(from, mover);
        lemma_take_consistent(p1, rook_from, rook);
        lemma_take_hash(p1, rook_from, rook);
        let p2 = p1.take(rook_from, rook);
        lemma_put_consistent(p2, to, mover);
        lemma_put_hash(p2, to, mover);
        let p3 = p2.put(to, mover);
        lemma_put_hash(p3, rook_to, rook);
        assert(r == p3.put(rook_to, rook));
        d = ((k1 ^ k2) ^ r1) ^ r2;
        let h = p.hash;
        assert((((big ^ k1) ^ r1) ^ k2) ^ r2 == big ^ (((k1 ^ k2) ^ r1) ^ r2) && (((h ^ k1) ^ k2) ^ r1) ^ r2 == h ^ (((
        k1 ^ k2) ^ r1) ^ r2) && (r1 == r2 ==> (h ^ k1) ^ k2 == h ^ (((k1 ^ k2) ^ r1) ^ r2))) by (bit_vector);
    } else {
        let cap = p.captured_by(m);
        let kc: u64;
        if m.kind() == MoveFlag::EnPassant {
            let v = ep_victim(us, to)->Some_0;
            let pawn = Piece { kind: PieceKind::Pawn, color: us.other() };
            lemma_take_consistent(p, v, pawn);
            lemma_take_hash(p, v, pawn);
            kc = piece_key(us.other().idx(), 0, v);
            assert(q == p.take(v, pawn));
        } else if cap is Some {
            lemma_take_consistent(p, to, cap->Some_0);
            lemma_take_hash(p, to, cap->Some_0);
            kc = piece_key(us.other().idx(), cap->Some_0.kind.idx(), to);
        } else {
            kc = 0;
            lemma_xor(big, 0, 0);
        }
        assert(placement_hash(q.pieces, 12) == big ^ kc);
        assert(q.mailbox[from] == Some(mover));
        lemma_take_consistent(q, from, mover);
        lemma_take_hash(q, from, mover);
        let q1 = q.take(from, mover);
        lemma_put_hash(q1, to, Piece { kind: placed, color: us });
        assert(r == q1.put(to, Piece { kind: placed, color: us }));
        d = (k1 ^ k2) ^ kc;
        let h = p.hash;
        assert(((big ^ kc) ^ k1) ^ k2 == big ^ ((k1 ^ k2) ^ kc) && ((h ^ k1) ^ k2) ^ kc == h ^ ((k1 ^ k2) ^ kc)
            && (kc == 0 ==> (h ^ k1) ^ k2 == h ^ ((k1 ^ k2) ^ kc))) by (bit_vector);
    }
    assert(placement_hash(r.pieces, 12) == big ^ d);
    let e1 = match p.ep {
        Some(sq) => ep_key(sq.0 as int % 8),
        None => 0,
    };
    let e2 = match a.ep {
        Some(sq) => ep_key(sq.0 as int % 8),
        None => 0,
    };
    let c1 = castling_key(p.castling.0 as int);
    let c2 = castling_key(a.castling.0 as int);
    let sk = side_key();
    let s1: u64 = if us == Color::Black { sk } else { 0 };
    let s2: u64 = if us == Color::Black { 0 } else { sk };
    let h = p.hash;
    lemma_xor(big ^ c1, 0, 0);
    lemma_xor((big ^ c1) ^ e1, 0, 0);
    assert(h == ((big ^ c1) ^ e1) ^ s1);
    lemma_xor(h ^ d, 0, 0);
    lemma_xor((h ^ d) ^ e1, 0, 0);
    assert(a.hash == (((((h ^ d) ^ e1) ^ e2) ^ c1) ^ c2) ^ sk);
    let big2 = big ^ d;
    lemma_xor(big2 ^ c2, 0, 0);
    lemma_xor((big2 ^ c2) ^ e2, 0, 0);
    assert(a.full_hash() == ((big2 ^ c2) ^ e2) ^ s2);
    assert(h == ((big ^ c1) ^ e1) ^ s1 && big2 == big ^ d && ((s1 == 0 && s2 == sk) || (s1 == sk && s2 == 0)) ==> (((
    ((h ^ d) ^ e1) ^ e2) ^ c1) ^ c2) ^ sk == ((big2 ^ c2) ^ e2) ^ s2) by (bit_vector);
}

/// The null-move update keeps the hash: once the caller has cleared the
/// en-passant square and passed the turn, it is the hash from scratch.
pub proof fn law_null_move_hash(p: Position)
    requires
        p.hash == p.full_hash(),
    ensures
        ({
            let updated = (match p.ep {
                Some(sq) => p.hash ^ ep_key(sq.0 as int % 8),
                None => p.hash,
            }) ^ side_key();
            updated == (Position { ep: None, side: p.side.other(), hash: updated, ..p }).full_hash()
        }),
{
    let big = placement_hash(p.pieces, 12) ^ castling_key(p.castling.0 as int);
    let sk = side_key();
    let e = match p.ep {
        Some(sq) => ep_key(sq.0 as int % 8),
        None => 0,
    };
    assert(((big ^ e) ^ e) ^ sk == big ^ sk && (((big ^ e) ^ sk) ^ e) ^ sk == big && (big ^ sk) ^ sk == big)
        by (bit_vector);
}

/// A move that takes nothing and is not made by a pawn counts towards the
/// fifty-move rule; any other starts the count again. The number of the move
/// grows once Black has moved, and the turn passes.
pub proof fn law_clocks_after_a_move(p: Position, m: Move)
    requires
        p.mailbox[m.src()] is Some,
        p.halfmove < u16::MAX,
        p.fullmove < u16::MAX,
    ensures
        p.mailbox[m.src()]->Some_0.kind == PieceKind::Pawn ==> p.after(m).halfmove == 0,
        p.fits(m) && m.kind() != MoveFlag::KingsideCastle && m.kind() != MoveFlag::QueensideCastle
            && p.mailbox[m.dst()] is Some ==> p.after(m).halfmove == 0,
        p.fits(m) && p.mailbox[m.src()]->Some_0.kind != PieceKind::Pawn && (m.kind() == MoveFlag::KingsideCastle
            || m.kind() == MoveFlag::QueensideCastle || p.mailbox[m.dst()] is None) ==> p.after(m).halfmove
            == p.halfmove + 1,
        p.side == Color::White ==> p.after(m).fullmove == p.fullmove && p.after(m).side == Color::Black,
        p.side == Color::Black ==> p.after(m).fullmove == p.fullmove + 1 && p.after(m).side == Color::White,
{
}

/// A right to castle is kept exactly if the king of its side does not move and
/// its rook is neither moved nor taken.
pub proof fn law_rights_after_a_move(p: Position, m: Move)
    requires
        p.mailbox[m.src()] is Some,
    ensures
        ({
            let king = p.mailbox[m.src()]->Some_0.kind == PieceKind::King;
            let (a, b) = (m.src(), m.dst());
            let now = p.after(m).castling.0;
            let was = p.castling.0;
            &&& now & 1 != 0 <==> was & 1 != 0 && !(king && p.side == Color::White) && a != p.rooks[0].0 && b
                != p.rooks[0].0
            &&& now & 2 != 0 <==> was & 2 != 0 && !(king && p.side == Color::White) && a != p.rooks[1].0 && b
                != p.rooks[1].0
            &&& now & 4 != 0 <==> was & 4 != 0 && !(king && p.side == Color::Black) && a != p.rooks[2].0 && b
                != p.rooks[2].0
            &&& now & 8 != 0 <==> was & 8 != 0 && !(king && p.side == Color::Black) && a != p.rooks[3].0 && b
                != p.rooks[3].0
        }),
{
    assert forall|x: u8|
        (#[trigger] (x & !3u8)) & 1 == 0 && (x & !3u8) & 2 == 0 && (x & !3u8) & 4 == x & 4 && (x & !3u8) & 8 == x & 8 && (
        x & !12u8) & 4 == 0 && (x & !12u8) & 8 == 0 && (x & !12u8) & 1 == x & 1 && (x & !12u8) & 2 == x & 2 && (x & !1u8)
            & 1 == 0 && (x & !1u8) & 2 == x & 2 && (x & !1u8) & 4 == x & 4 && (x & !1u8) & 8 == x & 8 && (x & !2u8) & 2
            == 0 && (x & !2u8) & 1 == x & 1 && (x & !2u8) & 4 == x & 4 && (x & !2u8) & 8 == x & 8 && (x & !4u8) & 4 == 0
            && (x & !4u8) & 1 == x & 1 && (x & !4u8) & 2 == x & 2 && (x & !4u8) & 8 == x & 8 && (x & !8u8) & 8 == 0 && (x
            & !8u8) & 1 == x & 1 && (x & !8u8) & 2 == x & 2 && (x & !8u8) & 4 == x & 4 by {
        assert((x & !3u8) & 1 == 0 && (x & !3u8) & 2 == 0 && (x & !3u8) & 4 == x & 4 && (x & !3u8) & 8 == x & 8 && (x
            & !12u8) & 4 == 0 && (x & !12u8) & 8 == 0 && (x & !12u8) & 1 == x & 1 && (x & !12u8) & 2 == x & 2 && (x & !1u8)
            & 1 == 0 && (x & !1u8) & 2 == x & 2 && (x & !1u8) & 4 == x & 4 && (x & !1u8) & 8 == x & 8 && (x & !2u8) & 2
            == 0 && (x & !2u8) & 1 == x & 1 && (x & !2u8) & 4 == x & 4 && (x & !2u8) & 8 == x & 8 && (x & !4u8) & 4 == 0
            && (x & !4u8) & 1 == x & 1 && (x & !4u8) & 2 == x & 2 && (x & !4u8) & 8 == x & 8 && (x & !8u8) & 8 == 0 && (x
            & !8u8) & 1 == x & 1 && (x & !8u8) & 2 == x & 2 && (x & !8u8) & 4 == x & 4) by (bit_vector);
    }
    let us = p.side;
    let king = p.mailbox[m.src()]->Some_0.kind == PieceKind::King;
    let r0: u8 = if king {
        match us {
            Color::White => p.castling.0 & !3u8,
            Color::Black => p.castling.0 & !12u8,
        }
    } else {
        p.castling.0
    };
    let w = p.castling.0 & !3u8;
    let (a, b) = (m.src(), m.dst());
    let r1: u8 = if a == p.rooks[1].0 || b == p.rooks[1].0 { r0 & !2u8 } else { r0 };
    let r2: u8 = if a == p.rooks[0].0 || b == p.rooks[0].0 { r1 & !1u8 } else { r1 };
    let r3: u8 = if a == p.rooks[3].0 || b == p.rooks[3].0 { r2 & !8u8 } else { r2 };
    let (w0, w1, w2, w3) = (r0 & !3u8, r1 & !3u8, r2 & !3u8, r3 & !3u8);
}

/// A move changes the squares that it names and no others. The moved piece, or
/// the piece that a pawn becomes, stands on the target; the origin is empty; and
/// so is the square beside the origin on which a pawn was taken en passant.
pub proof fn law_pieces_after_a_move(p: Position, m: Move, i: int)
    requires
        p.consistent(),
        p.fits(m),
        m.kind() != MoveFlag::KingsideCastle,
        m.kind() != MoveFlag::QueensideCastle,
        m.src() != m.dst(),
        0 <= i < 64,
    ensures
        ({
            let mover = p.mailbox[m.src()]->Some_0;
            let below = if p.side == Color::White { m.dst() - 8 } else { m.dst() + 8 };
            let now = p.after(m).mailbox;
            &&& i == m.dst() ==> now[i] is Some && now[i]->Some_0.color == p.side
            &&& i == m.dst() && m.kind() != MoveFlag::PromoteKnight && m.kind() != MoveFlag::PromoteBishop && m.kind()
                != MoveFlag::PromoteRook && m.kind() != MoveFlag::PromoteQueen && m.kind()
                != MoveFlag::PromoteCaptureKnight && m.kind() != MoveFlag::PromoteCaptureBishop && m.kind()
                != MoveFlag::PromoteCaptureRook && m.kind() != MoveFlag::PromoteCaptureQueen ==> now[i] == Some(mover)
            &&& i == m.dst() && (m.kind() == MoveFlag::PromoteKnight || m.kind() == MoveFlag::PromoteCaptureKnight)
                ==> now[i]->Some_0.kind == PieceKind::Knight
            &&& i == m.dst() && (m.kind() == MoveFlag::PromoteBishop || m.kind() == MoveFlag::PromoteCaptureBishop)
                ==> now[i]->Some_0.kind == PieceKind::Bishop
            &&& i == m.dst() && (m.kind() == MoveFlag::PromoteRook || m.kind() == MoveFlag::PromoteCaptureRook)
                ==> now[i]->Some_0.kind == PieceKind::Rook
            &&& i == m.dst() && (m.kind() == MoveFlag::PromoteQueen || m.kind() == MoveFlag::PromoteCaptureQueen)
                ==> now[i]->Some_0.kind == PieceKind::Queen
            &&& i == m.src() ==> now[i] is None
            &&& m.kind() == MoveFlag::EnPassant && i == below ==> now[i] is None
            &&& i != m.dst() && i != m.src() && !(m.kind() == MoveFlag::EnPassant && i == below) ==> now[i]
                == p.mailbox[i]
        }),
{
    law_make_keeps_consistent(p, m);
}

/// Castling puts the king on the g- or c-file and the rook on the f- or d-file
/// of the back rank, empties their origins, and changes nothing else.
pub proof fn law_pieces_after_castling(p: Position, m: Move, i: int)
    requires
        p.consistent(),
        p.fits(m),
        m.kind() == MoveFlag::KingsideCastle || m.kind() == MoveFlag::QueensideCastle,
        0 <= i < 64,
    ensures
        ({
            let short = m.kind() == MoveFlag::KingsideCastle;
            let home: int = if p.side == Color::White { 0 } else { 56 };
            let king_to = home + if short { 6int } else { 2 };
            let rook_to = home + if short { 5int } else { 3 };
            let rook_from = p.rooks[if p.side == Color::White {
                if short { 0int } else { 1 }
            } else {
                if short { 2int } else { 3 }
            }].0;
            let now = p.after(m).mailbox;
            &&& m.dst() == king_to
            &&& now[king_to] == Some(Piece { kind: PieceKind::King, color: p.side })
            &&& now[rook_to] == Some(Piece { kind: PieceKind::Rook, color: p.side })
            &&& i != king_to && i != rook_to && (i == m.src() || i == rook_from) ==> now[i] is None
            &&& i != king_to && i != rook_to && i != m.src() && i != rook_from ==> now[i] == p.mailbox[i]
        }),
{
    law_make_keeps_consistent(p, m);
    assert(king_target(p.side, true) != rook_target(p.side, true));
    assert(king_target(p.side, false) != rook_target(p.side, false));
    assert(king_target(p.side, true) != rook_target(p.side, false));
}

/// What a move that fits is said to take is what stood on its target, or the
/// pawn that it takes en passant; castling takes nothing.
pub proof fn law_captured_piece(p: Position, m: Move)
    requires
        p.fits(m),
    ensures
        m.kind() == MoveFlag::EnPassant ==> p.captured_by(m) is Some && p.captured_by(m)->Some_0.kind == PieceKind::Pawn
            && p.captured_by(m)->Some_0.color != p.side,
        m.kind() == MoveFlag::KingsideCastle || m.kind() == MoveFlag::QueensideCastle ==> p.captured_by(m) is None,
        m.kind() != MoveFlag::EnPassant && m.kind() != MoveFlag::KingsideCastle && m.kind()
            != MoveFlag::QueensideCastle ==> p.captured_by(m) == p.mailbox[m.dst()],
{
}

/// The hash tells positions apart by the keys of what they differ in: of the
/// side to move, of the rights, and of the en-passant file.
pub proof fn law_hash_covers_the_state(p: Position, q: Position)
    requires
        p.pieces == q.pieces,
    ensures
        p.castling == q.castling && p.ep == q.ep && p.side != q.side ==> p.full_hash() ^ q.full_hash() == side_key(),
        p.side == q.side && p.ep == q.ep ==> p.full_hash() ^ q.full_hash() == castling_key(p.castling.0 as int)
            ^ castling_key(q.castling.0 as int),
        p.side == q.side && p.castling == q.castling && p.ep is None && q.ep is Some ==> p.full_hash() ^ q.full_hash()
            == ep_key(q.ep->Some_0.0 as int % 8),
{
    let big = placement_hash(p.pieces, 12);
    let s = side_key();
    let c = castling_key(p.castling.0 as int);
    let d = castling_key(q.castling.0 as int);
    let e = match q.ep {
        Some(sq) => ep_key(sq.0 as int % 8),
        None => 0,
    };
    let f = match p.ep {
        Some(sq) => ep_key(sq.0 as int % 8),
        None => 0,
    };
    assert(((big ^ c) ^ s) ^ (big ^ c) == s && (big ^ c) ^ ((big ^ c) ^ s) == s && (((big ^ c) ^ e) ^ s) ^ ((big ^ c) ^ e)
        == s && ((big ^ c) ^ e) ^ (((big ^ c) ^ e) ^ s) == s && (big ^ c) ^ (big ^ d) == c ^ d && ((big ^ c) ^ e) ^ ((big
        ^ d) ^ e) == c ^ d && ((big ^ c) ^ s) ^ ((big ^ d) ^ s) == c ^ d && (((big ^ c) ^ e) ^ s) ^ (((big ^ d) ^ e) ^ s)
        == c ^ d && (big ^ c) ^ ((big ^ c) ^ e) == e && ((big ^ c) ^ s) ^ (((big ^ c) ^ e) ^ s) == e) by (bit_vector);
}

/// A piece that is put on the board changes the hash by its own key.
pub proof fn law_hash_covers_the_pieces(p: Position, sq: int, piece: Piece)
    requires
        p.consistent(),
        0 <= sq < 64,
        p.mailbox[sq] is None,
    ensures
        p.put(sq, piece).full_hash() == p.full_hash() ^ piece_key(piece.color.idx(), piece.kind.idx(), sq),
{
    lemma_put_hash(p, sq, piece);
    let big = placement_hash(p.pieces, 12);
    let k = piece_key(piece.color.idx(), piece.kind.idx(), sq);
    let c = castling_key(p.castling.0 as int);
    let e = match p.ep {
        Some(x) => ep_key(x.0 as int % 8),
        None => 0,
    };
    let s = side_key();
    assert((big ^ k) ^ c == (big ^ c) ^ k && ((big ^ k) ^ c) ^ e == ((big ^ c) ^ e) ^ k && ((big ^ k) ^ c) ^ s == ((big
        ^ c) ^ s) ^ k && (((big ^ k) ^ c) ^ e) ^ s == (((big ^ c) ^ e) ^ s) ^ k) by (bit_vector);
}

} // verus!
