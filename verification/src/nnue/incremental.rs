//! Keeping an accumulator in step with the moves of a search.

use vstd::prelude::*;
use super::accumulator::{cell, law_put_matches_add, law_state_change_matches_update, law_take_matches_sub, Accumulator};
use super::inference::{bucket_for, l1_out, l2_out, l3_raw, lemma_halves_matter, nnue_evaluate};
use super::network::NnueNetwork;
use crate::arith::quot;
use crate::board::{ep_victim, Board, Position};
use crate::board_laws::{law_make_keeps_consistent, lemma_take_consistent};
use crate::moves::{Move, MoveFlag};
use crate::types::{CastlingRights, Color, Piece, PieceKind, Square};

verus! {

impl Accumulator {
    /// Every perspective that is not stale shows a position.
    #[verifier::opaque]
    pub open spec fn valid_for(&self, net: NnueNetwork, p: Position) -> bool {
        forall|c: Color| !#[trigger] self.stale(c) ==> self.shows(net, p, c)
    }
}

/// The values of one perspective for a position.
pub open spec fn half_for(net: NnueNetwork, p: Position, c: Color) -> Seq<i16> {
    Seq::new(1024, |j: int| cell(net, p, c, j) as i16)
}

/// The value of the network for a position, in centipawns for the side to
/// move.
pub open spec fn position_value(net: NnueNetwork, p: Position) -> int {
    let bucket = bucket_for(p.occupied().size() as int);
    let l1 = l1_out(net, half_for(net, p, p.side), half_for(net, p, p.side.other()), bucket);
    let l2 = l2_out(net, l1, bucket);
    quot(l3_raw(net, l2, bucket) * 400, 1032256)
}

/// Evaluate a position by an accumulator, which is brought up to date first.
pub fn evaluate_position(acc: &mut Accumulator, board: &Board, net: &NnueNetwork) -> (r: i32)
    requires
        net.ok(),
        old(acc).valid_for(*net, board@),
    ensures
        r == position_value(*net, board@),
        -900_000 <= r <= 900_000,
        final(acc).valid_for(*net, board@),
{
    proof {
        reveal(Accumulator::valid_for);
    }
    if acc.needs_refresh(Color::White) {
        acc.refresh_perspective(board, net, Color::White);
    }
    if acc.needs_refresh(Color::Black) {
        acc.refresh_perspective(board, net, Color::Black);
    }
    proof {
        assert(!acc.stale(Color::White) && !acc.stale(Color::Black));
        assert(acc.shows(*net, board@, Color::White));
        assert(acc.shows(*net, board@, Color::Black));
        assert(acc.half(Color::White) =~= half_for(*net, board@, Color::White));
        assert(acc.half(Color::Black) =~= half_for(*net, board@, Color::Black));
    }
    nnue_evaluate(acc, board.side_to_move, net, board.all_occupancy().count())
}

/// Cells depend on the pieces, the rights and the en-passant target only.
proof fn lemma_cell_depends(net: NnueNetwork, p: Position, q: Position, c: Color, j: int)
    requires
        p.pieces == q.pieces,
        p.castling == q.castling,
        p.ep == q.ep,
    ensures
        cell(net, p, c, j) == cell(net, q, c, j),
{
}

/// Neither king takes part in the move.
pub open spec fn spares_kings(p: Position, m: Move) -> bool {
    &&& p.mailbox[m.src()] is Some
    &&& p.mailbox[m.src()]->Some_0.kind != PieceKind::King
    &&& p.captured_by(m) is Some ==> p.captured_by(m)->Some_0.kind != PieceKind::King
}

/// The square of what a move captures.
pub open spec fn victim_square(p: Position, m: Move) -> int {
    if m.kind() == MoveFlag::EnPassant {
        match ep_victim(p.side, m.dst()) {
            Some(sq) => sq,
            None => m.dst(),
        }
    } else {
        m.dst()
    }
}

/// The piece that a move brings to its target.
pub open spec fn arriving(p: Position, m: Move) -> Piece {
    match m.kind().promoted() {
        Some(kind) => Piece { kind, color: p.side },
        None => p.mailbox[m.src()]->Some_0,
    }
}

/// The captured piece is off the board.
pub open spec fn without_victim(p: Position, m: Move) -> Position {
    match p.captured_by(m) {
        Some(cap) => p.take(victim_square(p, m), cap),
        None => p,
    }
}

/// The mover is off the board too.
pub open spec fn without_mover(p: Position, m: Move) -> Position {
    without_victim(p, m).take(m.src(), p.mailbox[m.src()]->Some_0)
}

/// What is placed is on the board.
pub open spec fn with_arrival(p: Position, m: Move) -> Position {
    without_mover(p, m).put(m.dst(), arriving(p, m))
}

/// Both kings stand where they stood.
pub open spec fn same_kings(p: Position, q: Position) -> bool {
    p.king_at(Color::White) == q.king_at(Color::White) && p.king_at(Color::Black) == q.king_at(Color::Black)
}

/// The pieces after a move that fits: the captured piece leaves, the mover
/// leaves its origin, and it or the promoted piece comes to its target.
proof fn lemma_steps(p: Position, m: Move)
    requires
        p.consistent(),
        p.fits(m),
        !m.kind().castles(),
        spares_kings(p, m),
    ensures
        p.captured_by(m) is Some ==> 0 <= victim_square(p, m) < 64 && p.mailbox[victim_square(p, m)] == p.captured_by(m),
        without_victim(p, m).consistent(),
        without_victim(p, m).mailbox[m.src()] == p.mailbox[m.src()],
        without_mover(p, m).consistent(),
        without_mover(p, m).mailbox[m.dst()] is None,
        with_arrival(p, m).pieces == p.after(m).pieces,
        with_arrival(p, m).castling == p.castling,
        with_arrival(p, m).ep == p.ep,
        arriving(p, m).kind != PieceKind::King,
        same_kings(without_victim(p, m), p),
        same_kings(without_mover(p, m), p),
        same_kings(with_arrival(p, m), p),
        same_kings(p.after(m), p),
{
    let mover = p.mailbox[m.src()]->Some_0;
    if p.captured_by(m) is Some {
        lemma_take_consistent(p, victim_square(p, m), p.captured_by(m)->Some_0);
    }
    lemma_take_consistent(without_victim(p, m), m.src(), mover);
    assert(p.cleared_for(m) == without_victim(p, m));
    p.lemma_moving_keeps(m, mover);
    assert(without_victim(p, m).relocated(m, mover) == with_arrival(p, m));
}

/// The incremental part of an update, for a move that spares the kings.
fn move_pieces(
    child: &mut Accumulator,
    net: &NnueNetwork,
    white_king: Square,
    black_king: Square,
    m: Move,
    captured: Option<Piece>,
    mover: Piece,
    Ghost(p): Ghost<Position>,
)
    requires
        net.ok(),
        p.consistent(),
        p.fits(m),
        !m.kind().castles(),
        spares_kings(p, m),
        captured == p.captured_by(m),
        p.mailbox[m.src()] == Some(mover),
        white_king.ok() && white_king.0 == p.king_at(Color::White),
        black_king.ok() && black_king.0 == p.king_at(Color::Black),
        !old(child).stale(Color::White),
        !old(child).stale(Color::Black),
        old(child).shows(*net, p, Color::White),
        old(child).shows(*net, p, Color::Black),
    ensures
        final(child).shows(*net, with_arrival(p, m), Color::White),
        final(child).shows(*net, with_arrival(p, m), Color::Black),
        !final(child).stale(Color::White),
        !final(child).stale(Color::Black),
{
    let flag = m.flag();
    let to = m.to_sq();
    let us = mover.color;
    proof {
        lemma_steps(p, m);
    }
    if let Some(cap) = captured {
        let ghost before = *child;
        let sq = if flag == MoveFlag::EnPassant {
            match Board::ep_victim_square(us, to) {
                Some(sq) => sq,
                None => to,
            }
        } else {
            to
        };
        child.sub_piece(net, white_king, black_king, cap.color, cap.kind, sq);
        proof {
            lemma_after_take(*net, p, victim_square(p, m), cap, before, *child);
        }
    }
    let ghost second = *child;
    child.sub_piece(net, white_king, black_king, us, mover.kind, m.from_sq());
    proof {
        lemma_after_take(*net, without_victim(p, m), m.src(), mover, second, *child);
    }
    let kind = match flag.promotion_piece() {
        Some(promo) => promo,
        None => mover.kind,
    };
    let ghost third = *child;
    child.add_piece(net, white_king, black_king, us, kind, to);
    proof {
        lemma_after_put(*net, without_mover(p, m), m.dst(), arriving(p, m), third, *child);
    }
}

/// Bring the accumulator of a child in step with a move, given that of its
/// parent. Called after the move was made: the board shows the new position.
///
/// Moves of a king, or the loss of one, change the king's bucket and need a
/// full recompute, as does a stale parent. Then the child is marked stale, and
/// the recompute is left to the evaluation, so that pruned nodes pay nothing.
pub fn update_accumulator_for_move(
    parent: &Accumulator,
    child: &mut Accumulator,
    net: &NnueNetwork,
    board: &Board,
    m: Move,
    captured: Option<Piece>,
    old_castling: CastlingRights,
    old_en_passant: Option<Square>,
    Ghost(p): Ghost<Position>,
)
    requires
        net.ok(),
        p.consistent(),
        p.fits(m),
        board@ == p.after(m),
        captured == p.captured_by(m),
        old_castling == p.castling,
        old_en_passant == p.ep,
        parent.valid_for(*net, p),
    ensures
        final(child).valid_for(*net, board@),
        !parent.stale(Color::White) && !parent.stale(Color::Black) && spares_kings(p, m) ==> !final(child).stale(
            Color::White,
        ) && !final(child).stale(Color::Black),
        parent.stale(Color::White) || parent.stale(Color::Black) || !spares_kings(p, m) ==> final(child).stale(
            Color::White,
        ) && final(child).stale(Color::Black),
{
    proof {
        reveal(Accumulator::valid_for);
    }
    let flag = m.flag();
    let to = m.to_sq();
    let us = board.side_to_move.opposite();
    proof {
        law_make_keeps_consistent(p, m);
    }
    let castles = flag == MoveFlag::KingsideCastle || flag == MoveFlag::QueensideCastle;
    let moving_kind = if flag.is_promotion() {
        PieceKind::Pawn
    } else if castles {
        PieceKind::King
    } else {
        match board.piece_at(to) {
            Some(piece) => piece.kind,
            None => PieceKind::Pawn,
        }
    };
    let king_taken = match captured {
        Some(piece) => piece.kind == PieceKind::King,
        None => false,
    };
    if moving_kind == PieceKind::King || king_taken || parent.needs_refresh(Color::White) || parent.needs_refresh(
        Color::Black,
    ) {
        child.mark_refresh(Color::White);
        child.mark_refresh(Color::Black);
        return ;
    }
    let mover = Piece { kind: moving_kind, color: us };
    proof {
        assert(p.mailbox[m.src()] == Some(mover));
        lemma_steps(p, m);
    }
    let white_king = board.king_square(Color::White);
    let black_king = board.king_square(Color::Black);
    child.copy_clean_from(parent, None);
    proof {
        assert(!child.stale(Color::White) && !child.stale(Color::Black));
        assert(child.half(Color::White) == parent.half(Color::White));
        assert(child.half(Color::Black) == parent.half(Color::Black));
        assert(parent.shows(*net, p, Color::White) && parent.shows(*net, p, Color::Black));
    }
    move_pieces(child, net, white_king, black_king, m, captured, mover, Ghost(p));
    let ghost moved = *child;
    child.update_state(net, white_king, black_king, old_castling, old_en_passant, board.castling, board.en_passant);
    proof {
        lemma_after_state(*net, with_arrival(p, m), board@, moved, *child);
    }
}

/// One step of the update: a piece leaves.
proof fn lemma_after_take(net: NnueNetwork, p: Position, sq: int, piece: Piece, before: Accumulator, after: Accumulator)
    requires
        p.consistent(),
        0 <= sq < 64,
        p.mailbox[sq] == Some(piece),
        piece.kind != PieceKind::King,
        before.shows(net, p, Color::White),
        before.shows(net, p, Color::Black),
        forall|c: Color, j: int|
            0 <= j < 1024 ==> #[trigger] after.half(c)[j] == super::accumulator::wrap16(
                before.half(c)[j] - super::accumulator::weight(
                    net.ft_weights@,
                    super::features::feature_of(
                        c,
                        p.king_at(Color::White),
                        p.king_at(Color::Black),
                        piece.color,
                        piece.kind,
                        sq,
                    ),
                    j,
                ),
            ),
    ensures
        after.shows(net, p.take(sq, piece), Color::White),
        after.shows(net, p.take(sq, piece), Color::Black),
{
    assert forall|c: Color, j: int| 0 <= j < 1024 implies #[trigger] after.half(c)[j] == cell(
        net,
        p.take(sq, piece),
        c,
        j,
    ) by {
        law_take_matches_sub(net, p, sq, piece, c, j);
        assert(before.shows(net, p, c));
        assert(before.half(c)[j] == cell(net, p, c, j));
    }
}

/// One step of the update: a piece comes.
proof fn lemma_after_put(net: NnueNetwork, p: Position, sq: int, piece: Piece, before: Accumulator, after: Accumulator)
    requires
        p.consistent(),
        0 <= sq < 64,
        p.mailbox[sq] is None,
        piece.kind != PieceKind::King,
        before.shows(net, p, Color::White),
        before.shows(net, p, Color::Black),
        forall|c: Color, j: int|
            0 <= j < 1024 ==> #[trigger] after.half(c)[j] == super::accumulator::wrap16(
                before.half(c)[j] + super::accumulator::weight(
                    net.ft_weights@,
                    super::features::feature_of(
                        c,
                        p.king_at(Color::White),
                        p.king_at(Color::Black),
                        piece.color,
                        piece.kind,
                        sq,
                    ),
                    j,
                ),
            ),
    ensures
        after.shows(net, p.put(sq, piece), Color::White),
        after.shows(net, p.put(sq, piece), Color::Black),
{
    assert forall|c: Color, j: int| 0 <= j < 1024 implies #[trigger] after.half(c)[j] == cell(
        net,
        p.put(sq, piece),
        c,
        j,
    ) by {
        law_put_matches_add(net, p, sq, piece, c, j);
        assert(before.shows(net, p, c));
        assert(before.half(c)[j] == cell(net, p, c, j));
    }
}

/// The last step of the update: rights and en-passant target change.
proof fn lemma_after_state(net: NnueNetwork, p: Position, q: Position, before: Accumulator, after: Accumulator)
    requires
        p.pieces == q.pieces,
        before.shows(net, p, Color::White),
        before.shows(net, p, Color::Black),
        forall|c: Color, j: int|
            0 <= j < 1024 ==> #[trigger] after.half(c)[j] == super::accumulator::wrap16(
                before.half(c)[j] + super::accumulator::state_sum(
                    net.ft_weights@,
                    super::features::state_features(
                        c,
                        p.king_at(Color::White),
                        p.king_at(Color::Black),
                        q.castling,
                        q.ep,
                    ),
                    j,
                ) - super::accumulator::state_sum(
                    net.ft_weights@,
                    super::features::state_features(
                        c,
                        p.king_at(Color::White),
                        p.king_at(Color::Black),
                        p.castling,
                        p.ep,
                    ),
                    j,
                ),
            ),
    ensures
        after.shows(net, q, Color::White),
        after.shows(net, q, Color::Black),
{
    assert forall|c: Color, j: int| 0 <= j < 1024 implies #[trigger] after.half(c)[j] == cell(net, q, c, j) by {
        law_state_change_matches_update(net, p, q.castling, q.ep, c, j);
        lemma_cell_depends(net, Position { castling: q.castling, ep: q.ep, ..p }, q, c, j);
        assert(before.shows(net, p, c));
        assert(before.half(c)[j] == cell(net, p, c, j));
    }
}

/// Bring the accumulator of a child in step with a null move: the pieces stay,
/// an en-passant target is gone.
pub fn update_accumulator_for_null_move(
    parent: &Accumulator,
    child: &mut Accumulator,
    net: &NnueNetwork,
    board: &Board,
    old_en_passant: Option<Square>,
    Ghost(p): Ghost<Position>,
)
    requires
        net.ok(),
        board@.pieces == p.pieces,
        board@.castling == p.castling,
        old_en_passant == p.ep,
        parent.valid_for(*net, p),
    ensures
        final(child).valid_for(*net, board@),
        final(child).stale(Color::White) == (parent.stale(Color::White) || parent.stale(Color::Black)),
        final(child).stale(Color::Black) == (parent.stale(Color::White) || parent.stale(Color::Black)),
{
    proof {
        reveal(Accumulator::valid_for);
    }
    if parent.needs_refresh(Color::White) || parent.needs_refresh(Color::Black) {
        child.mark_refresh(Color::White);
        child.mark_refresh(Color::Black);
        return ;
    }
    child.copy_clean_from(parent, None);
    proof {
        assert(child.shows(*net, p, Color::White) && child.shows(*net, p, Color::Black));
    }
    let ghost before = *child;
    let white_king = board.king_square(Color::White);
    let black_king = board.king_square(Color::Black);
    child.update_state(net, white_king, black_king, board.castling, old_en_passant, board.castling, board.en_passant);
    proof {
        lemma_after_state(*net, p, board@, before, *child);
    }
}

/// The value of a position is that of its two halves: where the network has no
/// weights for the second half of the inputs, two positions with the same side
/// to move, as many pieces and the same values in the half of that side have the
/// same value.
pub proof fn law_position_value_by_own_half(net: NnueNetwork, p: Position, q: Position)
    requires
        net.ok(),
        forall|k: int| 0 <= k < net.l1_weights@.len() && k % 1024 >= 512 ==> #[trigger] net.l1_weights@[k] == 0,
        p.side == q.side,
        p.occupied().size() == q.occupied().size(),
        forall|j: int| 0 <= j < 1024 ==> #[trigger] cell(net, p, p.side, j) == cell(net, q, p.side, j),
    ensures
        position_value(net, p) == position_value(net, q),
{
    let bucket = bucket_for(p.occupied().size() as int);
    let own = half_for(net, p, p.side);
    assert(own =~= half_for(net, q, q.side));
    lemma_halves_matter(net, own, half_for(net, p, p.side.other()), half_for(net, q, q.side.other()), bucket, true);
}

/// Where the network has no weights for the first half of the inputs, the half
/// of the side that is not to move decides.
pub proof fn law_position_value_by_other_half(net: NnueNetwork, p: Position, q: Position)
    requires
        net.ok(),
        forall|k: int| 0 <= k < net.l1_weights@.len() && k % 1024 < 512 ==> #[trigger] net.l1_weights@[k] == 0,
        p.side == q.side,
        p.occupied().size() == q.occupied().size(),
        forall|c: Color, j: int|
            c != p.side && 0 <= j < 1024 ==> #[trigger] cell(net, p, c, j) == cell(net, q, c, j),
    ensures
        position_value(net, p) == position_value(net, q),
{
    let bucket = bucket_for(p.occupied().size() as int);
    let c = p.side.other();
    let other = half_for(net, p, c);
    assert(other =~= half_for(net, q, c));
    lemma_halves_matter(net, other, half_for(net, p, p.side), half_for(net, q, q.side), bucket, false);
}

} // verus!
