//! Laws of move generation: what is in the lists, and how they relate.

use vstd::prelude::*;
use crate::attacks::{attacked, is_square, lemma_pawn_offsets, pawn_hits, piece_hits};
use crate::bits::{ascending, ascending_from, bit, concat_over, group_bits, lemma_ascending, lemma_ascending_members, lemma_pop, lemma_squares_members, sum_over};
use crate::board::{ep_victim, home_rank, king_target, rook_index, rook_target, Position};
use crate::movegen::{between, capture_delta, capture_fn, capture_targets, castle_clear, castle_flag, castle_safe, castle_to, castling_moves, double_fn, double_pushes, double_targets, ep_capture, forward, keep_safe, kind_moves, king_moves, leaves_king_safe, legal_moves, may_castle, on_second, on_seventh, pawn_captures, pawn_reaches, pawn_takes, piece_moves, promotions, pseudo_moves, push_fn, push_targets, quiet_moves, right_bit, single_pushes, step_fn, step_targets, steps_fn, tactical_moves};
use crate::moves::{law_move_parts_round_trip, mk_move, Move, MoveFlag};
use crate::types::{color_at, kind_at, Color, Piece, PieceKind, Square};

verus! {

impl Position {
    /// Exactly one king of the color is on the board.
    pub open spec fn one_king(self, c: Color) -> bool {
        self.set_of(c, PieceKind::King).size() == 1
    }

    /// An en-passant target is empty and has an enemy pawn behind it.
    pub open spec fn ep_sound(self) -> bool {
        match self.ep {
            None => true,
            Some(sq) => {
                &&& sq.ok()
                &&& self.mailbox[sq.0 as int] is None
                &&& ep_victim(self.side, sq.0 as int) is Some
                &&& self.mailbox[ep_victim(self.side, sq.0 as int)->Some_0] == Some(
                    Piece { kind: PieceKind::Pawn, color: self.side.other() },
                )
            },
        }
    }

    /// A position that can arise on a board: consistent tables, one king a
    /// side, and a sound en-passant target.
    pub open spec fn sound(self) -> bool {
        &&& self.consistent()
        &&& self.one_king(Color::White)
        &&& self.one_king(Color::Black)
        &&& self.ep_sound()
    }
}

// What the rules allow, move by move.
/// A step of a piece other than a pawn, onto a square that is not ours.
pub open spec fn is_step(p: Position, kind: PieceKind, from: int, to: int, flag: MoveFlag) -> bool {
    &&& is_square(from)
    &&& is_square(to)
    &&& piece_hits(kind, p.side, p.occupied().0, from, to)
    &&& !bit(p.ours(), to)
    &&& flag == (if bit(p.theirs(), to) { MoveFlag::Capture } else { MoveFlag::Normal })
}

/// A single pawn push.
pub open spec fn is_push(p: Position, from: int, to: int, flag: MoveFlag) -> bool {
    &&& is_square(to)
    &&& bit(p.own_pawns(), from)
    &&& to == from + forward(p.side)
    &&& !bit(p.occupied().0, to)
    &&& if on_seventh(p.side, from) { flag.promotes() && !flag.captures() } else { flag == MoveFlag::Normal }
}

/// A double pawn push.
pub open spec fn is_double_push(p: Position, from: int, to: int, flag: MoveFlag) -> bool {
    &&& is_square(to)
    &&& bit(p.own_pawns(), from)
    &&& on_second(p.side, from)
    &&& to == from + 2 * forward(p.side)
    &&& !bit(p.occupied().0, from + forward(p.side))
    &&& !bit(p.occupied().0, to)
    &&& flag == MoveFlag::DoublePawnPush
}

/// A capture by a pawn, en passant aside.
pub open spec fn is_pawn_capture(p: Position, from: int, to: int, flag: MoveFlag) -> bool {
    &&& is_square(to)
    &&& bit(p.own_pawns(), from)
    &&& pawn_hits(p.side, from, to)
    &&& bit(p.theirs(), to)
    &&& if on_seventh(p.side, from) { flag.promotes() && flag.captures() } else { flag == MoveFlag::Capture }
}

/// An en-passant capture.
pub open spec fn is_ep_capture(p: Position, from: int, to: int, flag: MoveFlag) -> bool {
    &&& p.ep == Some(Square(to as u8))
    &&& is_square(to)
    &&& bit(p.own_pawns(), from)
    &&& pawn_hits(p.side, from, to)
    &&& flag == MoveFlag::EnPassant
}

/// Castling to one side.
pub open spec fn is_castle(p: Position, kingside: bool, from: int, to: int, flag: MoveFlag) -> bool {
    &&& from == p.king_at(p.side)
    &&& !attacked(p, from, p.side.other())
    &&& from / 8 == home_rank(p.side)
    &&& may_castle(p, kingside)
    &&& to == king_target(p.side, kingside)
    &&& flag == castle_flag(kingside)
}

/// The move is one that the rules of movement allow, king safety aside.
pub open spec fn pseudo_legal(p: Position, m: Move) -> bool {
    let from = m.src();
    let to = m.dst();
    let flag = m.kind();
    &&& m == mk_move(from, to, flag)
    &&& {
        ||| p.set_of(p.side, PieceKind::Knight).has(from) && is_step(p, PieceKind::Knight, from, to, flag)
        ||| p.set_of(p.side, PieceKind::Bishop).has(from) && is_step(p, PieceKind::Bishop, from, to, flag)
        ||| p.set_of(p.side, PieceKind::Rook).has(from) && is_step(p, PieceKind::Rook, from, to, flag)
        ||| p.set_of(p.side, PieceKind::Queen).has(from) && is_step(p, PieceKind::Queen, from, to, flag)
        ||| from == p.king_at(p.side) && is_step(p, PieceKind::King, from, to, flag)
        ||| is_push(p, from, to, flag)
        ||| is_double_push(p, from, to, flag)
        ||| is_pawn_capture(p, from, to, flag)
        ||| is_ep_capture(p, from, to, flag)
        ||| is_castle(p, true, from, to, flag)
        ||| is_castle(p, false, from, to, flag)
    }
}

proof fn lemma_concat_contains<T>(s: Seq<int>, f: spec_fn(int) -> Seq<T>, m: T)
    ensures
        concat_over(s, f).contains(m) <==> exists|i: int| s.contains(i) && #[trigger] f(i).contains(m),
    decreases s.len(),
{
    if s.len() == 0 {
        assert(!concat_over(s, f).contains(m));
    } else {
        let rest = s.drop_first();
        lemma_concat_contains(rest, f, m);
        let a = f(s[0]);
        let b = concat_over(rest, f);
        lemma_add_contains(a, b, m);
        if exists|i: int| s.contains(i) && #[trigger] f(i).contains(m) {
            let i = choose|i: int| s.contains(i) && #[trigger] f(i).contains(m);
            let k = choose|k: int| 0 <= k < s.len() && s[k] == i;
            if k > 0 {
                assert(rest[k - 1] == i);
                assert(rest.contains(i));
            }
        }
        if a.contains(m) {
            assert(s.contains(s[0]));
            assert(f(s[0]).contains(m));
        }
        if b.contains(m) {
            let i = choose|i: int| rest.contains(i) && #[trigger] f(i).contains(m);
            let k = choose|k: int| 0 <= k < rest.len() && rest[k] == i;
            assert(s[k + 1] == i);
            assert(s.contains(i));
        }
    }
}

/// What is in two lists put together.
pub proof fn lemma_add_contains<T>(a: Seq<T>, b: Seq<T>, m: T)
    ensures
        (a + b).contains(m) <==> a.contains(m) || b.contains(m),
{
    if (a + b).contains(m) {
        let k = choose|k: int| 0 <= k < (a + b).len() && (a + b)[k] == m;
        if k < a.len() {
            assert(a[k] == m);
        } else {
            assert(b[k - a.len()] == m);
        }
    }
    if a.contains(m) {
        let k = choose|k: int| 0 <= k < a.len() && a[k] == m;
        assert((a + b)[k] == m);
    }
    if b.contains(m) {
        let k = choose|k: int| 0 <= k < b.len() && b[k] == m;
        assert((a + b)[k + a.len()] == m);
    }
}

proof fn lemma_one_contains(x: Move, m: Move)
    ensures
        seq![x].contains(m) <==> m == x,
{
    if m == x {
        assert(seq![x][0] == m);
    }
}

proof fn lemma_promotions_contain(from: int, to: int, capture: bool, m: Move)
    requires
        is_square(from),
        is_square(to),
    ensures
        promotions(from, to, capture).contains(m) <==> (m == mk_move(from, to, m.kind()) && m.kind().promotes()
            && m.kind().captures() == capture),
{
    let s = promotions(from, to, capture);
    let f = Square(from as u8);
    let t = Square(to as u8);
    assert forall|flag: MoveFlag| (#[trigger] mk_move(from, to, flag)).kind() == flag by {
        law_move_parts_round_trip(f, t, flag);
    }
    if s.contains(m) {
        let k = choose|k: int| 0 <= k < s.len() && s[k] == m;
        assert(k == 0 || k == 1 || k == 2 || k == 3);
    }
    if m == mk_move(from, to, m.kind()) && m.kind().promotes() && m.kind().captures() == capture {
        assert(m == s[0] || m == s[1] || m == s[2] || m == s[3]);
    }
}

proof fn lemma_steps_contain(p: Position, kind: PieceKind, from: int, mask: u64, m: Move)
    requires
        is_square(from),
    ensures
        steps_fn(p, kind, mask)(from).contains(m) <==> ({
            &&& is_square(m.dst())
            &&& piece_hits(kind, p.side, p.occupied().0, from, m.dst())
            &&& bit(mask, m.dst())
            &&& m == mk_move(from, m.dst(), if bit(p.theirs(), m.dst()) { MoveFlag::Capture } else { MoveFlag::Normal })
        }),
{
    let pred = |t: int| piece_hits(kind, p.side, p.occupied().0, from, t) && bit(mask, t);
    let targets = step_targets(p, kind, from, mask);
    assert(targets == ascending(pred));
    lemma_ascending_members(pred);
    let f = step_fn(p.theirs(), from);
    lemma_concat_contains(targets, f, m);
    let list = concat_over(targets, f);
    assert(steps_fn(p, kind, mask)(from) == list);
    if list.contains(m) {
        let t = choose|t: int| targets.contains(t) && #[trigger] f(t).contains(m);
        let flag = if bit(p.theirs(), t) { MoveFlag::Capture } else { MoveFlag::Normal };
        lemma_one_contains(mk_move(from, t, flag), m);
        law_move_parts_round_trip(Square(from as u8), Square(t as u8), flag);
        assert(ascending(pred).contains(t));
        assert(pred(t));
    }
    let t = m.dst();
    let flag = if bit(p.theirs(), t) { MoveFlag::Capture } else { MoveFlag::Normal };
    if is_square(t) && pred(t) && m == mk_move(from, t, flag) {
        assert(ascending(pred).contains(t));
        lemma_one_contains(mk_move(from, t, flag), m);
        assert(f(t).contains(m));
    }
}

proof fn lemma_kind_contains(p: Position, kind: PieceKind, mask: u64, m: Move)
    ensures
        kind_moves(p, kind, mask).contains(m) <==> ({
            &&& p.set_of(p.side, kind).has(m.src())
            &&& steps_fn(p, kind, mask)(m.src()).contains(m)
        }),
{
    broadcast use group_bits;
    let set = p.set_of(p.side, kind);
    let f = steps_fn(p, kind, mask);
    lemma_concat_contains(set.members(), f, m);
    lemma_squares_members(set.0);
    if kind_moves(p, kind, mask).contains(m) {
        let i = choose|i: int| set.members().contains(i) && #[trigger] f(i).contains(m);
        assert(bit(set.0, i));
        lemma_steps_contain(p, kind, i, mask, m);
        let flag = if bit(p.theirs(), m.dst()) { MoveFlag::Capture } else { MoveFlag::Normal };
        law_move_parts_round_trip(Square(i as u8), Square(m.dst() as u8), flag);
        assert(m.src() == i);
    }
    if set.has(m.src()) && f(m.src()).contains(m) {
        assert(set.members().contains(m.src()));
    }
}

/// Membership in the piece moves to a mask of squares.
proof fn lemma_pieces_contain(p: Position, mask: u64, m: Move)
    requires
        is_square(p.king_at(p.side)),
    ensures
        piece_moves(p, mask).contains(m) <==> (kind_moves(p, PieceKind::Knight, mask).contains(m) || kind_moves(
            p,
            PieceKind::Bishop,
            mask,
        ).contains(m) || kind_moves(p, PieceKind::Rook, mask).contains(m) || kind_moves(p, PieceKind::Queen, mask).contains(
            m,
        ) || king_moves(p, mask).contains(m)),
{
    let a = kind_moves(p, PieceKind::Knight, mask);
    let b = kind_moves(p, PieceKind::Bishop, mask);
    let c = kind_moves(p, PieceKind::Rook, mask);
    let d = kind_moves(p, PieceKind::Queen, mask);
    let e = king_moves(p, mask);
    lemma_add_contains(a, b, m);
    lemma_add_contains(a + b, c, m);
    lemma_add_contains(a + b + c, d, m);
    lemma_add_contains(a + b + c + d, e, m);
}

proof fn lemma_pushes_contain(p: Position, promo: bool, plain: bool, m: Move)
    ensures
        single_pushes(p, promo, plain).contains(m) <==> (m == mk_move(m.src(), m.dst(), m.kind()) && is_push(
            p,
            m.src(),
            m.dst(),
            m.kind(),
        ) && (on_seventh(p.side, m.src()) ==> promo) && (!on_seventh(p.side, m.src()) ==> plain)),
{
    broadcast use group_bits;
    let us = p.side;
    let pred = |to: int| bit(p.own_pawns(), to - forward(p.side)) && !bit(p.occupied().0, to);
    assert(push_targets(p) == ascending(pred));
    lemma_ascending_members(pred);
    let f = push_fn(us, promo, plain);
    lemma_concat_contains(push_targets(p), f, m);
    let list = single_pushes(p, promo, plain);
    if list.contains(m) {
        let t = choose|t: int| push_targets(p).contains(t) && #[trigger] f(t).contains(m);
        assert(ascending(pred).contains(t));
        assert(pred(t));
        let from = t - forward(us);
        assert(is_square(from));
        if on_seventh(us, from) {
            assert(promo);
            lemma_promotions_contain(from, t, false, m);
            law_move_parts_round_trip(Square(from as u8), Square(t as u8), m.kind());
        } else {
            assert(plain);
            lemma_one_contains(mk_move(from, t, MoveFlag::Normal), m);
            law_move_parts_round_trip(Square(from as u8), Square(t as u8), MoveFlag::Normal);
        }
    }
    let from = m.src();
    let to = m.dst();
    if m == mk_move(from, to, m.kind()) && is_push(p, from, to, m.kind()) && (on_seventh(us, from) ==> promo) && (
    !on_seventh(us, from) ==> plain) {
        assert(pred(to));
        assert(ascending(pred).contains(to));
        assert(from == to - forward(us));
        if on_seventh(us, from) {
            lemma_promotions_contain(from, to, false, m);
        } else {
            lemma_one_contains(mk_move(from, to, MoveFlag::Normal), m);
        }
        assert(f(to).contains(m));
    }
}

proof fn lemma_doubles_contain(p: Position, m: Move)
    ensures
        double_pushes(p).contains(m) <==> (m == mk_move(m.src(), m.dst(), m.kind()) && is_double_push(
            p,
            m.src(),
            m.dst(),
            m.kind(),
        )),
{
    broadcast use group_bits;
    let us = p.side;
    let pred = |to: int|
        {
            let from = to - 2 * forward(p.side);
            &&& bit(p.own_pawns(), from)
            &&& on_second(p.side, from)
            &&& !bit(p.occupied().0, to - forward(p.side))
            &&& !bit(p.occupied().0, to)
        };
    assert(double_targets(p) == ascending(pred));
    lemma_ascending_members(pred);
    let f = double_fn(us);
    lemma_concat_contains(double_targets(p), f, m);
    if double_pushes(p).contains(m) {
        let t = choose|t: int| double_targets(p).contains(t) && #[trigger] f(t).contains(m);
        assert(ascending(pred).contains(t));
        assert(pred(t));
        let from = t - 2 * forward(us);
        lemma_one_contains(mk_move(from, t, MoveFlag::DoublePawnPush), m);
        law_move_parts_round_trip(Square(from as u8), Square(t as u8), MoveFlag::DoublePawnPush);
    }
    let from = m.src();
    let to = m.dst();
    if m == mk_move(from, to, m.kind()) && is_double_push(p, from, to, m.kind()) {
        assert(pred(to));
        assert(ascending(pred).contains(to));
        lemma_one_contains(mk_move(from, to, MoveFlag::DoublePawnPush), m);
        assert(f(to).contains(m));
    }
}

/// A pawn reaches a square in one of two directions exactly when it attacks it.
proof fn lemma_reaches(p: Position, to: int)
    requires
        is_square(to),
    ensures
        forall|from: int| #[trigger]
            bit(p.own_pawns(), from) ==> (pawn_hits(p.side, from, to) <==> ((pawn_reaches(p, true, to) && from == to
                - capture_delta(p.side, true)) || (pawn_reaches(p, false, to) && from == to - capture_delta(
                p.side,
                false,
            )))),
{
    broadcast use group_bits;
    assert forall|from: int| #[trigger] bit(p.own_pawns(), from) implies (pawn_hits(p.side, from, to) <==> ((
    pawn_reaches(p, true, to) && from == to - capture_delta(p.side, true)) || (pawn_reaches(p, false, to) && from == to
        - capture_delta(p.side, false)))) by {
        lemma_pawn_offsets(from, to);
    }
}

proof fn lemma_captures_contain(p: Position, m: Move)
    ensures
        (pawn_captures(p, true).contains(m) || pawn_captures(p, false).contains(m)) <==> (m == mk_move(
            m.src(),
            m.dst(),
            m.kind(),
        ) && is_pawn_capture(p, m.src(), m.dst(), m.kind())),
{
    broadcast use group_bits;
    lemma_reaches(p, m.dst());
    lemma_capture_side_contains(p, true, m);
    lemma_capture_side_contains(p, false, m);
    assert(bit(p.own_pawns(), m.src()) || !bit(p.own_pawns(), m.src()));
}

proof fn lemma_capture_side_contains(p: Position, left: bool, m: Move)
    ensures
        pawn_captures(p, left).contains(m) <==> (m == mk_move(m.src(), m.dst(), m.kind()) && m.src() == m.dst()
            - capture_delta(p.side, left) && pawn_reaches(p, left, m.dst()) && bit(p.theirs(), m.dst()) && (if on_seventh(
            p.side,
            m.src(),
        ) { m.kind().promotes() && m.kind().captures() } else { m.kind() == MoveFlag::Capture })),
{
    broadcast use group_bits;
    let us = p.side;
    let pred = |to: int| pawn_reaches(p, left, to) && bit(p.theirs(), to);
    assert(capture_targets(p, left) == ascending(pred));
    lemma_ascending_members(pred);
    let f = capture_fn(us, left);
    lemma_concat_contains(capture_targets(p, left), f, m);
    if pawn_captures(p, left).contains(m) {
        let t = choose|t: int| capture_targets(p, left).contains(t) && #[trigger] f(t).contains(m);
        assert(ascending(pred).contains(t));
        assert(pred(t));
        let from = t - capture_delta(us, left);
        assert(is_square(from));
        if on_seventh(us, from) {
            lemma_promotions_contain(from, t, true, m);
            law_move_parts_round_trip(Square(from as u8), Square(t as u8), m.kind());
        } else {
            lemma_one_contains(mk_move(from, t, MoveFlag::Capture), m);
            law_move_parts_round_trip(Square(from as u8), Square(t as u8), MoveFlag::Capture);
        }
    }
    let from = m.src();
    let to = m.dst();
    if m == mk_move(from, to, m.kind()) && from == to - capture_delta(us, left) && pred(to) && (if on_seventh(us, from) {
        m.kind().promotes() && m.kind().captures()
    } else {
        m.kind() == MoveFlag::Capture
    }) {
        assert(ascending(pred).contains(to));
        if on_seventh(us, from) {
            lemma_promotions_contain(from, to, true, m);
        } else {
            lemma_one_contains(mk_move(from, to, MoveFlag::Capture), m);
        }
        assert(f(to).contains(m));
    }
}

proof fn lemma_ep_contains(p: Position, m: Move)
    requires
        p.shaped(),
    ensures
        (ep_capture(p, true).contains(m) || ep_capture(p, false).contains(m)) <==> (m == mk_move(
            m.src(),
            m.dst(),
            m.kind(),
        ) && is_ep_capture(p, m.src(), m.dst(), m.kind())),
{
    broadcast use group_bits;
    match p.ep {
        None => {},
        Some(sq) => {
            let to = sq.0 as int;
            lemma_reaches(p, to);
            let a = to - capture_delta(p.side, true);
            let b = to - capture_delta(p.side, false);
            if pawn_reaches(p, true, to) {
                lemma_one_contains(mk_move(a, to, MoveFlag::EnPassant), m);
                law_move_parts_round_trip(Square(a as u8), sq, MoveFlag::EnPassant);
                assert(bit(p.own_pawns(), a));
            }
            if pawn_reaches(p, false, to) {
                lemma_one_contains(mk_move(b, to, MoveFlag::EnPassant), m);
                law_move_parts_round_trip(Square(b as u8), sq, MoveFlag::EnPassant);
                assert(bit(p.own_pawns(), b));
            }
            assert(bit(p.own_pawns(), m.src()) || !bit(p.own_pawns(), m.src()));
        },
    }
}

proof fn lemma_takes_contain(p: Position, m: Move)
    requires
        p.shaped(),
    ensures
        pawn_takes(p).contains(m) <==> (m == mk_move(m.src(), m.dst(), m.kind()) && (is_pawn_capture(
            p,
            m.src(),
            m.dst(),
            m.kind(),
        ) || is_ep_capture(p, m.src(), m.dst(), m.kind()))),
{
    let a = pawn_captures(p, true);
    let b = pawn_captures(p, false);
    let c = ep_capture(p, true);
    let d = ep_capture(p, false);
    lemma_add_contains(a, b, m);
    lemma_add_contains(a + b, c, m);
    lemma_add_contains(a + b + c, d, m);
    lemma_captures_contain(p, m);
    lemma_ep_contains(p, m);
}

/// Membership in the castling moves.
pub proof fn lemma_castling_contains(p: Position, m: Move)
    requires
        is_square(p.king_at(p.side)),
    ensures
        castling_moves(p).contains(m) <==> (m == mk_move(m.src(), m.dst(), m.kind()) && (is_castle(
            p,
            true,
            m.src(),
            m.dst(),
            m.kind(),
        ) || is_castle(p, false, m.src(), m.dst(), m.kind()))),
{
    let k = p.king_at(p.side);
    let a = mk_move(k, king_target(p.side, true), castle_flag(true));
    let b = mk_move(k, king_target(p.side, false), castle_flag(false));
    lemma_one_contains(a, m);
    lemma_one_contains(b, m);
    law_move_parts_round_trip(Square(k as u8), Square(king_target(p.side, true) as u8), castle_flag(true));
    law_move_parts_round_trip(Square(k as u8), Square(king_target(p.side, false) as u8), castle_flag(false));
    lemma_add_contains(castle_to(p, true), castle_to(p, false), m);
}

/// A king stands on a square of the board.
pub proof fn lemma_king_square(p: Position)
    ensures
        forall|c: Color| is_square(#[trigger] p.king_at(c)),
{
    assert forall|c: Color| is_square(#[trigger] p.king_at(c)) by {
        let set = p.set_of(c, PieceKind::King);
        if set.0 != 0 {
            lemma_pop(set.0);
            lemma_squares_members(set.0);
        }
    }
}

proof fn lemma_step_members(p: Position, mask: u64, m: Move)
    ensures
        piece_moves(p, mask).contains(m) <==> ({
            let from = m.src();
            let flag = m.kind();
            &&& m == mk_move(from, m.dst(), flag)
            &&& bit(mask, m.dst())
            &&& flag == (if bit(p.theirs(), m.dst()) { MoveFlag::Capture } else { MoveFlag::Normal })
            &&& {
                ||| p.set_of(p.side, PieceKind::Knight).has(from) && piece_hits(PieceKind::Knight, p.side, p.occupied().0, from, m.dst())
                ||| p.set_of(p.side, PieceKind::Bishop).has(from) && piece_hits(PieceKind::Bishop, p.side, p.occupied().0, from, m.dst())
                ||| p.set_of(p.side, PieceKind::Rook).has(from) && piece_hits(PieceKind::Rook, p.side, p.occupied().0, from, m.dst())
                ||| p.set_of(p.side, PieceKind::Queen).has(from) && piece_hits(PieceKind::Queen, p.side, p.occupied().0, from, m.dst())
                ||| from == p.king_at(p.side) && piece_hits(PieceKind::King, p.side, p.occupied().0, from, m.dst())
            }
        }),
{
    lemma_king_square(p);
    let k = p.king_at(p.side);
    lemma_pieces_contain(p, mask, m);
    lemma_kind_contains(p, PieceKind::Knight, mask, m);
    lemma_kind_contains(p, PieceKind::Bishop, mask, m);
    lemma_kind_contains(p, PieceKind::Rook, mask, m);
    lemma_kind_contains(p, PieceKind::Queen, mask, m);
    lemma_steps_contain(p, PieceKind::Knight, m.src(), mask, m);
    lemma_steps_contain(p, PieceKind::Bishop, m.src(), mask, m);
    lemma_steps_contain(p, PieceKind::Rook, m.src(), mask, m);
    lemma_steps_contain(p, PieceKind::Queen, m.src(), mask, m);
    lemma_steps_contain(p, PieceKind::King, k, mask, m);
    let flag = if bit(p.theirs(), m.dst()) { MoveFlag::Capture } else { MoveFlag::Normal };
    law_move_parts_round_trip(Square(k as u8), Square(m.dst() as u8), flag);
    law_move_parts_round_trip(Square(m.src() as u8), Square(m.dst() as u8), flag);
}

/// The generated moves are exactly those that the rules of movement allow.
pub proof fn law_generated_iff_pseudo_legal(p: Position, m: Move)
    requires
        p.shaped(),
    ensures
        pseudo_moves(p).contains(m) <==> pseudo_legal(p, m),
{
    broadcast use group_bits;
    lemma_king_square(p);
    let a = single_pushes(p, true, true);
    let b = double_pushes(p);
    let c = pawn_takes(p);
    let d = piece_moves(p, !p.ours());
    let e = castling_moves(p);
    lemma_add_contains(a, b, m);
    lemma_add_contains(a + b, c, m);
    lemma_add_contains(a + b + c, d, m);
    lemma_add_contains(a + b + c + d, e, m);
    lemma_pushes_contain(p, true, true, m);
    lemma_doubles_contain(p, m);
    lemma_takes_contain(p, m);
    lemma_step_members(p, !p.ours(), m);
    lemma_castling_contains(p, m);
}

/// The colors' squares do not overlap, and together are the occupied ones.
pub proof fn lemma_occupancies(p: Position)
    requires
        p.consistent(),
    ensures
        forall|i: int| !(#[trigger] bit(p.ours(), i) && bit(p.theirs(), i)),
        forall|i: int| #[trigger] bit(p.occupied().0, i) == (bit(p.ours(), i) || bit(p.theirs(), i)),
        forall|i: int| 0 <= i < 64 ==> #[trigger] bit(p.ours(), i) == (p.mailbox[i] is Some && p.mailbox[i]->Some_0.color == p.side),
        forall|i: int| 0 <= i < 64 ==> #[trigger] bit(p.theirs(), i) == (p.mailbox[i] is Some && p.mailbox[i]->Some_0.color == p.side.other()),
        forall|i: int| 0 <= i < 64 ==> #[trigger] bit(p.occupied().0, i) == (p.mailbox[i] is Some),
{
    broadcast use group_bits;
    assert forall|i: int| 0 <= i < 64 implies #[trigger] bit(p.ours(), i) == (p.mailbox[i] is Some && p.mailbox[i]->Some_0.color == p.side) by {
        assert(p.occupancy[p.side.idx()].has(i) <==> (p.mailbox[i] is Some && p.mailbox[i]->Some_0.color == color_at(p.side.idx())));
    }
    assert forall|i: int| 0 <= i < 64 implies #[trigger] bit(p.theirs(), i) == (p.mailbox[i] is Some && p.mailbox[i]->Some_0.color == p.side.other()) by {
        assert(p.occupancy[p.side.other().idx()].has(i) <==> (p.mailbox[i] is Some && p.mailbox[i]->Some_0.color == color_at(p.side.other().idx())));
    }
}

/// The staged generators: the tactical list holds the pseudo-legal captures
/// and promotions, the quiet list the other pseudo-legal moves.
pub proof fn law_staged_generators_split(p: Position, m: Move)
    requires
        p.consistent(),
    ensures
        tactical_moves(p).contains(m) <==> pseudo_moves(p).contains(m) && (m.kind().captures() || m.kind().promotes()),
        quiet_moves(p).contains(m) <==> pseudo_moves(p).contains(m) && !(m.kind().captures() || m.kind().promotes()),
{
    broadcast use group_bits;
    lemma_king_square(p);
    lemma_occupancies(p);
    law_generated_iff_pseudo_legal(p, m);
    let a = pawn_takes(p);
    let b = single_pushes(p, true, false);
    let c = piece_moves(p, p.theirs());
    lemma_add_contains(a, b, m);
    lemma_add_contains(a + b, c, m);
    lemma_takes_contain(p, m);
    lemma_pushes_contain(p, true, false, m);
    lemma_step_members(p, p.theirs(), m);
    let d = single_pushes(p, false, true);
    let e = double_pushes(p);
    let f = piece_moves(p, !p.occupied().0);
    let g = castling_moves(p);
    lemma_add_contains(d, e, m);
    lemma_add_contains(d + e, f, m);
    lemma_add_contains(d + e + f, g, m);
    lemma_pushes_contain(p, false, true, m);
    lemma_doubles_contain(p, m);
    lemma_step_members(p, !p.occupied().0, m);
    lemma_castling_contains(p, m);
    assert(bit(p.ours(), m.dst()) || !bit(p.ours(), m.dst()));
}

pub proof fn lemma_king_is_there(p: Position, c: Color)
    requires
        p.consistent(),
        p.one_king(c),
    ensures
        p.mailbox[p.king_at(c)] == Some(Piece { kind: PieceKind::King, color: c }),
        is_square(p.king_at(c)),
{
    broadcast use group_bits;
    let set = p.set_of(c, PieceKind::King);
    lemma_squares_members(set.0);
    if set.0 == 0 {
        crate::bits::lemma_squares_zero();
    }
    let k = set.members()[0];
    assert(bit(set.0, k));
    assert(p.pieces[c.idx()][5].has(k) <==> p.mailbox[k] == Some(Piece { kind: kind_at(5), color: color_at(c.idx()) }));
}

/// A set of pieces holds exactly the squares on which the mailbox shows them.
pub proof fn lemma_set_is_mailbox(p: Position, c: Color, k: PieceKind, i: int)
    requires
        p.consistent(),
    ensures
        p.set_of(c, k).has(i) <==> is_square(i) && p.mailbox[i] == Some(Piece { kind: k, color: c }),
{
    broadcast use group_bits;
    if is_square(i) {
        assert(p.pieces[c.idx()][k.idx()].has(i) <==> p.mailbox[i] == Some(
            Piece { kind: kind_at(k.idx()), color: color_at(c.idx()) },
        ));
    }
}

/// A generated move can be played with the pieces where they are, so making
/// and unmaking it are exact.
pub proof fn law_generated_moves_fit(p: Position, m: Move)
    requires
        p.sound(),
        pseudo_moves(p).contains(m),
    ensures
        p.fits(m),
{
    broadcast use group_bits;
    law_generated_iff_pseudo_legal(p, m);
    lemma_occupancies(p);
    lemma_king_is_there(p, p.side);
    let from = m.src();
    let to = m.dst();
    let us = p.side;
    lemma_set_is_mailbox(p, us, PieceKind::Pawn, from);
    lemma_set_is_mailbox(p, us, PieceKind::Knight, from);
    lemma_set_is_mailbox(p, us, PieceKind::Bishop, from);
    lemma_set_is_mailbox(p, us, PieceKind::Rook, from);
    lemma_set_is_mailbox(p, us, PieceKind::Queen, from);
    assert(bit(p.ours(), to) || !bit(p.ours(), to));
    if is_castle(p, true, from, to, m.kind()) || is_castle(p, false, from, to, m.kind()) {
        let kingside = m.kind() == MoveFlag::KingsideCastle;
        let rook_from = p.rooks[rook_index(us, kingside)].0 as int;
        let rook_to = rook_target(us, kingside);
        assert(p.rooks[rook_index(us, kingside)].ok());
        if to != from && to != rook_from {
            assert(!bit(p.occupied().0, to));
        }
        if rook_to != from && rook_to != rook_from {
            assert(!bit(p.occupied().0, rook_to));
        }
    }
}

/// What is kept of a list.
pub proof fn lemma_keep_safe_contains(p: Position, s: Seq<Move>, m: Move)
    ensures
        keep_safe(p, s).contains(m) <==> s.contains(m) && leaves_king_safe(p, m),
    decreases s.len(),
{
    if s.len() > 0 {
        lemma_keep_safe_contains(p, s.drop_last(), m);
        lemma_add_contains(s.drop_last(), seq![s.last()], m);
        lemma_one_contains(s.last(), m);
        assert(s =~= s.drop_last() + seq![s.last()]);
        let k = keep_safe(p, s.drop_last());
        lemma_add_contains(k, seq![s.last()], m);
        assert(k.push(s.last()) =~= k + seq![s.last()]);
    }
}

/// A legal move is a pseudo-legal move that leaves the own king unattacked.
pub proof fn law_legal_iff(p: Position, m: Move)
    requires
        p.shaped(),
    ensures
        legal_moves(p).contains(m) <==> pseudo_legal(p, m) && leaves_king_safe(p, m),
{
    lemma_keep_safe_contains(p, pseudo_moves(p), m);
    law_generated_iff_pseudo_legal(p, m);
}

// How often a move occurs in a list.
/// The number of times a move occurs.
pub open spec fn occurrences(s: Seq<Move>, m: Move) -> int
    decreases s.len(),
{
    if s.len() == 0 {
        0
    } else {
        (if s[0] == m { 1int } else { 0 }) + occurrences(s.drop_first(), m)
    }
}

/// Occurrences in a list put together add up.
pub proof fn lemma_occurrences_add(a: Seq<Move>, b: Seq<Move>, m: Move)
    ensures
        occurrences(a + b, m) == occurrences(a, m) + occurrences(b, m),
    decreases a.len(),
{
    if a.len() == 0 {
        assert(a + b =~= b);
    } else {
        assert((a + b).drop_first() =~= a.drop_first() + b);
        lemma_occurrences_add(a.drop_first(), b, m);
    }
}

spec fn occurrences_fn(f: spec_fn(int) -> Seq<Move>, m: Move) -> spec_fn(int) -> int {
    |i: int| occurrences(f(i), m)
}

proof fn lemma_occurrences_concat(s: Seq<int>, f: spec_fn(int) -> Seq<Move>, m: Move)
    ensures
        occurrences(concat_over(s, f), m) == sum_over(s, occurrences_fn(f, m)),
    decreases s.len(),
{
    if s.len() > 0 {
        lemma_occurrences_concat(s.drop_first(), f, m);
        lemma_occurrences_add(f(s[0]), concat_over(s.drop_first(), f), m);
    }
}

/// Sum over all squares at which `f` holds, from `n` up.
spec fn sum_where(f: spec_fn(int) -> bool, g: spec_fn(int) -> int, n: int) -> int
    decreases 64 - n,
{
    if n >= 64 {
        0
    } else {
        (if f(n) { g(n) } else { 0 }) + sum_where(f, g, n + 1)
    }
}

proof fn lemma_sum_ascending(f: spec_fn(int) -> bool, g: spec_fn(int) -> int, n: int)
    ensures
        sum_over(ascending_from(f, n), g) == sum_where(f, g, n),
    decreases 64 - n,
{
    if n < 64 {
        lemma_sum_ascending(f, g, n + 1);
        if f(n) {
            let s = ascending_from(f, n);
            assert(s.drop_first() =~= ascending_from(f, n + 1));
        }
    }
}

proof fn lemma_sum_split(
    a: spec_fn(int) -> bool,
    b: spec_fn(int) -> bool,
    c: spec_fn(int) -> bool,
    g: spec_fn(int) -> int,
    n: int,
)
    requires
        0 <= n,
        forall|i: int| 0 <= i < 64 ==> #[trigger] a(i) == (b(i) || c(i)),
        forall|i: int| 0 <= i < 64 ==> !(#[trigger] b(i) && c(i)),
    ensures
        sum_where(a, g, n) == sum_where(b, g, n) + sum_where(c, g, n),
    decreases 64 - n,
{
    if n < 64 {
        lemma_sum_split(a, b, c, g, n + 1);
        assert(a(n) == (b(n) || c(n)));
        assert(!(b(n) && c(n)));
    }
}

proof fn lemma_sum_add(s: Seq<int>, f: spec_fn(int) -> int, g: spec_fn(int) -> int, h: spec_fn(int) -> int)
    requires
        forall|i: int| s.contains(i) ==> #[trigger] f(i) == g(i) + h(i),
    ensures
        sum_over(s, f) == sum_over(s, g) + sum_over(s, h),
    decreases s.len(),
{
    if s.len() > 0 {
        assert(s.contains(s[0]));
        assert forall|i: int| s.drop_first().contains(i) implies #[trigger] f(i) == g(i) + h(i) by {
            let k = choose|k: int| 0 <= k < s.drop_first().len() && s.drop_first()[k] == i;
            assert(s[k + 1] == i);
            assert(s.contains(i));
        }
        lemma_sum_add(s.drop_first(), f, g, h);
    }
}

proof fn lemma_steps_split(p: Position, kind: PieceKind, from: int, m: Move)
    requires
        p.consistent(),
    ensures
        occurrences(steps_fn(p, kind, !p.ours())(from), m) == occurrences(steps_fn(p, kind, p.theirs())(from), m)
            + occurrences(steps_fn(p, kind, !p.occupied().0)(from), m),
{
    broadcast use group_bits;
    lemma_occupancies(p);
    let occ = p.occupied().0;
    let f = step_fn(p.theirs(), from);
    let a = |t: int| piece_hits(kind, p.side, p.occupied().0, from, t) && bit(!p.ours(), t);
    let b = |t: int| piece_hits(kind, p.side, p.occupied().0, from, t) && bit(p.theirs(), t);
    let c = |t: int| piece_hits(kind, p.side, p.occupied().0, from, t) && bit(!p.occupied().0, t);
    assert(step_targets(p, kind, from, !p.ours()) == ascending(a));
    assert(step_targets(p, kind, from, p.theirs()) == ascending(b));
    assert(step_targets(p, kind, from, !p.occupied().0) == ascending(c));
    let g = occurrences_fn(f, m);
    lemma_occurrences_concat(ascending(a), f, m);
    lemma_occurrences_concat(ascending(b), f, m);
    lemma_occurrences_concat(ascending(c), f, m);
    lemma_sum_ascending(a, g, 0);
    lemma_sum_ascending(b, g, 0);
    lemma_sum_ascending(c, g, 0);
    assert forall|i: int| 0 <= i < 64 implies #[trigger] a(i) == (b(i) || c(i)) by {
        assert(bit(occ, i) == (bit(p.ours(), i) || bit(p.theirs(), i)));
    }
    assert forall|i: int| 0 <= i < 64 implies !(#[trigger] b(i) && c(i)) by {
        assert(bit(occ, i) == (bit(p.ours(), i) || bit(p.theirs(), i)));
    }
    lemma_sum_split(a, b, c, g, 0);
}

proof fn lemma_kind_split(p: Position, kind: PieceKind, m: Move)
    requires
        p.consistent(),
    ensures
        occurrences(kind_moves(p, kind, !p.ours()), m) == occurrences(kind_moves(p, kind, p.theirs()), m)
            + occurrences(kind_moves(p, kind, !p.occupied().0), m),
{
    let s = p.set_of(p.side, kind).members();
    let fa = steps_fn(p, kind, !p.ours());
    let fb = steps_fn(p, kind, p.theirs());
    let fc = steps_fn(p, kind, !p.occupied().0);
    lemma_occurrences_concat(s, fa, m);
    lemma_occurrences_concat(s, fb, m);
    lemma_occurrences_concat(s, fc, m);
    let a = occurrences_fn(fa, m);
    let b = occurrences_fn(fb, m);
    let c = occurrences_fn(fc, m);
    assert forall|i: int| s.contains(i) implies #[trigger] a(i) == b(i) + c(i) by {
        lemma_steps_split(p, kind, i, m);
    }
    lemma_sum_add(s, a, b, c);
}

proof fn lemma_pieces_occurrences(p: Position, mask: u64, m: Move)
    ensures
        occurrences(piece_moves(p, mask), m) == occurrences(kind_moves(p, PieceKind::Knight, mask), m) + occurrences(
            kind_moves(p, PieceKind::Bishop, mask),
            m,
        ) + occurrences(kind_moves(p, PieceKind::Rook, mask), m) + occurrences(
            kind_moves(p, PieceKind::Queen, mask),
            m,
        ) + occurrences(king_moves(p, mask), m),
{
    let a = kind_moves(p, PieceKind::Knight, mask);
    let b = kind_moves(p, PieceKind::Bishop, mask);
    let c = kind_moves(p, PieceKind::Rook, mask);
    let d = kind_moves(p, PieceKind::Queen, mask);
    let e = king_moves(p, mask);
    lemma_occurrences_add(a, b, m);
    lemma_occurrences_add(a + b, c, m);
    lemma_occurrences_add(a + b + c, d, m);
    lemma_occurrences_add(a + b + c + d, e, m);
}

/// The staged generators together list every pseudo-legal move exactly as
/// often as the full generator does: nothing is lost and nothing is doubled.
pub proof fn law_staged_generators_cover(p: Position, m: Move)
    requires
        p.consistent(),
    ensures
        occurrences(pseudo_moves(p), m) == occurrences(tactical_moves(p), m) + occurrences(quiet_moves(p), m),
{
    let us = p.side;
    // Pushes.
    let s = push_targets(p);
    let fa = push_fn(us, true, true);
    let fb = push_fn(us, true, false);
    let fc = push_fn(us, false, true);
    lemma_occurrences_concat(s, fa, m);
    lemma_occurrences_concat(s, fb, m);
    lemma_occurrences_concat(s, fc, m);
    let a = occurrences_fn(fa, m);
    let b = occurrences_fn(fb, m);
    let c = occurrences_fn(fc, m);
    assert forall|i: int| s.contains(i) implies #[trigger] a(i) == b(i) + c(i) by {
        if on_seventh(us, i - forward(us)) {
            assert(fa(i) == fb(i) && fc(i).len() == 0);
        } else {
            assert(fa(i) == fc(i) && fb(i).len() == 0);
        }
    }
    lemma_sum_add(s, a, b, c);
    // Pieces.
    let all = !p.ours();
    let caps = p.theirs();
    let free = !p.occupied().0;
    lemma_pieces_occurrences(p, all, m);
    lemma_pieces_occurrences(p, caps, m);
    lemma_pieces_occurrences(p, free, m);
    lemma_kind_split(p, PieceKind::Knight, m);
    lemma_kind_split(p, PieceKind::Bishop, m);
    lemma_kind_split(p, PieceKind::Rook, m);
    lemma_kind_split(p, PieceKind::Queen, m);
    lemma_steps_split(p, PieceKind::King, p.king_at(us), m);
    // The lists.
    let p1 = single_pushes(p, true, true);
    let d = double_pushes(p);
    let t = pawn_takes(p);
    let q = piece_moves(p, all);
    let k = castling_moves(p);
    lemma_occurrences_add(p1, d, m);
    lemma_occurrences_add(p1 + d, t, m);
    lemma_occurrences_add(p1 + d + t, q, m);
    lemma_occurrences_add(p1 + d + t + q, k, m);
    let p2 = single_pushes(p, true, false);
    let q2 = piece_moves(p, caps);
    lemma_occurrences_add(t, p2, m);
    lemma_occurrences_add(t + p2, q2, m);
    let p3 = single_pushes(p, false, true);
    let q3 = piece_moves(p, free);
    lemma_occurrences_add(p3, d, m);
    lemma_occurrences_add(p3 + d, q3, m);
    lemma_occurrences_add(p3 + d + q3, k, m);
}

// No move is listed twice.
/// A move occurs in a list exactly if it occurs at least once.
pub proof fn lemma_occurs(s: Seq<Move>, m: Move)
    ensures
        occurrences(s, m) >= 0,
        occurrences(s, m) > 0 <==> s.contains(m),
    decreases s.len(),
{
    if s.len() > 0 {
        lemma_occurs(s.drop_first(), m);
        if s.contains(m) && s[0] != m {
            let k = choose|k: int| 0 <= k < s.len() && s[k] == m;
            assert(s.drop_first()[k - 1] == m);
        }
        if s.drop_first().contains(m) {
            let k = choose|k: int| 0 <= k < s.drop_first().len() && s.drop_first()[k] == m;
            assert(s[k + 1] == m);
        }
    }
}

proof fn lemma_one_occurs(x: Move, m: Move)
    ensures
        occurrences(seq![x], m) == if x == m { 1int } else { 0 },
{
    let s = seq![x];
    assert(s.drop_first() =~= Seq::<Move>::empty());
    assert(occurrences(s.drop_first(), m) == 0);
}

proof fn lemma_sum_once(f: spec_fn(int) -> bool, g: spec_fn(int) -> int, key: int, n: int)
    requires
        0 <= n,
        forall|i: int| 0 <= i < 64 && #[trigger] f(i) ==> 0 <= g(i) <= if i == key { 1int } else { 0 },
    ensures
        0 <= sum_where(f, g, n) <= if n <= key { 1int } else { 0 },
    decreases 64 - n,
{
    if n < 64 {
        lemma_sum_once(f, g, key, n + 1);
        assert(f(n) || !f(n));
    }
}

/// A list put together from lists without repetition, each for itself and with
/// a move in at most one of them, has none.
proof fn lemma_concat_once(pred: spec_fn(int) -> bool, g: spec_fn(int) -> Seq<Move>, key: int, m: Move)
    requires
        forall|i: int| 0 <= i < 64 && #[trigger] pred(i) ==> occurrences(g(i), m) <= 1 && (g(i).contains(m) ==> i == key),
    ensures
        occurrences(concat_over(ascending(pred), g), m) <= 1,
{
    let h = occurrences_fn(g, m);
    lemma_occurrences_concat(ascending(pred), g, m);
    lemma_sum_ascending(pred, h, 0);
    assert forall|i: int| 0 <= i < 64 && #[trigger] pred(i) implies 0 <= h(i) <= if i == key { 1int } else { 0 } by {
        lemma_occurs(g(i), m);
    }
    lemma_sum_once(pred, h, key, 0);
}

proof fn lemma_promotions_once(from: int, to: int, capture: bool, m: Move)
    requires
        is_square(from),
        is_square(to),
    ensures
        occurrences(promotions(from, to, capture), m) <= 1,
        promotions(from, to, capture).contains(m) ==> m.dst() == to,
{
    let s = promotions(from, to, capture);
    assert forall|flag: MoveFlag| (#[trigger] mk_move(from, to, flag)).kind() == flag && mk_move(from, to, flag).dst() == to by {
        law_move_parts_round_trip(Square(from as u8), Square(to as u8), flag);
    }
    assert(s =~= seq![s[0]] + seq![s[1]] + seq![s[2]] + seq![s[3]]);
    lemma_occurrences_add(seq![s[0]] + seq![s[1]] + seq![s[2]], seq![s[3]], m);
    lemma_occurrences_add(seq![s[0]] + seq![s[1]], seq![s[2]], m);
    lemma_occurrences_add(seq![s[0]], seq![s[1]], m);
    lemma_one_occurs(s[0], m);
    lemma_one_occurs(s[1], m);
    lemma_one_occurs(s[2], m);
    lemma_one_occurs(s[3], m);
    if s.contains(m) {
        let k = choose|k: int| 0 <= k < s.len() && s[k] == m;
        assert(k == 0 || k == 1 || k == 2 || k == 3);
    }
}

proof fn lemma_single_once(from: int, to: int, flag: MoveFlag, m: Move)
    requires
        is_square(from),
        is_square(to),
    ensures
        occurrences(seq![mk_move(from, to, flag)], m) <= 1,
        seq![mk_move(from, to, flag)].contains(m) ==> m.dst() == to && m.src() == from,
{
    lemma_one_occurs(mk_move(from, to, flag), m);
    lemma_one_contains(mk_move(from, to, flag), m);
    law_move_parts_round_trip(Square(from as u8), Square(to as u8), flag);
}

proof fn lemma_pawns_once(p: Position, m: Move)
    ensures
        occurrences(single_pushes(p, true, true), m) <= 1,
        occurrences(double_pushes(p), m) <= 1,
        occurrences(pawn_captures(p, true), m) <= 1,
        occurrences(pawn_captures(p, false), m) <= 1,
{
    broadcast use group_bits;
    let us = p.side;
    let push = |to: int| bit(p.own_pawns(), to - forward(p.side)) && !bit(p.occupied().0, to);
    let f = push_fn(us, true, true);
    assert forall|i: int| 0 <= i < 64 && #[trigger] push(i) implies occurrences(f(i), m) <= 1 && (f(i).contains(m) ==> i
        == m.dst()) by {
        let from = i - forward(us);
        assert(is_square(from));
        lemma_promotions_once(from, i, false, m);
        lemma_single_once(from, i, MoveFlag::Normal, m);
    }
    assert(push_targets(p) == ascending(push));
    lemma_concat_once(push, f, m.dst(), m);
    let double = |to: int|
        {
            let from = to - 2 * forward(p.side);
            &&& bit(p.own_pawns(), from)
            &&& on_second(p.side, from)
            &&& !bit(p.occupied().0, to - forward(p.side))
            &&& !bit(p.occupied().0, to)
        };
    let g = double_fn(us);
    assert forall|i: int| 0 <= i < 64 && #[trigger] double(i) implies occurrences(g(i), m) <= 1 && (g(i).contains(m) ==> i
        == m.dst()) by {
        lemma_single_once(i - 2 * forward(us), i, MoveFlag::DoublePawnPush, m);
    }
    assert(double_targets(p) == ascending(double));
    lemma_concat_once(double, g, m.dst(), m);
    lemma_captures_once(p, true, m);
    lemma_captures_once(p, false, m);
}

proof fn lemma_captures_once(p: Position, left: bool, m: Move)
    ensures
        occurrences(pawn_captures(p, left), m) <= 1,
{
    broadcast use group_bits;
    let us = p.side;
    let pred = |to: int| pawn_reaches(p, left, to) && bit(p.theirs(), to);
    let f = capture_fn(us, left);
    assert forall|i: int| 0 <= i < 64 && #[trigger] pred(i) implies occurrences(f(i), m) <= 1 && (f(i).contains(m) ==> i
        == m.dst()) by {
        let from = i - capture_delta(us, left);
        assert(is_square(from));
        lemma_promotions_once(from, i, true, m);
        lemma_single_once(from, i, MoveFlag::Capture, m);
    }
    assert(capture_targets(p, left) == ascending(pred));
    lemma_concat_once(pred, f, m.dst(), m);
}

proof fn lemma_steps_once(p: Position, kind: PieceKind, from: int, mask: u64, m: Move)
    requires
        is_square(from),
    ensures
        occurrences(steps_fn(p, kind, mask)(from), m) <= 1,
{
    let pred = |t: int| piece_hits(kind, p.side, p.occupied().0, from, t) && bit(mask, t);
    let f = step_fn(p.theirs(), from);
    assert forall|i: int| 0 <= i < 64 && #[trigger] pred(i) implies occurrences(f(i), m) <= 1 && (f(i).contains(m) ==> i
        == m.dst()) by {
        lemma_single_once(from, i, if bit(p.theirs(), i) { MoveFlag::Capture } else { MoveFlag::Normal }, m);
    }
    assert(step_targets(p, kind, from, mask) == ascending(pred));
    lemma_concat_once(pred, f, m.dst(), m);
}

proof fn lemma_kind_once(p: Position, kind: PieceKind, mask: u64, m: Move)
    ensures
        occurrences(kind_moves(p, kind, mask), m) <= 1,
{
    broadcast use group_bits;
    let set = p.set_of(p.side, kind);
    let pred = |i: int| bit(set.0, i);
    let f = steps_fn(p, kind, mask);
    lemma_ascending(set.0, pred);
    assert forall|i: int| 0 <= i < 64 && #[trigger] pred(i) implies occurrences(f(i), m) <= 1 && (f(i).contains(m) ==> i
        == m.src()) by {
        lemma_steps_once(p, kind, i, mask, m);
        lemma_steps_contain(p, kind, i, mask, m);
        let flag = if bit(p.theirs(), m.dst()) { MoveFlag::Capture } else { MoveFlag::Normal };
        if f(i).contains(m) {
            law_move_parts_round_trip(Square(i as u8), Square(m.dst() as u8), flag);
        }
    }
    lemma_concat_once(pred, f, m.src(), m);
}

/// Which of the generators lists a move, by its flag, its mover and its
/// direction.
spec fn source(p: Position, m: Move) -> int {
    let k = m.kind();
    let left = m.src() == m.dst() - capture_delta(p.side, true);
    if k == MoveFlag::KingsideCastle {
        12
    } else if k == MoveFlag::QueensideCastle {
        13
    } else if k == MoveFlag::EnPassant {
        if left { 5 } else { 6 }
    } else {
        match p.mailbox[m.src()] {
            Some(piece) => match piece.kind {
                PieceKind::Knight => 7,
                PieceKind::Bishop => 8,
                PieceKind::Rook => 9,
                PieceKind::Queen => 10,
                PieceKind::King => 11,
                PieceKind::Pawn => if k == MoveFlag::DoublePawnPush {
                    2
                } else if k.captures() {
                    if left { 3 } else { 4 }
                } else {
                    1
                },
            },
            None => 0,
        }
    }
}

spec fn at_most(b: bool) -> int {
    if b { 1 } else { 0 }
}

proof fn lemma_pawn_source(p: Position, m: Move)
    requires
        p.consistent(),
    ensures
        occurrences(single_pushes(p, true, true), m) <= at_most(source(p, m) == 1),
        occurrences(double_pushes(p), m) <= at_most(source(p, m) == 2),
        occurrences(pawn_captures(p, true), m) <= at_most(source(p, m) == 3),
        occurrences(pawn_captures(p, false), m) <= at_most(source(p, m) == 4),
{
    broadcast use group_bits;
    lemma_pawns_once(p, m);
    lemma_occurs(single_pushes(p, true, true), m);
    lemma_occurs(double_pushes(p), m);
    lemma_occurs(pawn_captures(p, true), m);
    lemma_occurs(pawn_captures(p, false), m);
    lemma_pushes_contain(p, true, true, m);
    lemma_doubles_contain(p, m);
    lemma_capture_side_contains(p, true, m);
    lemma_capture_side_contains(p, false, m);
    lemma_set_is_mailbox(p, p.side, PieceKind::Pawn, m.src());
}

proof fn lemma_ep_source(p: Position, m: Move)
    requires
        p.consistent(),
    ensures
        occurrences(ep_capture(p, true), m) <= at_most(source(p, m) == 5),
        occurrences(ep_capture(p, false), m) <= at_most(source(p, m) == 6),
{
    broadcast use group_bits;
    match p.ep {
        None => {},
        Some(sq) => {
            let to = sq.0 as int;
            let a = to - capture_delta(p.side, true);
            let b = to - capture_delta(p.side, false);
            if pawn_reaches(p, true, to) {
                lemma_one_occurs(mk_move(a, to, MoveFlag::EnPassant), m);
                law_move_parts_round_trip(Square(a as u8), sq, MoveFlag::EnPassant);
            }
            if pawn_reaches(p, false, to) {
                lemma_one_occurs(mk_move(b, to, MoveFlag::EnPassant), m);
                law_move_parts_round_trip(Square(b as u8), sq, MoveFlag::EnPassant);
            }
        },
    }
}

proof fn lemma_kind_source(p: Position, kind: PieceKind, m: Move)
    requires
        p.consistent(),
        kind != PieceKind::King,
        kind != PieceKind::Pawn,
    ensures
        occurrences(kind_moves(p, kind, !p.ours()), m) <= at_most(
            source(p, m) == (match kind {
                PieceKind::Knight => 7int,
                PieceKind::Bishop => 8,
                PieceKind::Rook => 9,
                _ => 10,
            }),
        ),
{
    broadcast use group_bits;
    let mask = !p.ours();
    lemma_kind_once(p, kind, mask, m);
    lemma_occurs(kind_moves(p, kind, mask), m);
    lemma_kind_contains(p, kind, mask, m);
    if kind_moves(p, kind, mask).contains(m) {
        lemma_steps_contain(p, kind, m.src(), mask, m);
        lemma_set_is_mailbox(p, p.side, kind, m.src());
        let flag = if bit(p.theirs(), m.dst()) { MoveFlag::Capture } else { MoveFlag::Normal };
        law_move_parts_round_trip(Square(m.src() as u8), Square(m.dst() as u8), flag);
    }
}

proof fn lemma_king_source(p: Position, m: Move)
    requires
        p.sound(),
    ensures
        occurrences(king_moves(p, !p.ours()), m) <= at_most(source(p, m) == 11),
        occurrences(castling_moves(p), m) <= at_most(source(p, m) == 12 || source(p, m) == 13),
{
    broadcast use group_bits;
    lemma_king_square(p);
    lemma_king_is_there(p, p.side);
    let k = p.king_at(p.side);
    let mask = !p.ours();
    lemma_steps_once(p, PieceKind::King, k, mask, m);
    lemma_steps_contain(p, PieceKind::King, k, mask, m);
    lemma_occurs(king_moves(p, mask), m);
    let flag = if bit(p.theirs(), m.dst()) { MoveFlag::Capture } else { MoveFlag::Normal };
    law_move_parts_round_trip(Square(k as u8), Square(m.dst() as u8), flag);
    let a = mk_move(k, king_target(p.side, true), castle_flag(true));
    let b = mk_move(k, king_target(p.side, false), castle_flag(false));
    lemma_one_occurs(a, m);
    lemma_one_occurs(b, m);
    law_move_parts_round_trip(Square(k as u8), Square(king_target(p.side, true) as u8), castle_flag(true));
    law_move_parts_round_trip(Square(k as u8), Square(king_target(p.side, false) as u8), castle_flag(false));
    lemma_occurrences_add(castle_to(p, true), castle_to(p, false), m);
}

proof fn lemma_keep_safe_occurrences(p: Position, s: Seq<Move>, m: Move)
    ensures
        occurrences(keep_safe(p, s), m) <= occurrences(s, m),
    decreases s.len(),
{
    if s.len() > 0 {
        let k = keep_safe(p, s.drop_last());
        lemma_keep_safe_occurrences(p, s.drop_last(), m);
        assert(s =~= s.drop_last() + seq![s.last()]);
        lemma_occurrences_add(s.drop_last(), seq![s.last()], m);
        lemma_occurrences_add(k, seq![s.last()], m);
        assert(k.push(s.last()) =~= k + seq![s.last()]);
        lemma_occurs(seq![s.last()], m);
    }
}

/// No generator lists a move twice: neither the full one, nor the staged ones,
/// nor that of the legal moves.
pub proof fn law_no_move_is_listed_twice(p: Position, m: Move)
    requires
        p.sound(),
    ensures
        occurrences(pseudo_moves(p), m) <= 1,
        occurrences(tactical_moves(p), m) <= 1,
        occurrences(quiet_moves(p), m) <= 1,
        occurrences(legal_moves(p), m) <= 1,
{
    let all = !p.ours();
    lemma_pawn_source(p, m);
    lemma_ep_source(p, m);
    lemma_kind_source(p, PieceKind::Knight, m);
    lemma_kind_source(p, PieceKind::Bishop, m);
    lemma_kind_source(p, PieceKind::Rook, m);
    lemma_kind_source(p, PieceKind::Queen, m);
    lemma_king_source(p, m);
    lemma_pieces_occurrences(p, all, m);
    let a = pawn_captures(p, true);
    let b = pawn_captures(p, false);
    let c = ep_capture(p, true);
    let d = ep_capture(p, false);
    lemma_occurrences_add(a, b, m);
    lemma_occurrences_add(a + b, c, m);
    lemma_occurrences_add(a + b + c, d, m);
    let p1 = single_pushes(p, true, true);
    let p2 = double_pushes(p);
    let t = pawn_takes(p);
    let q = piece_moves(p, all);
    lemma_occurrences_add(p1, p2, m);
    lemma_occurrences_add(p1 + p2, t, m);
    lemma_occurrences_add(p1 + p2 + t, q, m);
    lemma_occurrences_add(p1 + p2 + t + q, castling_moves(p), m);
    law_staged_generators_cover(p, m);
    lemma_occurs(tactical_moves(p), m);
    lemma_occurs(quiet_moves(p), m);
    lemma_keep_safe_occurrences(p, pseudo_moves(p), m);
}

/// The generators other than that of castling give no castling moves.
pub proof fn lemma_steps_do_not_castle(p: Position, m: Move)
    requires
        p.shaped(),
    ensures
        (single_pushes(p, true, true) + double_pushes(p) + pawn_takes(p) + piece_moves(p, !p.ours())).contains(m)
            ==> !m.kind().castles(),
{
    let a = single_pushes(p, true, true);
    let b = double_pushes(p);
    let c = pawn_takes(p);
    let d = piece_moves(p, !p.ours());
    lemma_add_contains(a, b, m);
    lemma_add_contains(a + b, c, m);
    lemma_add_contains(a + b + c, d, m);
    lemma_pushes_contain(p, true, true, m);
    lemma_doubles_contain(p, m);
    lemma_takes_contain(p, m);
    lemma_step_members(p, !p.ours(), m);
}

/// A pawn that advances two ranks leaves the square that it passed as the one on
/// which it can be taken, and no other move leaves one.
pub proof fn law_en_passant_after_a_move(p: Position, m: Move)
    requires
        p.sound(),
        pseudo_moves(p).contains(m),
    ensures
        ({
            let mover = p.mailbox[m.src()]->Some_0;
            let two = m.dst() - m.src() == 16 || m.src() - m.dst() == 16;
            &&& mover.kind == PieceKind::Pawn && two ==> p.after(m).ep == Some(
                Square(((m.src() + m.dst()) / 2) as u8),
            )
            &&& mover.kind != PieceKind::Pawn || !two ==> p.after(m).ep is None
        }),
{
    broadcast use group_bits;
    law_generated_iff_pseudo_legal(p, m);
    law_generated_moves_fit(p, m);
    lemma_king_is_there(p, p.side);
    let from = m.src();
    lemma_set_is_mailbox(p, p.side, PieceKind::Pawn, from);
    lemma_set_is_mailbox(p, p.side, PieceKind::Knight, from);
    lemma_set_is_mailbox(p, p.side, PieceKind::Bishop, from);
    lemma_set_is_mailbox(p, p.side, PieceKind::Rook, from);
    lemma_set_is_mailbox(p, p.side, PieceKind::Queen, from);
}

/// The lower of two files.
spec fn lower(a: int, b: int) -> int {
    if a < b { a } else { b }
}

/// The higher of two files.
spec fn higher(a: int, b: int) -> int {
    if a < b { b } else { a }
}

proof fn lemma_castle_hull(p: Position, king: int, king_to: int, rook: int, rook_to: int)
    requires
        p.consistent(),
        is_square(king),
        is_square(king_to),
        is_square(rook),
        is_square(rook_to),
        king / 8 == king_to / 8 == rook / 8 == rook_to / 8,
    ensures
        castle_clear(p.occupied().0, king, king_to, rook, rook_to) <==> forall|sq: int|
            is_square(sq) && sq / 8 == king / 8 && sq != king && sq != rook && lower(
                lower(king % 8, king_to % 8),
                lower(rook % 8, rook_to % 8),
            ) <= sq % 8 <= higher(higher(king % 8, king_to % 8), higher(rook % 8, rook_to % 8)) ==> #[trigger] p.mailbox[sq] is None,
{
    broadcast use group_bits;
    let occ = p.occupied().0;
    assert forall|sq: int| is_square(sq) implies #[trigger] bit(occ, sq) == p.mailbox[sq] is Some by {
        assert(p.occupancy[0].has(sq) || !p.occupancy[0].has(sq));
        assert(p.occupancy[1].has(sq) || !p.occupancy[1].has(sq));
    }
    let lo = lower(lower(king % 8, king_to % 8), lower(rook % 8, rook_to % 8));
    let hi = higher(higher(king % 8, king_to % 8), higher(rook % 8, rook_to % 8));
    assert forall|sq: int| is_square(sq) && sq != king && sq != rook implies (#[trigger] between(king, king_to, sq)
        || between(rook, rook_to, sq) || between(king, rook, sq) || sq == king_to || sq == rook_to) == (sq / 8 == king / 8
        && lo <= sq % 8 <= hi) by {}
    if castle_clear(occ, king, king_to, rook, rook_to) {
        assert forall|sq: int|
            is_square(sq) && sq / 8 == king / 8 && sq != king && sq != rook && lo <= sq % 8 <= hi implies #[trigger] p.mailbox[sq] is None by {
            assert(between(king, king_to, sq) || between(rook, rook_to, sq) || between(king, rook, sq) || sq == king_to
                || sq == rook_to);
            assert(!bit(occ, sq));
        }
    }
    if forall|sq: int|
        is_square(sq) && sq / 8 == king / 8 && sq != king && sq != rook && lo <= sq % 8 <= hi ==> #[trigger] p.mailbox[sq] is None {
        assert forall|sq: int|
            is_square(sq) && sq != king && sq != rook && (between(king, king_to, sq) || between(rook, rook_to, sq)
                || between(king, rook, sq) || sq == king_to || sq == rook_to) implies !#[trigger] bit(occ, sq) by {
            assert(p.mailbox[sq] is None);
        }
    }
}

/// The square on this file and on the rank of `sq` is attacked by that side.
pub open spec fn attacked_beside(p: Position, sq: int, file: int, by: Color) -> bool {
    attacked(p, sq / 8 * 8 + file, by)
}

/// When castling is possible: the right is held, king and rook stand on the back
/// rank, every square between and on the four squares that they leave and reach is
/// free but for themselves, and the king is not attacked where it stands, on its
/// way, or where it arrives. It goes to the g- or c-file.
pub proof fn law_when_castling_is_possible(p: Position, short: bool, m: Move)
    requires
        p.sound(),
        ({
            let i: int = (if p.side == Color::White { 0int } else { 2 }) + (if short { 0int } else { 1 });
            p.rooks[i].0 / 8 == (if p.side == Color::White { 0int } else { 7 })
        }),
        ({
            let home: int = if p.side == Color::White { 0 } else { 7 };
            let king_file: int = if short { 6 } else { 2 };
            let flag = if short { MoveFlag::KingsideCastle } else { MoveFlag::QueensideCastle };
            m == mk_move(p.king_at(p.side), home * 8 + king_file, flag)
        }),
    ensures
        ({
            let home: int = if p.side == Color::White { 0 } else { 7 };
            let king = p.king_at(p.side);
            let i: int = (if p.side == Color::White { 0int } else { 2 }) + (if short { 0int } else { 1 });
            let rook = p.rooks[i].0 as int;
            let king_file: int = if short { 6 } else { 2 };
            let rook_file: int = if short { 5 } else { 3 };
            let right: u8 = if p.side == Color::White {
                if short { 1 } else { 2 }
            } else {
                if short { 4 } else { 8 }
            };
            pseudo_moves(p).contains(m) <==> {
                &&& p.castling.0 & right != 0
                &&& king / 8 == home
                &&& p.mailbox[rook] == Some(Piece { kind: PieceKind::Rook, color: p.side })
                &&& forall|sq: int|
                    0 <= sq < 64 && sq / 8 == home && sq != king && sq != rook && (sq % 8 >= king % 8 || sq % 8 >= king_file
                        || sq % 8 >= rook % 8 || sq % 8 >= rook_file) && (sq % 8 <= king % 8 || sq % 8 <= king_file || sq
                        % 8 <= rook % 8 || sq % 8 <= rook_file) ==> #[trigger] p.mailbox[sq] is None
                &&& forall|file: int|
                    (king % 8 <= file <= king_file || king_file <= file <= king % 8) ==> !#[trigger] attacked_beside(
                        p,
                        king,
                        file,
                        p.side.other(),
                    )
            }
        }),
{
    let us = p.side;
    let home = home_rank(us);
    let king = p.king_at(us);
    lemma_king_is_there(p, us);
    let i = rook_index(us, short);
    assert(p.rooks[i].ok());
    let rook = p.rooks[i].0 as int;
    let king_to = king_target(us, short);
    let rook_to = rook_target(us, short);
    let flag = castle_flag(short);
    let kf: int = if short { 6 } else { 2 };
    let rf: int = if short { 5 } else { 3 };
    assert(king_to % 8 == kf && rook_to % 8 == rf && king_to == home * 8 + kf);
    assert(m == mk_move(king, king_to, flag));
    law_generated_iff_pseudo_legal(p, m);
    law_move_parts_round_trip(Square(king as u8), Square(king_to as u8), flag);
    assert(m.src() == king && m.dst() == king_to && m.kind() == flag);
    assert(pseudo_legal(p, m) <==> is_castle(p, short, king, king_to, flag));
    let them = us.other();
    let free = forall|sq: int|
        0 <= sq < 64 && sq / 8 == home && sq != king && sq != rook && (sq % 8 >= king % 8 || sq % 8 >= kf || sq % 8
            >= rook % 8 || sq % 8 >= rf) && (sq % 8 <= king % 8 || sq % 8 <= kf || sq % 8 <= rook % 8 || sq % 8 <= rf)
            ==> #[trigger] p.mailbox[sq] is None;
    let unhit = forall|file: int|
        (king % 8 <= file <= kf || kf <= file <= king % 8) ==> !#[trigger] attacked_beside(p, king, file, them);
    let r: u8 = if us == Color::White {
        if short { 1 } else { 2 }
    } else {
        if short { 4 } else { 8 }
    };
    if king / 8 == home {
        lemma_castle_hull(p, king, king_to, rook, rook_to);
        let clear = castle_clear(p.occupied().0, king, king_to, rook, rook_to);
        assert(clear ==> free) by {
            if clear {
                assert forall|sq: int|
                    0 <= sq < 64 && sq / 8 == home && sq != king && sq != rook && (sq % 8 >= king % 8 || sq % 8 >= kf || sq
                        % 8 >= rook % 8 || sq % 8 >= rf) && (sq % 8 <= king % 8 || sq % 8 <= kf || sq % 8 <= rook % 8 || sq
                        % 8 <= rf) implies #[trigger] p.mailbox[sq] is None by {
                    assert(is_square(sq));
                }
            }
        }
        assert(free ==> clear) by {
            if free {
                assert forall|sq: int|
                    is_square(sq) && sq / 8 == king / 8 && sq != king && sq != rook && lower(
                        lower(king % 8, king_to % 8),
                        lower(rook % 8, rook_to % 8),
                    ) <= sq % 8 <= higher(higher(king % 8, king_to % 8), higher(rook % 8, rook_to % 8)) implies #[trigger] p.mailbox[sq] is None by {}
            }
        }
        let safe = castle_safe(p, king, king_to, them);
        assert(safe ==> unhit) by {
            if safe {
                assert forall|file: int| (king % 8 <= file <= kf || kf <= file <= king % 8) implies !#[trigger] attacked_beside(
                    p,
                    king,
                    file,
                    them,
                ) by {
                    assert(!attacked(p, king / 8 * 8 + file, them));
                }
            }
        }
        assert(unhit ==> safe && !attacked(p, king, them)) by {
            if unhit {
                assert forall|file: int|
                    (king % 8 <= file <= king_to % 8 || king_to % 8 <= file <= king % 8) implies !#[trigger] attacked(
                    p,
                    king / 8 * 8 + file,
                    them,
                ) by {
                    assert(!attacked_beside(p, king, file, them));
                }
                assert(!attacked_beside(p, king, king % 8, them));
            }
        }
        assert(is_castle(p, short, king, king_to, flag) <==> may_castle(p, short) && !attacked(p, king, them));
        assert(r == right_bit(us, short));
        assert(may_castle(p, short) <==> p.castling.0 & r != 0 && p.mailbox[rook] == Some(
            Piece { kind: PieceKind::Rook, color: us },
        ) && clear && safe);
        assert(pseudo_moves(p).contains(m) <==> pseudo_legal(p, m));
        assert(pseudo_moves(p).contains(m) <==> p.castling.0 & r != 0 && p.mailbox[rook] == Some(
            Piece { kind: PieceKind::Rook, color: us },
        ) && free && unhit);
    } else {
        assert(!is_castle(p, short, king, king_to, flag));
        assert(!pseudo_legal(p, m));
        assert(!pseudo_moves(p).contains(m));
    }
    let rook_there = p.mailbox[rook] == Some(Piece { kind: PieceKind::Rook, color: us });
    assert(pseudo_moves(p).contains(m) <==> p.castling.0 & r != 0 && king / 8 == home && rook_there && free && unhit);
}

} // verus!
