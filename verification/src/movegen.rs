//! Move generation.
//!
//! The generators list their moves in a fixed order: by piece kind, then by
//! ascending origin, then by ascending target (pawn moves: by ascending
//! target). The specification functions give those lists in terms of the rules
//! of movement in `attacks`.

use vstd::prelude::*;
use crate::attacks::{attacked, bishop_attacks, is_square, is_square_attacked, king_attacks, knight_attacks, piece_hits, queen_attacks, rook_attacks};
use crate::bits::{ascending, bit, concat_over, group_bits, lemma_ascending, lemma_rank_mask, lemma_squares_zero};
use crate::board::{home_rank, king_target, rook_index, rook_target, Board, Position};
use crate::moves::{mk_move, Move, MoveFlag, MoveList};
use crate::types::{Bitboard, CastlingRights, Color, Piece, PieceKind, Square};

verus! {

impl Position {
    /// Squares of the side to move.
    pub open spec fn ours(self) -> u64 {
        self.occupancy[self.side.idx()].0
    }

    /// Squares of the other side.
    pub open spec fn theirs(self) -> u64 {
        self.occupancy[self.side.other().idx()].0
    }

    /// Pawns of the side to move.
    pub open spec fn own_pawns(self) -> u64 {
        self.set_of(self.side, PieceKind::Pawn).0
    }
}

// Moves of pieces other than pawns.
/// The move to a target: a capture where the other side stands.
pub open spec fn step_fn(theirs: u64, from: int) -> spec_fn(int) -> Seq<Move> {
    |to: int|
        seq![mk_move(from, to, if bit(theirs, to) { MoveFlag::Capture } else { MoveFlag::Normal })]
}

/// The squares of `mask` that a piece on `from` attacks.
pub open spec fn step_targets(p: Position, kind: PieceKind, from: int, mask: u64) -> Seq<int> {
    ascending(|t: int| piece_hits(kind, p.side, p.occupied().0, from, t) && bit(mask, t))
}

/// The moves of a piece on `from` to the squares of `mask`.
pub open spec fn steps_fn(p: Position, kind: PieceKind, mask: u64) -> spec_fn(int) -> Seq<Move> {
    |from: int| concat_over(step_targets(p, kind, from, mask), step_fn(p.theirs(), from))
}

/// The moves of all pieces of a kind to the squares of `mask`.
pub open spec fn kind_moves(p: Position, kind: PieceKind, mask: u64) -> Seq<Move> {
    concat_over(p.set_of(p.side, kind).members(), steps_fn(p, kind, mask))
}

/// The king's steps to the squares of `mask`.
pub open spec fn king_moves(p: Position, mask: u64) -> Seq<Move> {
    steps_fn(p, PieceKind::King, mask)(p.king_at(p.side))
}

/// The moves of knights, bishops, rooks, queens and king to the squares of
/// `mask`.
pub open spec fn piece_moves(p: Position, mask: u64) -> Seq<Move> {
    kind_moves(p, PieceKind::Knight, mask) + kind_moves(p, PieceKind::Bishop, mask) + kind_moves(
        p,
        PieceKind::Rook,
        mask,
    ) + kind_moves(p, PieceKind::Queen, mask) + king_moves(p, mask)
}

// Pawn moves.
/// How far a pawn push goes: one rank forward.
pub open spec fn forward(us: Color) -> int {
    match us {
        Color::White => 8,
        Color::Black => -8,
    }
}

/// The rank from which a pawn's next step promotes it.
pub open spec fn on_seventh(us: Color, from: int) -> bool {
    from / 8 == (match us {
        Color::White => 6int,
        Color::Black => 1int,
    })
}

/// The rank from which a pawn may push twice.
pub open spec fn on_second(us: Color, from: int) -> bool {
    from / 8 == (match us {
        Color::White => 1int,
        Color::Black => 6int,
    })
}

/// How far a capture goes: left is towards the a-file for White and towards
/// the h-file for Black.
pub open spec fn capture_delta(us: Color, left: bool) -> int {
    match us {
        Color::White => if left { 7 } else { 9 },
        Color::Black => if left { -7 } else { -9 },
    }
}

/// The file that a capture in this direction cannot land on.
pub open spec fn capture_edge(us: Color, left: bool) -> int {
    if (us == Color::White) == left { 7 } else { 0 }
}

/// A pawn of the side to move attacks `to` in the given direction.
pub open spec fn pawn_reaches(p: Position, left: bool, to: int) -> bool {
    &&& to % 8 != capture_edge(p.side, left)
    &&& bit(p.own_pawns(), to - capture_delta(p.side, left))
}

/// The four promotions of a move, best piece first.
pub open spec fn promotions(from: int, to: int, capture: bool) -> Seq<Move> {
    if capture {
        seq![
            mk_move(from, to, MoveFlag::PromoteCaptureQueen),
            mk_move(from, to, MoveFlag::PromoteCaptureRook),
            mk_move(from, to, MoveFlag::PromoteCaptureBishop),
            mk_move(from, to, MoveFlag::PromoteCaptureKnight),
        ]
    } else {
        seq![
            mk_move(from, to, MoveFlag::PromoteQueen),
            mk_move(from, to, MoveFlag::PromoteRook),
            mk_move(from, to, MoveFlag::PromoteBishop),
            mk_move(from, to, MoveFlag::PromoteKnight),
        ]
    }
}

/// Where single pushes lead.
pub open spec fn push_targets(p: Position) -> Seq<int> {
    ascending(|to: int| bit(p.own_pawns(), to - forward(p.side)) && !bit(p.occupied().0, to))
}

/// The single pushes to a target: promotions if `promo`, others if `plain`.
pub open spec fn push_fn(us: Color, promo: bool, plain: bool) -> spec_fn(int) -> Seq<Move> {
    |to: int|
        if on_seventh(us, to - forward(us)) {
            if promo {
                promotions(to - forward(us), to, false)
            } else {
                Seq::empty()
            }
        } else if plain {
            seq![mk_move(to - forward(us), to, MoveFlag::Normal)]
        } else {
            Seq::empty()
        }
}

pub open spec fn single_pushes(p: Position, promo: bool, plain: bool) -> Seq<Move> {
    concat_over(push_targets(p), push_fn(p.side, promo, plain))
}

/// Where double pushes lead.
pub open spec fn double_targets(p: Position) -> Seq<int> {
    ascending(
        |to: int|
            {
                let from = to - 2 * forward(p.side);
                &&& bit(p.own_pawns(), from)
                &&& on_second(p.side, from)
                &&& !bit(p.occupied().0, to - forward(p.side))
                &&& !bit(p.occupied().0, to)
            },
    )
}

pub open spec fn double_fn(us: Color) -> spec_fn(int) -> Seq<Move> {
    |to: int| seq![mk_move(to - 2 * forward(us), to, MoveFlag::DoublePawnPush)]
}

pub open spec fn double_pushes(p: Position) -> Seq<Move> {
    concat_over(double_targets(p), double_fn(p.side))
}

/// Where captures in one direction lead.
pub open spec fn capture_targets(p: Position, left: bool) -> Seq<int> {
    ascending(|to: int| pawn_reaches(p, left, to) && bit(p.theirs(), to))
}

pub open spec fn capture_fn(us: Color, left: bool) -> spec_fn(int) -> Seq<Move> {
    |to: int|
        {
            let from = to - capture_delta(us, left);
            if on_seventh(us, from) {
                promotions(from, to, true)
            } else {
                seq![mk_move(from, to, MoveFlag::Capture)]
            }
        }
}

pub open spec fn pawn_captures(p: Position, left: bool) -> Seq<Move> {
    concat_over(capture_targets(p, left), capture_fn(p.side, left))
}

/// The en-passant capture in one direction, if there is one.
pub open spec fn ep_capture(p: Position, left: bool) -> Seq<Move> {
    match p.ep {
        Some(sq) => if pawn_reaches(p, left, sq.0 as int) {
            seq![mk_move(sq.0 as int - capture_delta(p.side, left), sq.0 as int, MoveFlag::EnPassant)]
        } else {
            Seq::empty()
        },
        None => Seq::empty(),
    }
}

/// All captures by pawns.
pub open spec fn pawn_takes(p: Position) -> Seq<Move> {
    pawn_captures(p, true) + pawn_captures(p, false) + ep_capture(p, true) + ep_capture(p, false)
}

// Castling.
/// `sq` lies strictly between `a` and `b` on their common rank.
pub open spec fn between(a: int, b: int, sq: int) -> bool {
    &&& a / 8 == b / 8
    &&& sq / 8 == a / 8
    &&& (a % 8 < sq % 8 < b % 8 || b % 8 < sq % 8 < a % 8)
}

/// King and rook can travel: the squares that either crosses or lands on are
/// empty, their own origins aside.
pub open spec fn castle_clear(occ: u64, king_from: int, king_to: int, rook_from: int, rook_to: int) -> bool {
    forall|sq: int|
        is_square(sq) && sq != king_from && sq != rook_from && (between(king_from, king_to, sq) || between(
            rook_from,
            rook_to,
            sq,
        ) || between(king_from, rook_from, sq) || sq == king_to || sq == rook_to) ==> !#[trigger] bit(occ, sq)
}

/// No square from the king's origin to its target is attacked.
pub open spec fn castle_safe(p: Position, king_from: int, king_to: int, them: Color) -> bool {
    forall|file: int|
        (king_from % 8 <= file <= king_to % 8 || king_to % 8 <= file <= king_from % 8) ==> !#[trigger] attacked(
            p,
            king_from / 8 * 8 + file,
            them,
        )
}

/// The mask bit of a castling right.
pub open spec fn right_bit(us: Color, kingside: bool) -> u8 {
    match us {
        Color::White => if kingside { 1 } else { 2 },
        Color::Black => if kingside { 4 } else { 8 },
    }
}

/// Castling to one side is possible, the king not being in check.
pub open spec fn may_castle(p: Position, kingside: bool) -> bool {
    let us = p.side;
    let rook_from = p.rooks[rook_index(us, kingside)].0 as int;
    &&& p.castling.0 & right_bit(us, kingside) != 0
    &&& p.mailbox[rook_from] == Some(Piece { kind: PieceKind::Rook, color: us })
    &&& castle_clear(p.occupied().0, p.king_at(us), king_target(us, kingside), rook_from, rook_target(us, kingside))
    &&& castle_safe(p, p.king_at(us), king_target(us, kingside), us.other())
}

pub open spec fn castle_flag(kingside: bool) -> MoveFlag {
    if kingside { MoveFlag::KingsideCastle } else { MoveFlag::QueensideCastle }
}

pub open spec fn castle_to(p: Position, kingside: bool) -> Seq<Move> {
    if may_castle(p, kingside) {
        seq![mk_move(p.king_at(p.side), king_target(p.side, kingside), castle_flag(kingside))]
    } else {
        Seq::empty()
    }
}

/// The castling moves: none in check, and only from the back rank.
pub open spec fn castling_moves(p: Position) -> Seq<Move> {
    let k = p.king_at(p.side);
    if attacked(p, k, p.side.other()) || k / 8 != home_rank(p.side) {
        Seq::empty()
    } else {
        castle_to(p, true) + castle_to(p, false)
    }
}

// The three lists.
/// All pseudo-legal moves.
pub open spec fn pseudo_moves(p: Position) -> Seq<Move> {
    single_pushes(p, true, true) + double_pushes(p) + pawn_takes(p) + piece_moves(p, !p.ours()) + castling_moves(p)
}

/// The pseudo-legal captures and promotions.
pub open spec fn tactical_moves(p: Position) -> Seq<Move> {
    pawn_takes(p) + single_pushes(p, true, false) + piece_moves(p, p.theirs())
}

/// The pseudo-legal moves that neither capture nor promote.
pub open spec fn quiet_moves(p: Position) -> Seq<Move> {
    single_pushes(p, false, true) + double_pushes(p) + piece_moves(p, !p.occupied().0) + castling_moves(p)
}

/// A move does not leave the mover's king attacked.
pub open spec fn leaves_king_safe(p: Position, m: Move) -> bool {
    !in_check_after(p, m)
}

/// After the move, the king of the side that made it is attacked.
pub open spec fn in_check_after(p: Position, m: Move) -> bool {
    attacked(p.after(m), p.after(m).king_at(p.side), p.side.other())
}

/// The moves of a list that do not leave the king attacked, in order.
pub open spec fn keep_safe(p: Position, s: Seq<Move>) -> Seq<Move>
    decreases s.len(),
{
    if s.len() == 0 {
        Seq::empty()
    } else if leaves_king_safe(p, s.last()) {
        keep_safe(p, s.drop_last()).push(s.last())
    } else {
        keep_safe(p, s.drop_last())
    }
}

/// All legal moves.
pub open spec fn legal_moves(p: Position) -> Seq<Move> {
    keep_safe(p, pseudo_moves(p))
}

impl Position {
    /// Both move counters can be incremented.
    pub open spec fn has_room(self) -> bool {
        self.halfmove < u16::MAX && self.fullmove < u16::MAX
    }
}

fn push_targets_from(from: Square, targets: Bitboard, theirs: Bitboard, moves: &mut MoveList)
    requires
        from.ok(),
    ensures
        final(moves)@ == old(moves)@ + concat_over(targets.members(), step_fn(theirs.0, from.0 as int)),
{
    let ghost base = moves@;
    let ghost f = step_fn(theirs.0, from.0 as int);
    let mut rem = targets;
    while rem.0 != 0
        invariant
            from.ok(),
            f == step_fn(theirs.0, from.0 as int),
            moves@ + concat_over(rem.members(), f) == base + concat_over(targets.members(), f),
        decreases rem.0,
    {
        let to = rem.lowest();
        let ghost before = moves@;
        let ghost m = rem.members();
        if theirs.is_set(to) {
            moves.push(Move::new(from, to, MoveFlag::Capture));
        } else {
            moves.push(Move::new(from, to, MoveFlag::Normal));
        }
        rem = rem.without_lowest();
        proof {
            assert(moves@ =~= before + f(to.0 as int));
            assert(moves@ + concat_over(rem.members(), f) =~= before + (f(m[0]) + concat_over(m.drop_first(), f)));
        }
    }
    proof {
        lemma_squares_zero();
        assert(moves@ + concat_over(rem.members(), f) =~= moves@);
    }
}

/// The squares that a piece attacks, pawns aside.
fn attacks_of(kind: PieceKind, from: Square, occ: Bitboard, Ghost(us): Ghost<Color>) -> (r: Bitboard)
    requires
        from.ok(),
        kind != PieceKind::Pawn,
    ensures
        forall|t: int| is_square(t) ==> #[trigger] r.has(t) == piece_hits(kind, us, occ.0, from.0 as int, t),
{
    match kind {
        PieceKind::Knight => knight_attacks(from),
        PieceKind::Bishop => bishop_attacks(from, occ),
        PieceKind::Rook => rook_attacks(from, occ),
        PieceKind::Queen => queen_attacks(from, occ),
        _ => king_attacks(from),
    }
}

/// Adds the moves of the piece on `from` to the squares of `mask`.
fn push_steps(board: &Board, kind: PieceKind, from: Square, mask: Bitboard, moves: &mut MoveList)
    requires
        from.ok(),
        kind != PieceKind::Pawn,
    ensures
        final(moves)@ == old(moves)@ + steps_fn(board@, kind, mask.0)(from.0 as int),
{
    let occ = board.all_occupancy();
    let theirs = board.occupancy[board.side_to_move.opposite().index()];
    let targets = attacks_of(kind, from, occ, Ghost(board@.side)) & mask;
    proof {
        broadcast use group_bits;
        lemma_ascending(
            targets.0,
            |t: int|
                piece_hits(kind, board@.side, board@.occupied().0, from.0 as int, t) && bit(mask.0, t),
        );
    }
    push_targets_from(from, targets, theirs, moves);
}

/// Adds the moves of all pieces of a kind to the squares of `mask`.
fn generate_kind_moves(board: &Board, kind: PieceKind, mask: Bitboard, moves: &mut MoveList)
    requires
        kind != PieceKind::Pawn,
    ensures
        final(moves)@ == old(moves)@ + kind_moves(board@, kind, mask.0),
{
    let set = board.set_of(board.side_to_move, kind);
    let ghost base = moves@;
    let ghost f = steps_fn(board@, kind, mask.0);
    let mut rem = set;
    while rem.0 != 0
        invariant
            kind != PieceKind::Pawn,
            f == steps_fn(board@, kind, mask.0),
            moves@ + concat_over(rem.members(), f) == base + concat_over(set.members(), f),
        decreases rem.0,
    {
        let from = rem.lowest();
        let ghost before = moves@;
        let ghost m = rem.members();
        push_steps(board, kind, from, mask, moves);
        rem = rem.without_lowest();
        proof {
            assert(moves@ + concat_over(rem.members(), f) =~= before + (f(m[0]) + concat_over(m.drop_first(), f)));
        }
    }
    proof {
        lemma_squares_zero();
        assert(moves@ + concat_over(rem.members(), f) =~= moves@);
    }
}

/// Adds the moves of knights, bishops, rooks, queens and king to the squares
/// of `mask`.
fn generate_piece_moves(board: &Board, mask: Bitboard, moves: &mut MoveList)
    ensures
        final(moves)@ == old(moves)@ + piece_moves(board@, mask.0),
{
    let ghost base = moves@;
    generate_kind_moves(board, PieceKind::Knight, mask, moves);
    generate_kind_moves(board, PieceKind::Bishop, mask, moves);
    generate_kind_moves(board, PieceKind::Rook, mask, moves);
    generate_kind_moves(board, PieceKind::Queen, mask, moves);
    let king_sq = board.king_square(board.side_to_move);
    push_steps(board, PieceKind::King, king_sq, mask, moves);
    proof {
        assert(moves@ =~= base + piece_moves(board@, mask.0));
    }
}

/// The square `delta` behind `to`, seen from the mover.
fn behind(us: Color, to: Square, delta: u8) -> (r: Square)
    requires
        to.ok(),
        us == Color::White ==> delta <= to.0,
        us == Color::Black ==> to.0 + delta < 64,
    ensures
        r.ok(),
        r.0 == (match us {
            Color::White => to.0 - delta,
            Color::Black => to.0 + delta,
        }),
{
    match us {
        Color::White => Square(to.0 - delta),
        Color::Black => Square(to.0 + delta),
    }
}

fn is_on_seventh(us: Color, from: Square) -> (r: bool)
    ensures
        r == on_seventh(us, from.0 as int),
{
    match us {
        Color::White => from.rank() == 6,
        Color::Black => from.rank() == 1,
    }
}

fn push_promotions(from: Square, to: Square, capture: bool, moves: &mut MoveList)
    requires
        from.ok(),
        to.ok(),
    ensures
        final(moves)@ == old(moves)@ + promotions(from.0 as int, to.0 as int, capture),
{
    let ghost base = moves@;
    if capture {
        moves.push(Move::new(from, to, MoveFlag::PromoteCaptureQueen));
        moves.push(Move::new(from, to, MoveFlag::PromoteCaptureRook));
        moves.push(Move::new(from, to, MoveFlag::PromoteCaptureBishop));
        moves.push(Move::new(from, to, MoveFlag::PromoteCaptureKnight));
    } else {
        moves.push(Move::new(from, to, MoveFlag::PromoteQueen));
        moves.push(Move::new(from, to, MoveFlag::PromoteRook));
        moves.push(Move::new(from, to, MoveFlag::PromoteBishop));
        moves.push(Move::new(from, to, MoveFlag::PromoteKnight));
    }
    proof {
        assert(moves@ =~= base + promotions(from.0 as int, to.0 as int, capture));
    }
}

fn generate_single_pushes(board: &Board, promo: bool, plain: bool, moves: &mut MoveList)
    ensures
        final(moves)@ == old(moves)@ + single_pushes(board@, promo, plain),
{
    let us = board.side_to_move;
    let pawns = board.set_of(us, PieceKind::Pawn);
    let empty = board.all_occupancy().complement();
    let set = match us {
        Color::White => pawns.north(),
        Color::Black => pawns.south(),
    } & empty;
    let ghost base = moves@;
    let ghost f = push_fn(us, promo, plain);
    proof {
        broadcast use group_bits;
        lemma_ascending(
            set.0,
            |to: int| bit(board@.own_pawns(), to - forward(board@.side)) && !bit(board@.occupied().0, to),
        );
    }
    let mut rem = set;
    while rem.0 != 0
        invariant
            us == board@.side,
            f == push_fn(us, promo, plain),
            forall|i: int| #[trigger] rem.has(i) ==> bit(board@.own_pawns(), i - forward(us)),
            moves@ + concat_over(rem.members(), f) == base + concat_over(set.members(), f),
        decreases rem.0,
    {
        broadcast use group_bits;
        let to = rem.lowest();
        let ghost before = moves@;
        let ghost m = rem.members();
        let ghost rem0 = rem;
        proof {
            assert(rem.has(to.0 as int));
            assert(bit(board@.own_pawns(), to.0 - forward(us)));
        }
        let from = behind(us, to, 8);
        if is_on_seventh(us, from) {
            if promo {
                push_promotions(from, to, false, moves);
            }
        } else if plain {
            moves.push(Move::new(from, to, MoveFlag::Normal));
        }
        rem = rem.without_lowest();
        proof {
            assert(moves@ =~= before + f(to.0 as int));
            assert(moves@ + concat_over(rem.members(), f) =~= before + (f(m[0]) + concat_over(m.drop_first(), f)));
            assert forall|i: int| #[trigger] rem.has(i) implies bit(board@.own_pawns(), i - forward(us)) by {
                assert(rem0.has(i));
            }
        }
    }
    proof {
        lemma_squares_zero();
        assert(moves@ + concat_over(rem.members(), f) =~= moves@);
    }
}

fn generate_double_pushes(board: &Board, moves: &mut MoveList)
    ensures
        final(moves)@ == old(moves)@ + double_pushes(board@),
{
    let us = board.side_to_move;
    let pawns = board.set_of(us, PieceKind::Pawn);
    let empty = board.all_occupancy().complement();
    let set = match us {
        Color::White => ((pawns & Bitboard(0xFF00)).north() & empty).north() & empty,
        Color::Black => ((pawns & Bitboard(0xFF_0000_0000_0000)).south() & empty).south() & empty,
    };
    let ghost base = moves@;
    let ghost f = double_fn(us);
    proof {
        broadcast use group_bits;
        crate::bits::lemma_named_masks();
        let g = |to: int|
            {
                let from = to - 2 * forward(board@.side);
                &&& bit(board@.own_pawns(), from)
                &&& on_second(board@.side, from)
                &&& !bit(board@.occupied().0, to - forward(board@.side))
                &&& !bit(board@.occupied().0, to)
            };
        assert forall|i: int| 0 <= i < 64 implies #[trigger] bit(set.0, i) == g(i) by {
            lemma_rank_mask(1, i - 16);
            lemma_rank_mask(6, i + 16);
        }
        lemma_ascending(set.0, g);
        assert forall|i: int| #[trigger] set.has(i) implies bit(board@.own_pawns(), i - 2 * forward(us)) by {
            assert(g(i));
        }
    }
    let mut rem = set;
    while rem.0 != 0
        invariant
            us == board@.side,
            f == double_fn(us),
            forall|i: int| #[trigger] rem.has(i) ==> bit(board@.own_pawns(), i - 2 * forward(us)),
            moves@ + concat_over(rem.members(), f) == base + concat_over(set.members(), f),
        decreases rem.0,
    {
        broadcast use group_bits;
        let to = rem.lowest();
        let ghost before = moves@;
        let ghost m = rem.members();
        let ghost rem0 = rem;
        proof {
            assert(rem.has(to.0 as int));
            assert(bit(board@.own_pawns(), to.0 - 2 * forward(us)));
        }
        let from = behind(us, to, 16);
        moves.push(Move::new(from, to, MoveFlag::DoublePawnPush));
        rem = rem.without_lowest();
        proof {
            assert(moves@ =~= before + f(to.0 as int));
            assert(moves@ + concat_over(rem.members(), f) =~= before + (f(m[0]) + concat_over(m.drop_first(), f)));
            assert forall|i: int| #[trigger] rem.has(i) implies bit(board@.own_pawns(), i - 2 * forward(us)) by {
                assert(rem0.has(i));
            }
        }
    }
    proof {
        lemma_squares_zero();
        assert(moves@ + concat_over(rem.members(), f) =~= moves@);
    }
}

/// The squares that own pawns attack in one direction.
fn pawn_side_attacks(board: &Board, left: bool) -> (r: Bitboard)
    ensures
        forall|to: int| is_square(to) ==> #[trigger] r.has(to) == pawn_reaches(board@, left, to),
{
    let pawns = board.set_of(board.side_to_move, PieceKind::Pawn);
    match board.side_to_move {
        Color::White => if left {
            pawns.north_west()
        } else {
            pawns.north_east()
        },
        Color::Black => if left {
            pawns.south_east()
        } else {
            pawns.south_west()
        },
    }
}

fn generate_pawn_captures(board: &Board, left: bool, moves: &mut MoveList)
    ensures
        final(moves)@ == old(moves)@ + pawn_captures(board@, left),
{
    let us = board.side_to_move;
    let theirs = board.occupancy[us.opposite().index()];
    let set = pawn_side_attacks(board, left) & theirs;
    let delta: u8 = if left { 7 } else { 9 };
    let ghost base = moves@;
    let ghost f = capture_fn(us, left);
    let ghost d = capture_delta(us, left);
    proof {
        broadcast use group_bits;
        lemma_ascending(set.0, |to: int| pawn_reaches(board@, left, to) && bit(board@.theirs(), to));
    }
    let mut rem = set;
    while rem.0 != 0
        invariant
            us == board@.side,
            f == capture_fn(us, left),
            d == capture_delta(us, left),
            delta == (if left { 7int } else { 9 }),
            forall|i: int| #[trigger] rem.has(i) ==> bit(board@.own_pawns(), i - d),
            moves@ + concat_over(rem.members(), f) == base + concat_over(set.members(), f),
        decreases rem.0,
    {
        broadcast use group_bits;
        let to = rem.lowest();
        let ghost before = moves@;
        let ghost m = rem.members();
        let ghost rem0 = rem;
        proof {
            assert(rem.has(to.0 as int));
            assert(bit(board@.own_pawns(), to.0 - d));
        }
        let from = behind(us, to, delta);
        if is_on_seventh(us, from) {
            push_promotions(from, to, true, moves);
        } else {
            moves.push(Move::new(from, to, MoveFlag::Capture));
        }
        rem = rem.without_lowest();
        proof {
            assert(moves@ =~= before + f(to.0 as int));
            assert(moves@ + concat_over(rem.members(), f) =~= before + (f(m[0]) + concat_over(m.drop_first(), f)));
            assert forall|i: int| #[trigger] rem.has(i) implies bit(board@.own_pawns(), i - d) by {
                assert(rem0.has(i));
            }
        }
    }
    proof {
        lemma_squares_zero();
        assert(moves@ + concat_over(rem.members(), f) =~= moves@);
    }
}

fn generate_ep_capture(board: &Board, left: bool, moves: &mut MoveList)
    requires
        board.ok(),
    ensures
        final(moves)@ == old(moves)@ + ep_capture(board@, left),
{
    let ghost base = moves@;
    if let Some(ep_sq) = board.en_passant {
        if pawn_side_attacks(board, left).is_set(ep_sq) {
            let delta: u8 = if left { 7 } else { 9 };
            proof {
                broadcast use group_bits;
                assert(pawn_reaches(board@, left, ep_sq.0 as int));
            }
            let from = behind(board.side_to_move, ep_sq, delta);
            moves.push(Move::new(from, ep_sq, MoveFlag::EnPassant));
        }
    }
    proof {
        assert(moves@ =~= base + ep_capture(board@, left));
    }
}

fn generate_pawn_takes(board: &Board, moves: &mut MoveList)
    requires
        board.ok(),
    ensures
        final(moves)@ == old(moves)@ + pawn_takes(board@),
{
    let ghost base = moves@;
    generate_pawn_captures(board, true, moves);
    generate_pawn_captures(board, false, moves);
    generate_ep_capture(board, true, moves);
    generate_ep_capture(board, false, moves);
    proof {
        assert(moves@ =~= base + pawn_takes(board@));
    }
}

/// Squares strictly between `a` and `b` on the same rank.
fn between_on_rank(a: Square, b: Square) -> (r: Bitboard)
    requires
        a.ok(),
        b.ok(),
    ensures
        forall|sq: int| #[trigger] r.has(sq) == (is_square(sq) && between(a.0 as int, b.0 as int, sq)),
{
    broadcast use group_bits;
    if a.rank() != b.rank() {
        return Bitboard(0);
    }
    let rank = a.rank();
    let (lo, hi) = if a.file() < b.file() { (a.file(), b.file()) } else { (b.file(), a.file()) };
    let mut bb = Bitboard(0);
    let mut file: u8 = lo + 1;
    while file < hi
        invariant
            a.ok(),
            b.ok(),
            rank == a.0 / 8,
            rank == b.0 / 8,
            lo < 8,
            hi < 8,
            lo < file <= hi || file == lo + 1,
            forall|sq: int| #[trigger]
                bb.has(sq) == (is_square(sq) && sq / 8 == rank && lo < sq % 8 < file),
        decreases 9 - file,
    {
        bb = bb.set(Square::new(file, rank));
        file = file + 1;
    }
    bb
}

/// All squares that king and rook travel through, and their destinations, are
/// empty, except for the two origins.
fn castle_path_clear(king_from: Square, king_to: Square, rook_from: Square, rook_to: Square, occ: Bitboard) -> (r:
    bool)
    requires
        king_from.ok(),
        king_to.ok(),
        rook_from.ok(),
        rook_to.ok(),
    ensures
        r == castle_clear(occ.0, king_from.0 as int, king_to.0 as int, rook_from.0 as int, rook_to.0 as int),
{
    broadcast use group_bits;
    let origins = king_from.bitboard() | rook_from.bitboard();
    let travel = between_on_rank(king_from, king_to) | between_on_rank(rook_from, rook_to) | between_on_rank(
        king_from,
        rook_from,
    );
    let need_empty = travel.set(king_to).set(rook_to) & origins.complement();
    let blocked = need_empty & occ;
    proof {
        if blocked.0 == 0 {
            assert forall|sq: int|
                is_square(sq) && sq != king_from.0 && sq != rook_from.0 && (between(
                    king_from.0 as int,
                    king_to.0 as int,
                    sq,
                ) || between(rook_from.0 as int, rook_to.0 as int, sq) || between(
                    king_from.0 as int,
                    rook_from.0 as int,
                    sq,
                ) || sq == king_to.0 || sq == rook_to.0) implies !#[trigger] bit(occ.0, sq) by {
                assert(!bit(blocked.0, sq));
                assert(bit(need_empty.0, sq));
            }
        } else {
            crate::bits::lemma_lowest(blocked.0);
            let sq = vstd::std_specs::bits::u64_trailing_zeros(blocked.0) as int;
            assert(bit(blocked.0, sq));
            assert(bit(occ.0, sq));
        }
    }
    blocked.0 == 0
}

/// The king may not start, pass through, or finish on an attacked square.
fn king_castle_path_safe(board: &Board, king_from: Square, king_to: Square, them: Color) -> (r: bool)
    requires
        king_from.ok(),
        king_to.ok(),
    ensures
        r == castle_safe(board@, king_from.0 as int, king_to.0 as int, them),
{
    let rank = king_from.rank();
    let (lo, hi) = if king_from.file() <= king_to.file() {
        (king_from.file(), king_to.file())
    } else {
        (king_to.file(), king_from.file())
    };
    let mut file: u8 = lo;
    while file <= hi
        invariant
            king_from.ok(),
            rank == king_from.0 / 8,
            lo <= file,
            hi < 8,
            forall|f: int| lo <= f < file ==> !#[trigger] attacked(board@, king_from.0 as int / 8 * 8 + f, them),
            lo <= hi,
            lo == (if king_from.0 % 8 <= king_to.0 % 8 { king_from.0 % 8 } else { king_to.0 % 8 }),
            hi == (if king_from.0 % 8 <= king_to.0 % 8 { king_to.0 % 8 } else { king_from.0 % 8 }),
        decreases 9 - file,
    {
        if is_square_attacked(board, Square::new(file, rank), them) {
            proof {
                assert(attacked(board@, king_from.0 as int / 8 * 8 + file as int, them));
            }
            return false;
        }
        file = file + 1;
    }
    true
}

/// Adds the castling moves.
fn generate_castling_moves(board: &Board, moves: &mut MoveList)
    requires
        board.ok(),
    ensures
        final(moves)@ == old(moves)@ + castling_moves(board@),
{
    let us = board.side_to_move;
    let them = us.opposite();
    let king_from = board.king_square(us);
    let ghost base = moves@;
    // No castling out of check, and in Chess960 only from the back rank.
    if is_square_attacked(board, king_from, them) {
        proof {
            assert(moves@ =~= base + castling_moves(board@));
        }
        return ;
    }
    let back: u8 = match us {
        Color::White => 0,
        Color::Black => 7,
    };
    if king_from.rank() != back {
        proof {
            assert(moves@ =~= base + castling_moves(board@));
        }
        return ;
    }
    generate_castle_to(board, true, moves);
    generate_castle_to(board, false, moves);
    proof {
        assert(moves@ =~= base + castling_moves(board@));
    }
}

fn generate_castle_to(board: &Board, kingside: bool, moves: &mut MoveList)
    requires
        board.ok(),
    ensures
        final(moves)@ == old(moves)@ + castle_to(board@, kingside),
{
    let ghost base = moves@;
    let us = board.side_to_move;
    let king_from = board.king_square(us);
    let flag: u8 = match us {
        Color::White => if kingside {
            CastlingRights::WHITE_KINGSIDE
        } else {
            CastlingRights::WHITE_QUEENSIDE
        },
        Color::Black => if kingside {
            CastlingRights::BLACK_KINGSIDE
        } else {
            CastlingRights::BLACK_QUEENSIDE
        },
    };
    if board.castling.has(flag) {
        let rook_from = board.castle_rook(us, kingside);
        proof {
            assert(board.castle_rooks@[rook_index(us, kingside)].ok());
        }
        if board.piece_at(rook_from) == Some(Piece::new(PieceKind::Rook, us)) {
            let king_to = Board::king_castle_to(us, kingside);
            let rook_to = Board::rook_castle_to(us, kingside);
            if castle_path_clear(king_from, king_to, rook_from, rook_to, board.all_occupancy()) {
                if king_castle_path_safe(board, king_from, king_to, us.opposite()) {
                    let move_flag = if kingside { MoveFlag::KingsideCastle } else { MoveFlag::QueensideCastle };
                    moves.push(Move::new(king_from, king_to, move_flag));
                }
            }
        }
    }
    proof {
        assert(moves@ =~= base + castle_to(board@, kingside));
    }
}

/// Generate all pseudo-legal moves for the current position.
/// These moves may leave the king in check (caller must filter).
pub fn generate_pseudo_legal_moves(board: &Board) -> (r: MoveList)
    requires
        board.ok(),
    ensures
        r@ == pseudo_moves(board@),
{
    let mut moves = MoveList::new();
    let ours = board.occupancy[board.side_to_move.index()];
    generate_single_pushes(board, true, true, &mut moves);
    generate_double_pushes(board, &mut moves);
    generate_pawn_takes(board, &mut moves);
    generate_piece_moves(board, ours.complement(), &mut moves);
    generate_castling_moves(board, &mut moves);
    proof {
        assert(moves@ =~= pseudo_moves(board@));
    }
    moves
}

/// Generate only pseudo-legal captures, en passant, and all promotions.
pub fn generate_pseudo_legal_captures(board: &Board) -> (r: MoveList)
    requires
        board.ok(),
    ensures
        r@ == tactical_moves(board@),
{
    let mut moves = MoveList::new();
    let theirs = board.occupancy[board.side_to_move.opposite().index()];
    generate_pawn_takes(board, &mut moves);
    // Promotions by a push are tactical too.
    generate_single_pushes(board, true, false, &mut moves);
    generate_piece_moves(board, theirs, &mut moves);
    proof {
        assert(moves@ =~= tactical_moves(board@));
    }
    moves
}

/// Generate only pseudo-legal quiet moves (non-captures, non-promotions).
/// Includes pawn pushes, piece non-capture moves, and castling.
pub fn generate_pseudo_legal_quiets(board: &Board) -> (r: MoveList)
    requires
        board.ok(),
    ensures
        r@ == quiet_moves(board@),
{
    let mut moves = MoveList::new();
    generate_single_pushes(board, false, true, &mut moves);
    generate_double_pushes(board, &mut moves);
    generate_piece_moves(board, board.all_occupancy().complement(), &mut moves);
    generate_castling_moves(board, &mut moves);
    proof {
        assert(moves@ =~= quiet_moves(board@));
    }
    moves
}

/// Check that a move does not leave the mover's king in check.
fn is_legal(board: &Board, m: Move) -> (r: bool)
    requires
        board.ok(),
        board@.has_room(),
    ensures
        r == leaves_king_safe(board@, m),
{
    let us = board.side_to_move;
    let mut test_board = board.clone();
    let _ = test_board.make_move(m);
    let king_sq = test_board.king_square(us);
    !is_square_attacked(&test_board, king_sq, us.opposite())
}

/// Generate all legal moves for the current position.
pub fn generate_legal_moves(board: &Board) -> (r: MoveList)
    requires
        board.ok(),
        board@.has_room(),
    ensures
        r@ == legal_moves(board@),
{
    let mut legal = MoveList::new();
    let pseudo = generate_pseudo_legal_moves(board);
    let mut i: usize = 0;
    while i < pseudo.len()
        invariant
            board.ok(),
            board@.has_room(),
            i <= pseudo@.len(),
            legal@ == keep_safe(board@, pseudo@.take(i as int)),
        decreases pseudo@.len() - i,
    {
        let m = pseudo.get(i);
        if is_legal(board, m) {
            legal.push(m);
        }
        i = i + 1;
        proof {
            assert(pseudo@.take(i as int).drop_last() =~= pseudo@.take(i - 1));
            assert(pseudo@.take(i as int).last() == m);
        }
    }
    proof {
        assert(pseudo@.take(i as int) =~= pseudo@);
    }
    legal
}

} // verus!
