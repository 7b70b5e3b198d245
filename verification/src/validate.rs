//! Legality of positions and of moves given in UCI form.

use vstd::prelude::*;
use crate::attacks::{attacked, in_check, is_square_attacked};
use crate::bits::lemma_squares_members;
use crate::board::{rook_index, Board, Position};
use crate::movegen::{generate_legal_moves, legal_moves};
use crate::moves::{Move, MoveFlag};
use crate::types::{Color, PieceKind};

verus! {

/// A position that is structurally parseable but cannot occur at the boundary
/// between two legal chess moves.
#[derive(Debug, Clone, Copy, PartialEq, Eq, Structural)]
pub enum PositionError {
    KingCount { color: Color, count: u32 },
    SideNotToMoveInCheck(Color),
}

/// What is wrong with a position, if anything: a king count other than one,
/// White's first, or the side that just moved being in check.
pub open spec fn position_fault(p: Position) -> Option<PositionError> {
    let white = p.set_of(Color::White, PieceKind::King).size();
    let black = p.set_of(Color::Black, PieceKind::King).size();
    if white != 1 {
        Some(PositionError::KingCount { color: Color::White, count: white as u32 })
    } else if black != 1 {
        Some(PositionError::KingCount { color: Color::Black, count: black as u32 })
    } else if attacked(p, p.king_at(p.side.other()), p.side) {
        Some(PositionError::SideNotToMoveInCheck(p.side.other()))
    } else {
        None
    }
}

/// Validate the legality assumptions required before move generation/search.
pub fn validate_position(board: &Board) -> (r: Result<(), PositionError>)
    ensures
        match position_fault(board@) {
            None => r is Ok,
            Some(e) => r == Err::<(), PositionError>(e),
        },
{
    let white: u32 = board.set_of(Color::White, PieceKind::King).count();
    if white != 1 {
        return Err(PositionError::KingCount { color: Color::White, count: white });
    }
    let black: u32 = board.set_of(Color::Black, PieceKind::King).count();
    if black != 1 {
        return Err(PositionError::KingCount { color: Color::Black, count: black });
    }
    let previous = board.side_to_move.opposite();
    if is_square_attacked(board, board.king_square(previous), board.side_to_move) {
        return Err(PositionError::SideNotToMoveInCheck(previous));
    }
    Ok(())
}

/// The color whose back rank a castling move starts from.
pub open spec fn castler(m: Move) -> Color {
    if m.src() / 8 == 0 { Color::White } else { Color::Black }
}

/// The square of the rook that a castling move takes along.
pub open spec fn castled_rook(p: Position, m: Move) -> int {
    p.rooks[rook_index(castler(m), m.kind() == MoveFlag::KingsideCastle)].0 as int
}

/// Origin and promotion piece of a legal move are those asked for.
pub open spec fn same_origin(legal: Move, m: Move) -> bool {
    legal.src() == m.src() && legal.kind().promoted() == m.kind().promoted()
}

/// A legal move is the one that a UCI move means: same origin and promotion,
/// and same target, or for castling the rook's square as target.
pub open spec fn uci_matches(p: Position, legal: Move, m: Move) -> bool {
    same_origin(legal, m) && (legal.dst() == m.dst() || (legal.kind().castles() && castled_rook(p, legal) == m.dst()))
}

fn castled_rook_is(board: &Board, legal: Move, m: Move) -> (r: bool)
    requires
        legal.kind().castles(),
    ensures
        r == (castled_rook(board@, legal) == m.dst()),
{
    let kingside = legal.flag() == MoveFlag::KingsideCastle;
    let color = if legal.from_sq().rank() == 0 { Color::White } else { Color::Black };
    board.castle_rook(color, kingside) == m.to_sq()
}

fn is_castle_flag(flag: MoveFlag) -> (r: bool)
    ensures
        r == flag.castles(),
{
    flag == MoveFlag::KingsideCastle || flag == MoveFlag::QueensideCastle
}

fn move_matches_uci(board: &Board, legal: Move, m: Move) -> (r: bool)
    ensures
        r == uci_matches(board@, legal, m),
{
    if legal.from_sq() != m.from_sq() || legal.flag().promotion_piece() != m.flag().promotion_piece() {
        return false;
    }
    if legal.to_sq() == m.to_sq() {
        return true;
    }
    is_castle_flag(legal.flag()) && castled_rook_is(board, legal, m)
}

/// Check if a specific move is legal in the given position. A move from UCI
/// text does not carry flags such as a capture's, so that origin, target and
/// promotion piece decide.
pub fn is_legal_move(board: &Board, m: Move) -> (r: bool)
    requires
        board.ok(),
        board@.has_room(),
    ensures
        r == (exists|i: int|
            0 <= i < legal_moves(board@).len() && #[trigger] uci_matches(board@, legal_moves(board@)[i], m)),
{
    let legal = generate_legal_moves(board);
    let mut i: usize = 0;
    while i < legal.len()
        invariant
            i <= legal@.len(),
            legal@ == legal_moves(board@),
            forall|j: int| 0 <= j < i ==> !#[trigger] uci_matches(board@, legal@[j], m),
        decreases legal@.len() - i,
    {
        if move_matches_uci(board, legal.get(i), m) {
            return true;
        }
        i = i + 1;
    }
    false
}

/// The last move of a list with a property.
pub open spec fn last_where(s: Seq<Move>, f: spec_fn(Move) -> bool) -> Option<Move>
    decreases s.len(),
{
    if s.len() == 0 {
        None
    } else if f(s.last()) {
        Some(s.last())
    } else {
        last_where(s.drop_last(), f)
    }
}

/// Castling named by its rook.
pub open spec fn by_rook(p: Position, m: Move) -> spec_fn(Move) -> bool {
    |legal: Move| same_origin(legal, m) && legal.kind().castles() && castled_rook(p, legal) == m.dst()
}

/// Castling named by the king's target.
pub open spec fn by_king(m: Move) -> spec_fn(Move) -> bool {
    |legal: Move| same_origin(legal, m) && legal.kind().castles() && legal.dst() == m.dst()
}

/// A move other than castling.
pub open spec fn by_target(m: Move) -> spec_fn(Move) -> bool {
    |legal: Move| same_origin(legal, m) && !legal.kind().castles() && legal.dst() == m.dst()
}

/// The first of three that is there.
pub open spec fn either(a: Option<Move>, b: Option<Move>, c: Option<Move>) -> Option<Move> {
    if a is Some { a } else if b is Some { b } else { c }
}

/// The legal move that a UCI move means. Standard chess prefers castling named
/// by the king's target, Chess960 castling named by the rook.
pub open spec fn legal_move_for(p: Position, m: Move, chess960: bool) -> Option<Move> {
    let s = legal_moves(p);
    let rook = last_where(s, by_rook(p, m));
    let king = last_where(s, by_king(m));
    let other = last_where(s, by_target(m));
    if chess960 { either(rook, other, king) } else { either(king, other, rook) }
}

/// Find the legal move matching the given from/to/promotion, returning the
/// fully-flagged version. Returns `None` if no such legal move exists.
///
/// Accepts both king-destination castling (`e1g1`) and king-takes-rook
/// (`e1h1`). Where a king walk and a castle share a destination, the castle is
/// preferred.
pub fn find_legal_move(board: &Board, m: Move) -> (r: Option<Move>)
    requires
        board.ok(),
        board@.has_room(),
    ensures
        r == legal_move_for(board@, m, false),
{
    find_legal_move_uci(board, m, false)
}

/// Like [`find_legal_move`], but when `chess960` is true a same-destination
/// king walk beats castling (castle is sent as king-takes-rook).
pub fn find_legal_move_uci(board: &Board, m: Move, chess960: bool) -> (r: Option<Move>)
    requires
        board.ok(),
        board@.has_room(),
    ensures
        r == legal_move_for(board@, m, chess960),
{
    let legal_list = generate_legal_moves(board);
    let mut castle_via_rook: Option<Move> = None;
    let mut castle_via_dest: Option<Move> = None;
    let mut other: Option<Move> = None;
    let ghost p = board@;
    let mut i: usize = 0;
    while i < legal_list.len()
        invariant
            p == board@,
            i <= legal_list@.len(),
            castle_via_rook == last_where(legal_list@.take(i as int), by_rook(p, m)),
            castle_via_dest == last_where(legal_list@.take(i as int), by_king(m)),
            other == last_where(legal_list@.take(i as int), by_target(m)),
        decreases legal_list@.len() - i,
    {
        let legal = legal_list.get(i);
        proof {
            assert(legal_list@.take(i + 1).drop_last() =~= legal_list@.take(i as int));
            assert(legal_list@.take(i + 1).last() == legal);
        }
        if legal.from_sq() == m.from_sq() && legal.flag().promotion_piece() == m.flag().promotion_piece() {
            if is_castle_flag(legal.flag()) {
                if castled_rook_is(board, legal, m) {
                    castle_via_rook = Some(legal);
                }
                if legal.to_sq() == m.to_sq() {
                    castle_via_dest = Some(legal);
                }
            } else if legal.to_sq() == m.to_sq() {
                other = Some(legal);
            }
        }
        i = i + 1;
    }
    proof {
        assert(legal_list@.take(i as int) =~= legal_list@);
    }
    if chess960 {
        first_of(castle_via_rook, other, castle_via_dest)
    } else {
        first_of(castle_via_dest, other, castle_via_rook)
    }
}

fn first_of(a: Option<Move>, b: Option<Move>, c: Option<Move>) -> (r: Option<Move>)
    ensures
        r == either(a, b, c),
{
    if a.is_some() {
        a
    } else if b.is_some() {
        b
    } else {
        c
    }
}

proof fn lemma_last_where(s: Seq<Move>, f: spec_fn(Move) -> bool)
    ensures
        last_where(s, f) is Some ==> s.contains(last_where(s, f)->Some_0) && f(last_where(s, f)->Some_0),
        last_where(s, f) is None ==> forall|i: int| 0 <= i < s.len() ==> !f(#[trigger] s[i]),
    decreases s.len(),
{
    if s.len() > 0 {
        let t = s.drop_last();
        lemma_last_where(t, f);
        if f(s.last()) {
            assert(s[s.len() - 1] == s.last());
        } else {
            if last_where(t, f) is Some {
                let k = choose|k: int| 0 <= k < t.len() && t[k] == last_where(t, f)->Some_0;
                assert(s[k] == t[k]);
            } else {
                assert forall|i: int| 0 <= i < s.len() implies !f(#[trigger] s[i]) by {
                    if i < t.len() {
                        assert(t[i] == s[i]);
                    }
                }
            }
        }
    }
}

/// What is found is a legal move that the UCI move means, and it is found
/// exactly when there is one; so finding and checking agree.
pub proof fn law_found_move_is_legal(p: Position, m: Move, chess960: bool)
    ensures
        legal_move_for(p, m, chess960) is Some ==> legal_moves(p).contains(legal_move_for(p, m, chess960)->Some_0)
            && uci_matches(p, legal_move_for(p, m, chess960)->Some_0, m),
        legal_move_for(p, m, chess960) is Some <==> exists|i: int|
            0 <= i < legal_moves(p).len() && #[trigger] uci_matches(p, legal_moves(p)[i], m),
{
    let s = legal_moves(p);
    lemma_last_where(s, by_rook(p, m));
    lemma_last_where(s, by_king(m));
    lemma_last_where(s, by_target(m));
    if legal_move_for(p, m, chess960) is Some {
        let x = legal_move_for(p, m, chess960)->Some_0;
        let k = choose|k: int| 0 <= k < s.len() && s[k] == x;
        assert(uci_matches(p, s[k], m));
    }
    if exists|i: int| 0 <= i < s.len() && #[trigger] uci_matches(p, s[i], m) {
        let i = choose|i: int| 0 <= i < s.len() && #[trigger] uci_matches(p, s[i], m);
        assert(by_rook(p, m)(s[i]) || by_king(m)(s[i]) || by_target(m)(s[i]));
    }
}

/// A position stands up exactly if each side has one king and the side that has
/// just moved is not in check.
pub proof fn law_what_makes_a_position_valid(p: Position)
    ensures
        position_fault(p) is None <==> p.set_of(Color::White, PieceKind::King).size() == 1 && p.set_of(
            Color::Black,
            PieceKind::King,
        ).size() == 1 && !(p.side == Color::White && in_check(p, Color::Black)) && !(p.side == Color::Black && in_check(
            p,
            Color::White,
        )),
        position_fault(p) matches Some(PositionError::SideNotToMoveInCheck(c)) ==> c != p.side && in_check(p, c),
        position_fault(p) matches Some(PositionError::KingCount { color, count }) ==> count != 1 && count == p.set_of(
            color,
            PieceKind::King,
        ).size(),
{
    lemma_squares_members(p.set_of(Color::White, PieceKind::King).0);
    lemma_squares_members(p.set_of(Color::Black, PieceKind::King).0);
}

} // verus!
