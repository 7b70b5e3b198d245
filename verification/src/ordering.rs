//! The order in which a search tries moves.
//!
//! Moves are generated lazily in stages: the hash move, captures that do not
//! lose material, quiet moves, and captures that do. Legality is left to the
//! search, which makes the move and looks.

use vstd::prelude::*;
use crate::arith::{div_i32, quot};
use crate::board::{Board, Position};
use crate::history::{contexts_ok, lemma_quiet_worth_range, PersistentHistory, PlyContext, Tables};
use crate::movegen::{generate_pseudo_legal_captures, generate_pseudo_legal_quiets, quiet_moves, tactical_moves};
use crate::moves::{Move, MoveFlag};
use crate::see::{see_ge, static_exchange};
use crate::types::{Color, Piece, PieceKind};

verus! {

/// A move and its place in the order.
#[derive(Clone, Copy, PartialEq, Eq, Debug, Structural)]
pub struct Scored {
    pub m: Move,
    pub score: i32,
}

/// The index of the first best score, given the best so far and the index from
/// which on the rest is looked at.
pub open spec fn best_from(s: Seq<Scored>, best: int, i: int) -> int
    decreases s.len() - i,
{
    if i >= s.len() {
        best
    } else if s[i].score > s[best].score {
        best_from(s, i, i + 1)
    } else {
        best_from(s, best, i + 1)
    }
}

/// The list with the first best move from `start` on swapped to `start`.
pub open spec fn picked(s: Seq<Scored>, start: int) -> Seq<Scored> {
    let b = best_from(s, start, start + 1);
    Seq::new(
        s.len(),
        |j: int|
            if j == start {
                s[b]
            } else if j == b {
                s[start]
            } else {
                s[j]
            },
    )
}

/// The index found is one of those looked at, and none of them has a better
/// score.
pub proof fn lemma_best_from(s: Seq<Scored>, best: int, i: int)
    requires
        0 <= best < i <= s.len(),
    ensures
        best_from(s, best, i) == best || i <= best_from(s, best, i) < s.len(),
        s[best_from(s, best, i)].score >= s[best].score,
        forall|j: int| i <= j < s.len() ==> s[best_from(s, best, i)].score >= (#[trigger] s[j]).score,
    decreases s.len() - i,
{
    if i < s.len() {
        if s[i].score > s[best].score {
            lemma_best_from(s, i, i + 1);
        } else {
            lemma_best_from(s, best, i + 1);
        }
    }
}

/// Picking puts a best move of the rest first, and only reorders.
pub proof fn law_pick_is_best(s: Seq<Scored>, start: int)
    requires
        0 <= start < s.len(),
    ensures
        forall|j: int| start <= j < s.len() ==> picked(s, start)[start].score >= (#[trigger] s[j]).score,
        picked(s, start).len() == s.len(),
        picked(s, start).to_multiset() == s.to_multiset(),
        forall|j: int| 0 <= j < start ==> picked(s, start)[j] == #[trigger] s[j],
{
    lemma_best_from(s, start, start + 1);
    let b = best_from(s, start, start + 1);
    assert forall|j: int| start <= j < s.len() implies picked(s, start)[start].score >= (#[trigger] s[j]).score by {
        assert(s[b].score >= s[j].score);
    }
    let t = s.update(start, s[b]);
    vstd::seq_lib::to_multiset_update(s, start, s[b]);
    vstd::seq_lib::to_multiset_update(t, b, s[start]);
    if b == start {
        assert(picked(s, start) =~= s);
    } else {
        let x = s[start];
        let y = s[b];
        assert(picked(s, start) =~= t.update(b, x));
        assert(picked(s, start).to_multiset() =~= s.to_multiset().insert(y).remove(x).insert(x).remove(y));
        s.to_multiset_ensures();
        assert(s.contains(x));
        assert(s.to_multiset().insert(y).remove(x).insert(x).remove(y) =~= s.to_multiset());
    }
}

/// Pick the highest-scored move from `start` on and swap it to `start`.
pub fn pick_next_move(list: &mut Vec<Scored>, start: usize)
    requires
        start < old(list)@.len(),
    ensures
        final(list)@ == picked(old(list)@, start as int),
        final(list)@.len() == old(list)@.len(),
{
    let ghost s = list@;
    let mut best: usize = start;
    let len: usize = list.len();
    let mut i: usize = start + 1;
    while i < len
        invariant
            list@ == s,
            len == s.len(),
            start <= best < i <= s.len(),
            best_from(s, best as int, i as int) == best_from(s, start as int, start + 1),
        decreases s.len() - i,
    {
        if list[i].score > list[best].score {
            best = i;
        }
        i = i + 1;
    }
    if best != start {
        let a = list[start];
        let b = list[best];
        list.set(start, b);
        list.set(best, a);
    }
    proof {
        assert(list@ =~= picked(s, start as int));
    }
}

// Scores of moves.
/// The value of what a capture takes.
pub open spec fn victim_value(p: Position, m: Move) -> int {
    if m.kind() == MoveFlag::EnPassant {
        PieceKind::Pawn.worth() as int
    } else {
        match p.mailbox[m.dst()] {
            Some(piece) => piece.kind.worth() as int,
            None => 0,
        }
    }
}

/// The value of the moving piece.
pub open spec fn attacker_value(p: Position, m: Move) -> int {
    match p.mailbox[m.src()] {
        Some(piece) => piece.kind.worth() as int,
        None => 0,
    }
}

/// Most valuable victim, then least valuable attacker.
pub open spec fn exchange_order(p: Position, m: Move) -> int {
    victim_value(p, m) * 10 - attacker_value(p, m)
}

/// The same with promotions preferred.
pub open spec fn tactical_order(p: Position, m: Move) -> int {
    exchange_order(p, m) + if m.kind().promotes() { 800int } else { 0 }
}

/// Value of a capture for the order in the quiescence search.
pub fn capture_value(board: &Board, m: Move) -> (r: i32)
    ensures
        r == exchange_order(board@, m),
        -900 <= r <= 9_000,
{
    let victim: i32 = if m.flag() == MoveFlag::EnPassant {
        PieceKind::Pawn.value()
    } else {
        match board.piece_at(m.to_sq()) {
            Some(p) => p.kind.value(),
            None => 0,
        }
    };
    let attacker: i32 = match board.piece_at(m.from_sq()) {
        Some(p) => p.kind.value(),
        None => 0,
    };
    victim * 10 - attacker
}

/// MVV-LVA score for capture ordering (higher = better).
pub fn mvv_lva_score(board: &Board, m: Move) -> (r: i32)
    ensures
        r == tactical_order(board@, m),
        -900 <= r <= 9_800,
{
    let promo: i32 = if m.flag().is_promotion() { 800 } else { 0 };
    capture_value(board, m) + promo
}

// Which moves can be made.
/// A hash move passes: a piece of the side to move on its origin, a target that
/// agrees with its flag, and a piece that can have the flag.
pub open spec fn hash_move_passes(p: Position, m: Move) -> bool {
    let flag = m.kind();
    let white = p.side == Color::White;
    let rank = m.src() / 8;
    &&& m.0 != 0
    &&& match p.mailbox[m.src()] {
        None => false,
        Some(piece) => {
            &&& piece.color == p.side
            &&& flag.castles() ==> piece.kind == PieceKind::King && m.src() == (if white { 4int } else { 60 })
            &&& !flag.castles() && flag.captures() && flag != MoveFlag::EnPassant ==> p.mailbox[m.dst()] is Some
                && p.mailbox[m.dst()]->Some_0.color != p.side
            &&& !flag.castles() && (!flag.captures() || flag == MoveFlag::EnPassant) ==> p.mailbox[m.dst()] is None
            &&& flag.promotes() ==> piece.kind == PieceKind::Pawn && rank == (if white { 6int } else { 1 })
            &&& flag == MoveFlag::EnPassant ==> piece.kind == PieceKind::Pawn && p.ep is Some && p.ep->Some_0.0 == m.dst()
            &&& flag == MoveFlag::DoublePawnPush ==> piece.kind == PieceKind::Pawn && rank == (if white { 1int } else { 6 })
        },
    }
}

/// Validate a hash move. Hash collisions can produce arbitrary move values, so
/// piece presence, color, self-capture and the sanity of the flag are checked.
pub fn is_move_safe(board: &Board, m: Move) -> (r: bool)
    ensures
        r == hash_move_passes(board@, m),
{
    if m.is_null() {
        return false;
    }
    let from = m.from_sq();
    let to = m.to_sq();
    let flag = m.flag();
    let us = board.side_to_move;
    let white = us == Color::White;
    let piece = match board.piece_at(from) {
        Some(p) => p,
        None => {
            return false;
        },
    };
    if piece.color != us {
        return false;
    }
    if flag == MoveFlag::KingsideCastle || flag == MoveFlag::QueensideCastle {
        let expected: u8 = if white { 4 } else { 60 };
        return piece.kind == PieceKind::King && from.0 == expected;
    }
    match board.piece_at(to) {
        Some(target) => {
            // Only a capture of an enemy piece may land on a piece.
            if target.color == us || !flag.is_capture() || flag == MoveFlag::EnPassant {
                return false;
            }
        },
        None => {
            if flag.is_capture() && flag != MoveFlag::EnPassant {
                return false;
            }
        },
    }
    if flag.is_promotion() {
        let promo_rank: u8 = if white { 6 } else { 1 };
        return piece.kind == PieceKind::Pawn && from.rank() == promo_rank;
    }
    if flag == MoveFlag::EnPassant {
        return piece.kind == PieceKind::Pawn && match board.en_passant {
            Some(ep) => ep.0 == to.0,
            None => false,
        };
    }
    if flag == MoveFlag::DoublePawnPush {
        let start_rank: u8 = if white { 1 } else { 6 };
        return piece.kind == PieceKind::Pawn && from.rank() == start_rank;
    }
    true
}

/// Whether a move can be played with the pieces where they are, so that making
/// and unmaking it leaves the board as it was.
pub fn move_fits(board: &Board, m: Move) -> (r: bool)
    requires
        board.ok(),
    ensures
        r == board@.fits(m),
{
    let us = board.side_to_move;
    let from = m.from_sq();
    let to = m.to_sq();
    let flag = m.flag();
    let mover = match board.piece_at(from) {
        Some(p) => p,
        None => {
            return false;
        },
    };
    if mover.color != us {
        return false;
    }
    if flag == MoveFlag::KingsideCastle || flag == MoveFlag::QueensideCastle {
        let kingside = flag == MoveFlag::KingsideCastle;
        let rook_from = board.castle_rook(us, kingside);
        let rook_to = Board::rook_castle_to(us, kingside);
        let king_to = Board::king_castle_to(us, kingside);
        let rook_there = board.piece_at(rook_from) == Some(Piece { kind: PieceKind::Rook, color: us });
        let king_room = board.piece_at(to).is_none() || to.0 == from.0 || to.0 == rook_from.0;
        let rook_room = board.piece_at(rook_to).is_none() || rook_to.0 == from.0 || rook_to.0 == rook_from.0;
        return mover.kind == PieceKind::King && to.0 == king_to.0 && rook_there && king_room && rook_room;
    }
    if flag == MoveFlag::EnPassant {
        if mover.kind != PieceKind::Pawn || board.piece_at(to).is_some() {
            return false;
        }
        return match Board::ep_victim_square(us, to) {
            Some(sq) => board.piece_at(sq) == Some(Piece { kind: PieceKind::Pawn, color: us.opposite() }),
            None => false,
        };
    }
    if flag.is_promotion() && mover.kind != PieceKind::Pawn {
        return false;
    }
    match board.piece_at(to) {
        Some(target) => flag.is_capture() && target.color != us,
        None => !flag.is_capture(),
    }
}

// The staged picker.
#[derive(Clone, Copy, PartialEq, Eq, Debug, Structural)]
pub enum MpStage {
    TtMove,
    InitCaptures,
    GoodCaptures,
    InitQuiets,
    Quiets,
    BadCaptures,
    Done,
}

/// The content of a [`MovePicker`].
pub struct Picker {
    pub stage: MpStage,
    pub tt_move: Move,
    pub list: Seq<Scored>,
    pub idx: int,
    pub bad: Seq<Move>,
    pub bad_idx: int,
}

/// What orders the moves of a position.
pub struct Hints {
    pub tables: Tables,
    pub ctxs: Seq<PlyContext>,
    pub ply: int,
    pub killers: (Move, Move),
    pub counter: Move,
}

/// The captures with their scores, without the hash move.
pub open spec fn scored_captures(p: Position, h: Hints, tt_move: Move, s: Seq<Move>) -> Seq<Scored>
    decreases s.len(),
{
    if s.len() == 0 {
        Seq::empty()
    } else {
        let rest = scored_captures(p, h, tt_move, s.drop_last());
        let m = s.last();
        if m == tt_move {
            rest
        } else {
            rest.push(
                Scored { m, score: (tactical_order(p, m) * 16 + quot(h.tables.capture_worth(p, m), 64)) as i32 },
            )
        }
    }
}

/// The score of a quiet move: killers and the noted reply first, then by
/// history.
pub open spec fn quiet_order(p: Position, h: Hints, m: Move) -> int {
    if m == h.killers.0 {
        900_000
    } else if m == h.killers.1 {
        800_000
    } else if m == h.counter && h.counter.0 != 0 {
        700_000
    } else {
        h.tables.quiet_worth(p, m, h.ctxs, h.ply)
    }
}

/// The quiet moves with their scores, without the hash move.
pub open spec fn scored_quiets(p: Position, h: Hints, tt_move: Move, s: Seq<Move>) -> Seq<Scored>
    decreases s.len(),
{
    if s.len() == 0 {
        Seq::empty()
    } else {
        let rest = scored_quiets(p, h, tt_move, s.drop_last());
        let m = s.last();
        if m == tt_move {
            rest
        } else {
            rest.push(Scored { m, score: quiet_order(p, h, m) as i32 })
        }
    }
}

impl Picker {
    pub open spec fn fresh(tt_move: Move) -> Picker {
        Picker {
            stage: if tt_move.0 != 0 { MpStage::TtMove } else { MpStage::InitCaptures },
            tt_move,
            list: Seq::empty(),
            idx: 0,
            bad: Seq::empty(),
            bad_idx: 0,
        }
    }

    pub open spec fn ok(self) -> bool {
        0 <= self.idx <= self.list.len() && 0 <= self.bad_idx <= self.bad.len()
    }

    /// The next move and the picker after it.
    pub open spec fn next(self, p: Position, h: Hints) -> (Picker, Option<Move>) {
        match self.stage {
            MpStage::TtMove => {
                let q = Picker { stage: MpStage::InitCaptures, ..self };
                if hash_move_passes(p, self.tt_move) { (q, Some(self.tt_move)) } else { q.from_captures(p, h) }
            },
            MpStage::InitCaptures => self.from_captures(p, h),
            MpStage::GoodCaptures => self.from_good(p, h),
            MpStage::InitQuiets => self.from_quiets(p, h),
            MpStage::Quiets => self.from_listed(p, h),
            MpStage::BadCaptures => self.from_bad(),
            MpStage::Done => (self, None),
        }
    }

    /// Captures are generated.
    pub open spec fn from_captures(self, p: Position, h: Hints) -> (Picker, Option<Move>) {
        Picker {
            list: scored_captures(p, h, self.tt_move, tactical_moves(p)),
            idx: 0,
            stage: MpStage::GoodCaptures,
            ..self
        }.from_good(p, h)
    }

    /// The best capture that does not lose material; those that do are put
    /// aside, up to 64 of them.
    pub open spec fn from_good(self, p: Position, h: Hints) -> (Picker, Option<Move>)
        decreases self.list.len() - self.idx,
    {
        if 0 <= self.idx < self.list.len() {
            let list = picked(self.list, self.idx);
            let m = list[self.idx].m;
            let q = Picker { list, idx: self.idx + 1, ..self };
            if static_exchange(p, m) >= 0 {
                (q, Some(m))
            } else if self.bad.len() < 64 {
                Picker { bad: self.bad.push(m), ..q }.from_good(p, h)
            } else {
                q.from_good(p, h)
            }
        } else {
            Picker { stage: MpStage::InitQuiets, ..self }.from_quiets(p, h)
        }
    }

    /// Quiet moves are generated.
    pub open spec fn from_quiets(self, p: Position, h: Hints) -> (Picker, Option<Move>) {
        Picker { list: scored_quiets(p, h, self.tt_move, quiet_moves(p)), idx: 0, stage: MpStage::Quiets, ..self }.from_listed(
            p,
            h,
        )
    }

    /// The best quiet move left.
    pub open spec fn from_listed(self, p: Position, h: Hints) -> (Picker, Option<Move>) {
        if self.idx < self.list.len() {
            let list = picked(self.list, self.idx);
            (Picker { list, idx: self.idx + 1, ..self }, Some(list[self.idx].m))
        } else {
            Picker { stage: MpStage::BadCaptures, bad_idx: 0, ..self }.from_bad()
        }
    }

    /// The captures that were put aside, in the order in which they were.
    pub open spec fn from_bad(self) -> (Picker, Option<Move>) {
        if self.bad_idx < self.bad.len() {
            (Picker { bad_idx: self.bad_idx + 1, ..self }, Some(self.bad[self.bad_idx]))
        } else {
            (Picker { stage: MpStage::Done, ..self }, None)
        }
    }

    /// The number of stages to come.
    pub open spec fn rank(self) -> int {
        match self.stage {
            MpStage::TtMove => 6,
            MpStage::InitCaptures => 5,
            MpStage::GoodCaptures => 4,
            MpStage::InitQuiets => 3,
            MpStage::Quiets => 2,
            MpStage::BadCaptures => 1,
            MpStage::Done => 0,
        }
    }

    /// The moves left in this stage.
    pub open spec fn left(self) -> int {
        match self.stage {
            MpStage::GoodCaptures => self.list.len() - self.idx,
            MpStage::Quiets => self.list.len() - self.idx,
            MpStage::BadCaptures => self.bad.len() - self.bad_idx,
            _ => 0,
        }
    }
}

/// A picker gets closer to its end with every move, and stays sound.
pub proof fn lemma_picker_advances(pk: Picker, p: Position, h: Hints)
    requires
        pk.ok(),
    ensures
        pk.next(p, h).0.ok(),
        pk.next(p, h).1 is Some ==> ({
            let q = pk.next(p, h).0;
            ||| 0 <= q.rank() < pk.rank()
            ||| q.rank() == pk.rank() && 0 <= q.left() < pk.left()
        }),
{
    let q = if pk.stage == MpStage::TtMove { Picker { stage: MpStage::InitCaptures, ..pk } } else { pk };
    let r = Picker {
        list: scored_captures(p, h, q.tt_move, tactical_moves(p)),
        idx: 0,
        stage: MpStage::GoodCaptures,
        ..q
    };
    lemma_good_advances(r, p, h);
    if pk.stage == MpStage::GoodCaptures {
        lemma_good_advances(pk, p, h);
    }
    lemma_quiets_advance(pk, p, h);
}

proof fn lemma_quiets_advance(pk: Picker, p: Position, h: Hints)
    requires
        pk.ok(),
    ensures
        pk.from_quiets(p, h).0.ok(),
        pk.from_quiets(p, h).1 is Some ==> 1 <= pk.from_quiets(p, h).0.rank() <= 2,
        pk.from_quiets(p, h).1 is None ==> pk.from_quiets(p, h).0.rank() == 0,
{
}

proof fn lemma_good_advances(pk: Picker, p: Position, h: Hints)
    requires
        pk.ok(),
        pk.stage == MpStage::GoodCaptures,
    ensures
        pk.from_good(p, h).0.ok(),
        pk.from_good(p, h).1 is Some ==> ({
            let q = pk.from_good(p, h).0;
            ||| 1 <= q.rank() <= 2
            ||| q.rank() == 4 && 0 <= q.left() < pk.left()
        }),
    decreases pk.list.len() - pk.idx,
{
    if pk.idx < pk.list.len() {
        let list = picked(pk.list, pk.idx);
        let m = list[pk.idx].m;
        let q = Picker { list, idx: pk.idx + 1, ..pk };
        if static_exchange(p, m) >= 0 {
        } else if pk.bad.len() < 64 {
            lemma_good_advances(Picker { bad: pk.bad.push(m), ..q }, p, h);
        } else {
            lemma_good_advances(q, p, h);
        }
    } else {
        lemma_quiets_advance(Picker { stage: MpStage::InitQuiets, ..pk }, p, h);
    }
}

/// Yields the pseudo-legal moves of a position in the order to try them.
pub struct MovePicker {
    stage: MpStage,
    tt_move: Move,
    list: Vec<Scored>,
    idx: usize,
    bad_captures: Vec<Move>,
    bad_idx: usize,
}

impl View for MovePicker {
    type V = Picker;

    closed spec fn view(&self) -> Picker {
        Picker {
            stage: self.stage,
            tt_move: self.tt_move,
            list: self.list@,
            idx: self.idx as int,
            bad: self.bad_captures@,
            bad_idx: self.bad_idx as int,
        }
    }
}

impl MovePicker {
    pub fn new(tt_move: Move) -> (r: Self)
        ensures
            r@ == Picker::fresh(tt_move),
            r@.ok(),
    {
        let r = MovePicker {
            stage: if !tt_move.is_null() { MpStage::TtMove } else { MpStage::InitCaptures },
            tt_move,
            list: Vec::new(),
            idx: 0,
            bad_captures: Vec::new(),
            bad_idx: 0,
        };
        proof {
            assert(r@.list =~= Seq::<Scored>::empty());
            assert(r@.bad =~= Seq::<Move>::empty());
        }
        r
    }

    /// The next pseudo-legal move in order of priority. The caller checks its
    /// legality once it is made.
    pub fn next(
        &mut self,
        board: &Board,
        tables: &PersistentHistory,
        ctxs: &Vec<PlyContext>,
        ply: u8,
        killers: (Move, Move),
        counter_move: Move,
    ) -> (r: Option<Move>)
        requires
            old(self)@.ok(),
            board.ok(),
            board@.consistent(),
            tables@.ok(),
            contexts_ok(ctxs@),
        ensures
            (final(self)@, r) == old(self)@.next(
                board@,
                Hints { tables: tables@, ctxs: ctxs@, ply: ply as int, killers, counter: counter_move },
            ),
            final(self)@.ok(),
    {
        let ghost h = Hints { tables: tables@, ctxs: ctxs@, ply: ply as int, killers, counter: counter_move };
        proof {
            lemma_picker_advances(self@, board@, h);
        }
        if self.stage == MpStage::TtMove {
            self.stage = MpStage::InitCaptures;
            if is_move_safe(board, self.tt_move) {
                return Some(self.tt_move);
            }
        }
        if self.stage == MpStage::InitCaptures {
            self.init_captures(board, tables, Ghost(h));
        }
        if self.stage == MpStage::GoodCaptures {
            if let Some(m) = self.next_good(board, Ghost(h)) {
                return Some(m);
            }
        }
        if self.stage == MpStage::InitQuiets {
            self.init_quiets(board, tables, ctxs, ply, killers, counter_move);
        }
        if self.stage == MpStage::Quiets {
            if self.idx < self.list.len() {
                pick_next_move(&mut self.list, self.idx);
                let m = self.list[self.idx].m;
                self.idx = self.idx + 1;
                return Some(m);
            }
            self.stage = MpStage::BadCaptures;
            self.bad_idx = 0;
        }
        if self.stage == MpStage::BadCaptures {
            if self.bad_idx < self.bad_captures.len() {
                let m = self.bad_captures[self.bad_idx];
                self.bad_idx = self.bad_idx + 1;
                return Some(m);
            }
            self.stage = MpStage::Done;
        }
        None
    }

    fn init_captures(&mut self, board: &Board, tables: &PersistentHistory, Ghost(h): Ghost<Hints>)
        requires
            board.ok(),
            tables@.ok(),
            h.tables == tables@,
        ensures
            final(self)@ == (Picker {
                list: scored_captures(board@, h, old(self)@.tt_move, tactical_moves(board@)),
                idx: 0,
                stage: MpStage::GoodCaptures,
                ..old(self)@
            }),
    {
        let captures = generate_pseudo_legal_captures(board);
        let mut list: Vec<Scored> = Vec::new();
        let mut i: usize = 0;
        let tt_move = self.tt_move;
        proof {
            assert(list@ =~= scored_captures(board@, h, tt_move, captures@.take(0)));
        }
        while i < captures.len()
            invariant
                i <= captures@.len(),
                tables@.ok(),
                h.tables == tables@,
                list@ == scored_captures(board@, h, tt_move, captures@.take(i as int)),
            decreases captures@.len() - i,
        {
            let m = captures.get(i);
            proof {
                assert(captures@.take(i + 1).drop_last() =~= captures@.take(i as int));
                assert(captures@.take(i + 1).last() == m);
            }
            if m != tt_move {
                let score: i32 = mvv_lva_score(board, m) * 16 + div_i32(tables.get_capture_history(m, board), 64);
                list.push(Scored { m, score });
            }
            i = i + 1;
        }
        proof {
            assert(captures@.take(i as int) =~= captures@);
        }
        self.list = list;
        self.idx = 0;
        self.stage = MpStage::GoodCaptures;
    }

    fn next_good(&mut self, board: &Board, Ghost(h): Ghost<Hints>) -> (r: Option<Move>)
        requires
            old(self)@.ok(),
            old(self)@.stage == MpStage::GoodCaptures,
            board@.consistent(),
        ensures
            r is Some ==> (final(self)@, r) == old(self)@.from_good(board@, h),
            r is None ==> final(self)@.stage == MpStage::InitQuiets && final(self)@.from_quiets(board@, h) == old(
                self,
            )@.from_good(board@, h),
            final(self)@.ok(),
    {
        let ghost start = self@;
        while self.idx < self.list.len()
            invariant
                start == old(self)@,
                self@.ok(),
                self@.stage == MpStage::GoodCaptures,
                board@.consistent(),
                self@.from_good(board@, h) == start.from_good(board@, h),
            decreases self@.list.len() - self@.idx,
        {
            pick_next_move(&mut self.list, self.idx);
            let m = self.list[self.idx].m;
            self.idx = self.idx + 1;
            if see_ge(board, m, 0) {
                return Some(m);
            } else if self.bad_captures.len() < 64 {
                self.bad_captures.push(m);
            }
        }
        self.stage = MpStage::InitQuiets;
        None
    }

    fn init_quiets(
        &mut self,
        board: &Board,
        tables: &PersistentHistory,
        ctxs: &Vec<PlyContext>,
        ply: u8,
        killers: (Move, Move),
        counter_move: Move,
    )
        requires
            board.ok(),
            tables@.ok(),
            contexts_ok(ctxs@),
        ensures
            final(self)@ == (Picker {
                list: scored_quiets(
                    board@,
                    Hints { tables: tables@, ctxs: ctxs@, ply: ply as int, killers, counter: counter_move },
                    old(self)@.tt_move,
                    quiet_moves(board@),
                ),
                idx: 0,
                stage: MpStage::Quiets,
                ..old(self)@
            }),
    {
        let ghost h = Hints { tables: tables@, ctxs: ctxs@, ply: ply as int, killers, counter: counter_move };
        let quiets = generate_pseudo_legal_quiets(board);
        let mut list: Vec<Scored> = Vec::new();
        let mut i: usize = 0;
        let tt_move = self.tt_move;
        proof {
            assert(list@ =~= scored_quiets(board@, h, tt_move, quiets@.take(0)));
        }
        while i < quiets.len()
            invariant
                i <= quiets@.len(),
                tables@.ok(),
                contexts_ok(ctxs@),
                h == (Hints { tables: tables@, ctxs: ctxs@, ply: ply as int, killers, counter: counter_move }),
                list@ == scored_quiets(board@, h, tt_move, quiets@.take(i as int)),
            decreases quiets@.len() - i,
        {
            let m = quiets.get(i);
            proof {
                assert(quiets@.take(i + 1).drop_last() =~= quiets@.take(i as int));
                assert(quiets@.take(i + 1).last() == m);
            }
            if m != tt_move {
                let score: i32 = if m == killers.0 {
                    900_000
                } else if m == killers.1 {
                    800_000
                } else if m == counter_move && !counter_move.is_null() {
                    700_000
                } else {
                    tables.quiet_worth(m, board, ctxs, ply)
                };
                list.push(Scored { m, score });
            }
            i = i + 1;
        }
        proof {
            assert(quiets@.take(i as int) =~= quiets@);
        }
        self.list = list;
        self.idx = 0;
        self.stage = MpStage::Quiets;
    }
}

/// Of two captures by the same kind of piece the one of the more valuable victim
/// comes first, and of two captures of the same kind of piece the one by the less
/// valuable piece.
pub proof fn law_best_captures_come_first(p: Position, m: Move, n: Move)
    requires
        p.mailbox[m.src()] is Some,
        p.mailbox[n.src()] is Some,
        p.mailbox[m.dst()] is Some,
        p.mailbox[n.dst()] is Some,
        m.kind() == MoveFlag::Capture,
        n.kind() == MoveFlag::Capture,
    ensures
        ({
            let (a, b) = (p.mailbox[m.src()]->Some_0.kind, p.mailbox[n.src()]->Some_0.kind);
            let (x, y) = (p.mailbox[m.dst()]->Some_0.kind, p.mailbox[n.dst()]->Some_0.kind);
            &&& a == b && x.worth() > y.worth() ==> exchange_order(p, m) > exchange_order(p, n)
            &&& x == y && a.worth() < b.worth() ==> exchange_order(p, m) > exchange_order(p, n)
            &&& a == PieceKind::Pawn && b == PieceKind::Queen && x == PieceKind::Queen && y == PieceKind::Pawn
                ==> tactical_order(p, m) > tactical_order(p, n)
        }),
{
}

/// What the pieces are worth: a queen more than a rook, a rook more than a minor
/// piece, a bishop a little more than a knight, and each more than a pawn; the
/// king has no price.
pub proof fn law_piece_values()
    ensures
        PieceKind::Queen.worth() > PieceKind::Rook.worth() > PieceKind::Bishop.worth() > PieceKind::Knight.worth()
            > PieceKind::Pawn.worth() > PieceKind::King.worth(),
        PieceKind::King.worth() == 0,
        PieceKind::Pawn.worth() == 100,
        PieceKind::Knight.worth() == 320,
        PieceKind::Bishop.worth() == 330,
        PieceKind::Rook.worth() == 500,
        PieceKind::Queen.worth() == 900,
{
}

/// Killers come before the noted reply, and both before all other quiet moves,
/// which come by what was learned of them.
pub proof fn law_killers_come_first(p: Position, h: Hints, m: Move, n: Move)
    requires
        h.tables.ok(),
        contexts_ok(h.ctxs),
        0 <= h.ply <= 128,
        n != h.killers.0,
        n != h.killers.1,
        n != h.counter,
    ensures
        m == h.killers.0 || m == h.killers.1 || m == h.counter && m.0 != 0 ==> quiet_order(p, h, m) > quiet_order(p, h, n),
        m == h.killers.0 && h.killers.1 != m ==> quiet_order(p, h, m) > quiet_order(p, h, h.killers.1),
        m == h.killers.1 && h.counter != m && h.counter != h.killers.0 && h.counter.0 != 0 ==> quiet_order(p, h, m)
            > quiet_order(p, h, h.counter) || m == h.killers.0,
        quiet_order(p, h, n) == h.tables.quiet_worth(p, n, h.ctxs, h.ply),
{
    lemma_quiet_worth_range(h.tables, p, n, h.ctxs, h.ply);
}

} // verus!
