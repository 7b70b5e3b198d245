//! What a search learns: move ordering histories and corrections of the
//! static evaluation.

use vstd::prelude::*;
use crate::arith::{clamp, clamp_i32, div_i32, div_i64, quot};
use crate::board::{Board, Position};
use crate::eval::{corr_keys, keys_of};
use crate::moves::Move;
use crate::tt::lemma_masked;
use crate::types::{magnitude, Color, PieceKind};

verus! {

/// Plies that a search can reach.
pub const MAX_PLY: usize = 128;

/// The limit of a history score.
pub const HISTORY_LIMIT: i32 = 16384;

/// Slots of a correction table, per side.
pub const CORRHIST_SIZE: usize = 16384;

/// Scale of the corrections' fixed-point numbers.
pub const CORRHIST_GRAIN: i32 = 256;

/// The limit of one correction: 32 centipawns.
pub const CORRHIST_LIMIT: i32 = 8192;

/// The limit of the summed correction, in centipawns.
pub const CORR_TOTAL_CAP: i32 = 64;

/// The move that led to a ply: kind of the moved piece, and target.
#[derive(Clone, Copy, PartialEq, Eq, Debug, Structural)]
pub struct PlyContext {
    pub piece_kind: usize,
    pub to_sq: usize,
}

impl PlyContext {
    pub open spec fn ok(self) -> bool {
        self.piece_kind < 6 && self.to_sq < 64
    }
}

/// Learning tables that persist over the moves of a game. They are lent to
/// each search, so that histories and corrections accumulate over the game.
pub struct PersistentHistory {
    /// By origin and target.
    history: Vec<i32>,
    /// By moving piece, target and captured piece.
    capture_history: Vec<i32>,
    /// Replies, by origin and target of the move replied to.
    counter_moves: Vec<Move>,
    /// By piece and target of an earlier move, and piece and target.
    cont_history: Vec<i32>,
    pawn_corrhist: Vec<i32>,
    white_corrhist: Vec<i32>,
    black_corrhist: Vec<i32>,
    minor_corrhist: Vec<i32>,
    major_corrhist: Vec<i32>,
    /// By side, and piece and target of the last move.
    cont_corrhist: Vec<i32>,
}

/// The content of the learning tables.
pub struct Tables {
    pub history: Seq<i32>,
    pub captures: Seq<i32>,
    pub counters: Seq<Move>,
    pub cont: Seq<i32>,
    pub pawn: Seq<i32>,
    pub white: Seq<i32>,
    pub black: Seq<i32>,
    pub minor: Seq<i32>,
    pub major: Seq<i32>,
    pub cont_corr: Seq<i32>,
}

impl View for PersistentHistory {
    type V = Tables;

    closed spec fn view(&self) -> Tables {
        Tables {
            history: self.history@,
            captures: self.capture_history@,
            counters: self.counter_moves@,
            cont: self.cont_history@,
            pawn: self.pawn_corrhist@,
            white: self.white_corrhist@,
            black: self.black_corrhist@,
            minor: self.minor_corrhist@,
            major: self.major_corrhist@,
            cont_corr: self.cont_corrhist@,
        }
    }
}

/// All entries lie within a limit.
pub open spec fn within(s: Seq<i32>, limit: int) -> bool {
    forall|i: int| 0 <= i < s.len() ==> -limit <= #[trigger] s[i] <= limit
}

/// A history score after a bonus or a malus: it moves the less the closer it
/// is to the limit.
pub open spec fn gravity(entry: int, bonus: int) -> int {
    clamp(entry + (bonus - quot(entry * magnitude(bonus), 16384)), -16384, 16384)
}

/// A correction after seeing a residual.
pub open spec fn blended(entry: int, scaled: int, weight: int) -> int {
    clamp(quot(entry * (256 - weight) + scaled * weight, 256), -8192, 8192)
}

/// Index by origin and target.
pub open spec fn pair_slot(m: Move) -> int {
    m.src() * 64 + m.dst()
}

/// Index by an earlier move, and piece and target.
pub open spec fn cont_slot(ctx: PlyContext, kind: int, to: int) -> int {
    ((ctx.piece_kind * 64 + ctx.to_sq) * 6 + kind) * 64 + to
}

/// Index by moving piece, target and captured piece.
pub open spec fn capture_slot(kind: int, to: int, captured: int) -> int {
    (kind * 64 + to) * 6 + captured
}

/// Index by side and key.
pub open spec fn corr_slot(side: Color, key: u64) -> int {
    side.idx() * 16384 + (key & 16383)
}

/// Index by side and last move.
pub open spec fn cont_corr_slot(side: Color, ctx: PlyContext) -> int {
    (side.idx() * 6 + ctx.piece_kind) * 64 + ctx.to_sq
}

/// The ply whose move is `back` plies before `ply`, if it is recorded.
pub open spec fn recorded(ply: int, back: int) -> bool {
    back <= ply && ply - back < 128
}

/// The slot of a capture, if there are a piece to move and one to capture.
pub open spec fn slot_of_capture(p: Position, m: Move) -> Option<int> {
    match (p.mailbox[m.src()], p.mailbox[m.dst()]) {
        (Some(piece), Some(captured)) => Some(capture_slot(piece.kind.idx(), m.dst(), captured.kind.idx())),
        _ => None,
    }
}

/// A table with one score moved by a bonus.
pub open spec fn bumped(s: Seq<i32>, i: int, bonus: int) -> Seq<i32> {
    s.update(i, gravity(s[i] as int, bonus) as i32)
}

/// A table with one correction blended.
pub open spec fn corrected(s: Seq<i32>, i: int, scaled: int, weight: int) -> Seq<i32> {
    s.update(i, blended(s[i] as int, scaled, weight) as i32)
}

/// The moves that led to the plies of the current line.
pub open spec fn contexts_ok(ctxs: Seq<PlyContext>) -> bool {
    ctxs.len() == 128 && forall|i: int| 0 <= i < 128 ==> (#[trigger] ctxs[i]).ok()
}

impl Tables {
    pub open spec fn ok(self) -> bool {
        &&& self.history.len() == 4096 && within(self.history, 16384)
        &&& self.captures.len() == 2304 && within(self.captures, 16384)
        &&& self.counters.len() == 4096
        &&& self.cont.len() == 147456 && within(self.cont, 16384)
        &&& self.pawn.len() == 32768 && within(self.pawn, 8192)
        &&& self.white.len() == 32768 && within(self.white, 8192)
        &&& self.black.len() == 32768 && within(self.black, 8192)
        &&& self.minor.len() == 32768 && within(self.minor, 8192)
        &&& self.major.len() == 32768 && within(self.major, 8192)
        &&& self.cont_corr.len() == 768 && within(self.cont_corr, 8192)
    }

    /// The tables before anything is learned.
    pub open spec fn blank() -> Tables {
        Tables {
            history: Seq::new(4096, |i: int| 0i32),
            captures: Seq::new(2304, |i: int| 0i32),
            counters: Seq::new(4096, |i: int| Move(0)),
            cont: Seq::new(147456, |i: int| 0i32),
            pawn: Seq::new(32768, |i: int| 0i32),
            white: Seq::new(32768, |i: int| 0i32),
            black: Seq::new(32768, |i: int| 0i32),
            minor: Seq::new(32768, |i: int| 0i32),
            major: Seq::new(32768, |i: int| 0i32),
            cont_corr: Seq::new(768, |i: int| 0i32),
        }
    }

    /// The continuation history after a bonus with a look back.
    pub open spec fn cont_bumped(self, ctxs: Seq<PlyContext>, ply: int, back: int, kind: int, to: int, bonus: int) -> Tables {
        if recorded(ply, back) {
            Tables { cont: bumped(self.cont, cont_slot(ctxs[ply - back], kind, to), bonus), ..self }
        } else {
            self
        }
    }

    /// The tables after a bonus or malus for a quiet move: its history, and its
    /// continuation history after each of the last two moves.
    pub open spec fn quiet_bumped(self, p: Position, m: Move, bonus: int, ctxs: Seq<PlyContext>, ply: int) -> Tables {
        let t = Tables { history: bumped(self.history, pair_slot(m), bonus), ..self };
        match p.mailbox[m.src()] {
            None => t,
            Some(piece) => t.cont_bumped(ctxs, ply, 1, piece.kind.idx(), m.dst(), bonus).cont_bumped(
                ctxs,
                ply,
                2,
                piece.kind.idx(),
                m.dst(),
                bonus,
            ),
        }
    }

    /// The tables after a bonus or malus for a capture.
    pub open spec fn capture_bumped(self, p: Position, m: Move, bonus: int) -> Tables {
        match slot_of_capture(p, m) {
            Some(i) => Tables { captures: bumped(self.captures, i, bonus), ..self },
            None => self,
        }
    }

    /// The tables after a reply is noted.
    pub open spec fn counter_noted(self, prev: Move, counter: Move) -> Tables {
        if prev.0 == 0 { self } else { Tables { counters: self.counters.update(pair_slot(prev), counter), ..self } }
    }

    /// The reply noted to a move; the null move if there is none.
    pub open spec fn counter_to(self, prev: Move) -> Move {
        if prev.0 == 0 { Move(0) } else { self.counters[pair_slot(prev)] }
    }

    /// What the last two moves say of a move.
    pub open spec fn cont_bonus(self, p: Position, m: Move, ctxs: Seq<PlyContext>, ply: int) -> int {
        match p.mailbox[m.src()] {
            None => 0,
            Some(piece) => {
                let k = piece.kind.idx();
                (if recorded(ply, 1) { self.cont[cont_slot(ctxs[ply - 1], k, m.dst())] as int } else { 0 }) + if recorded(
                    ply,
                    2,
                ) { quot(self.cont[cont_slot(ctxs[ply - 2], k, m.dst())] as int, 2) } else { 0 }
            },
        }
    }

    /// What the history says of a quiet move.
    pub open spec fn quiet_worth(self, p: Position, m: Move, ctxs: Seq<PlyContext>, ply: int) -> int {
        self.history[pair_slot(m)] + quot(self.cont_bonus(p, m, ctxs, ply), 2)
    }

    /// What the history says of a capture.
    pub open spec fn capture_worth(self, p: Position, m: Move) -> int {
        match slot_of_capture(p, m) {
            Some(i) => self.captures[i] as int,
            None => 0,
        }
    }

    /// The sum of the corrections for a position.
    pub open spec fn correction_sum(self, p: Position, ctxs: Seq<PlyContext>, ply: int) -> int {
        let k = keys_of(p);
        self.pawn[corr_slot(p.side, k.pawn)] + self.white[corr_slot(p.side, k.white)] + self.black[corr_slot(
            p.side,
            k.black,
        )] + self.minor[corr_slot(p.side, k.minor)] + self.major[corr_slot(p.side, k.major)] + if recorded(ply, 1) {
            self.cont_corr[cont_corr_slot(p.side, ctxs[ply - 1])] as int
        } else {
            0
        }
    }

    /// The learned correction of the static evaluation, in centipawns for the
    /// side to move, scaled by a percentage.
    pub open spec fn correction(self, p: Position, ctxs: Seq<PlyContext>, ply: int, mult: int) -> int {
        quot(clamp(quot(self.correction_sum(p, ctxs, ply), 256), -64, 64) * mult, 100)
    }

    /// The tables after the residual of a search result is blended in. Deeper
    /// searches weigh more.
    pub open spec fn residual_seen(self, p: Position, depth: int, diff: int, ctxs: Seq<PlyContext>, ply: int) -> Tables {
        let k = keys_of(p);
        let scaled = clamp(diff * 256, -8192, 8192);
        let w = if depth + 1 < 16 { depth + 1 } else { 16 };
        Tables {
            pawn: corrected(self.pawn, corr_slot(p.side, k.pawn), scaled, w),
            white: corrected(self.white, corr_slot(p.side, k.white), scaled, w),
            black: corrected(self.black, corr_slot(p.side, k.black), scaled, w),
            minor: corrected(self.minor, corr_slot(p.side, k.minor), scaled, w),
            major: corrected(self.major, corr_slot(p.side, k.major), scaled, w),
            cont_corr: if recorded(ply, 1) {
                corrected(self.cont_corr, cont_corr_slot(p.side, ctxs[ply - 1]), scaled, w)
            } else {
                self.cont_corr
            },
            ..self
        }
    }
}

fn pair_index(m: Move) -> (r: usize)
    ensures
        r == pair_slot(m),
        r < 4096,
{
    m.from_sq().index() * 64 + m.to_sq().index()
}

fn cont_index(ctx: PlyContext, kind: PieceKind, to: usize) -> (r: usize)
    requires
        ctx.ok(),
        to < 64,
    ensures
        r == cont_slot(ctx, kind.idx(), to as int),
        r < 147456,
{
    ((ctx.piece_kind * 64 + ctx.to_sq) * 6 + kind.index()) * 64 + to
}

fn corr_index(side: Color, key: u64) -> (r: usize)
    ensures
        r == corr_slot(side, key),
        r < 32768,
{
    proof {
        crate::tt::lemma_masked(key, 16383);
    }
    side.index() * 16384 + (key & 16383) as usize
}

fn cont_corr_index(side: Color, ctx: PlyContext) -> (r: usize)
    requires
        ctx.ok(),
    ensures
        r == cont_corr_slot(side, ctx),
        r < 768,
{
    (side.index() * 6 + ctx.piece_kind) * 64 + ctx.to_sq
}

proof fn lemma_gravity(entry: int, b: int)
    requires
        -16384 <= entry <= 16384,
        0 <= b <= 65025,
    ensures
        -1_065_369_600 <= entry * b <= 1_065_369_600,
        magnitude(quot(entry * b, 16384)) <= 65025,
{
    assert(-1_065_369_600 <= entry * b <= 1_065_369_600) by (nonlinear_arith)
        requires
            -16384 <= entry <= 16384,
            0 <= b <= 65025,
    ;
}

/// Moves one score by a bonus.
fn bump(table: &mut Vec<i32>, i: usize, bonus: i32)
    requires
        i < old(table)@.len(),
        within(old(table)@, 16384),
        -65025 <= bonus <= 65025,
    ensures
        final(table)@ == bumped(old(table)@, i as int, bonus as int),
        within(final(table)@, 16384),
{
    let entry: i32 = table[i];
    let size: i32 = if bonus < 0 { -bonus } else { bonus };
    proof {
        lemma_gravity(entry as int, size as int);
    }
    let moved: i32 = entry + (bonus - div_i32(entry * size, HISTORY_LIMIT));
    table.set(i, clamp_i32(moved, -HISTORY_LIMIT, HISTORY_LIMIT));
}

/// Blends one correction.
fn blend(table: &mut Vec<i32>, i: usize, scaled: i32, weight: i32)
    requires
        i < old(table)@.len(),
        within(old(table)@, 8192),
        -8192 <= scaled <= 8192,
        0 <= weight <= 16,
    ensures
        final(table)@ == corrected(old(table)@, i as int, scaled as int, weight as int),
        within(final(table)@, 8192),
{
    let entry: i32 = table[i];
    proof {
        assert(-8192 * 256 <= entry * (256 - weight) <= 8192 * 256) by (nonlinear_arith)
            requires
                -8192 <= entry <= 8192,
                0 <= weight <= 16,
        ;
        assert(-8192 * 16 <= scaled * weight <= 8192 * 16) by (nonlinear_arith)
            requires
                -8192 <= scaled <= 8192,
                0 <= weight <= 16,
        ;
    }
    let mixed: i32 = div_i32(entry * (256 - weight) + scaled * weight, 256);
    table.set(i, clamp_i32(mixed, -CORRHIST_LIMIT, CORRHIST_LIMIT));
}

fn zeros(n: usize) -> (r: Vec<i32>)
    ensures
        r@ == Seq::new(n as nat, |i: int| 0i32),
{
    let mut v: Vec<i32> = Vec::new();
    let mut i: usize = 0;
    while i < n
        invariant
            i <= n,
            v@.len() == i,
            within(v@, 0),
        decreases n - i,
    {
        v.push(0);
        i = i + 1;
    }
    proof {
        assert(v@ =~= Seq::new(n as nat, |i: int| 0i32));
    }
    v
}

impl PersistentHistory {
    pub fn new() -> (r: Self)
        ensures
            r@ == Tables::blank(),
            r@.ok(),
    {
        let mut counter_moves: Vec<Move> = Vec::new();
        let mut i: usize = 0;
        while i < 4096
            invariant
                i <= 4096,
                counter_moves@.len() == i,
                forall|j: int| 0 <= j < i ==> #[trigger] counter_moves@[j] == Move(0),
            decreases 4096 - i,
        {
            counter_moves.push(Move(0));
            i = i + 1;
        }
        proof {
            assert(counter_moves@ =~= Tables::blank().counters);
        }
        PersistentHistory {
            history: zeros(4096),
            capture_history: zeros(2304),
            counter_moves,
            cont_history: zeros(147456),
            pawn_corrhist: zeros(2 * CORRHIST_SIZE),
            white_corrhist: zeros(2 * CORRHIST_SIZE),
            black_corrhist: zeros(2 * CORRHIST_SIZE),
            minor_corrhist: zeros(2 * CORRHIST_SIZE),
            major_corrhist: zeros(2 * CORRHIST_SIZE),
            cont_corrhist: zeros(768),
        }
    }

    fn bump_quiet(&mut self, m: Move, bonus: i32, board: &Board, ctxs: &Vec<PlyContext>, ply: u8)
        requires
            old(self)@.ok(),
            contexts_ok(ctxs@),
            -65025 <= bonus <= 65025,
        ensures
            final(self)@ == old(self)@.quiet_bumped(board@, m, bonus as int, ctxs@, ply as int),
            final(self)@.ok(),
    {
        bump(&mut self.history, pair_index(m), bonus);
        if let Some(piece) = board.piece_at(m.from_sq()) {
            let to: usize = m.to_sq().index();
            if ply >= 1 && (ply as usize) - 1 < MAX_PLY {
                bump(&mut self.cont_history, cont_index(ctxs[ply as usize - 1], piece.kind, to), bonus);
            }
            if ply >= 2 && (ply as usize) - 2 < MAX_PLY {
                bump(&mut self.cont_history, cont_index(ctxs[ply as usize - 2], piece.kind, to), bonus);
            }
        }
    }

    /// Reward a quiet move that caused a cutoff.
    pub fn update_history(&mut self, m: Move, depth: u8, board: &Board, ctxs: &Vec<PlyContext>, ply: u8)
        requires
            old(self)@.ok(),
            contexts_ok(ctxs@),
        ensures
            final(self)@ == old(self)@.quiet_bumped(board@, m, depth * depth, ctxs@, ply as int),
            final(self)@.ok(),
    {
        let bonus: i32 = square_of(depth);
        self.bump_quiet(m, bonus, board, ctxs, ply);
    }

    /// Penalise a quiet move that was searched before the one that caused a
    /// cutoff.
    pub fn update_history_malus(&mut self, m: Move, depth: u8, board: &Board, ctxs: &Vec<PlyContext>, ply: u8)
        requires
            old(self)@.ok(),
            contexts_ok(ctxs@),
        ensures
            final(self)@ == old(self)@.quiet_bumped(board@, m, -(depth * depth), ctxs@, ply as int),
            final(self)@.ok(),
    {
        let bonus: i32 = square_of(depth);
        self.bump_quiet(m, -bonus, board, ctxs, ply);
    }

    fn bump_capture(&mut self, m: Move, bonus: i32, board: &Board)
        requires
            old(self)@.ok(),
            -65025 <= bonus <= 65025,
        ensures
            final(self)@ == old(self)@.capture_bumped(board@, m, bonus as int),
            final(self)@.ok(),
    {
        if let Some(piece) = board.piece_at(m.from_sq()) {
            if let Some(captured) = board.piece_at(m.to_sq()) {
                let i: usize = (piece.kind.index() * 64 + m.to_sq().index()) * 6 + captured.kind.index();
                bump(&mut self.capture_history, i, bonus);
            }
        }
    }

    /// Reward a capture that caused a cutoff.
    pub fn update_capture_history(&mut self, m: Move, depth: u8, board: &Board)
        requires
            old(self)@.ok(),
        ensures
            final(self)@ == old(self)@.capture_bumped(board@, m, depth * depth),
            final(self)@.ok(),
    {
        let bonus: i32 = square_of(depth);
        self.bump_capture(m, bonus, board);
    }

    /// Penalise a capture that was searched before the one that caused a
    /// cutoff.
    pub fn update_capture_history_malus(&mut self, m: Move, depth: u8, board: &Board)
        requires
            old(self)@.ok(),
        ensures
            final(self)@ == old(self)@.capture_bumped(board@, m, -(depth * depth)),
            final(self)@.ok(),
    {
        let bonus: i32 = square_of(depth);
        self.bump_capture(m, -bonus, board);
    }

    /// Learned correction of the static evaluation, in centipawns for the side
    /// to move: the sum of all facets, capped, then scaled by a percentage.
    pub fn correction(&self, board: &Board, ctxs: &Vec<PlyContext>, ply: u8, mult: i32) -> (r: i32)
        requires
            self@.ok(),
            contexts_ok(ctxs@),
        ensures
            r == self@.correction(board@, ctxs@, ply as int, mult as int),
            -1_374_389_535 <= r <= 1_374_389_535,
    {
        let side = board.side_to_move;
        let k = corr_keys(board);
        let mut sum: i32 = self.pawn_corrhist[corr_index(side, k.pawn)] + self.white_corrhist[corr_index(side, k.white)]
            + self.black_corrhist[corr_index(side, k.black)] + self.minor_corrhist[corr_index(side, k.minor)]
            + self.major_corrhist[corr_index(side, k.major)];
        if ply >= 1 && (ply as usize) - 1 < MAX_PLY {
            sum = sum + self.cont_corrhist[cont_corr_index(side, ctxs[ply as usize - 1])];
        }
        let cp: i32 = clamp_i32(div_i32(sum, CORRHIST_GRAIN), -CORR_TOTAL_CAP, CORR_TOTAL_CAP);
        proof {
            assert(-137_438_953_472 <= cp * mult <= 137_438_953_472) by (nonlinear_arith)
                requires
                    -64 <= cp <= 64,
                    -2_147_483_648 <= mult <= 2_147_483_647,
            ;
        }
        div_i64(cp as i64 * mult as i64, 100) as i32
    }

    /// Update every facet from the residual of a search score and the static
    /// evaluation.
    pub fn update_corrhist(&mut self, board: &Board, depth: u8, diff: i64, ctxs: &Vec<PlyContext>, ply: u8)
        requires
            old(self)@.ok(),
            contexts_ok(ctxs@),
            -0x1_0000_0000 <= diff <= 0x1_0000_0000,
        ensures
            final(self)@ == old(self)@.residual_seen(board@, depth as int, diff as int, ctxs@, ply as int),
            final(self)@.ok(),
    {
        let side = board.side_to_move;
        let k = corr_keys(board);
        let wide: i64 = diff * 256;
        let scaled: i32 = if wide < -8192 {
            -8192
        } else if wide > 8192 {
            8192
        } else {
            wide as i32
        };
        let weight: i32 = if depth as i32 + 1 < 16 { depth as i32 + 1 } else { 16 };
        blend(&mut self.pawn_corrhist, corr_index(side, k.pawn), scaled, weight);
        blend(&mut self.white_corrhist, corr_index(side, k.white), scaled, weight);
        blend(&mut self.black_corrhist, corr_index(side, k.black), scaled, weight);
        blend(&mut self.minor_corrhist, corr_index(side, k.minor), scaled, weight);
        blend(&mut self.major_corrhist, corr_index(side, k.major), scaled, weight);
        if ply >= 1 && (ply as usize) - 1 < MAX_PLY {
            blend(&mut self.cont_corrhist, cont_corr_index(side, ctxs[ply as usize - 1]), scaled, weight);
        }
    }

    /// Note the reply that refuted a move.
    pub fn store_counter_move(&mut self, prev_move: Move, counter: Move)
        requires
            old(self)@.ok(),
        ensures
            final(self)@ == old(self)@.counter_noted(prev_move, counter),
            final(self)@.ok(),
    {
        if !prev_move.is_null() {
            self.counter_moves.set(pair_index(prev_move), counter);
        }
    }

    /// The noted reply to a move.
    pub fn get_counter_move(&self, prev_move: Move) -> (r: Move)
        requires
            self@.ok(),
        ensures
            r == self@.counter_to(prev_move),
    {
        if prev_move.is_null() {
            Move::null()
        } else {
            self.counter_moves[pair_index(prev_move)]
        }
    }

    /// The history score of a move.
    pub fn history_of(&self, m: Move) -> (r: i32)
        requires
            self@.ok(),
        ensures
            r == self@.history[pair_slot(m)],
            -16384 <= r <= 16384,
    {
        self.history[pair_index(m)]
    }

    /// What the last two moves say of a move.
    pub fn get_cont_history_bonus(&self, m: Move, board: &Board, ctxs: &Vec<PlyContext>, ply: u8) -> (r: i32)
        requires
            self@.ok(),
            contexts_ok(ctxs@),
        ensures
            r == self@.cont_bonus(board@, m, ctxs@, ply as int),
            -24576 <= r <= 24576,
    {
        let mut bonus: i32 = 0;
        if let Some(piece) = board.piece_at(m.from_sq()) {
            let to: usize = m.to_sq().index();
            if ply >= 1 && (ply as usize) - 1 < MAX_PLY {
                bonus = bonus + self.cont_history[cont_index(ctxs[ply as usize - 1], piece.kind, to)];
            }
            if ply >= 2 && (ply as usize) - 2 < MAX_PLY {
                bonus = bonus + div_i32(self.cont_history[cont_index(ctxs[ply as usize - 2], piece.kind, to)], 2);
            }
        }
        bonus
    }

    /// What the histories say of a quiet move.
    pub fn quiet_worth(&self, m: Move, board: &Board, ctxs: &Vec<PlyContext>, ply: u8) -> (r: i32)
        requires
            self@.ok(),
            contexts_ok(ctxs@),
        ensures
            r == self@.quiet_worth(board@, m, ctxs@, ply as int),
            -28672 <= r <= 28672,
    {
        self.history_of(m) + div_i32(self.get_cont_history_bonus(m, board, ctxs, ply), 2)
    }

    /// What the history says of a capture.
    pub fn get_capture_history(&self, m: Move, board: &Board) -> (r: i32)
        requires
            self@.ok(),
        ensures
            r == self@.capture_worth(board@, m),
            -16384 <= r <= 16384,
    {
        if let Some(piece) = board.piece_at(m.from_sq()) {
            if let Some(captured) = board.piece_at(m.to_sq()) {
                return self.capture_history[(piece.kind.index() * 64 + m.to_sq().index()) * 6 + captured.kind.index()];
            }
        }
        0
    }
}

impl Default for PersistentHistory {
    fn default() -> (r: Self)
        ensures
            r@ == Tables::blank(),
            r@.ok(),
    {
        Self::new()
    }
}

fn square_of(depth: u8) -> (r: i32)
    ensures
        r == depth * depth,
        0 <= r <= 65025,
{
    proof {
        assert(0 <= depth * depth <= 65025) by (nonlinear_arith)
            requires
                0 <= depth <= 255,
        ;
    }
    depth as i32 * depth as i32
}

/// A bonus never lowers a history score and a malus never raises one.
pub proof fn law_gravity_direction(entry: int, bonus: int)
    requires
        -16384 <= entry <= 16384,
        -16384 <= bonus <= 16384,
    ensures
        bonus >= 0 ==> gravity(entry, bonus) >= entry,
        bonus <= 0 ==> gravity(entry, bonus) <= entry,
        -16384 <= gravity(entry, bonus) <= 16384,
{
    let b = magnitude(bonus);
    if entry >= 0 {
        assert(0 <= entry * b <= 16384 * b) by (nonlinear_arith)
            requires
                0 <= entry <= 16384,
                0 <= b,
        ;
    } else {
        assert(-16384 * b <= entry * b <= 0) by (nonlinear_arith)
            requires
                -16384 <= entry <= 0,
                0 <= b,
        ;
    }
}

/// The applied correction stays within its cap, whatever was learned.
pub proof fn law_correction_is_capped(t: Tables, p: Position, ctxs: Seq<PlyContext>, ply: int)
    ensures
        -64 <= t.correction(p, ctxs, ply, 100) <= 64,
{
}

/// A quiet move that is rewarded is worth no less in its history than before, one
/// that is punished no more, and the history of every other move stays.
pub proof fn law_histories_follow_the_reward(
    t: Tables,
    p: Position,
    m: Move,
    other: Move,
    bonus: int,
    ctxs: Seq<PlyContext>,
    ply: int,
)
    requires
        t.ok(),
        -16384 <= bonus <= 16384,
    ensures
        ({
            let now = t.quiet_bumped(p, m, bonus, ctxs, ply).history;
            let i = m.src() * 64 + m.dst();
            let j = other.src() * 64 + other.dst();
            &&& bonus >= 0 ==> now[i] >= t.history[i]
            &&& bonus <= 0 ==> now[i] <= t.history[i]
            &&& t.history[i] == 0 ==> now[i] == bonus
            &&& j != i ==> now[j] == t.history[j]
        }),
{
    let i = pair_slot(m);
    law_gravity_direction(t.history[i] as int, bonus);
    lemma_gravity_from_zero(bonus);
    assert(t.quiet_bumped(p, m, bonus, ctxs, ply).history == bumped(t.history, i, bonus));
}

proof fn lemma_gravity_from_zero(bonus: int)
    requires
        -16384 <= bonus <= 16384,
    ensures
        gravity(0, bonus) == bonus,
{
    let b = magnitude(bonus);
    assert(0 * b == 0);
}

/// The same of captures, by the kinds of the pieces that take and are taken.
pub proof fn law_capture_histories_follow_the_reward(t: Tables, p: Position, m: Move, bonus: int)
    requires
        t.ok(),
        -16384 <= bonus <= 16384,
        p.mailbox[m.src()] is Some,
        p.mailbox[m.dst()] is Some,
    ensures
        ({
            let now = t.capture_bumped(p, m, bonus);
            let a = p.mailbox[m.src()]->Some_0.kind.idx();
            let b = p.mailbox[m.dst()]->Some_0.kind.idx();
            let i = (a * 64 + m.dst()) * 6 + b;
            &&& bonus >= 0 ==> now.captures[i] >= t.captures[i]
            &&& bonus <= 0 ==> now.captures[i] <= t.captures[i]
            &&& t.captures[i] == 0 ==> now.captures[i] == bonus
            &&& now.capture_worth(p, m) == now.captures[i]
            &&& now.history == t.history && now.cont == t.cont
        }),
{
    let i = capture_slot(p.mailbox[m.src()]->Some_0.kind.idx(), m.dst(), p.mailbox[m.dst()]->Some_0.kind.idx());
    assert(0 <= i < 2304);
    law_gravity_direction(t.captures[i] as int, bonus);
    lemma_gravity_from_zero(bonus);
    assert(t.capture_bumped(p, m, bonus).captures == bumped(t.captures, i, bonus));
}

/// The reply that was noted to a move is the one that is given for it, and for
/// no move from or to another square.
pub proof fn law_noted_replies_are_given(t: Tables, prev: Move, reply: Move, other: Move)
    requires
        t.counters.len() == 4096,
        prev.0 != 0,
    ensures
        t.counter_noted(prev, reply).counter_to(prev) == reply,
        other.src() != prev.src() || other.dst() != prev.dst() ==> t.counter_noted(prev, reply).counter_to(other)
            == t.counter_to(other),
{
}

/// A correction moves towards what was seen.
pub proof fn law_corrections_move_towards_the_residual(entry: int, seen: int, weight: int)
    requires
        -8192 <= entry <= 8192,
        -8192 <= seen <= 8192,
        0 <= weight <= 16,
    ensures
        seen >= entry ==> blended(entry, seen, weight) >= entry,
        seen <= entry ==> blended(entry, seen, weight) <= entry,
        entry == 0 && seen >= 256 && weight >= 1 ==> blended(entry, seen, weight) > 0,
        entry == 0 && seen <= -256 && weight >= 1 ==> blended(entry, seen, weight) < 0,
{
    let d = seen - entry;
    assert(entry * (256 - weight) + seen * weight == 256 * entry + d * weight) by (nonlinear_arith)
        requires
            d == seen - entry,
    ;
    let x = 256 * entry + d * weight;
    if d == 0 {
        assert(d * weight == 0) by (nonlinear_arith)
            requires
                d == 0,
        ;
    }
    if x >= 0 {
        assert(quot(x, 256) == x / 256);
    } else {
        assert(quot(x, 256) == -((-x) / 256));
    }
    if d >= 0 {
        assert(d * weight >= 0) by (nonlinear_arith)
            requires
                d >= 0,
                weight >= 0,
        ;
    } else {
        assert(d * weight <= 0) by (nonlinear_arith)
            requires
                d <= 0,
                weight >= 0,
        ;
    }
    if weight >= 1 && d >= 256 {
        assert(d * weight >= 256) by (nonlinear_arith)
            requires
                d >= 256,
                weight >= 1,
        ;
    }
    if weight >= 1 && d <= -256 {
        assert(d * weight <= -256) by (nonlinear_arith)
            requires
                d <= -256,
                weight >= 1,
        ;
    }
}

/// Where nothing was learned yet, a result above the static evaluation raises it
/// the next time and one below lowers it.
pub proof fn law_corrections_have_the_sign_of_the_residual(
    p: Position,
    depth: int,
    diff: int,
    ctxs: Seq<PlyContext>,
    ply: int,
)
    requires
        0 <= depth <= 128,
        contexts_ok(ctxs),
        0 <= ply <= 128,
    ensures
        ({
            let c = Tables::blank().residual_seen(p, depth, diff, ctxs, ply).correction(p, ctxs, ply, 100);
            &&& diff >= 0 ==> c >= 0
            &&& diff <= 0 ==> c <= 0
        }),
{
    let t = Tables::blank();
    let u = t.residual_seen(p, depth, diff, ctxs, ply);
    let w = if depth + 1 < 16 { depth + 1 } else { 16 };
    let scaled = clamp(diff * 256, -8192, 8192);
    law_corrections_move_towards_the_residual(0, scaled, w);
    let k = keys_of(p);
    lemma_corr_slot(p.side, k.pawn);
    lemma_corr_slot(p.side, k.white);
    lemma_corr_slot(p.side, k.black);
    lemma_corr_slot(p.side, k.minor);
    lemma_corr_slot(p.side, k.major);
    let v = blended(0, scaled, w);
    assert(u.pawn[corr_slot(p.side, k.pawn)] == v);
    assert(u.white[corr_slot(p.side, k.white)] == v);
    assert(u.black[corr_slot(p.side, k.black)] == v);
    assert(u.minor[corr_slot(p.side, k.minor)] == v);
    assert(u.major[corr_slot(p.side, k.major)] == v);
    if recorded(ply, 1) {
        assert(ctxs[ply - 1].ok());
        assert(u.cont_corr[cont_corr_slot(p.side, ctxs[ply - 1])] == v);
    }
}

proof fn lemma_corr_slot(side: Color, key: u64)
    ensures
        0 <= corr_slot(side, key) < 32768,
{
    lemma_masked(key, 16383);
}

/// Nothing learned, nothing corrected.
pub proof fn lemma_blank_correction(p: Position, ctxs: Seq<PlyContext>, ply: int, mult: int)
    requires
        contexts_ok(ctxs),
        0 <= ply <= 128,
    ensures
        Tables::blank().correction(p, ctxs, ply, mult) == 0,
{
    let t = Tables::blank();
    let k = keys_of(p);
    lemma_corr_slot(p.side, k.pawn);
    lemma_corr_slot(p.side, k.white);
    lemma_corr_slot(p.side, k.black);
    lemma_corr_slot(p.side, k.minor);
    lemma_corr_slot(p.side, k.major);
    if recorded(ply, 1) {
        assert(ctxs[ply - 1].ok());
    }
    assert(t.correction_sum(p, ctxs, ply) == 0);
    assert(0 * mult == 0);
}

/// What the histories say of a quiet move lies within limits.
pub proof fn lemma_quiet_worth_range(t: Tables, p: Position, m: Move, ctxs: Seq<PlyContext>, ply: int)
    requires
        t.ok(),
        contexts_ok(ctxs),
        0 <= ply <= 128,
    ensures
        -30_000 <= t.quiet_worth(p, m, ctxs, ply) <= 30_000,
{
    assert(-16384 <= t.history[pair_slot(m)] <= 16384);
    if let Some(piece) = p.mailbox[m.src()] {
        let k = piece.kind.idx();
        if recorded(ply, 1) {
            assert(ctxs[ply - 1].ok());
            let i = cont_slot(ctxs[ply - 1], k, m.dst());
            assert(0 <= i < 147456);
            assert(-16384 <= t.cont[i] <= 16384);
        }
        if recorded(ply, 2) {
            assert(ctxs[ply - 2].ok());
            let i = cont_slot(ctxs[ply - 2], k, m.dst());
            assert(0 <= i < 147456);
            assert(-16384 <= t.cont[i] <= 16384);
        }
    }
}

} // verus!
