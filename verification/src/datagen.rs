//! Self-play games that yield training positions.

use vstd::prelude::*;
use crate::arith::clamp;
use crate::attacks::{in_check, is_in_check};
use crate::board::{Board, Position};
use crate::deepening::{outcome, Outcome};
use crate::engine::{next_generation, tuned, Engine, Settings};
use crate::history::Tables;
use crate::iterative::{comes_to, law_search_plays_a_legal_move};
use crate::lines::legal_in;
use crate::movegen::{generate_legal_moves, legal_moves};
use crate::moves::Move;
use crate::nnue::network::NnueNetwork;
use crate::openings::{coherent, has_kings, lemma_kinds_of_position, play, play_opening, record_ok, start_from_fen, start_of, stuck, whole, Luck, Openings, Record};
use crate::params::{default_params, SearchParams};
use crate::search::{clock_room, occurred_twice, played, Answer, Host, Witness};
use crate::syzygy::of_kind;
use crate::tt::Table;
use crate::types::{Color, PieceKind, Score};

verus! {

/// Recorded scores that count when a repetition is judged.
pub const REPETITION_SCORE_WINDOW: usize = 4;

/// A repetition from a score of this size is not believed.
pub const REPETITION_DISCARD_CP: i32 = 250;

/// Scores below this are those of a draw.
pub const DRAW_ADJ_CP: i32 = 15;

/// As many plies with such scores end the game.
pub const DRAW_ADJ_PLIES: u32 = 8;

/// Scores from this on are those of a win.
pub const WIN_ADJ_CP: i32 = 600;

/// As many searches in a row with such scores end the game.
pub const WIN_ADJ_PLIES: u32 = 4;

/// The longest game, in plies.
pub const MAX_GAME_PLIES: u32 = 400;

/// The largest score that is recorded.
pub const MAX_RECORD_SCORE: i32 = 3000;

/// How a game ended.
#[derive(Clone, Copy, PartialEq, Eq, Debug, Structural)]
pub enum Ending {
    WhiteWins,
    BlackWins,
    Draw,
}

/// Points for White, in halves.
pub open spec fn points(e: Ending) -> u8 {
    match e {
        Ending::WhiteWins => 2,
        Ending::BlackWins => 0,
        Ending::Draw => 1,
    }
}

pub fn half_points(e: Ending) -> (r: u8)
    ensures
        r == points(e),
{
    match e {
        Ending::WhiteWins => 2,
        Ending::BlackWins => 0,
        Ending::Draw => 1,
    }
}

/// A recorded position with its search score and eventual game result.
#[derive(Clone, Copy)]
pub struct DataEntry {
    /// White, Black, then pawns, knights, bishops, rooks, queens and kings.
    pub bbs: [u64; 8],
    /// Side to move: 0 = White, 1 = Black.
    pub stm: usize,
    /// Score in centipawns from White's perspective.
    pub score_cp: i16,
    /// Game result in half points for White.
    pub half_points: u8,
}

/// The sets that are recorded of a position.
pub open spec fn recorded_sets(p: Position) -> Seq<u64> {
    seq![
        p.occupancy[0].0,
        p.occupancy[1].0,
        of_kind(p, PieceKind::Pawn),
        of_kind(p, PieceKind::Knight),
        of_kind(p, PieceKind::Bishop),
        of_kind(p, PieceKind::Rook),
        of_kind(p, PieceKind::Queen),
        of_kind(p, PieceKind::King),
    ]
}

fn both(board: &Board, kind: PieceKind) -> (r: u64)
    ensures
        r == of_kind(board@, kind),
{
    board.set_of(Color::White, kind).0 | board.set_of(Color::Black, kind).0
}

impl DataEntry {
    /// The record of a position, without a result yet.
    pub fn from_board(board: &Board, score_white: i32) -> (r: Self)
        ensures
            r.bbs@ =~= recorded_sets(board@),
            r.stm == board@.side.idx(),
            r.score_cp == clamp(score_white as int, -32768, 32767),
            r.half_points == 0,
    {
        let bbs: [u64; 8] = [
            board.occupancy[0].0,
            board.occupancy[1].0,
            both(board, PieceKind::Pawn),
            both(board, PieceKind::Knight),
            both(board, PieceKind::Bishop),
            both(board, PieceKind::Rook),
            both(board, PieceKind::Queen),
            both(board, PieceKind::King),
        ];
        let score_cp: i16 = if score_white < -32768 {
            -32768
        } else if score_white > 32767 {
            32767
        } else {
            score_white as i16
        };
        DataEntry { bbs, stm: board.side_to_move.index(), score_cp, half_points: 0 }
    }
}

/// The sizes of the last `n` scores, added up.
pub open spec fn size_sum(entries: Seq<DataEntry>, n: int) -> int
    decreases n,
{
    if n <= 0 || entries.len() == 0 {
        0
    } else {
        let s = entries.last().score_cp as int;
        size_sum(entries.drop_last(), n - 1) + if s < 0 { -s } else { s }
    }
}

/// The average size of the last scores, at most `window` of them.
pub open spec fn recent_average(entries: Seq<DataEntry>, window: int) -> int {
    let n = if entries.len() < window { entries.len() as int } else { window };
    if n <= 0 { 0 } else { size_sum(entries, n) / n }
}

pub fn recent_abs_score_avg_cp(entries: &Vec<DataEntry>, window: usize) -> (r: i32)
    ensures
        r == recent_average(entries@, window as int),
        0 <= r <= 32768,
{
    let take: usize = if entries.len() < window { entries.len() } else { window };
    if take == 0 {
        return 0;
    }
    let mut sum: u128 = 0;
    let mut i: usize = 0;
    proof {
        assert(entries@.take(entries@.len() as int) =~= entries@);
    }
    while i < take
        invariant
            i <= take <= entries@.len(),
            0 <= sum <= 32768 * i,
            sum + size_sum(entries@.take(entries@.len() - i), take - i) == size_sum(entries@, take as int),
        decreases take - i,
    {
        let s: i32 = entries[entries.len() - 1 - i].score_cp as i32;
        proof {
            let t = entries@.take(entries@.len() - i);
            assert(t.last() == entries@[entries@.len() - 1 - i]);
            assert(t.drop_last() =~= entries@.take(entries@.len() - (i + 1)));
        }
        let size: i32 = if s < 0 { -s } else { s };
        sum = sum + size as u128;
        i = i + 1;
    }
    proof {
        let n = take as int;
        assert(0 <= sum as int / n <= 32768) by (nonlinear_arith)
            requires
                0 <= sum <= 32768 * n,
                n >= 1,
        ;
    }
    (sum / take as u128) as i32
}

// Adjudication.
/// The sides' scores so far.
#[derive(Clone, Copy, PartialEq, Eq, Debug, Structural)]
pub struct Adjudication {
    /// Searches in a row that see the same side winning.
    pub high: u32,
    pub leader: Option<Color>,
    /// Searches in a row that see a draw.
    pub low: u32,
}

/// The side that a score sees winning.
pub open spec fn leading(score_white: int) -> Option<Color> {
    if score_white >= 600 {
        Some(Color::White)
    } else if score_white <= -600 {
        Some(Color::Black)
    } else {
        None
    }
}

impl Adjudication {
    /// The counts after one more score.
    pub open spec fn after(self, score_white: int) -> Adjudication {
        let lead = leading(score_white);
        Adjudication {
            high: if lead is None {
                0
            } else if lead == self.leader {
                self.high.wrapping_add(1)
            } else {
                1
            },
            leader: lead,
            low: if -15 < score_white < 15 { self.low.wrapping_add(1) } else { 0 },
        }
    }

    /// The ending that the counts give: the same side winning four times in a
    /// row, or eight drawn scores in a row.
    pub open spec fn verdict(self) -> Option<Ending> {
        if self.high >= 4 {
            Some(if self.leader == Some(Color::White) { Ending::WhiteWins } else { Ending::BlackWins })
        } else if self.low >= 8 {
            Some(Ending::Draw)
        } else {
            None
        }
    }

    pub fn new() -> (r: Self)
        ensures
            r == (Adjudication { high: 0, leader: None, low: 0 }),
            r.verdict() is None,
    {
        Adjudication { high: 0, leader: None, low: 0 }
    }

    /// Takes note of a score for White. Returns how the game ends, if it does.
    pub fn note(&mut self, score_white: i32) -> (r: Option<Ending>)
        ensures
            *final(self) == old(self).after(score_white as int),
            r == final(self).verdict(),
    {
        let lead = if score_white >= WIN_ADJ_CP {
            Some(Color::White)
        } else if score_white <= -WIN_ADJ_CP {
            Some(Color::Black)
        } else {
            None
        };
        if lead.is_some() {
            if self.leader == lead {
                self.high = self.high.wrapping_add(1);
            } else {
                self.high = 1;
            }
        } else {
            self.high = 0;
        }
        self.leader = lead;
        if -DRAW_ADJ_CP < score_white && score_white < DRAW_ADJ_CP {
            self.low = self.low.wrapping_add(1);
        } else {
            self.low = 0;
        }
        if self.high >= WIN_ADJ_PLIES {
            return Some(
                if self.leader == Some(Color::White) {
                    Ending::WhiteWins
                } else {
                    Ending::BlackWins
                },
            );
        }
        if self.low >= DRAW_ADJ_PLIES {
            return Some(Ending::Draw);
        }
        None
    }
}

/// Four winning scores for the same side end an open game, whatever came before.
pub proof fn law_four_wins_end_the_game(a: Adjudication, s1: int, s2: int, s3: int, s4: int)
    requires
        s1 >= 600,
        s2 >= 600,
        s3 >= 600,
        s4 >= 600,
        a.verdict() is None,
    ensures
        a.after(s1).after(s2).after(s3).after(s4).verdict() == Some(Ending::WhiteWins),
        a.after(-s1).after(-s2).after(-s3).after(-s4).verdict() == Some(Ending::BlackWins),
{
}

/// How a game stands before a search.
#[derive(Clone, Copy, PartialEq, Eq, Debug, Structural)]
pub enum Standing {
    /// The game goes on.
    Open,
    Over(Ending),
    /// A repetition from a winning position, or a king was taken: the game is
    /// not to be used.
    Discarded,
}

/// How a game stands, by mate and stalemate, the fifty-move rule, repetition
/// and length, in this order. Without a king there is nothing to search.
pub open spec fn standing(p: Position, entries: Seq<DataEntry>, ply: int) -> Standing {
    if !has_kings(p) {
        Standing::Discarded
    } else if legal_moves(p).len() == 0 {
        Standing::Over(
            if in_check(p, p.side) {
                if p.side == Color::White {
                    Ending::BlackWins
                } else {
                    Ending::WhiteWins
                }
            } else {
                Ending::Draw
            },
        )
    } else if p.halfmove >= 100 {
        Standing::Over(Ending::Draw)
    } else if occurred_twice(p) {
        if recent_average(entries, 4) >= 250 {
            Standing::Discarded
        } else {
            Standing::Over(Ending::Draw)
        }
    } else if ply > 400 {
        Standing::Over(Ending::Draw)
    } else {
        Standing::Open
    }
}

pub fn game_standing(board: &Board, entries: &Vec<DataEntry>, ply: u32) -> (r: Standing)
    requires
        board.ok(),
        board@.has_room(),
    ensures
        r == standing(board@, entries@, ply as int),
{
    if board.set_of(Color::White, PieceKind::King).count() != 1 || board.set_of(Color::Black, PieceKind::King).count()
        != 1 {
        return Standing::Discarded;
    }
    let moves = generate_legal_moves(board);
    if moves.is_empty() {
        if is_in_check(board) {
            return Standing::Over(
                if board.side_to_move == Color::White {
                    Ending::BlackWins
                } else {
                    Ending::WhiteWins
                },
            );
        }
        return Standing::Over(Ending::Draw);
    }
    if board.halfmove_clock >= 100 {
        return Standing::Over(Ending::Draw);
    }
    if board.is_repetition() {
        if recent_abs_score_avg_cp(entries, REPETITION_SCORE_WINDOW) >= REPETITION_DISCARD_CP {
            return Standing::Discarded;
        }
        return Standing::Over(Ending::Draw);
    }
    if ply > MAX_GAME_PLIES {
        return Standing::Over(Ending::Draw);
    }
    Standing::Open
}

/// A score for the side to move as one for White.
pub open spec fn white_score(side: Color, score: int) -> int {
    if side == Color::White { score } else { -score }
}

pub fn stm_to_white(board: &Board, score_stm: i32) -> (r: i32)
    requires
        score_stm > i32::MIN,
    ensures
        r == white_score(board@.side, score_stm as int),
{
    if board.side_to_move == Color::White {
        score_stm
    } else {
        -score_stm
    }
}

/// The records after a position with a score: in check or with a mate score it
/// leaves none; otherwise one more, the score kept within limits.
pub open spec fn records(before: Seq<DataEntry>, after: Seq<DataEntry>, p: Position, score: Score) -> bool {
    if in_check(p, p.side) || score.0 >= 29_000 || score.0 <= -29_000 {
        after == before
    } else {
        let e = after.last();
        &&& after.len() == before.len() + 1
        &&& after.drop_last() == before
        &&& e.bbs@ =~= recorded_sets(p)
        &&& e.stm == p.side.idx()
        &&& e.score_cp == clamp(white_score(p.side, score.0 as int), -3000, 3000)
        &&& e.half_points == 0
    }
}

/// Records a quiet position: not in check, and without a mate score. The score
/// is kept small, so that it still teaches something.
pub fn record_position(board: &Board, score: Score, entries: &mut Vec<DataEntry>)
    requires
        score.0 > i32::MIN,
    ensures
        records(old(entries)@, final(entries)@, board@, score),
{
    if is_in_check(board) || score.is_mate() {
        return ;
    }
    let s: i32 = stm_to_white(board, score.0);
    let clamped: i32 = if s < -MAX_RECORD_SCORE {
        -MAX_RECORD_SCORE
    } else if s > MAX_RECORD_SCORE {
        MAX_RECORD_SCORE
    } else {
        s
    };
    let ghost before = entries@;
    entries.push(DataEntry::from_board(board, clamped));
    proof {
        assert(entries@.drop_last() =~= before);
    }
}

/// The records with the result of the game.
pub open spec fn closed_with(entries: Seq<DataEntry>, ending: Ending) -> Seq<DataEntry> {
    Seq::new(entries.len(), |i: int| DataEntry { half_points: points(ending), ..entries[i] })
}

/// Gives every recorded position the result of the game.
pub fn backfill_results(entries: &mut Vec<DataEntry>, ending: Ending)
    ensures
        final(entries)@ == closed_with(old(entries)@, ending),
{
    let result: u8 = half_points(ending);
    let mut i: usize = 0;
    let ghost before = entries@;
    while i < entries.len()
        invariant
            before == old(entries)@,
            i <= entries@.len(),
            entries@.len() == before.len(),
            result == points(ending),
            forall|j: int|
                0 <= j < i ==> #[trigger] entries@[j] == (DataEntry { half_points: points(ending), ..before[j] }),
            forall|j: int| i <= j < before.len() ==> #[trigger] entries@[j] == before[j],
        decreases before.len() - i,
    {
        let e = entries[i];
        entries.set(i, DataEntry { half_points: result, ..e });
        i = i + 1;
    }
    proof {
        assert(entries@ =~= closed_with(before, ending));
    }
}

// Bins of scores.
/// The bin of a score: 25 centipawns wide, between limits of 4000.
pub fn score_bin(score: i32) -> (r: usize)
    ensures
        r == (clamp(score as int, -4000, 4000) + 4000) / 25,
        r < 321,
{
    let clipped: i32 = if score < -4000 {
        -4000
    } else if score > 4000 {
        4000
    } else {
        score
    };
    ((clipped + 4000) / 25) as usize
}

/// The lower edge of a bin.
pub fn bin_edge(bin: usize) -> (r: i32)
    requires
        bin < 321,
    ensures
        r == -4000 + 25 * bin,
{
    bin as i32 * 25 - 4000
}

/// A score within the limits lies in its bin.
pub proof fn law_score_lies_in_its_bin(score: int)
    requires
        -4000 <= score <= 4000,
    ensures
        ({
            let bin = (clamp(score, -4000, 4000) + 4000) / 25;
            -4000 + 25 * bin <= score < -4000 + 25 * (bin + 1)
        }),
{
}

/// A position was recorded: a whole one, with a small score.
pub open spec fn entry_ok(e: DataEntry) -> bool {
    &&& -3000 <= e.score_cp <= 3000
    &&& exists|q: Position| #[trigger] whole(q) && e.bbs@ == recorded_sets(q) && e.stm == q.side.idx()
}

/// How a game stands. An open game has a legal move.
fn judge(board: &Board, entries: &Vec<DataEntry>, ply: u32) -> (r: Standing)
    requires
        board.ok(),
        board@.has_room(),
    ensures
        r == standing(board@, entries@, ply as int),
        r == Standing::Open ==> has_kings(board@) && !stuck(board@) && board@.halfmove < 100 && ply <= 400,
{
    proof {
        reveal(stuck);
    }
    game_standing(board, entries, ply)
}

/// The records stay sound.
proof fn lemma_records(before: Seq<DataEntry>, after: Seq<DataEntry>, p: Position, score: Score)
    requires
        records(before, after, p, score),
        whole(p),
        forall|i: int| 0 <= i < before.len() ==> entry_ok(#[trigger] before[i]),
    ensures
        before.len() <= after.len() <= before.len() + 1,
        forall|i: int| 0 <= i < after.len() ==> entry_ok(#[trigger] after[i]),
{
    assert forall|i: int| 0 <= i < after.len() implies entry_ok(#[trigger] after[i]) by {
        if i < before.len() {
            assert(entry_ok(before[i]));
            if after.len() > before.len() {
                assert(after.drop_last()[i] == before[i]);
            }
        } else {
            assert(after[i] == after.last());
            assert(whole(p));
        }
    }
}

/// A game in progress.
pub struct Game {
    pub board: Board,
    pub entries: Vec<DataEntry>,
    pub adjudication: Adjudication,
    /// Moves played by searches.
    pub ply: u32,
}

impl Game {
    /// A game from a position.
    pub fn new(start: Board) -> (r: Self)
        ensures
            r.board == start,
            r.entries@.len() == 0,
            r.adjudication == (Adjudication { high: 0, leader: None, low: 0 }),
            r.ply == 0,
    {
        Game { board: start, entries: Vec::new(), adjudication: Adjudication::new(), ply: 0 }
    }

    /// Takes the result of a search: its score may end the game; otherwise the
    /// position is recorded and the move played.
    pub fn advance(&mut self, m: Move, score: Score) -> (r: Option<Ending>)
        requires
            old(self).board.ok(),
            whole(old(self).board@),
            old(self).board@.has_room(),
            legal_in(old(self).board@, m),
            score.0 > i32::MIN,
            old(self).ply < u32::MAX,
        ensures
            final(self).board.ok(),
            coherent(final(self).board@),
            final(self).adjudication == old(self).adjudication.after(
                white_score(old(self).board@.side, score.0 as int),
            ),
            r == final(self).adjudication.verdict(),
            r is Some ==> final(self).board == old(self).board && final(self).entries == old(self).entries
                && final(self).ply == old(self).ply,
            r is None ==> final(self).board@ == played(old(self).board@, m) && records(
                old(self).entries@,
                final(self).entries@,
                old(self).board@,
                score,
            ) && final(self).ply == old(self).ply + 1,
            final(self).board@.fullmove <= old(self).board@.fullmove + 1,
            final(self).board@.halfmove <= old(self).board@.halfmove + 1,
    {
        proof {
            lemma_kinds_of_position(self.board@);
        }
        let white: i32 = stm_to_white(&self.board, score.0);
        let ending = self.adjudication.note(white);
        if ending.is_some() {
            return ending;
        }
        record_position(&self.board, score, &mut self.entries);
        play(&mut self.board, m);
        self.ply = self.ply + 1;
        None
    }
}

/// What stays the same from search to search of a game.
pub struct Setup {
    pub params: SearchParams,
    pub net: NnueNetwork,
    pub lmr: Seq<u8>,
    /// The largest number of pieces that the endgame tables cover.
    pub pieces: Option<u32>,
}

/// A game before a search.
pub struct Stage {
    pub p: Position,
    pub entries: Seq<DataEntry>,
    pub adjudication: Adjudication,
    pub ply: int,
    pub table: Table,
    /// What the world around has answered so far.
    pub heard: Seq<Answer>,
}

/// The searches of a game have a depth and nothing else to limit them, and take
/// the tuning of the engine.
pub open spec fn game_params(depth: u8, settings: Settings) -> SearchParams {
    SearchParams {
        max_depth: depth,
        use_nnue: settings.use_nnue,
        contempt: 0,
        tune: settings.tune,
        ..default_params()
    }
}

/// A search in a game has this result, and leaves this table and these answers.
#[verifier::opaque]
pub open spec fn found(g: Setup, a: Stage, out: Outcome, table: Table, heard: Seq<Answer>) -> bool {
    exists|learned: Tables|
        #[trigger] comes_to(
            a.p,
            g.params,
            (next_generation(a.table), Tables::blank()),
            (table, learned),
            g.net,
            g.lmr,
            0,
            g.pieces,
            None,
            false,
            None,
            (a.heard, heard),
            out,
        )
}

/// A score that can be negated.
pub open spec fn believed(score: i32) -> Score {
    if score == i32::MIN { Score((i32::MIN + 1) as i32) } else { Score(score) }
}

/// The adjudication once a search has a score.
pub open spec fn noted(a: Stage, score: i32) -> Adjudication {
    a.adjudication.after(white_score(a.p.side, believed(score).0 as int))
}

/// One search in an open game: its move is played and the position recorded.
#[verifier::opaque]
pub open spec fn goes_on(g: Setup, a: Stage, b: Stage) -> bool {
    &&& standing(a.p, a.entries, a.ply) == Standing::Open
    &&& exists|out: Outcome|
        #[trigger] found(g, a, out, b.table, b.heard) && b.adjudication == noted(a, out.score)
            && b.adjudication.verdict() is None && b.p == played(a.p, out.best_move) && records(
            a.entries,
            b.entries,
            a.p,
            believed(out.score),
        ) && b.ply == a.ply + 1
}

/// A game ends, by its position or by the score of a search; with these records,
/// this table and these answers.
#[verifier::opaque]
pub open spec fn ends(g: Setup, a: Stage, table: Table, heard: Seq<Answer>, r: Seq<DataEntry>) -> bool {
    match standing(a.p, a.entries, a.ply) {
        Standing::Discarded => r.len() == 0 && table == a.table && heard == a.heard,
        Standing::Over(ending) => r == closed_with(a.entries, ending) && table == a.table && heard == a.heard,
        Standing::Open => exists|out: Outcome|
            #[trigger] found(g, a, out, table, heard) && noted(a, out.score).verdict() is Some && r == closed_with(
                a.entries,
                noted(a, out.score).verdict()->Some_0,
            ),
    }
}

/// A game gets from one stage to another in a number of searches.
pub open spec fn proceeds(g: Setup, a: Stage, n: int, b: Stage) -> bool
    decreases n,
{
    if n <= 0 {
        a == b
    } else {
        exists|c: Stage| proceeds(g, a, n - 1, c) && #[trigger] goes_on(g, c, b)
    }
}

/// A game from a stage is played to its end.
pub open spec fn plays_out(g: Setup, a: Stage, table: Table, heard: Seq<Answer>, r: Seq<DataEntry>) -> bool {
    exists|n: int, b: Stage| #[trigger] proceeds(g, a, n, b) && ends(g, b, table, heard, r)
}

/// A game before its first search.
pub open spec fn opened(p: Position, table: Table, heard: Seq<Answer>) -> Stage {
    Stage {
        p,
        entries: Seq::empty(),
        adjudication: Adjudication { high: 0, leader: None, low: 0 },
        ply: 0,
        table,
        heard,
    }
}

/// The move that a search plays, and its score.
fn search_move<H: Host>(
    engine: &mut Engine,
    board: &Board,
    params: &SearchParams,
    lmr_table: &Vec<u8>,
    table_pieces: Option<u32>,
    host: &mut Witness<H>,
    Ghost(g): Ghost<Setup>,
    Ghost(a): Ghost<Stage>,
) -> (r: (Move, Score))
    requires
        old(engine).ok(),
        old(engine)@.tune.divides(),
        lmr_table@.len() == 4096,
        board.ok(),
        whole(board@),
        !stuck(board@),
        clock_room(board@, 129),
        params.contempt == 0,
        g == (Setup {
            params: tuned(*params, old(engine)@.tune),
            net: old(engine).net(),
            lmr: lmr_table@,
            pieces: table_pieces,
        }),
        a.p == board@,
        a.table == old(engine).table(),
        a.heard == old(host).heard(),
    ensures
        final(engine).ok(),
        final(engine)@ == old(engine)@,
        final(engine).net() == old(engine).net(),
        legal_in(board@, r.0),
        exists|out: Outcome|
            #[trigger] found(g, a, out, final(engine).table(), final(host).heard()) && r == (
                out.best_move,
                believed(out.score),
            ),
{
    proof {
        reveal(whole);
        reveal(stuck);
        reveal(legal_in);
        reveal(found);
    }
    let result = engine.search(board, params, lmr_table, table_pieces, false, None, host);
    proof {
        let learned = choose|learned: Tables|
            #[trigger] comes_to(
                board@,
                g.params,
                (next_generation(a.table), Tables::blank()),
                (engine.table(), learned),
                g.net,
                g.lmr,
                0,
                g.pieces,
                None,
                false,
                None,
                (a.heard, host.heard()),
                outcome(result),
            );
        law_search_plays_a_legal_move(
            board@,
            g.params,
            (next_generation(a.table), Tables::blank()),
            (engine.table(), learned),
            g.net,
            g.lmr,
            0,
            g.pieces,
            None,
            false,
            None,
            (a.heard, host.heard()),
            outcome(result),
        );
        assert(found(g, a, outcome(result), engine.table(), host.heard()));
    }
    let score = if result.score.0 == i32::MIN { Score(-i32::MAX) } else { result.score };
    (result.best_move, score)
}

/// Plays a game from a position and returns the recorded positions, each with
/// the result of the game; none if the game is discarded.
fn play_from<H: Host>(
    engine: &mut Engine,
    start: Board,
    depth: u8,
    lmr_table: &Vec<u8>,
    table_pieces: Option<u32>,
    host: &mut Witness<H>,
) -> (r: Vec<DataEntry>)
    requires
        old(engine).ok(),
        old(engine)@.tune.divides(),
        lmr_table@.len() == 4096,
        start.ok(),
        coherent(start@),
        start@.halfmove <= 65_534,
        start@.fullmove <= 65_005,
    ensures
        final(engine).ok(),
        final(engine)@ == old(engine)@,
        final(engine).net() == old(engine).net(),
        r@.len() <= 401,
        forall|i: int| 0 <= i < r@.len() ==> entry_ok(#[trigger] r@[i]),
        forall|i: int| 0 <= i < r@.len() ==> (#[trigger] r@[i]).half_points == r@[0].half_points <= 2,
        plays_out(
            Setup {
                params: game_params(depth, old(engine)@),
                net: old(engine).net(),
                lmr: lmr_table@,
                pieces: table_pieces,
            },
            opened(start@, old(engine).table(), old(host).heard()),
            final(engine).table(),
            final(host).heard(),
            r@,
        ),
{
    let ghost begin = opened(start@, engine.table(), host.heard());
    let mut game = Game::new(start);
    let mut params = SearchParams::default();
    params.max_depth = depth;
    params.use_nnue = engine.use_nnue();
    params.contempt = 0;
    let ghost settings = engine@;
    let ghost g = Setup {
        params: game_params(depth, engine@),
        net: engine.net(),
        lmr: lmr_table@,
        pieces: table_pieces,
    };
    let ghost mut now = begin;
    let ghost mut searches: int = 0;
    proof {
        assert(game.entries@ =~= now.entries);
    }
    while game.ply <= MAX_GAME_PLIES + 1
        invariant
            settings == old(engine)@,
            engine.ok(),
            engine@ == settings,
            engine.net() == old(engine).net(),
            settings.tune.divides(),
            lmr_table@.len() == 4096,
            game.board.ok(),
            coherent(game.board@),
            game.ply <= 401,
            game.board@.halfmove <= 65_534,
            game.board@.fullmove <= 65_005 + game.ply,
            game.entries@.len() <= game.ply,
            forall|i: int| 0 <= i < game.entries@.len() ==> entry_ok(#[trigger] game.entries@[i]),
            params.contempt == 0,
            tuned(params, settings.tune) == game_params(depth, settings),
            g == (Setup {
                params: game_params(depth, settings),
                net: old(engine).net(),
                lmr: lmr_table@,
                pieces: table_pieces,
            }),
            begin == opened(start@, old(engine).table(), old(host).heard()),
            now == stage_of(game, engine.table(), host.heard()),
            searches >= 0,
            proceeds(g, begin, searches, now),
        decreases 402 - game.ply,
    {
        match judge(&game.board, &game.entries, game.ply) {
            Standing::Open => {},
            Standing::Discarded => {
                let none: Vec<DataEntry> = Vec::new();
                proof {
                    reveal(ends);
                    assert(ends(g, now, engine.table(), host.heard(), none@));
                }
                return none;
            },
            Standing::Over(ending) => {
                let ghost before = game.entries@;
                backfill_results(&mut game.entries, ending);
                proof {
                    lemma_backfilled(before, ending);
                    reveal(ends);
                    assert(ends(g, now, engine.table(), host.heard(), game.entries@));
                }
                return game.entries;
            },
        }
        let ghost before = game;
        proof {
            lemma_kinds_of_position(game.board@);
        }
        let (m, score) = search_move(
            engine,
            &game.board,
            &params,
            lmr_table,
            table_pieces,
            host,
            Ghost(g),
            Ghost(now),
        );
        let ghost out = choose|out: Outcome|
            #[trigger] found(g, now, out, engine.table(), host.heard()) && (m, score) == (
                out.best_move,
                believed(out.score),
            );
        if let Some(ending) = game.advance(m, score) {
            backfill_results(&mut game.entries, ending);
            proof {
                lemma_backfilled(before.entries@, ending);
                reveal(ends);
                assert(noted(now, out.score) == game.adjudication);
                assert(found(g, now, out, engine.table(), host.heard()));
                assert(ends(g, now, engine.table(), host.heard(), game.entries@));
            }
            return game.entries;
        }
        proof {
            lemma_records(before.entries@, game.entries@, before.board@, score);
            let next = stage_of(game, engine.table(), host.heard());
            assert(goes_on(g, now, next)) by {
                reveal(goes_on);
                assert(found(g, now, out, next.table, next.heard));
            }
            assert(proceeds(g, begin, searches, now));
            searches = searches + 1;
            assert(proceeds(g, begin, searches, next));
            now = next;
        }
    }
    proof {
        assert(false);
    }
    Vec::new()
}

/// A game with what its searches have left.
spec fn stage_of(game: Game, table: Table, heard: Seq<Answer>) -> Stage {
    Stage {
        p: game.board@,
        entries: game.entries@,
        adjudication: game.adjudication,
        ply: game.ply as int,
        table,
        heard,
    }
}

proof fn lemma_backfilled(before: Seq<DataEntry>, ending: Ending)
    requires
        forall|i: int| 0 <= i < before.len() ==> entry_ok(#[trigger] before[i]),
    ensures
        forall|i: int| 0 <= i < before.len() ==> entry_ok(#[trigger] closed_with(before, ending)[i]),
        forall|i: int| 0 <= i < before.len() ==> (#[trigger] closed_with(before, ending)[i]).half_points == points(ending),
{
    assert forall|i: int| 0 <= i < before.len() implies entry_ok(#[trigger] closed_with(before, ending)[i]) by {
        assert(entry_ok(before[i]));
    }
}

/// The start of a game has used every draw and every answer recorded for it.
pub open spec fn begun_game(start_fen: Option<&str>, randomize: bool, before: Record, after: Record) -> bool {
    let begun = start_of(start_fen, randomize, before, after);
    begun.used == after.drawn.len() && begun.asked == after.asked
}

/// Plays a single self-play game and returns training positions.
///
/// From a text the game starts there; otherwise from an opening of book and
/// random moves. The transposition table is not cleared; its entries stay
/// correct from game to game.
pub fn play_game<B: Openings, H: Host>(
    engine: &mut Engine,
    depth: u8,
    luck: &mut Luck<B>,
    start_fen: Option<&str>,
    randomize_after_fen: bool,
    lmr_table: &Vec<u8>,
    table_pieces: Option<u32>,
    host: &mut Witness<H>,
) -> (r: Vec<DataEntry>)
    requires
        old(engine).ok(),
        old(engine)@.tune.divides(),
        lmr_table@.len() == 4096,
        record_ok(old(luck).record()),
    ensures
        final(engine).ok(),
        final(engine)@ == old(engine)@,
        r@.len() <= 401,
        forall|i: int| 0 <= i < r@.len() ==> entry_ok(#[trigger] r@[i]),
        forall|i: int| 0 <= i < r@.len() ==> (#[trigger] r@[i]).half_points == r@[0].half_points <= 2,
        record_ok(final(luck).record()),
        begun_game(start_fen, randomize_after_fen, old(luck).record(), final(luck).record()),
        match start_of(start_fen, randomize_after_fen, old(luck).record(), final(luck).record()).end {
            Some(p) => plays_out(
                Setup {
                    params: game_params(depth, old(engine)@),
                    net: old(engine).net(),
                    lmr: lmr_table@,
                    pieces: table_pieces,
                },
                opened(p, old(engine).table(), old(host).heard()),
                final(engine).table(),
                final(host).heard(),
                r@,
            ),
            None => r@.len() == 0 && final(engine).table() == old(engine).table() && final(host).heard() == old(
                host,
            ).heard(),
        },
{
    let start = match start_fen {
        Some(fen) => start_from_fen(fen, randomize_after_fen, luck),
        None => play_opening(luck),
    };
    match start {
        Some(board) => {
            proof {
                lemma_kinds_of_position(board@);
            }
            play_from(engine, board, depth, lmr_table, table_pieces, host)
        },
        None => Vec::new(),
    }
}

} // verus!
