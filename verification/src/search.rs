//! What all parts of a search share: its settings, its state, and the world
//! around it.

use vstd::prelude::*;
use crate::arith::clamp;
use crate::attacks::{in_check, is_in_check};
use crate::board::{Board, Position};
use crate::eval::{evaluate_with_params, scale_with_params, scaled_score, score_of};
use crate::eval_params::EvalParams;
use crate::history::{contexts_ok, PersistentHistory, PlyContext, Tables, MAX_PLY};
use crate::movegen::in_check_after;
use crate::moves::Move;
use crate::nnue::accumulator::Accumulator;
use crate::nnue::incremental::{evaluate_position, position_value};
use crate::nnue::network::NnueNetwork;
use crate::params::{SearchInfo, TuneParams};
use crate::see::{law_see_bounds, see_ge, static_exchange};
use crate::syzygy::{ProbeInputs, Wdl};
use crate::timing::NodeShare;
use crate::tt::{lemma_found_score, SharedTT, TTData, TTFlag, Table};
use crate::types::Color;

verus! {

/// Scores beyond this are mates.
pub const MATE_THRESHOLD: i32 = 29_000;

/// What is reported of one line.
pub struct Info {
    pub depth: u8,
    pub seldepth: u8,
    pub score: i32,
    pub nodes: u64,
    pub time_ms: u64,
    pub pv: Seq<Move>,
    pub hashfull: int,
    pub line: int,
}

/// The content of a report.
pub open spec fn info_of(info: SearchInfo) -> Info {
    Info {
        depth: info.depth,
        seldepth: info.seldepth,
        score: info.score.0,
        nodes: info.nodes,
        time_ms: info.time_ms,
        pv: info.pv@,
        hashfull: info.hashfull as int,
        line: info.multipv_line as int,
    }
}

/// What came back from the world around a search, and what was asked. A report
/// is a question that needs no answer.
pub enum Answer {
    Begun,
    Told(Info),
    Counted(u64),
    Stop(bool),
    Clock(u64),
    Probe(ProbeInputs, Option<Wdl>),
    Share(u64, u64, NodeShare),
    Steady(Seq<i32>, Seq<i32>, Option<i32>),
}

/// What a search asks the world around it.
pub enum Question {
    Begun,
    Told(Info),
    Counted(u64),
    Stop,
    Clock,
    Probe(ProbeInputs),
    Share(u64, u64),
    Steady(Seq<i32>, Seq<i32>),
}

impl Answer {
    /// The question that was answered.
    pub open spec fn question(self) -> Question {
        match self {
            Answer::Begun => Question::Begun,
            Answer::Told(info) => Question::Told(info),
            Answer::Counted(nodes) => Question::Counted(nodes),
            Answer::Stop(_) => Question::Stop,
            Answer::Clock(_) => Question::Clock,
            Answer::Probe(inputs, _) => Question::Probe(inputs),
            Answer::Share(best, total, _) => Question::Share(best, total),
            Answer::Steady(stable, best, _) => Question::Steady(stable, best),
        }
    }
}

/// The questions of a log.
pub open spec fn questions(log: Seq<Answer>) -> Seq<Question> {
    Seq::new(log.len(), |i: int| log[i].question())
}

/// One more answer is one more question.
pub proof fn lemma_questions_push(log: Seq<Answer>, a: Answer)
    ensures
        questions(log.push(a)) == questions(log).push(a.question()),
{
    assert(questions(log.push(a)) =~= questions(log).push(a.question()));
}

/// The world around a search: a stop signal, a clock, and endgame tables. A
/// search may not rely on what comes back.
pub trait Host {
    /// A search begins: its clock starts.
    fn begin(&mut self);

    /// Whether the search was told to stop.
    fn stop_requested(&mut self) -> bool;

    /// Milliseconds since the search began.
    fn elapsed_ms(&mut self) -> u64;

    /// Look a position up in the endgame tables.
    fn probe_wdl(&mut self, inputs: ProbeInputs) -> Option<Wdl>;

    /// How the nodes spent on the best root move compare to those spent on all.
    fn node_share(&mut self, best: u64, total: u64) -> NodeShare;

    /// Whether the averaged scores of a move that was long the best clearly beat
    /// those of the best move now, and if so the average. The scores are those
    /// of the completed iterations, the oldest first.
    fn steadier(&mut self, stable: &Vec<i32>, best: &Vec<i32>) -> Option<i32>;

    /// Takes note of the state of the search.
    fn report(&mut self, info: &SearchInfo);

    /// Takes note of the nodes searched so far.
    fn count_nodes(&mut self, nodes: u64);
}

/// A world without stop signal, clock, tables or anyone who listens.
#[derive(Clone, Copy, Debug)]
pub struct Alone;

impl Host for Alone {
    fn begin(&mut self) {
    }

    fn stop_requested(&mut self) -> (r: bool)
        ensures
            !r,
    {
        false
    }

    fn elapsed_ms(&mut self) -> (r: u64)
        ensures
            r == 0,
    {
        0
    }

    fn probe_wdl(&mut self, inputs: ProbeInputs) -> (r: Option<Wdl>)
        ensures
            r is None,
    {
        let _ = inputs;
        None
    }

    fn node_share(&mut self, best: u64, total: u64) -> (r: NodeShare)
        ensures
            r == (NodeShare { most: best * 100 > total * 80, few: best * 100 < total * 50, unsure: best * 100 < total * 55 }),
    {
        let b: u128 = best as u128;
        let t: u128 = total as u128;
        NodeShare { most: b * 100 > t * 80, few: b * 100 < t * 50, unsure: b * 100 < t * 55 }
    }

    fn steadier(&mut self, stable: &Vec<i32>, best: &Vec<i32>) -> (r: Option<i32>)
        ensures
            r is None,
    {
        let _ = stable;
        let _ = best;
        None
    }

    fn report(&mut self, info: &SearchInfo) {
        let _ = info;
    }

    fn count_nodes(&mut self, nodes: u64) {
        let _ = nodes;
    }
}

/// A host with a record of its answers. Nothing is recorded that the host did
/// not answer.
pub struct Witness<H: Host> {
    host: H,
    heard: Ghost<Seq<Answer>>,
}

impl<H: Host> Witness<H> {
    /// Everything that was answered so far.
    pub closed spec fn heard(&self) -> Seq<Answer> {
        self.heard@
    }

    /// The host as it is.
    pub closed spec fn inner(&self) -> H {
        self.host
    }

    /// Begin a record.
    pub fn new(host: H) -> (r: Self)
        ensures
            r.inner() == host,
            r.heard() == Seq::<Answer>::empty(),
    {
        Witness { host, heard: Ghost(Seq::empty()) }
    }

    /// Give the host back.
    pub fn into_host(self) -> (r: H)
        ensures
            r == self.inner(),
    {
        self.host
    }

    pub fn begin(&mut self)
        ensures
            final(self).heard() == old(self).heard().push(Answer::Begun),
    {
        self.host.begin();
        proof {
            self.heard@ = self.heard@.push(Answer::Begun);
        }
    }

    pub fn stop_requested(&mut self) -> (r: bool)
        ensures
            final(self).heard() == old(self).heard().push(Answer::Stop(r)),
    {
        let r = self.host.stop_requested();
        proof {
            self.heard@ = self.heard@.push(Answer::Stop(r));
        }
        r
    }

    pub fn elapsed_ms(&mut self) -> (r: u64)
        ensures
            final(self).heard() == old(self).heard().push(Answer::Clock(r)),
    {
        let r: u64 = self.host.elapsed_ms();
        proof {
            self.heard@ = self.heard@.push(Answer::Clock(r));
        }
        r
    }

    pub fn probe_wdl(&mut self, inputs: ProbeInputs) -> (r: Option<Wdl>)
        ensures
            final(self).heard() == old(self).heard().push(Answer::Probe(inputs, r)),
    {
        let r = self.host.probe_wdl(inputs);
        proof {
            self.heard@ = self.heard@.push(Answer::Probe(inputs, r));
        }
        r
    }

    pub fn node_share(&mut self, best: u64, total: u64) -> (r: NodeShare)
        ensures
            final(self).heard() == old(self).heard().push(Answer::Share(best, total, r)),
    {
        let r = self.host.node_share(best, total);
        proof {
            self.heard@ = self.heard@.push(Answer::Share(best, total, r));
        }
        r
    }

    pub fn steadier(&mut self, stable: &Vec<i32>, best: &Vec<i32>) -> (r: Option<i32>)
        ensures
            final(self).heard() == old(self).heard().push(Answer::Steady(stable@, best@, r)),
    {
        let r = self.host.steadier(stable, best);
        proof {
            self.heard@ = self.heard@.push(Answer::Steady(stable@, best@, r));
        }
        r
    }

    pub fn report(&mut self, info: &SearchInfo)
        ensures
            final(self).heard() == old(self).heard().push(Answer::Told(info_of(*info))),
    {
        self.host.report(info);
        proof {
            self.heard@ = self.heard@.push(Answer::Told(info_of(*info)));
        }
    }

    pub fn count_nodes(&mut self, nodes: u64)
        ensures
            final(self).heard() == old(self).heard().push(Answer::Counted(nodes)),
    {
        self.host.count_nodes(nodes);
        proof {
            self.heard@ = self.heard@.push(Answer::Counted(nodes));
        }
    }
}

/// A log that goes on where another ends.
pub open spec fn extends(l: Seq<Answer>, s: Seq<Answer>) -> bool {
    s.len() <= l.len() && forall|i: int| 0 <= i < s.len() ==> #[trigger] l[i] == s[i]
}

/// The settings of a search.
pub struct Config {
    pub eval: EvalParams,
    pub use_nnue: bool,
    /// Late move reductions, by depth and number of the move.
    pub lmr_table: Vec<u8>,
    pub tune: TuneParams,
    pub contempt: i32,
    pub singular_ext_mode: u8,
    /// Plies played before the search.
    pub game_ply: usize,
    pub time_limit_ms: Option<u64>,
    pub max_nodes: Option<u64>,
    /// The largest number of pieces that the endgame tables cover.
    pub table_pieces: Option<u32>,
}

impl Config {
    pub open spec fn ok(&self) -> bool {
        &&& self.eval.tame()
        &&& self.lmr_table@.len() == 4096
        &&& self.tune.divides()
        &&& -2_000_000_000 <= self.contempt <= 2_000_000_000
    }
}

/// The settings, the network, and everything that the world around answers.
pub struct Env {
    pub cfg: Config,
    pub net: NnueNetwork,
    pub log: Seq<Answer>,
}

pub open spec fn env(cfg: Config, net: NnueNetwork, log: Seq<Answer>) -> Env {
    Env { cfg, net, log }
}

/// The network can be used, or is not.
pub open spec fn net_ok(cfg: Config, net: NnueNetwork) -> bool {
    cfg.use_nnue ==> net.ok()
}

/// The state of a search.
pub struct SearchState {
    pub tt: SharedTT,
    pub tables: PersistentHistory,
    /// Quiet moves that caused cutoffs, two per ply.
    pub killers: Vec<(Move, Move)>,
    pub contexts: Vec<PlyContext>,
    pub static_evals: Vec<i32>,
    pub accumulators: Vec<Accumulator>,
    pub nodes: u64,
    pub seldepth: u8,
    pub stop: bool,
    /// What the world around has answered so far.
    pub log: Ghost<Seq<Answer>>,
}

/// The content of a [`SearchState`], accumulators aside.
pub struct Run {
    pub tt: Table,
    pub tables: Tables,
    pub killers: Seq<(Move, Move)>,
    pub ctxs: Seq<PlyContext>,
    pub evals: Seq<i32>,
    pub nodes: u64,
    pub seldepth: u8,
    pub stop: bool,
    /// What was asked so far.
    pub asked: Seq<Question>,
}

/// What a search of a position comes to.
pub struct Out {
    pub score: i32,
    pub pv: Seq<Move>,
    pub run: Run,
}

impl View for SearchState {
    type V = Run;

    open spec fn view(&self) -> Run {
        Run {
            tt: self.tt@,
            tables: self.tables@,
            killers: self.killers@,
            ctxs: self.contexts@,
            evals: self.static_evals@,
            nodes: self.nodes,
            seldepth: self.seldepth,
            stop: self.stop,
            asked: questions(self.log@),
        }
    }
}

/// The state of a search has noted all that was answered.
pub open spec fn in_step<H: Host>(state: SearchState, host: Witness<H>) -> bool {
    state.log@ == host.heard()
}

impl SearchState {
    pub open spec fn ok(&self) -> bool {
        &&& self.tt@.ok()
        &&& self.tables@.ok()
        &&& self.killers@.len() == 128
        &&& contexts_ok(self.contexts@)
        &&& self.static_evals@.len() == 128
        &&& self.accumulators@.len() == 128
    }

    /// The accumulator of a ply is valid for a position.
    pub open spec fn acc_ok(&self, cfg: Config, net: NnueNetwork, p: Position, ply: int) -> bool {
        cfg.use_nnue && ply < 128 ==> self.accumulators@[ply].valid_for(net, p)
    }

    /// The accumulators of the plies before one are as they were.
    pub open spec fn keeps_below(&self, before: &SearchState, ply: int) -> bool {
        forall|q: int| 0 <= q < ply && q < 128 ==> #[trigger] self.accumulators@[q] == before.accumulators@[q]
    }
}

/// The move counters leave room for a number of moves.
pub open spec fn clock_room(p: Position, n: int) -> bool {
    p.halfmove + n <= 65535 && p.fullmove + n <= 65535
}

// Stopping.
/// Whether the search should stop, and the state after asking.
#[verifier::opaque]
pub open spec fn should_stop(e: Env, r: Run) -> (bool, Run) {
    if r.stop {
        (true, r)
    } else {
        let r1 = Run { asked: r.asked.push(Question::Stop), ..r };
        if e.log[r.asked.len() as int]->Stop_0 {
            (true, r1)
        } else {
            let spent = e.cfg.max_nodes is Some && r.nodes >= e.cfg.max_nodes->Some_0;
            match e.cfg.time_limit_ms {
                Some(limit) => {
                    let r2 = Run { asked: r1.asked.push(Question::Clock), ..r };
                    (e.log[r1.asked.len() as int]->Clock_0 >= limit || spent, r2)
                },
                None => (spent, r1),
            }
        }
    }
}

/// Every 1024 nodes the search looks whether it should stop.
#[verifier::opaque]
pub open spec fn polled(e: Env, r: Run) -> (bool, Run) {
    if r.nodes % 1024 == 0 {
        let (s, r1) = should_stop(e, r);
        (s, if s { Run { stop: true, ..r1 } } else { r1 })
    } else {
        (false, r)
    }
}

// Scores.
/// A mate score counted from this position instead of from the root.
pub open spec fn to_tt(score: int, ply: int) -> int {
    if score > 29_000 {
        score + ply
    } else if score < -29_000 {
        score - ply
    } else {
        score
    }
}

/// A mate score counted from the root instead of from this position.
pub open spec fn from_tt(score: int, ply: int) -> int {
    if score > 29_000 {
        score - ply
    } else if score < -29_000 {
        score + ply
    } else {
        score
    }
}

/// A score that is adjusted for a store at a ply and adjusted back there is the
/// same, mate or not.
pub proof fn law_mate_score_round_trip(score: int, ply: int)
    requires
        ply >= 0,
    ensures
        from_tt(to_tt(score, ply), ply) == score,
{
}

/// Adjust a mate score from root-relative to position-relative before a store.
/// Other scores pass through unchanged.
pub fn score_to_tt(score: i32, ply: u8) -> (r: i32)
    requires
        -2_147_483_000 <= score <= 2_147_483_000,
    ensures
        r == to_tt(score as int, ply as int),
{
    if score > MATE_THRESHOLD {
        score + ply as i32
    } else if score < -MATE_THRESHOLD {
        score - ply as i32
    } else {
        score
    }
}

/// Adjust a mate score from position-relative to root-relative after a probe.
/// Other scores pass through unchanged.
pub fn score_from_tt(score: i32, ply: u8) -> (r: i32)
    ensures
        r == from_tt(score as int, ply as int),
{
    if score > MATE_THRESHOLD {
        score - ply as i32
    } else if score < -MATE_THRESHOLD {
        score + ply as i32
    } else {
        score
    }
}

/// A stored bound that settles a window.
pub open spec fn bound_settles(flag: TTFlag, score: int, alpha: int, beta: int) -> bool {
    match flag {
        TTFlag::Exact => true,
        TTFlag::LowerBound => score >= beta,
        TTFlag::UpperBound => score <= alpha,
    }
}

pub fn settles(flag: TTFlag, score: i32, alpha: i32, beta: i32) -> (r: bool)
    ensures
        r == bound_settles(flag, score as int, alpha as int, beta as int),
{
    match flag {
        TTFlag::Exact => true,
        TTFlag::LowerBound => score >= beta,
        TTFlag::UpperBound => score <= alpha,
    }
}

/// A score for White as one for the side to move, and back.
pub open spec fn for_side(side: Color, score: int) -> int {
    match side {
        Color::White => score,
        Color::Black => -score,
    }
}

/// The evaluation of a position for the side to move.
#[verifier::opaque]
pub open spec fn plain_eval(e: Env, p: Position) -> int {
    for_side(p.side, score_of(p, e.cfg.eval))
}

/// The evaluation by the network if it is used, with the endgame scale, or by
/// hand-written terms; corrected by what was learned, as far as a score can be.
#[verifier::opaque]
pub open spec fn static_eval(e: Env, p: Position, r: Run, ply: int) -> int {
    let plain = if e.cfg.use_nnue && ply < 128 {
        for_side(p.side, scaled_score(p, e.cfg.eval, for_side(p.side, position_value(e.net, p))))
    } else {
        plain_eval(e, p)
    };
    clamp(
        plain + r.tables.correction(p, r.ctxs, ply, e.cfg.tune.corrhist_mult as int),
        -2_147_064_000,
        2_147_064_000,
    )
}

/// The evaluation for the side to move.
pub fn plain_evaluate(board: &Board, cfg: &Config, Ghost(net): Ghost<NnueNetwork>) -> (r: i32)
    requires
        cfg.ok(),
    ensures
        forall|l: Seq<Answer>| r == #[trigger] plain_eval(env(*cfg, net, l), board@),
        -2_147_000_000 <= r <= 2_147_000_000,
{
    proof {
        reveal(plain_eval);
    }
    let eval: i32 = evaluate_with_params(board, &cfg.eval).0;
    match board.side_to_move {
        Color::White => eval,
        Color::Black => -eval,
    }
}

/// The corrected evaluation for the side to move.
pub fn evaluate_for_side(board: &Board, ply: u8, state: &mut SearchState, cfg: &Config, net: &NnueNetwork) -> (r: i32)
    requires
        cfg.ok(),
        net_ok(*cfg, *net),
        old(state).ok(),
        old(state).acc_ok(*cfg, *net, board@, ply as int),
    ensures
        forall|l: Seq<Answer>|
            r == #[trigger] static_eval(env(*cfg, *net, l), board@, old(state)@, ply as int),
        -2_147_064_000 <= r <= 2_147_064_000,
        final(state).ok(),
        final(state)@ == old(state)@,
        final(state).log == old(state).log,
        final(state).acc_ok(*cfg, *net, board@, ply as int),
        final(state).keeps_below(old(state), ply as int),
{
    let ghost r0 = state@;
    let eval: i32 = if cfg.use_nnue && (ply as usize) < MAX_PLY {
        let mut acc = state.accumulators[ply as usize].copied();
        let raw: i32 = evaluate_position(&mut acc, board, net);
        state.accumulators.set(ply as usize, acc);
        match board.side_to_move {
            Color::White => scale_with_params(board, &cfg.eval, raw),
            Color::Black => -scale_with_params(board, &cfg.eval, -raw),
        }
    } else {
        plain_evaluate(board, cfg, Ghost(*net))
    };
    let correction: i32 = state.tables.correction(board, &state.contexts, ply, cfg.tune.corrhist_mult);
    let sum: i64 = eval as i64 + correction as i64;
    let corrected: i32 = if sum < -2_147_064_000 {
        -2_147_064_000
    } else if sum > 2_147_064_000 {
        2_147_064_000
    } else {
        sum as i32
    };
    proof {
        assert(state@ == r0);
        assert forall|l: Seq<Answer>| corrected == #[trigger] static_eval(env(*cfg, *net, l), board@, r0, ply as int) by {
            reveal(static_eval);
            reveal(plain_eval);
        }
    }
    corrected
}

// Draws.
/// The position occurred at least twice before.
pub open spec fn occurred_twice(p: Position) -> bool {
    exists|i: int, j: int|
        0 <= i < j < p.history.len() && #[trigger] p.history[i] == p.hash && #[trigger] p.history[j] == p.hash
}

/// The position occurred before since a ply of the game, with no irreversible
/// move after.
pub open spec fn occurred_since(p: Position, game_ply: int) -> bool {
    exists|i: int|
        game_ply <= i < p.history.len() && p.history.len() - i <= p.halfmove && #[trigger] p.history[i] == p.hash
}

/// The position occurred before within a number of plies, with no irreversible
/// move after.
pub open spec fn occurred_within(p: Position, plies: int) -> bool {
    exists|i: int|
        0 <= i < p.history.len() && p.history.len() - i <= p.halfmove && p.history.len() - i <= plies
            && #[trigger] p.history[i] == p.hash
}

/// The position counts as drawn within a search: by the fifty-move rule or by
/// repetition.
#[verifier::opaque]
pub open spec fn drawn(p: Position, game_ply: int) -> bool {
    ||| p.halfmove >= 100
    ||| occurred_since(p, game_ply)
    ||| occurred_twice(p)
    ||| occurred_within(p, game_ply)
}

pub fn is_drawn(board: &Board, game_ply: usize) -> (r: bool)
    ensures
        r == drawn(board@, game_ply as int),
{
    proof {
        reveal(drawn);
    }
    board.halfmove_clock >= 100 || board.is_twofold_in_search(game_ply) || board.is_repetition() || board.has_repeated(
        game_ply,
    )
}

// Moves.
/// The position after a move.
#[verifier::opaque]
pub open spec fn played(p: Position, m: Move) -> Position {
    p.after(m)
}

/// The side to move is in check.
#[verifier::opaque]
pub open spec fn checked(p: Position) -> bool {
    in_check(p, p.side)
}

/// The exchange value of a move.
#[verifier::opaque]
pub open spec fn exchange(p: Position, m: Move) -> int {
    static_exchange(p, m)
}

/// The move is tried: it can be played, and it is legal.
#[verifier::opaque]
pub open spec fn tries(p: Position, m: Move) -> bool {
    p.fits(m) && !in_check_after(p, m)
}

pub fn is_checked(board: &Board) -> (r: bool)
    ensures
        r == checked(board@),
{
    proof {
        reveal(checked);
    }
    is_in_check(board)
}

/// Whether the exchange value of a move is at least a threshold.
pub fn exchange_at_least(board: &Board, m: Move, threshold: i64) -> (r: bool)
    requires
        board@.consistent(),
    ensures
        r == (exchange(board@, m) >= threshold),
{
    proof {
        reveal(exchange);
        law_see_bounds(board@, m);
    }
    // No exchange is worth more than a few pieces.
    if threshold < -1_000_000 {
        true
    } else if threshold > 1_000_000 {
        false
    } else {
        see_ge(board, m, threshold as i32)
    }
}

impl Run {
    /// The state with an entry stored.
    #[verifier::opaque]
    pub open spec fn stored(self, hash: u64, depth: u8, score: int, flag: TTFlag, m: Move) -> Run {
        Run { tt: self.tt.stored(hash, depth, score, flag, m), ..self }
    }

    /// What is stored for a position.
    #[verifier::opaque]
    pub open spec fn found(self, hash: u64) -> Option<TTData> {
        self.tt.found(hash)
    }

    /// The state after one more node.
    pub open spec fn counted(self) -> Run {
        Run { nodes: self.nodes.wrapping_add(1), ..self }
    }
}

impl SearchState {
    /// Store what was found out about a position.
    pub fn store(&mut self, hash: u64, depth: u8, score: i32, flag: TTFlag, m: Move)
        requires
            old(self).ok(),
        ensures
            final(self).ok(),
            final(self)@ == old(self)@.stored(hash, depth, score as int, flag, m),
            final(self)@.stop == old(self)@.stop,
            final(self).log == old(self).log,
            final(self).accumulators == old(self).accumulators,
    {
        proof {
            reveal(Run::stored);
        }
        self.tt.store(hash, depth, score, flag, m);
    }

    /// What is stored for a position.
    pub fn probe(&self, hash: u64) -> (r: Option<TTData>)
        requires
            self.ok(),
        ensures
            r == self@.found(hash),
            r is Some ==> -32768 <= r->Some_0.score <= 32767,
    {
        proof {
            reveal(Run::found);
            lemma_found_score(self.tt@, hash);
        }
        self.tt.probe(hash)
    }

    /// Whether to stop: told to, out of time, or out of nodes.
    pub fn should_stop<H: Host>(&mut self, cfg: &Config, net: Ghost<NnueNetwork>, host: &mut Witness<H>) -> (s: bool)
        requires
            in_step(*old(self), *old(host)),
            old(self).ok(),
        ensures
            in_step(*final(self), *final(host)),
            final(self).ok(),
            final(self).accumulators == old(self).accumulators,
            extends(final(self).log@, old(self).log@),
            forall|l: Seq<Answer>|
                extends(l, final(self).log@) ==> #[trigger] should_stop(env(*cfg, net@, l), old(self)@) == (
                    s,
                    final(self)@,
                ),
    {
        proof {
            reveal(should_stop);
        }
        if self.stop {
            return true;
        }
        let told = host.stop_requested();
        proof {
            lemma_questions_push(self.log@, Answer::Stop(told));
            self.log@ = self.log@.push(Answer::Stop(told));
        }
        if told {
            return true;
        }
        let spent = match cfg.max_nodes {
            Some(max) => self.nodes >= max,
            None => false,
        };
        if let Some(limit) = cfg.time_limit_ms {
            let elapsed: u64 = host.elapsed_ms();
            proof {
                lemma_questions_push(self.log@, Answer::Clock(elapsed));
                self.log@ = self.log@.push(Answer::Clock(elapsed));
            }
            return elapsed >= limit || spent;
        }
        spent
    }

    /// Look whether to stop, every 1024 nodes.
    pub fn poll<H: Host>(&mut self, cfg: &Config, net: Ghost<NnueNetwork>, host: &mut Witness<H>) -> (s: bool)
        requires
            in_step(*old(self), *old(host)),
            old(self).ok(),
        ensures
            in_step(*final(self), *final(host)),
            final(self).ok(),
            final(self).accumulators == old(self).accumulators,
            extends(final(self).log@, old(self).log@),
            forall|l: Seq<Answer>|
                extends(l, final(self).log@) ==> #[trigger] polled(env(*cfg, net@, l), old(self)@) == (s, final(self)@),
    {
        let ghost r0 = self@;
        proof {
            reveal(polled);
        }
        if self.nodes % 1024 == 0 {
            let s = self.should_stop(cfg, net, host);
            let ghost r1 = self@;
            if s {
                self.stop = true;
            }
            proof {
                assert forall|l: Seq<Answer>| extends(l, self.log@) implies #[trigger] polled(env(*cfg, net@, l), r0) == (
                    s,
                    self@,
                ) by {
                    assert(should_stop(env(*cfg, net@, l), r0) == (s, r1));
                }
            }
            s
        } else {
            false
        }
    }
}

} // verus!
