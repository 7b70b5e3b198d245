//! A whole search: book, forced moves, and iterative deepening.

use vstd::prelude::*;
use crate::alphabeta::{ab, alpha_beta};
use crate::arith::{clamp, clamp_i32, min_of};
use crate::aspiration::order_ok;
use crate::attacks::{in_check, is_in_check};
use crate::board::{Board, Position};
use crate::deepening::{deepen_all, ended, outcome, Outcome, Plan};
use crate::eval::{evaluate, score_of};
use crate::eval_params::EvalParams;
use crate::history::{PersistentHistory, PlyContext, Tables};
use crate::lines::{index_of, legal_in, playable, position_of, sanitize_pv};
use crate::movegen::{generate_legal_moves, legal_moves};
use crate::movegen_laws::{law_generated_iff_pseudo_legal, law_generated_moves_fit, law_legal_iff};
use crate::moves::Move;
use crate::nnue::accumulator::Accumulator;
use crate::nnue::network::NnueNetwork;
use crate::ordering::Scored;
use crate::params::{SearchInfo, SearchParams, SearchResult};
use crate::quiescence::{advance_accumulator, line_of, make_legal, score_ok, set_line};
use crate::root::swapped;
use crate::search::{clock_room, env, extends, for_side, info_of, lemma_questions_push, net_ok, played, questions, tries, Answer, Config, Env, Host, Info, Out, Question, Run, SearchState, Witness};
use crate::search_laws::{again_since, lemma_drawn_or_stopped, thrice};
use crate::timing::{compute_time_limit, time_limit};
use crate::tt::{SharedTT, Table};
use crate::types::{Color, Score};

verus! {

/// Depth offsets of helper threads, so that they search different depths.
pub const DEPTH_OFFSETS: [i8; 16] = [0, 1, -1, 2, -2, 1, -1, 3, -3, 2, -2, 1, -1, 4, -4, 3];

/// The depth offset of a thread; the main thread has none.
pub open spec fn offset_of(thread_id: int) -> i8 {
    DEPTH_OFFSETS@[thread_id % 16]
}

pub fn depth_offset(thread_id: usize) -> (r: i8)
    ensures
        r == offset_of(thread_id as int),
        thread_id == 0 ==> r == 0,
{
    DEPTH_OFFSETS[thread_id % 16]
}

/// Extra time for the first moves after the opening book, in thousandths.
pub open spec fn book_exit_bonus(has_book: bool, game_ply: int) -> int {
    if has_book && 8 <= game_ply <= 33 {
        if game_ply <= 20 {
            200
        } else {
            200 * (33 - game_ply) / 13
        }
    } else {
        0
    }
}

fn bonus_after_book(has_book: bool, game_ply: usize) -> (r: u64)
    ensures
        r == book_exit_bonus(has_book, game_ply as int),
        r <= 200,
{
    if has_book && 8 <= game_ply && game_ply <= 33 {
        if game_ply <= 20 {
            200
        } else {
            200 * (33 - game_ply) as u64 / 13
        }
    } else {
        0
    }
}

/// The book may be used in the opening only, since keys of other positions
/// could collide later.
pub fn may_use_book(board: &Board) -> (r: bool)
    ensures
        r == (board@.history.len() <= 30),
{
    board.position_history.len() <= 30
}

/// The score reported for a book move: the static evaluation, kept small.
pub open spec fn book_score(p: Position, params: EvalParams) -> int {
    clamp(for_side(p.side, clamp(score_of(p, params), -28_999, 28_999)), -40, 40)
}

/// The state of a search before it begins.
pub open spec fn fresh_run(tt: Table, tables: Tables, asked: Seq<Question>) -> Run {
    Run {
        tt,
        tables,
        killers: Seq::new(128, |i: int| (Move(0), Move(0))),
        ctxs: Seq::new(128, |i: int| PlyContext { piece_kind: 0, to_sq: 0 }),
        evals: Seq::new(128, |i: int| 0i32),
        nodes: 0,
        seldepth: 0,
        stop: false,
        asked,
    }
}

/// The settings are those that were asked for.
pub open spec fn configured(
    cfg: Config,
    params: SearchParams,
    lmr: Seq<u8>,
    game_ply: int,
    limit: Option<u64>,
    max_nodes: Option<u64>,
    pieces: Option<u32>,
) -> bool {
    &&& cfg.eval.is_default()
    &&& cfg.use_nnue == params.use_nnue
    &&& cfg.lmr_table@ == lmr
    &&& cfg.tune == params.tune
    &&& cfg.contempt == params.contempt
    &&& cfg.singular_ext_mode == params.singular_ext_mode
    &&& cfg.game_ply == game_ply
    &&& cfg.time_limit_ms == limit
    &&& cfg.max_nodes == max_nodes
    &&& cfg.table_pieces == pieces
}

/// The plan is that of a search with several root moves.
pub open spec fn planned(
    plan: Plan,
    p: Position,
    params: SearchParams,
    thread_id: int,
    has_book: bool,
    solution: Option<(Score, Vec<Move>)>,
) -> bool {
    &&& plan.moves@ == legal_moves(p)
    &&& plan.max_depth == min_of(params.max_depth as int, 128)
    &&& plan.offset == offset_of(thread_id)
    &&& plan.multi_pv == params.multi_pv
    &&& plan.limit == time_limit(params, p)
    &&& plan.book_bonus == book_exit_bonus(has_book, p.history.len() as int)
    &&& plan.solution is Some <==> solution is Some
    &&& solution is Some ==> plan.solution->Some_0.0 == solution->Some_0.0 && plan.solution->Some_0.1@ == playable(
        p,
        solution->Some_0.1@,
    )
}

/// The root moves before the first iteration: unscored, the hash move first.
pub open spec fn first_order(p: Position, r: Run) -> Seq<Scored> {
    let moves = legal_moves(p);
    let s = Seq::new(moves.len(), |i: int| Scored { m: moves[i], score: 0 });
    match r.found(p.hash) {
        Some(entry) => if entry.best_move.0 != 0 { swapped(s, index_of(s, entry.best_move, 0)) } else { s },
        None => s,
    }
}

/// What a forced move comes to: a quick search of the position after it, a look
/// at the clock, and a report.
#[verifier::opaque]
pub open spec fn forced(e: Env, p: Position, m: Move, tt: Table, asked: Seq<Question>) -> (Outcome, Table, Seq<Question>) {
    let out = ab(e, played(p, m), 10, 1, -2147483647, 2147483647, m, Move(0), fresh_run(tt, Tables::blank(), asked));
    let score = (-out.score) as i32;
    let pv = playable(p, line_of(m, out.pv));
    let info = Info {
        depth: 10,
        seldepth: out.run.seldepth,
        score,
        nodes: out.run.nodes,
        time_ms: e.log[out.run.asked.len() as int]->Clock_0,
        pv,
        hashfull: out.run.tt.fullness(),
        line: 1,
    };
    (
        Outcome { best_move: m, score, depth: 10, nodes: out.run.nodes, pv },
        out.run.tt,
        out.run.asked.push(Question::Clock).push(Question::Told(info)),
    )
}

/// What iterative deepening comes to.
#[verifier::opaque]
pub open spec fn thought(
    e: Env,
    p: Position,
    plan: Plan,
    tt: Table,
    tables: Tables,
    asked: Seq<Question>,
) -> (Outcome, Run) {
    let r = fresh_run(tt, tables, asked);
    ended(e, p, plan, first_order(p, r), r)
}

fn copy_bytes(v: &Vec<u8>) -> (r: Vec<u8>)
    ensures
        r@ == v@,
{
    let mut out: Vec<u8> = Vec::new();
    let mut i: usize = 0;
    while i < v.len()
        invariant
            i <= v@.len(),
            out@ == v@.take(i as int),
        decreases v@.len() - i,
    {
        out.push(v[i]);
        i = i + 1;
        proof {
            assert(out@ =~= v@.take(i as int));
        }
    }
    proof {
        assert(v@.take(i as int) =~= v@);
    }
    out
}

fn configure(
    params: &SearchParams,
    lmr: &Vec<u8>,
    game_ply: usize,
    limit: Option<u64>,
    max_nodes: Option<u64>,
    pieces: Option<u32>,
) -> (r: Config)
    ensures
        configured(r, *params, lmr@, game_ply as int, limit, max_nodes, pieces),
        r.eval.tame(),
{
    Config {
        eval: EvalParams::default(),
        use_nnue: params.use_nnue,
        lmr_table: copy_bytes(lmr),
        tune: params.tune,
        contempt: params.contempt,
        singular_ext_mode: params.singular_ext_mode,
        game_ply,
        time_limit_ms: limit,
        max_nodes,
        table_pieces: pieces,
    }
}

impl SearchState {
    /// The state of a search before it begins.
    pub fn new(tt: SharedTT, tables: PersistentHistory) -> (r: Self)
        requires
            tt@.ok(),
            tables@.ok(),
        ensures
            r.ok(),
            r@ == fresh_run(tt@, tables@, Seq::empty()),
            r.log@ == Seq::<Answer>::empty(),
    {
        let mut killers: Vec<(Move, Move)> = Vec::new();
        let mut contexts: Vec<PlyContext> = Vec::new();
        let mut static_evals: Vec<i32> = Vec::new();
        let mut accumulators: Vec<Accumulator> = Vec::new();
        let mut i: usize = 0;
        while i < 128
            invariant
                i <= 128,
                killers@.len() == i,
                contexts@.len() == i,
                static_evals@.len() == i,
                accumulators@.len() == i,
                forall|j: int| 0 <= j < i ==> #[trigger] killers@[j] == (Move(0), Move(0)),
                forall|j: int| 0 <= j < i ==> #[trigger] contexts@[j] == (PlyContext { piece_kind: 0, to_sq: 0 }),
                forall|j: int| 0 <= j < i ==> #[trigger] static_evals@[j] == 0,
            decreases 128 - i,
        {
            killers.push((Move(0), Move(0)));
            contexts.push(PlyContext { piece_kind: 0, to_sq: 0 });
            static_evals.push(0);
            accumulators.push(Accumulator::new());
            i = i + 1;
        }
        let r = SearchState {
            tt,
            tables,
            killers,
            contexts,
            static_evals,
            accumulators,
            nodes: 0,
            seldepth: 0,
            stop: false,
            log: Ghost(Seq::empty()),
        };
        proof {
            let f = fresh_run(tt@, tables@, Seq::empty());
            assert(r@.killers =~= f.killers);
            assert(r@.ctxs =~= f.ctxs);
            assert(r@.evals =~= f.evals);
            assert(r@.asked =~= f.asked);
        }
        r
    }

    /// Brings the accumulator of the root up to date.
    fn refresh_root(&mut self, board: &Board, cfg: &Config, net: &NnueNetwork)
        requires
            old(self).ok(),
            net_ok(*cfg, *net),
        ensures
            final(self).ok(),
            final(self)@ == old(self)@,
            final(self).log == old(self).log,
            final(self).acc_ok(*cfg, *net, board@, 0),
    {
        if cfg.use_nnue {
            let mut acc = Accumulator::new();
            acc.refresh(board, net);
            proof {
                reveal(Accumulator::valid_for);
                assert(acc.valid_for(*net, board@)) by {
                    assert forall|c: Color| !#[trigger] acc.stale(c) implies acc.shows(*net, board@, c) by {
                        match c {
                            Color::White => {},
                            Color::Black => {},
                        }
                    }
                }
            }
            self.accumulators.set(0, acc);
        }
    }
}

/// Legal moves of a sound position can be tried.
proof fn lemma_legal_tries(p: Position, m: Move)
    requires
        p.sound(),
        legal_moves(p).contains(m),
    ensures
        tries(p, m),
        legal_in(p, m),
{
    reveal(tries);
    reveal(legal_in);
    law_legal_iff(p, m);
    law_generated_iff_pseudo_legal(p, m);
    law_generated_moves_fit(p, m);
}

/// What a search needs.
pub open spec fn can_search(board: Board, params: SearchParams, tt: SharedTT, tables: PersistentHistory, net: NnueNetwork, lmr: Seq<u8>) -> bool {
    &&& board.ok()
    &&& board@.sound()
    &&& clock_room(board@, 129)
    &&& tt@.ok()
    &&& tables@.ok()
    &&& lmr.len() == 4096
    &&& params.use_nnue ==> net.ok()
    &&& params.tune.divides()
    &&& -2_000_000_000 <= params.contempt <= 2_000_000_000
}

/// A deepening search has this result, these tables after it and these
/// questions asked.
pub open spec fn leads_to(
    end: (Outcome, Run),
    out: Outcome,
    after: (Table, Tables),
    asked: Seq<Question>,
) -> bool {
    end.0 == out && end.1.tt == after.0 && end.1.tables == after.1 && end.1.asked == asked
}

/// The only legal move is played after a quick search, which fills the table.
#[verifier::opaque]
pub open spec fn by_force(
    p: Position,
    m: Move,
    params: SearchParams,
    tt: (Table, Table),
    net: NnueNetwork,
    lmr: Seq<u8>,
    pieces: Option<u32>,
    heard: (Seq<Answer>, Seq<Answer>),
    out: Outcome,
) -> bool {
    exists|e: Env|
        configured(e.cfg, params, lmr, p.history.len() as int, Some(2000), None, pieces) && e.net == net && e.log
            == heard.1 && #[trigger] forced(e, p, m, tt.0, questions(heard.0)) == (out, tt.1, questions(heard.1))
}

/// A move is found by deepening, which fills the tables.
#[verifier::opaque]
pub open spec fn by_thought(
    p: Position,
    params: SearchParams,
    before: (Table, Tables),
    after: (Table, Tables),
    net: NnueNetwork,
    lmr: Seq<u8>,
    thread_id: int,
    pieces: Option<u32>,
    solution: Option<(Score, Vec<Move>)>,
    has_book: bool,
    heard: (Seq<Answer>, Seq<Answer>),
    out: Outcome,
) -> bool {
    exists|e: Env, plan: Plan|
        configured(e.cfg, params, lmr, p.history.len() as int, plan.limit.limit_ms, params.max_nodes, pieces) && e.net
            == net && e.log == heard.1 && planned(plan, p, params, thread_id, has_book, solution) && leads_to(
            #[trigger] thought(e, p, plan, before.0, before.1, questions(heard.0)),
            out,
            after,
            questions(heard.1),
        )
}

proof fn lemma_by_force(
    e: Env,
    p: Position,
    m: Move,
    params: SearchParams,
    tt: (Table, Table),
    pieces: Option<u32>,
    heard: (Seq<Answer>, Seq<Answer>),
    out: Outcome,
)
    requires
        configured(e.cfg, params, e.cfg.lmr_table@, p.history.len() as int, Some(2000), None, pieces),
        e.log == heard.1,
        forced(e, p, m, tt.0, questions(heard.0)) == (out, tt.1, questions(heard.1)),
    ensures
        by_force(p, m, params, tt, e.net, e.cfg.lmr_table@, pieces, heard, out),
{
    reveal(by_force);
}

proof fn lemma_by_thought(
    e: Env,
    plan: Plan,
    p: Position,
    params: SearchParams,
    before: (Table, Tables),
    after: (Table, Tables),
    thread_id: int,
    pieces: Option<u32>,
    solution: Option<(Score, Vec<Move>)>,
    has_book: bool,
    heard: (Seq<Answer>, Seq<Answer>),
    out: Outcome,
)
    requires
        configured(
            e.cfg,
            params,
            e.cfg.lmr_table@,
            p.history.len() as int,
            plan.limit.limit_ms,
            params.max_nodes,
            pieces,
        ),
        e.log == heard.1,
        planned(plan, p, params, thread_id, has_book, solution),
        leads_to(thought(e, p, plan, before.0, before.1, questions(heard.0)), out, after, questions(heard.1)),
    ensures
        by_thought(
            p,
            params,
            before,
            after,
            e.net,
            e.cfg.lmr_table@,
            thread_id,
            pieces,
            solution,
            has_book,
            heard,
            out,
        ),
{
    reveal(by_thought);
}

/// Plays the only legal move, with a quick search to score it.
fn play_forced<H: Host>(
    board: &Board,
    m: Move,
    params: &SearchParams,
    tt: &mut SharedTT,
    net: &NnueNetwork,
    lmr_table: &Vec<u8>,
    table_pieces: Option<u32>,
    host: &mut Witness<H>,
) -> (r: SearchResult)
    requires
        board.ok(),
        board@.consistent(),
        clock_room(board@, 129),
        tries(board@, m),
        old(tt)@.ok(),
        lmr_table@.len() == 4096,
        params.use_nnue ==> net.ok(),
        params.tune.divides(),
        -2_000_000_000 <= params.contempt <= 2_000_000_000,
    ensures
        final(tt)@.ok(),
        by_force(
            board@,
            m,
            *params,
            (old(tt)@, final(tt)@),
            *net,
            lmr_table@,
            table_pieces,
            (old(host).heard(), final(host).heard()),
            outcome(r),
        ),
{
    let ghost p = board@;
    let ghost tt0 = tt@;
    let ghost heard0 = host.heard();
    let ghost asked0 = questions(heard0);
    let cfg = configure(params, lmr_table, board.position_history.len(), Some(2000), None, table_pieces);
    let mut own = SharedTT::new(0);
    core::mem::swap(tt, &mut own);
    let mut state = SearchState::new(own, PersistentHistory::new());
    proof {
        state.log@ = host.heard();
    }
    let ghost r0 = state@;
    state.refresh_root(board, &cfg, net);
    let mut copy = board.clone();
    let undo = match make_legal(&mut copy, m, Ghost(129)) {
        Some(undo) => undo,
        None => {
            proof {
                assert(false);
            }
            return SearchResult { best_move: m, score: Score(0), depth: 0, nodes: 0, pv: Vec::new() };
        },
    };
    advance_accumulator(&mut state, &cfg, net, &copy, m, undo, 0, Ghost(p));
    let mut pv: Vec<Move> = Vec::new();
    let score: i32 = alpha_beta(
        &mut copy,
        10,
        1,
        Score::NEG_INF,
        Score::INF,
        &mut pv,
        &mut state,
        &cfg,
        net,
        host,
        m,
        Move::null(),
    );
    let mut line: Vec<Move> = Vec::new();
    set_line(&mut line, m, &pv);
    let clean = sanitize_pv(board, &line);
    let time_ms: u64 = host.elapsed_ms();
    let info = SearchInfo {
        depth: 10,
        seldepth: state.seldepth,
        score: Score(-score),
        nodes: state.nodes,
        time_ms,
        pv: sanitize_pv(board, &line),
        hashfull: state.tt.hashfull(),
        multipv_line: 1,
    };
    host.report(&info);
    let r = SearchResult { best_move: m, score: Score(-score), depth: 10, nodes: state.nodes, pv: clean };
    proof {
        reveal(forced);
        let e = env(cfg, *net, host.heard());
        let timed = state.log@.push(Answer::Clock(time_ms));
        lemma_questions_push(state.log@, Answer::Clock(time_ms));
        lemma_questions_push(timed, Answer::Told(info_of(info)));
        assert(extends(e.log, state.log@));
        assert(e.log[state.log@.len() as int] == Answer::Clock(time_ms));
        assert(ab(e, played(p, m), 10, 1, -2147483647, 2147483647, m, Move(0), r0) == (Out {
            score,
            pv: pv@,
            run: state@,
        }));
        assert(forced(e, p, m, tt0, asked0) == (outcome(r), state.tt@, questions(host.heard())));
    }
    core::mem::swap(tt, &mut state.tt);
    proof {
        let e = env(cfg, *net, host.heard());
        lemma_by_force(e, p, m, *params, (tt0, tt@), table_pieces, (heard0, host.heard()), outcome(r));
    }
    r
}

/// The root moves before the first iteration.
fn order_root(board: &Board, moves: &Vec<Move>, state: &SearchState) -> (r: Vec<Scored>)
    requires
        state.ok(),
        moves@ == legal_moves(board@),
        moves@.len() > 0,
        forall|i: int| 0 <= i < moves@.len() ==> tries(board@, #[trigger] moves@[i]) && legal_in(board@, moves@[i]),
    ensures
        r@ == first_order(board@, state@),
        order_ok(board@, r@),
{
    let ghost p = board@;
    let ghost all = Seq::new(moves@.len(), |i: int| Scored { m: moves@[i], score: 0 });
    let mut s: Vec<Scored> = Vec::new();
    let mut i: usize = 0;
    while i < moves.len()
        invariant
            i <= moves@.len(),
            s@.len() == i,
            forall|j: int| 0 <= j < i ==> #[trigger] s@[j] == (Scored { m: moves@[j], score: 0 }),
        decreases moves@.len() - i,
    {
        s.push(Scored { m: moves[i], score: 0 });
        i = i + 1;
    }
    proof {
        assert(s@ =~= all);
        assert forall|j: int| 0 <= j < s@.len() implies tries(p, #[trigger] s@[j].m) && legal_in(p, s@[j].m) by {
            assert(s@[j].m == moves@[j]);
        }
    }
    if let Some(entry) = state.probe(board.hash) {
        if !entry.best_move.is_null() {
            let j: usize = position_of(&s, entry.best_move, 0);
            if 0 < j && j < s.len() {
                let a = s[0];
                let b = s[j];
                s.set(0, b);
                s.set(j, a);
                proof {
                    assert forall|x: int| 0 <= x < s@.len() implies tries(p, #[trigger] s@[x].m) && legal_in(p, s@[x].m) by {
                        let y = if x == 0 { j as int } else if x == j { 0 } else { x };
                        assert(s@[x] == all[y]);
                        assert(all[y].m == moves@[y]);
                    }
                }
            }
        }
    }
    s
}

fn list_moves(board: &Board) -> (r: Vec<Move>)
    requires
        board.ok(),
        board@.has_room(),
    ensures
        r@ == legal_moves(board@),
{
    let legal = generate_legal_moves(board);
    let mut out: Vec<Move> = Vec::new();
    let mut i: usize = 0;
    while i < legal.len()
        invariant
            i <= legal@.len(),
            out@ == legal@.take(i as int),
        decreases legal@.len() - i,
    {
        out.push(legal.get(i));
        i = i + 1;
        proof {
            assert(out@ =~= legal@.take(i as int));
        }
    }
    proof {
        assert(legal@.take(i as int) =~= legal@);
    }
    out
}

/// Deepens over several root moves.
fn think<H: Host>(
    board: &Board,
    moves: Vec<Move>,
    params: &SearchParams,
    tt: &mut SharedTT,
    tables: &mut PersistentHistory,
    net: &NnueNetwork,
    lmr_table: &Vec<u8>,
    thread_id: usize,
    table_pieces: Option<u32>,
    root_tb_solution: &Option<(Score, Vec<Move>)>,
    has_book: bool,
    host: &mut Witness<H>,
) -> (r: SearchResult)
    requires
        can_search(*board, *params, *old(tt), *old(tables), *net, lmr_table@),
        moves@ == legal_moves(board@),
        moves@.len() > 0,
        root_tb_solution is Some ==> score_ok((root_tb_solution->Some_0.0).0 as int),
    ensures
        final(tt)@.ok(),
        final(tables)@.ok(),
        legal_in(board@, r.best_move),
        by_thought(
            board@,
            *params,
            (old(tt)@, old(tables)@),
            (final(tt)@, final(tables)@),
            *net,
            lmr_table@,
            thread_id as int,
            table_pieces,
            *root_tb_solution,
            has_book,
            (old(host).heard(), final(host).heard()),
            outcome(r),
        ),
{
    let ghost p = board@;
    let ghost tt0 = tt@;
    let ghost tables0 = tables@;
    let ghost heard0 = host.heard();
    let ghost asked0 = questions(heard0);
    proof {
        assert forall|i: int| 0 <= i < moves@.len() implies tries(p, #[trigger] moves@[i]) && legal_in(p, moves@[i]) by {
            lemma_legal_tries(p, moves@[i]);
        }
    }
    let limit = compute_time_limit(params, board);
    let game_ply: usize = board.position_history.len();
    let cfg = configure(params, lmr_table, game_ply, limit.limit_ms, params.max_nodes, table_pieces);
    let solution = match root_tb_solution {
        Some((score, pv)) => Some((*score, sanitize_pv(board, pv))),
        None => None,
    };
    let mut own_tt = SharedTT::new(0);
    core::mem::swap(tt, &mut own_tt);
    let mut own_tables = PersistentHistory::new();
    core::mem::swap(tables, &mut own_tables);
    let mut state = SearchState::new(own_tt, own_tables);
    proof {
        state.log@ = host.heard();
    }
    let ghost r0 = state@;
    state.refresh_root(board, &cfg, net);
    let order = order_root(board, &moves, &state);
    let ghost order0 = order@;
    let plan = Plan {
        moves,
        max_depth: if params.max_depth < 128 { params.max_depth } else { 128 },
        offset: depth_offset(thread_id),
        multi_pv: params.multi_pv,
        limit,
        book_bonus: bonus_after_book(has_book, game_ply),
        solution,
    };
    let mut copy = board.clone();
    let r = deepen_all(&mut copy, &plan, order, &mut state, &cfg, net, host);
    let ghost done = state@;
    proof {
        reveal(thought);
        let e = env(cfg, *net, state.log@);
        assert(ended(e, p, plan, order0, r0) == (outcome(r), state@));
        assert(thought(e, p, plan, tt0, tables0, asked0) == (outcome(r), done));
        assert(done.asked == questions(host.heard()));
    }
    core::mem::swap(tt, &mut state.tt);
    core::mem::swap(tables, &mut state.tables);
    proof {
        assert(tt@ == done.tt && tables@ == done.tables);
        lemma_by_thought(
            env(cfg, *net, host.heard()),
            plan,
            p,
            *params,
            (tt0, tables0),
            (tt@, tables@),
            thread_id as int,
            table_pieces,
            *root_tb_solution,
            has_book,
            (heard0, host.heard()),
            outcome(r),
        );
    }
    r
}

/// A book move is played and reported, with the static evaluation for a score.
#[verifier::opaque]
pub open spec fn by_book(p: Position, m: Move, heard: (Seq<Answer>, Seq<Answer>), out: Outcome) -> bool {
    exists|d: EvalParams| #[trigger]
        d.is_default() && out == (Outcome {
            best_move: m,
            score: book_score(p, d) as i32,
            depth: 1,
            nodes: 1,
            pv: seq![m],
        }) && heard.1 == heard.0.push(
            Answer::Told(
                Info {
                    depth: 1,
                    seldepth: 1,
                    score: book_score(p, d) as i32,
                    nodes: 1,
                    time_ms: 0,
                    pv: seq![m],
                    hashfull: 0,
                    line: 1,
                },
            ),
        )
}

/// A search of a position, with tables before and after it, comes to a result,
/// given what the world around had answered before and has answered after it.
///
/// In the opening a book move is played at once. Without a legal move the
/// result is mate or stalemate, and a single one is played after a quick search.
/// Otherwise the search deepens, and its best move is legal.
#[verifier::opaque]
pub open spec fn comes_to(
    p: Position,
    params: SearchParams,
    before: (Table, Tables),
    after: (Table, Tables),
    net: NnueNetwork,
    lmr: Seq<u8>,
    thread_id: int,
    pieces: Option<u32>,
    solution: Option<(Score, Vec<Move>)>,
    has_book: bool,
    book_move: Option<Move>,
    heard: (Seq<Answer>, Seq<Answer>),
    out: Outcome,
) -> bool {
    let begun = heard.0.push(Answer::Begun);
    let moves = legal_moves(p);
    let game_ply = p.history.len() as int;
    if game_ply <= 30 && book_move is Some {
        &&& after == before
        &&& by_book(p, book_move->Some_0, (begun, heard.1), out)
    } else if moves.len() == 0 {
        &&& after == before
        &&& heard.1 == begun
        &&& out == (Outcome {
            best_move: Move(0),
            score: if in_check(p, p.side) { (-30000) as i32 } else { 0 },
            depth: 0,
            nodes: 0,
            pv: Seq::empty(),
        })
    } else if moves.len() == 1 && !params.infinite {
        &&& after.1 == before.1
        &&& by_force(p, moves[0], params, (before.0, after.0), net, lmr, pieces, (begun, heard.1), out)
    } else {
        &&& moves.contains(out.best_move)
        &&& by_thought(p, params, before, after, net, lmr, thread_id, pieces, solution, has_book, (begun, heard.1), out)
    }
}

/// Where there is a legal move, a search plays one, unless the book offers
/// something else.
pub proof fn law_search_plays_a_legal_move(
    p: Position,
    params: SearchParams,
    before: (Table, Tables),
    after: (Table, Tables),
    net: NnueNetwork,
    lmr: Seq<u8>,
    thread_id: int,
    pieces: Option<u32>,
    solution: Option<(Score, Vec<Move>)>,
    has_book: bool,
    book_move: Option<Move>,
    heard: (Seq<Answer>, Seq<Answer>),
    out: Outcome,
)
    requires
        legal_moves(p).len() > 0,
        book_move is Some ==> legal_moves(p).contains(book_move->Some_0),
        comes_to(
            p,
            params,
            before,
            after,
            net,
            lmr,
            thread_id,
            pieces,
            solution,
            has_book,
            book_move,
            heard,
            out,
        ),
    ensures
        legal_moves(p).contains(out.best_move),
{
    reveal(comes_to);
    reveal(by_book);
    reveal(by_force);
    reveal(forced);
    let moves = legal_moves(p);
    if moves.len() == 1 && !params.infinite {
        assert(moves[0] == out.best_move);
    }
}

/// Searches a position.
///
/// In the opening a book move is played at once. Without a legal move the
/// result is mate or stalemate; a single legal move is played after a quick
/// search, unless the search is infinite. Otherwise the search deepens until a
/// limit is reached, learning into the tables that it is lent.
pub fn iterative_deepening<H: Host>(
    board: &Board,
    params: &SearchParams,
    tt: &mut SharedTT,
    tables: &mut PersistentHistory,
    net: &NnueNetwork,
    lmr_table: &Vec<u8>,
    thread_id: usize,
    table_pieces: Option<u32>,
    root_tb_solution: &Option<(Score, Vec<Move>)>,
    has_book: bool,
    book_move: Option<Move>,
    host: &mut Witness<H>,
) -> (r: SearchResult)
    requires
        can_search(*board, *params, *old(tt), *old(tables), *net, lmr_table@),
        root_tb_solution is Some ==> score_ok((root_tb_solution->Some_0.0).0 as int),
    ensures
        final(tt)@.ok(),
        final(tables)@.ok(),
        comes_to(
            board@,
            *params,
            (old(tt)@, old(tables)@),
            (final(tt)@, final(tables)@),
            *net,
            lmr_table@,
            thread_id as int,
            table_pieces,
            *root_tb_solution,
            has_book,
            book_move,
            (old(host).heard(), final(host).heard()),
            outcome(r),
        ),
{
    let ghost p = board@;
    let ghost before = (tt@, tables@);
    let ghost heard = host.heard();
    host.begin();
    if may_use_book(board) {
        if let Some(m) = book_move {
            let r = play_from_book(board, m, host);
            proof {
                assert(comes_to(
                    p,
                    *params,
                    before,
                    (tt@, tables@),
                    *net,
                    lmr_table@,
                    thread_id as int,
                    table_pieces,
                    *root_tb_solution,
                    has_book,
                    book_move,
                    (heard, host.heard()),
                    outcome(r),
                )) by {
                    reveal(comes_to);
                }
            }
            return r;
        }
    }
    let moves = list_moves(board);
    if moves.len() == 0 {
        let score: i32 = if is_in_check(board) { Score::NEG_MATE } else { Score::DRAW };
        let r = SearchResult { best_move: Move::null(), score: Score(score), depth: 0, nodes: 0, pv: Vec::new() };
        proof {
            assert(r.pv@ =~= Seq::<Move>::empty());
            assert(comes_to(
                p,
                *params,
                before,
                (tt@, tables@),
                *net,
                lmr_table@,
                thread_id as int,
                table_pieces,
                *root_tb_solution,
                has_book,
                book_move,
                (heard, host.heard()),
                outcome(r),
            )) by {
                reveal(comes_to);
            }
        }
        return r;
    }
    proof {
        lemma_legal_tries(p, moves@[0]);
    }
    if moves.len() == 1 && !params.infinite {
        let r = play_forced(board, moves[0], params, tt, net, lmr_table, table_pieces, host);
        proof {
            assert(comes_to(
                p,
                *params,
                before,
                (tt@, tables@),
                *net,
                lmr_table@,
                thread_id as int,
                table_pieces,
                *root_tb_solution,
                has_book,
                book_move,
                (heard, host.heard()),
                outcome(r),
            )) by {
                reveal(comes_to);
            }
        }
        return r;
    }
    let r = think(
        board,
        moves,
        params,
        tt,
        tables,
        net,
        lmr_table,
        thread_id,
        table_pieces,
        root_tb_solution,
        has_book,
        host,
    );
    proof {
        reveal(legal_in);
        assert(comes_to(
            p,
            *params,
            before,
            (tt@, tables@),
            *net,
            lmr_table@,
            thread_id as int,
            table_pieces,
            *root_tb_solution,
            has_book,
            book_move,
            (heard, host.heard()),
            outcome(r),
        )) by {
            reveal(comes_to);
        }
    }
    r
}

/// Plays a book move.
fn play_from_book<H: Host>(board: &Board, m: Move, host: &mut Witness<H>) -> (r: SearchResult)
    ensures
        by_book(board@, m, (old(host).heard(), final(host).heard()), outcome(r)),
{
    let raw: i32 = clamp_i32(evaluate(board).0, -28_999, 28_999);
    let own: i32 = match board.side_to_move {
        Color::White => raw,
        Color::Black => -raw,
    };
    let score = Score(clamp_i32(own, -40, 40));
    let mut pv: Vec<Move> = Vec::new();
    pv.push(m);
    let mut told: Vec<Move> = Vec::new();
    told.push(m);
    let info = SearchInfo {
        depth: 1,
        seldepth: 1,
        score,
        nodes: 1,
        time_ms: 0,
        pv: told,
        hashfull: 0,
        multipv_line: 1,
    };
    host.report(&info);
    proof {
        reveal(by_book);
        assert(pv@ =~= seq![m]);
        assert(info.pv@ =~= seq![m]);
    }
    SearchResult { best_move: m, score, depth: 1, nodes: 1, pv }
}

/// A search of a position without a legal move comes to mate if the side to move
/// is in check and to a draw otherwise, with no move and nothing learned.
pub proof fn law_search_without_a_move(
    p: Position,
    params: SearchParams,
    before: (Table, Tables),
    after: (Table, Tables),
    net: NnueNetwork,
    lmr: Seq<u8>,
    thread_id: int,
    pieces: Option<u32>,
    solution: Option<(Score, Vec<Move>)>,
    has_book: bool,
    book_move: Option<Move>,
    heard: (Seq<Answer>, Seq<Answer>),
    out: Outcome,
)
    requires
        legal_moves(p).len() == 0,
        book_move is None,
        comes_to(
            p,
            params,
            before,
            after,
            net,
            lmr,
            thread_id,
            pieces,
            solution,
            has_book,
            book_move,
            heard,
            out,
        ),
    ensures
        in_check(p, p.side) ==> out.score == -30000,
        !in_check(p, p.side) ==> out.score == 0,
        out.best_move.0 == 0,
        out.pv.len() == 0,
        after == before,
{
    reveal(comes_to);
}

/// In the opening a book move is played as it is, with a small score that is for
/// the side to move.
pub proof fn law_search_from_the_book(
    p: Position,
    params: SearchParams,
    before: (Table, Tables),
    after: (Table, Tables),
    net: NnueNetwork,
    lmr: Seq<u8>,
    thread_id: int,
    pieces: Option<u32>,
    solution: Option<(Score, Vec<Move>)>,
    has_book: bool,
    book_move: Option<Move>,
    heard: (Seq<Answer>, Seq<Answer>),
    out: Outcome,
)
    requires
        p.history.len() <= 30,
        book_move is Some,
        comes_to(
            p,
            params,
            before,
            after,
            net,
            lmr,
            thread_id,
            pieces,
            solution,
            has_book,
            book_move,
            heard,
            out,
        ),
    ensures
        out.best_move == book_move->Some_0,
        out.pv == seq![book_move->Some_0],
        -40 <= out.score <= 40,
        after == before,
        exists|d: EvalParams| #[trigger]
            d.is_default() && (-40 <= score_of(p, d) <= 40 && p.side == Color::White ==> out.score == score_of(p, d)) && (
            -40 <= score_of(p, d) <= 40 && p.side == Color::Black ==> out.score == -score_of(p, d)),
{
    reveal(comes_to);
    reveal(by_book);
    let d = choose|d: EvalParams| #[trigger]
        d.is_default() && out == (Outcome {
            best_move: book_move->Some_0,
            score: book_score(p, d) as i32,
            depth: 1,
            nodes: 1,
            pv: seq![book_move->Some_0],
        }) && heard.1 == heard.0.push(Answer::Begun).push(
            Answer::Told(
                Info {
                    depth: 1,
                    seldepth: 1,
                    score: book_score(p, d) as i32,
                    nodes: 1,
                    time_ms: 0,
                    pv: seq![book_move->Some_0],
                    hashfull: 0,
                    line: 1,
                },
            ),
        );
    assert(d.is_default());
}

/// The only legal move is played. If it leads to a draw by repetition or by the
/// fifty-move rule, the score is what the draw is worth, unless the quick search
/// was told to stop at once.
pub proof fn law_search_of_a_forced_move(
    p: Position,
    params: SearchParams,
    before: (Table, Tables),
    after: (Table, Tables),
    net: NnueNetwork,
    lmr: Seq<u8>,
    thread_id: int,
    pieces: Option<u32>,
    solution: Option<(Score, Vec<Move>)>,
    has_book: bool,
    book_move: Option<Move>,
    heard: (Seq<Answer>, Seq<Answer>),
    out: Outcome,
)
    requires
        legal_moves(p).len() == 1,
        !params.infinite,
        book_move is None,
        -2_000_000_000 <= params.contempt <= 2_000_000_000,
        comes_to(
            p,
            params,
            before,
            after,
            net,
            lmr,
            thread_id,
            pieces,
            solution,
            has_book,
            book_move,
            heard,
            out,
        ),
    ensures
        out.best_move == legal_moves(p)[0],
        thrice(p.after(legal_moves(p)[0])) || again_since(p.after(legal_moves(p)[0]), p.history.len() as int) || p.after(
            legal_moves(p)[0],
        ).halfmove >= 100 ==> out.score == params.contempt || out.score == 0,
{
    reveal(comes_to);
    reveal(by_force);
    reveal(forced);
    reveal(played);
    let m = legal_moves(p)[0];
    let begun = heard.0.push(Answer::Begun);
    let e = choose|e: Env|
        configured(e.cfg, params, lmr, p.history.len() as int, Some(2000), None, pieces) && e.net == net && e.log
            == heard.1 && #[trigger] forced(e, p, m, before.0, questions(begun)) == (
            out,
            after.0,
            questions(heard.1),
        );
    if thrice(p.after(m)) || again_since(p.after(m), p.history.len() as int) || p.after(m).halfmove >= 100 {
        let r = fresh_run(before.0, Tables::blank(), questions(begun));
        lemma_drawn_or_stopped(e, played(p, m), 10, 1, -2147483647, 2147483647, m, Move(0), r);
    }
}

/// The main thread searches at its own depth; every helper of the first sixteen
/// threads is shifted, by four plies at most, and the shifts repeat after that.
pub proof fn law_helpers_search_at_other_depths(thread_id: int)
    requires
        0 <= thread_id,
    ensures
        offset_of(thread_id) == 0 <==> thread_id % 16 == 0,
        -4 <= offset_of(thread_id) <= 4,
        offset_of(thread_id + 16) == offset_of(thread_id),
{
}

} // verus!
