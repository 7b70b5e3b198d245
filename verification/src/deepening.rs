//! Iterative deepening.

use vstd::prelude::*;
use crate::arith::{clamp, max_of, min_of};
use crate::aspiration::{clock, found_lines, lines_of, lines_search, no_lines, order_ok, search_lines, LineFound, LineResult, Lines};
use crate::board::{Board, Position};
use crate::lines::{by_score, index_of, legal_in, lemma_by_score, playable, position_of, sanitize_pv, sort_by_score};
use crate::moves::Move;
use crate::nnue::network::NnueNetwork;
use crate::ordering::Scored;
use crate::params::{SearchInfo, SearchResult};
use crate::quiescence::{kept, ready, score_ok};
use crate::root::swapped;
use crate::search::{env, extends, in_step, info_of, lemma_questions_push, should_stop, tries, Answer, Config, Env, Host, Info, Question, Run, SearchState, Witness};
use crate::timing::{enough_time, is_enough_time, less, NodeShare, Progress, TimeLimit};
use crate::types::Score;

verus! {

/// What is fixed for all iterations of a search.
pub struct Plan {
    /// The legal moves at the root.
    pub moves: Vec<Move>,
    pub max_depth: u8,
    /// What a helper thread adds to the depth, for diversity.
    pub offset: i8,
    pub multi_pv: usize,
    pub limit: TimeLimit,
    /// Extra time after leaving the opening book, in thousandths.
    pub book_bonus: u64,
    /// Score and line that tables give at the root.
    pub solution: Option<(Score, Vec<Move>)>,
}

/// What the iterations have come to.
pub struct Deep {
    pub order: Seq<Scored>,
    /// For each root move, its scores in the completed iterations.
    pub scores: Seq<Seq<i32>>,
    pub best_move: Move,
    pub best_score: i32,
    pub best_pv: Seq<Move>,
    pub best_depth: u8,
    pub prev_score: i32,
    pub pv_changes: u32,
    pub stability: u32,
    pub max_swing: i64,
    /// The last best move that was displaced after long stability.
    pub stable_move: Move,
    pub stable_for: u32,
}

/// The state of the iterations.
pub struct Deepening {
    order: Vec<Scored>,
    scores: Vec<Vec<i32>>,
    best_move: Move,
    best_score: i32,
    best_pv: Vec<Move>,
    best_depth: u8,
    prev_score: i32,
    pv_changes: u32,
    stability: u32,
    max_swing: i64,
    stable_move: Move,
    stable_for: u32,
}

/// The contents of a list of lists.
pub open spec fn contents(s: Seq<Vec<i32>>) -> Seq<Seq<i32>> {
    Seq::new(s.len(), |i: int| s[i]@)
}

impl View for Deepening {
    type V = Deep;

    closed spec fn view(&self) -> Deep {
        Deep {
            order: self.order@,
            scores: contents(self.scores@),
            best_move: self.best_move,
            best_score: self.best_score,
            best_pv: self.best_pv@,
            best_depth: self.best_depth,
            prev_score: self.prev_score,
            pv_changes: self.pv_changes,
            stability: self.stability,
            max_swing: self.max_swing,
            stable_move: self.stable_move,
            stable_for: self.stable_for,
        }
    }
}

/// Before the first iteration.
pub open spec fn started(order: Seq<Scored>, moves: int) -> Deep {
    Deep {
        order,
        scores: Seq::new(moves as nat, |i: int| Seq::<i32>::empty()),
        best_move: Move(0),
        best_score: 0,
        best_pv: Seq::empty(),
        best_depth: 0,
        prev_score: 0,
        pv_changes: 0,
        stability: 0,
        max_swing: 0,
        stable_move: Move(0),
        stable_for: 0,
    }
}

/// The root moves in the order of an iteration: by the last scores, and a best
/// move that has long been stable first.
pub open spec fn arranged(base: int, d: Deep) -> Seq<Scored> {
    let s = if base > 1 { by_score(d.order) } else { d.order };
    if d.stability >= 4 && d.best_move.0 != 0 { swapped(s, index_of(s, d.best_move, 1)) } else { s }
}

/// The depth of an iteration.
pub open spec fn depth_of(plan: Plan, base: int) -> int {
    clamp(base + plan.offset, 1, plan.max_depth as int)
}

/// The number of lines of an iteration.
pub open spec fn line_count(plan: Plan, n: int) -> int {
    min_of(max_of(plan.multi_pv as int, 1), n)
}

/// The best line, replaced by the solution from the tables if there is one.
pub open spec fn first_line(plan: Plan, f: LineFound) -> LineFound {
    match plan.solution {
        Some((score, pv)) => if pv@.len() > 0 {
            LineFound {
                score: score.0,
                pv: pv@,
                seldepth: max_of(f.seldepth as int, min_of(pv@.len() as int, 255)) as u8,
            }
        } else {
            f
        },
        None => f,
    }
}

/// The best move of an iteration: that of the best line, or the hash move if it
/// is one of the root moves, or the first.
pub open spec fn best_of(p: Position, pv: Seq<Move>, order: Seq<Scored>, r: Run) -> Move {
    if pv.len() > 0 {
        pv[0]
    } else {
        match r.found(p.hash) {
            Some(entry) => if entry.best_move.0 != 0 && index_of(order, entry.best_move, 0) < order.len() {
                entry.best_move
            } else {
                order[0].m
            },
            None => order[0].m,
        }
    }
}

/// The scores of the root moves with those of one more iteration.
pub open spec fn scores_with(scores: Seq<Seq<i32>>, moves: Seq<Move>, order: Seq<Scored>) -> Seq<Seq<i32>> {
    Seq::new(
        scores.len(),
        |i: int|
            if index_of(order, moves[i], 0) < order.len() {
                scores[i].push(order[index_of(order, moves[i], 0)].score)
            } else {
                scores[i]
            },
    )
}

/// The distance of two numbers.
pub open spec fn distance(a: int, b: int) -> int {
    if a > b { a - b } else { b - a }
}

/// What an iteration that was completed comes to.
pub open spec fn settled(p: Position, plan: Plan, base: int, lines: Lines, d: Deep, r: Run) -> Deep {
    let first = first_line(plan, lines.results[0]);
    let best = best_of(p, first.pv, lines.order, r);
    let changed = base > 1 && best != d.best_move;
    let stays = base > 1 && best == d.best_move;
    let noted = changed && d.stability >= 6;
    Deep {
        order: lines.order,
        scores: scores_with(d.scores, plan.moves@, lines.order),
        best_move: best,
        best_score: first.score,
        best_pv: first.pv,
        best_depth: depth_of(plan, base) as u8,
        prev_score: first.score,
        pv_changes: if changed { d.pv_changes.wrapping_add(1) } else { d.pv_changes },
        stability: if changed {
            0
        } else if stays {
            d.stability.wrapping_add(1)
        } else {
            d.stability
        },
        max_swing: if base > 1 {
            max_of(d.max_swing as int, distance(d.prev_score as int, first.score as int)) as i64
        } else {
            d.max_swing
        },
        stable_move: if noted { d.best_move } else { d.stable_move },
        stable_for: if noted { d.stability } else { d.stable_for },
    }
}

/// The drop of the score since the last iteration.
pub open spec fn dropped(base: int, d: Deep, score: int) -> int {
    if base > 1 && d.prev_score > score { d.prev_score - score } else { 0 }
}

/// What is reported of the lines.
pub open spec fn reported(depth: u8, results: Seq<LineFound>, nodes: u64, time: u64, hashfull: int) -> Seq<Question> {
    Seq::new(
        results.len(),
        |i: int|
            Question::Told(
                Info {
                    depth,
                    seldepth: results[i].seldepth,
                    score: results[i].score,
                    nodes,
                    time_ms: time,
                    pv: results[i].pv,
                    hashfull,
                    line: i + 1,
                },
            ),
    )
}

/// The state after the report of an iteration: its lines, then the nodes.
pub open spec fn after_report(depth: u8, results: Seq<LineFound>, time: u64, r: Run) -> Run {
    Run {
        asked: (r.asked + reported(depth, results, r.nodes, time, r.tt.fullness())).push(Question::Counted(r.nodes)),
        ..r
    }
}

/// A mate in at most three moves, or any with a fifth of the time spent, is
/// good enough.
pub open spec fn mate_settles(e: Env, score: int, r: Run) -> (bool, Run) {
    if score < 29_000 {
        (false, r)
    } else if 29_994 <= score <= 30_000 {
        (true, r)
    } else {
        match e.cfg.time_limit_ms {
            Some(limit) => {
                let (t, r1) = clock(e, r);
                (t > limit / 5, r1)
            },
            None => (false, r),
        }
    }
}

/// The node share of the best move, as the world around judges it.
pub open spec fn judged(e: Env, share: Option<(u64, u64)>, r: Run) -> (NodeShare, Run) {
    match share {
        Some((best, total)) => (
            e.log[r.asked.len() as int]->Share_2,
            Run { asked: r.asked.push(Question::Share(best, total)), ..r },
        ),
        None => (NodeShare { most: true, few: false, unsure: false }, r),
    }
}

/// The state of the search for the time management.
pub open spec fn progress_of(e: Env, plan: Plan, depth: int, d: Deep, drop: int, fails: u32, share: NodeShare, last: int) -> Progress {
    Progress {
        depth: depth as u8,
        score: d.best_score,
        pv_changes: d.pv_changes,
        stability: d.stability,
        max_swing: d.max_swing,
        drop: drop as i64,
        fails,
        root_moves: d.order.len() as usize,
        game_ply: e.cfg.game_ply,
        book_bonus: plan.book_bonus,
        share,
        last_ms: last as u64,
    }
}

/// Whether the search ends after an iteration.
pub open spec fn decided(e: Env, plan: Plan, depth: int, d: Deep, drop: int, lines: Lines, last: int, r: Run) -> (bool, Run) {
    let (mate, r1) = mate_settles(e, d.best_score as int, r);
    if mate {
        (true, r1)
    } else {
        let (stop, r2) = should_stop(e, r1);
        if stop {
            (true, r2)
        } else {
            match e.cfg.time_limit_ms {
                Some(limit) => if plan.limit.use_soft_limit {
                    let (share, r3) = judged(e, lines.share, r2);
                    let (t, r4) = clock(e, r3);
                    (
                        enough_time(
                            limit as int,
                            plan.limit.inc_ms as int,
                            plan.limit.time_remaining_ms as int,
                            progress_of(e, plan, depth, d, drop, lines.fails, share, last),
                            t as int,
                        ),
                        r4,
                    )
                } else {
                    (false, r2)
                },
                None => (false, r2),
            }
        }
    }
}

/// One iteration: what it comes to, and whether it is the last.
#[verifier::opaque]
pub open spec fn iterated(e: Env, p: Position, plan: Plan, base: int, d: Deep, r: Run) -> (Deep, Run, bool) {
    let depth = depth_of(plan, base);
    let order = arranged(base, d);
    let (t0, r0) = clock(e, r);
    let lines = search_lines(
        e,
        plan.limit,
        p,
        depth,
        d.prev_score as int,
        line_count(plan, order.len() as int),
        0,
        no_lines(order, r0),
    );
    let (t1, r1) = clock(e, lines.run);
    if (!lines.completed && depth > 1) || lines.results.len() == 0 {
        (Deep { order: lines.order, ..d }, r1, true)
    } else {
        let d1 = settled(p, plan, base, lines, d, r1);
        let (t2, r2) = clock(e, r1);
        let results = lines.results.update(0, first_line(plan, lines.results[0]));
        let r3 = after_report(depth as u8, results, t2, r2);
        let drop = dropped(base, d, d1.best_score as int);
        let (done, r4) = decided(e, plan, depth, d1, drop, lines, less(t1 as int, t0 as int), r3);
        (d1, r4, done)
    }
}

/// The iterations from one on.
pub open spec fn deepened(e: Env, p: Position, plan: Plan, base: int, d: Deep, r: Run) -> (Deep, Run)
    decreases plan.max_depth + 1 - base,
{
    if base > plan.max_depth {
        (d, r)
    } else {
        let (d1, r1, done) = iterated(e, p, plan, base, d, r);
        if done { (d1, r1) } else { deepened(e, p, plan, base + 1, d1, r1) }
    }
}

/// The index of a move; or the length.
pub open spec fn place_of(s: Seq<Move>, m: Move, i: int) -> int
    decreases s.len() - i,
{
    if i >= s.len() {
        s.len() as int
    } else if s[i] == m {
        i
    } else {
        place_of(s, m, i + 1)
    }
}

/// A long stable move is preferred if its averaged scores are clearly better.
pub open spec fn steadied(e: Env, plan: Plan, d: Deep, r: Run) -> (Deep, Run) {
    let n = plan.moves@.len();
    if d.stable_move.0 != 0 && d.best_move != d.stable_move && d.stable_for >= 6 && place_of(
        plan.moves@,
        d.stable_move,
        0,
    ) < n && place_of(plan.moves@, d.best_move, 0) < n {
        let stable = d.scores[place_of(plan.moves@, d.stable_move, 0)];
        let best = d.scores[place_of(plan.moves@, d.best_move, 0)];
        let r1 = Run { asked: r.asked.push(Question::Steady(stable, best)), ..r };
        match e.log[r.asked.len() as int]->Steady_2 {
            Some(score) => (Deep { best_move: d.stable_move, best_score: score, ..d }, r1),
            None => (d, r1),
        }
    } else {
        (d, r)
    }
}

/// The result of a search.
pub struct Outcome {
    pub best_move: Move,
    pub score: i32,
    pub depth: u8,
    pub nodes: u64,
    pub pv: Seq<Move>,
}

/// The result once the iterations are through. Without one the first root move
/// is played, or the solution from the tables.
#[verifier::opaque]
pub open spec fn concluded(p: Position, plan: Plan, d: Deep, nodes: u64) -> Outcome {
    let best = if d.best_move.0 == 0 { d.order[0].m } else { d.best_move };
    let plain = Outcome { best_move: best, score: d.best_score, depth: d.best_depth, nodes, pv: playable(p, d.best_pv) };
    match plan.solution {
        Some((score, pv)) => if d.best_pv.len() == 0 && pv@.len() > 0 {
            Outcome {
                best_move: pv@[0],
                score: score.0,
                depth: max_of(d.best_depth as int, min_of(pv@.len() as int, 255)) as u8,
                nodes,
                pv: playable(p, pv@),
            }
        } else {
            plain
        },
        None => plain,
    }
}

/// The view of a result.
pub open spec fn outcome(r: SearchResult) -> Outcome {
    Outcome { best_move: r.best_move, score: r.score.0, depth: r.depth, nodes: r.nodes, pv: r.pv@ }
}

// The iterations.
/// The numbers of a plan are in range, and its moves legal.
pub open spec fn plan_ok(p: Position, plan: Plan, cfg: Config) -> bool {
    &&& plan.max_depth <= 128
    &&& plan.moves@.len() > 0
    &&& forall|i: int| 0 <= i < plan.moves@.len() ==> legal_in(p, #[trigger] plan.moves@[i])
    &&& plan.book_bonus <= 1000
    &&& plan.solution is Some ==> score_ok((plan.solution->Some_0.0).0 as int)
    &&& plan.solution is Some && plan.solution->Some_0.1@.len() > 0 ==> legal_in(p, plan.solution->Some_0.1@[0])
}

/// What the iterations have come to is sound.
pub open spec fn deep_ok(p: Position, plan: Plan, d: Deep) -> bool {
    &&& order_ok(p, d.order)
    &&& d.scores.len() == plan.moves@.len()
    &&& d.best_move.0 != 0 ==> legal_in(p, d.best_move)
    &&& d.stable_move.0 != 0 ==> legal_in(p, d.stable_move)
    &&& score_ok(d.prev_score as int)
    &&& score_ok(d.best_score as int)
    &&& 0 <= d.max_swing <= 0x2_0000_0000
}

proof fn lemma_swapped(p: Position, s: Seq<Scored>, i: int)
    requires
        order_ok(p, s),
    ensures
        order_ok(p, swapped(s, i)),
{
    let t = swapped(s, i);
    assert forall|j: int| 0 <= j < t.len() implies tries(p, #[trigger] t[j].m) && legal_in(p, t[j].m) by {
        if 0 < i < s.len() {
            let k = if j == 0 { i } else if j == i { 0 } else { j };
            assert(t[j] == s[k]);
            assert(legal_in(p, s[k].m));
        } else {
            assert(t[j] == s[j]);
        }
    }
}

proof fn lemma_sorted(p: Position, s: Seq<Scored>)
    requires
        order_ok(p, s),
    ensures
        order_ok(p, by_score(s)),
{
    lemma_by_score(s);
    let w = by_score(s);
    assert forall|i: int| 0 <= i < w.len() implies tries(p, #[trigger] w[i].m) && legal_in(p, w[i].m) by {
        assert(s.contains(w[i]));
        let j = choose|j: int| 0 <= j < s.len() && s[j] == w[i];
        assert(legal_in(p, s[j].m));
    }
}

fn copy_moves(v: &Vec<Move>) -> (r: Vec<Move>)
    ensures
        r@ == v@,
{
    let mut out: Vec<Move> = Vec::new();
    let mut i: usize = 0;
    while i < v.len()
        invariant
            i <= v@.len(),
            out@ == v@.take(i as int),
        decreases v@.len() - i,
    {
        out.push(v[i]);
        i = i + 1;
        proof {
            assert(out@ =~= v@.take(i as int));
        }
    }
    proof {
        assert(v@.take(i as int) =~= v@);
    }
    out
}

fn with_score(v: &Vec<i32>, x: i32) -> (r: Vec<i32>)
    ensures
        r@ == v@.push(x),
{
    let mut out: Vec<i32> = Vec::new();
    let mut i: usize = 0;
    while i < v.len()
        invariant
            i <= v@.len(),
            out@ == v@.take(i as int),
        decreases v@.len() - i,
    {
        out.push(v[i]);
        i = i + 1;
        proof {
            assert(out@ =~= v@.take(i as int));
        }
    }
    proof {
        assert(v@.take(i as int) =~= v@);
    }
    out.push(x);
    out
}

fn move_place(s: &Vec<Move>, m: Move) -> (r: usize)
    ensures
        r == place_of(s@, m, 0),
        r <= s@.len(),
        r < s@.len() ==> s@[r as int] == m,
{
    let mut i: usize = 0;
    while i < s.len() && s[i] != m
        invariant
            i <= s@.len(),
            place_of(s@, m, 0) == place_of(s@, m, i as int),
        decreases s@.len() - i,
    {
        i = i + 1;
    }
    i
}

fn depth_for(plan: &Plan, base: u8) -> (r: u8)
    requires
        1 <= plan.max_depth <= 128,
    ensures
        r == depth_of(*plan, base as int),
        1 <= r <= plan.max_depth,
{
    let d: i32 = base as i32 + plan.offset as i32;
    if d < 1 {
        1
    } else if d > plan.max_depth as i32 {
        plan.max_depth
    } else {
        d as u8
    }
}

impl Deepening {
    /// Before the first iteration.
    fn new(order: Vec<Scored>, moves: usize) -> (r: Self)
        ensures
            r@ == started(order@, moves as int),
    {
        let mut scores: Vec<Vec<i32>> = Vec::new();
        let mut i: usize = 0;
        while i < moves
            invariant
                i <= moves,
                scores@.len() == i,
                forall|j: int| 0 <= j < i ==> (#[trigger] scores@[j])@ == Seq::<i32>::empty(),
            decreases moves - i,
        {
            let none: Vec<i32> = Vec::new();
            proof {
                assert(none@ =~= Seq::<i32>::empty());
            }
            scores.push(none);
            i = i + 1;
        }
        let r = Deepening {
            order,
            scores,
            best_move: Move::null(),
            best_score: 0,
            best_pv: Vec::new(),
            best_depth: 0,
            prev_score: 0,
            pv_changes: 0,
            stability: 0,
            max_swing: 0,
            stable_move: Move::null(),
            stable_for: 0,
        };
        proof {
            assert(contents(r.scores@) =~= Seq::new(moves as nat, |i: int| Seq::<i32>::empty()));
            assert(r.best_pv@ =~= Seq::<Move>::empty());
        }
        r
    }

    /// Puts the root moves in the order of an iteration.
    fn arrange(&self, base: u8, Ghost(p): Ghost<Position>) -> (r: Vec<Scored>)
        requires
            order_ok(p, self@.order),
        ensures
            r@ == arranged(base as int, self@),
            order_ok(p, r@),
    {
        let mut s: Vec<Scored>;
        if base > 1 {
            s = sort_by_score(&self.order);
            proof {
                lemma_sorted(p, self@.order);
            }
        } else {
            s = Vec::new();
            let mut i: usize = 0;
            while i < self.order.len()
                invariant
                    i <= self.order@.len(),
                    s@ == self.order@.take(i as int),
                decreases self.order@.len() - i,
            {
                s.push(self.order[i]);
                i = i + 1;
                proof {
                    assert(s@ =~= self.order@.take(i as int));
                }
            }
            proof {
                assert(s@ =~= self.order@);
            }
        }
        if self.stability >= 4 && !self.best_move.is_null() {
            let j: usize = position_of(&s, self.best_move, 1);
            let ghost before = s@;
            proof {
                lemma_swapped(p, before, j as int);
            }
            if j < s.len() {
                let a = s[0];
                let b = s[j];
                s.set(0, b);
                s.set(j, a);
            }
        }
        s
    }

    /// Adds the scores of an iteration.
    fn add_scores(&mut self, moves: &Vec<Move>)
        requires
            old(self)@.scores.len() == moves@.len(),
        ensures
            final(self)@ == (Deep {
                scores: scores_with(old(self)@.scores, moves@, old(self)@.order),
                ..old(self)@
            }),
    {
        let ghost start = self@;
        let ghost goal = scores_with(start.scores, moves@, start.order);
        let mut i: usize = 0;
        while i < moves.len()
            invariant
                start == old(self)@,
                i <= moves@.len(),
                self.scores@.len() == moves@.len(),
                start.scores.len() == moves@.len(),
                goal == scores_with(start.scores, moves@, start.order),
                self@ == (Deep { scores: contents(self.scores@), ..start }),
                forall|j: int| 0 <= j < i ==> (#[trigger] self.scores@[j])@ == goal[j],
                forall|j: int| i <= j < moves@.len() ==> (#[trigger] self.scores@[j])@ == start.scores[j],
            decreases moves@.len() - i,
        {
            let j: usize = position_of(&self.order, moves[i], 0);
            if j < self.order.len() {
                let longer = with_score(&self.scores[i], self.order[j].score);
                self.scores.set(i, longer);
            }
            i = i + 1;
        }
        proof {
            assert(contents(self.scores@) =~= goal);
        }
    }
}

/// The best line, replaced by the solution from the tables if there is one.
fn apply_solution(plan: &Plan, results: &mut Vec<LineResult>)
    requires
        old(results)@.len() > 0,
    ensures
        final(results)@.len() == old(results)@.len(),
        found_lines(final(results)@) == found_lines(old(results)@).update(
            0,
            first_line(*plan, found_lines(old(results)@)[0]),
        ),
        final(results)@[0].score == old(results)@[0].score || (plan.solution is Some && final(results)@[0].score == (
        plan.solution->Some_0.0).0),
        final(results)@[0].pv@ == old(results)@[0].pv@ || (plan.solution is Some && final(results)@[0].pv@
            == plan.solution->Some_0.1@),
{
    let ghost before = results@;
    if let Some((score, pv)) = &plan.solution {
        if pv.len() > 0 {
            let seen: u8 = results[0].seldepth;
            let len: u8 = if pv.len() < 255 { pv.len() as u8 } else { 255 };
            let seldepth: u8 = if seen > len { seen } else { len };
            results.set(0, LineResult { score: score.0, pv: copy_moves(pv), seldepth });
        }
    }
    proof {
        assert(found_lines(results@) =~= found_lines(before).update(0, first_line(*plan, found_lines(before)[0])));
    }
}

/// The best move of an iteration.
fn choose_best(board: &Board, pv: &Vec<Move>, order: &Vec<Scored>, state: &SearchState) -> (r: Move)
    requires
        state.ok(),
        order_ok(board@, order@),
        pv@.len() > 0 ==> legal_in(board@, pv@[0]),
    ensures
        r == best_of(board@, pv@, order@, state@),
        legal_in(board@, r),
{
    if pv.len() > 0 {
        return pv[0];
    }
    if let Some(entry) = state.probe(board.hash) {
        if !entry.best_move.is_null() {
            let i: usize = position_of(order, entry.best_move, 0);
            if i < order.len() {
                proof {
                    assert(legal_in(board@, order@[i as int].m));
                }
                return entry.best_move;
            }
        }
    }
    proof {
        assert(legal_in(board@, order@[0].m));
    }
    order[0].m
}

impl Deepening {
    /// Takes over what a completed iteration found. Returns the drop of the
    /// score.
    fn settle(
        &mut self,
        board: &Board,
        plan: &Plan,
        base: u8,
        depth: u8,
        order: Vec<Scored>,
        results: &Vec<LineResult>,
        state: &SearchState,
        cfg: &Config,
        Ghost(lines): Ghost<Lines>,
    ) -> (r: i64)
        requires
            deep_ok(board@, *plan, old(self)@),
            plan_ok(board@, *plan, *cfg),
            state.ok(),
            lines.results.len() > 0,
            lines.order == order@,
            order_ok(board@, order@),
            results@.len() > 0,
            found_lines(results@)[0] == first_line(*plan, lines.results[0]),
            score_ok(results@[0].score as int),
            results@[0].pv@.len() > 0 ==> legal_in(board@, results@[0].pv@[0]),
            depth == depth_of(*plan, base as int),
        ensures
            final(self)@ == settled(board@, *plan, base as int, lines, old(self)@, state@),
            deep_ok(board@, *plan, final(self)@),
            r == dropped(base as int, old(self)@, final(self)@.best_score as int),
            0 <= r <= 0x2_0000_0000,
    {
        let ghost before = self@;
        let score: i32 = results[0].score;
        let diff: i64 = self.prev_score as i64 - score as i64;
        let drop: i64 = if base > 1 && diff > 0 { diff } else { 0 };
        if base > 1 {
            let size: i64 = if diff < 0 { -diff } else { diff };
            if size > self.max_swing {
                self.max_swing = size;
            }
        }
        let best = choose_best(board, &results[0].pv, &order, state);
        if base > 1 {
            if best != self.best_move {
                self.pv_changes = self.pv_changes.wrapping_add(1);
                if self.stability >= 6 {
                    self.stable_move = self.best_move;
                    self.stable_for = self.stability;
                }
                self.stability = 0;
            } else {
                self.stability = self.stability.wrapping_add(1);
            }
        }
        self.prev_score = score;
        self.best_move = best;
        self.best_score = score;
        self.best_pv = copy_moves(&results[0].pv);
        self.best_depth = depth;
        self.order = order;
        proof {
            assert(contents(self.scores@) == before.scores);
        }
        self.add_scores(&plan.moves);
        drop
    }

    /// Whether the search ends after an iteration.
    fn decide<H: Host>(
        &self,
        plan: &Plan,
        depth: u8,
        drop: i64,
        share: Option<(u64, u64)>,
        fails: u32,
        last_ms: u64,
        state: &mut SearchState,
        cfg: &Config,
        net: Ghost<NnueNetwork>,
        host: &mut Witness<H>,
        Ghost(p): Ghost<Position>,
        Ghost(lines): Ghost<Lines>,
    ) -> (r: bool)
        requires
            in_step(*old(state), *old(host)),
            old(state).ok(),
            deep_ok(p, *plan, self@),
            plan_ok(p, *plan, *cfg),
            0 <= drop <= 0x2_0000_0000,
            lines.share == share,
            lines.fails == fails,
        ensures
            in_step(*final(state), *final(host)),
            final(state).ok(),
            final(state).accumulators == old(state).accumulators,
            extends(final(state).log@, old(state).log@),
            forall|l: Seq<Answer>|
                extends(l, final(state).log@) ==> #[trigger] decided(
                    env(*cfg, net@, l),
                    *plan,
                    depth as int,
                    self@,
                    drop as int,
                    lines,
                    last_ms as int,
                    old(state)@,
                ) == (r, final(state)@),
    {
        let ghost s0 = *state;
        let score: i32 = self.best_score;
        let mut settled = false;
        if score >= 29_000 {
            if 29_994 <= score && score <= 30_000 {
                settled = true;
            } else if let Some(limit) = cfg.time_limit_ms {
                let t: u64 = state.elapsed(cfg, net, host);
                settled = t > limit / 5;
            }
        }
        let ghost s1 = *state;
        proof {
            assert forall|l: Seq<Answer>| extends(l, state.log@) implies #[trigger] mate_settles(
                env(*cfg, net@, l),
                score as int,
                s0@,
            ) == (settled, s1@) by {
            }
        }
        if settled {
            return true;
        }
        let stop = state.should_stop(cfg, net, host);
        let ghost s2 = *state;
        if stop {
            proof {
                assert forall|l: Seq<Answer>| extends(l, state.log@) implies #[trigger] decided(
                    env(*cfg, net@, l),
                    *plan,
                    depth as int,
                    self@,
                    drop as int,
                    lines,
                    last_ms as int,
                    s0@,
                ) == (true, state@) by {
                    assert(extends(l, s1.log@));
                    assert(mate_settles(env(*cfg, net@, l), score as int, s0@) == (false, s1@));
                    assert(should_stop(env(*cfg, net@, l), s1@) == (true, s2@));
                }
            }
            return true;
        }
        let mut done = false;
        let ghost mut s3 = *state;
        let ghost mut judgement = NodeShare { most: true, few: false, unsure: false };
        let ghost mut now: u64 = 0;
        if plan.limit.use_soft_limit {
            if let Some(limit) = cfg.time_limit_ms {
                let node_share = match share {
                    Some((best, total)) => {
                        let answer = host.node_share(best, total);
                        proof {
                            lemma_questions_push(state.log@, Answer::Share(best, total, answer));
                            state.log@ = state.log@.push(Answer::Share(best, total, answer));
                        }
                        answer
                    },
                    None => NodeShare { most: true, few: false, unsure: false },
                };
                proof {
                    s3 = *state;
                    judgement = node_share;
                }
                let g = Progress {
                    depth,
                    score,
                    pv_changes: self.pv_changes,
                    stability: self.stability,
                    max_swing: self.max_swing,
                    drop,
                    fails,
                    root_moves: self.order.len(),
                    game_ply: cfg.game_ply,
                    book_bonus: plan.book_bonus,
                    share: node_share,
                    last_ms,
                };
                let t: u64 = state.elapsed(cfg, net, host);
                proof {
                    now = t;
                }
                done = is_enough_time(limit, plan.limit.inc_ms, plan.limit.time_remaining_ms, &g, t);
            }
        }
        proof {
            assert forall|l: Seq<Answer>| extends(l, state.log@) implies #[trigger] decided(
                env(*cfg, net@, l),
                *plan,
                depth as int,
                self@,
                drop as int,
                lines,
                last_ms as int,
                s0@,
            ) == (done, state@) by {
                let e = env(*cfg, net@, l);
                assert(extends(l, s2.log@));
                assert(extends(l, s1.log@));
                assert(mate_settles(e, score as int, s0@) == (false, s1@));
                assert(should_stop(e, s1@) == (false, s2@));
                if plan.limit.use_soft_limit && cfg.time_limit_ms is Some {
                    assert(extends(l, s3.log@));
                    assert(judged(e, share, s2@) == (judgement, s3@));
                    assert(clock(e, s3@) == (now, state@));
                }
            }
        }
        done
    }
}

/// Reports the lines of an iteration, and the nodes so far.
fn tell<H: Host>(depth: u8, results: &Vec<LineResult>, time_ms: u64, state: &mut SearchState, host: &mut Witness<H>)
    requires
        in_step(*old(state), *old(host)),
        old(state).ok(),
    ensures
        in_step(*final(state), *final(host)),
        final(state).ok(),
        final(state).accumulators == old(state).accumulators,
        extends(final(state).log@, old(state).log@),
        final(state)@ == after_report(depth, found_lines(results@), time_ms, old(state)@),
{
    let hashfull: u16 = state.tt.hashfull();
    let ghost s0 = *state;
    let ghost all = reported(depth, found_lines(results@), s0@.nodes, time_ms, s0@.tt.fullness());
    let mut i: usize = 0;
    proof {
        assert(s0@.asked =~= s0@.asked + all.take(0));
    }
    while i < results.len()
        invariant
            in_step(*state, *host),
            s0 == *old(state),
            i <= results@.len(),
            all.len() == results@.len(),
            hashfull == s0@.tt.fullness(),
            all == reported(depth, found_lines(results@), s0@.nodes, time_ms, s0@.tt.fullness()),
            *state == (SearchState { log: state.log, ..s0 }),
            extends(state.log@, s0.log@),
            state@ == (Run { asked: s0@.asked + all.take(i as int), ..s0@ }),
        decreases results@.len() - i,
    {
        let info = SearchInfo {
            depth,
            seldepth: results[i].seldepth,
            score: Score(results[i].score),
            nodes: state.nodes,
            time_ms,
            pv: copy_moves(&results[i].pv),
            hashfull,
            multipv_line: i + 1,
        };
        host.report(&info);
        proof {
            let note = Answer::Told(info_of(info));
            lemma_questions_push(state.log@, note);
            assert(note.question() == all[i as int]);
            assert(all.take(i + 1) =~= all.take(i as int).push(note.question()));
            assert((s0@.asked + all.take(i as int)).push(note.question()) =~= s0@.asked + all.take(i + 1));
            state.log@ = state.log@.push(note);
        }
        i = i + 1;
    }
    host.count_nodes(state.nodes);
    proof {
        assert(all.take(i as int) =~= all);
        let note = Answer::Counted(state.nodes);
        lemma_questions_push(state.log@, note);
        state.log@ = state.log@.push(note);
    }
}

/// One iteration. Returns whether it is the last.
fn iterate<H: Host>(
    board: &mut Board,
    plan: &Plan,
    base: u8,
    deep: &mut Deepening,
    state: &mut SearchState,
    cfg: &Config,
    net: &NnueNetwork,
    host: &mut Witness<H>,
) -> (r: bool)
    requires
        in_step(*old(state), *old(host)),
        ready(*old(board), *old(state), *cfg, *net, 0),
        plan_ok(old(board)@, *plan, *cfg),
        deep_ok(old(board)@, *plan, old(deep)@),
        1 <= base <= plan.max_depth,
    ensures
        in_step(*final(state), *final(host)),
        kept(*old(board), *final(board), *old(state), *final(state), *cfg, *net, 0),
        deep_ok(old(board)@, *plan, final(deep)@),
        forall|l: Seq<Answer>|
            extends(l, final(state).log@) ==> #[trigger] iterated(
                env(*cfg, *net, l),
                old(board)@,
                *plan,
                base as int,
                old(deep)@,
                old(state)@,
            ) == (final(deep)@, final(state)@, r),
{
    let ghost p = board@;
    let ghost s0 = *state;
    let ghost d0 = deep@;
    let depth: u8 = depth_for(plan, base);
    let mut order = deep.arrange(base, Ghost(p));
    let ghost order0 = order@;
    let t0: u64 = state.elapsed(cfg, Ghost(*net), host);
    let ghost s1 = *state;
    let wanted: usize = if plan.multi_pv > 1 { plan.multi_pv } else { 1 };
    let multi: usize = if wanted < order.len() { wanted } else { order.len() };
    let mut results: Vec<LineResult> = Vec::new();
    let mut excluded: Vec<Move> = Vec::new();
    let (completed, share, fails) = lines_search(
        board,
        &plan.limit,
        depth,
        deep.prev_score,
        multi,
        state,
        cfg,
        net,
        host,
        &mut order,
        &mut results,
        &mut excluded,
    );
    let ghost s2 = *state;
    let ghost lines = lines_of(order@, results@, excluded@, share, fails, completed, state@);
    let ghost results0 = results@;
    let t1: u64 = state.elapsed(cfg, Ghost(*net), host);
    let ghost s3 = *state;
    proof {
        reveal(iterated);
        assert forall|l: Seq<Answer>| extends(l, state.log@) implies #[trigger] clock(env(*cfg, *net, l), s0@) == (
            t0,
            s1@,
        ) by {
            assert(extends(l, s1.log@));
        }
        assert forall|l: Seq<Answer>| extends(l, state.log@) implies #[trigger] search_lines(
            env(*cfg, *net, l),
            plan.limit,
            p,
            depth as int,
            d0.prev_score as int,
            multi as int,
            0,
            no_lines(order0, s1@),
        ) == lines by {
            assert(extends(l, s2.log@));
        }
    }
    if (!completed && depth > 1) || results.len() == 0 {
        deep.order = order;
        proof {
            assert(deep@ == (Deep { order: lines.order, ..d0 }));
            assert forall|l: Seq<Answer>| extends(l, state.log@) implies #[trigger] iterated(
                env(*cfg, *net, l),
                p,
                *plan,
                base as int,
                d0,
                s0@,
            ) == (deep@, state@, true) by {
                let e = env(*cfg, *net, l);
                assert(clock(e, s0@) == (t0, s1@));
                assert(clock(e, s2@) == (t1, s3@));
                assert(search_lines(
                    e,
                    plan.limit,
                    p,
                    depth as int,
                    d0.prev_score as int,
                    multi as int,
                    0,
                    no_lines(order0, s1@),
                ) == lines);
            }
        }
        return true;
    }
    apply_solution(plan, &mut results);
    let drop: i64 = deep.settle(board, plan, base, depth, order, &results, state, cfg, Ghost(lines));
    let ghost d1 = deep@;
    let t2: u64 = state.elapsed(cfg, Ghost(*net), host);
    let ghost s4 = *state;
    tell(depth, &results, t2, state, host);
    let ghost s5 = *state;
    let last_ms: u64 = if t1 > t0 { t1 - t0 } else { 0 };
    let r = deep.decide(
        plan,
        depth,
        drop,
        share,
        fails,
        last_ms,
        state,
        cfg,
        Ghost(*net),
        host,
        Ghost(p),
        Ghost(lines),
    );
    proof {
        assert forall|l: Seq<Answer>| extends(l, state.log@) implies #[trigger] iterated(
            env(*cfg, *net, l),
            p,
            *plan,
            base as int,
            d0,
            s0@,
        ) == (deep@, state@, r) by {
            let e = env(*cfg, *net, l);
            assert(extends(l, s5.log@));
            assert(extends(l, s4.log@));
            assert(extends(l, s3.log@));
            assert(clock(e, s0@) == (t0, s1@));
            assert(clock(e, s2@) == (t1, s3@));
            assert(clock(e, s3@) == (t2, s4@));
            assert(search_lines(
                e,
                plan.limit,
                p,
                depth as int,
                d0.prev_score as int,
                multi as int,
                0,
                no_lines(order0, s1@),
            ) == lines);
            assert(decided(e, *plan, depth as int, d1, drop as int, lines, last_ms as int, s5@) == (r, state@));
        }
    }
    r
}

/// All iterations.
fn deepen<H: Host>(
    board: &mut Board,
    plan: &Plan,
    deep: &mut Deepening,
    state: &mut SearchState,
    cfg: &Config,
    net: &NnueNetwork,
    host: &mut Witness<H>,
)
    requires
        in_step(*old(state), *old(host)),
        ready(*old(board), *old(state), *cfg, *net, 0),
        plan_ok(old(board)@, *plan, *cfg),
        deep_ok(old(board)@, *plan, old(deep)@),
    ensures
        in_step(*final(state), *final(host)),
        kept(*old(board), *final(board), *old(state), *final(state), *cfg, *net, 0),
        deep_ok(old(board)@, *plan, final(deep)@),
        forall|l: Seq<Answer>|
            extends(l, final(state).log@) ==> #[trigger] deepened(
                env(*cfg, *net, l),
                old(board)@,
                *plan,
                1,
                old(deep)@,
                old(state)@,
            ) == (final(deep)@, final(state)@),
{
    let ghost p = board@;
    let ghost s0 = *state;
    let ghost d0 = deep@;
    let mut base: u8 = 1;
    while base <= plan.max_depth
        invariant
            in_step(*state, *host),
            p == board@,
            p == old(board)@,
            s0 == *old(state),
            d0 == old(deep)@,
            ready(*board, *state, *cfg, *net, 0),
            extends(state.log@, s0.log@),
            plan_ok(p, *plan, *cfg),
            deep_ok(p, *plan, deep@),
            1 <= base <= plan.max_depth + 1,
            forall|l: Seq<Answer>|
                extends(l, state.log@) ==> #[trigger] deepened(env(*cfg, *net, l), p, *plan, 1, d0, s0@) == deepened(
                    env(*cfg, *net, l),
                    p,
                    *plan,
                    base as int,
                    deep@,
                    state@,
                ),
        decreases plan.max_depth + 1 - base,
    {
        let ghost s1 = *state;
        let ghost d1 = deep@;
        let done = iterate(board, plan, base, deep, state, cfg, net, host);
        proof {
            assert forall|l: Seq<Answer>| extends(l, state.log@) implies #[trigger] deepened(
                env(*cfg, *net, l),
                p,
                *plan,
                1,
                d0,
                s0@,
            ) == (if done {
                (deep@, state@)
            } else {
                deepened(env(*cfg, *net, l), p, *plan, base + 1, deep@, state@)
            }) by {
                let e = env(*cfg, *net, l);
                assert(extends(l, s1.log@));
                assert(iterated(e, p, *plan, base as int, d1, s1@) == (deep@, state@, done));
            }
        }
        if done {
            return ;
        }
        base = base + 1;
    }
}

impl Deepening {
    /// Prefers a long stable move if its averaged scores are clearly better.
    fn steady<H: Host>(
        &mut self,
        plan: &Plan,
        state: &mut SearchState,
        cfg: &Config,
        net: Ghost<NnueNetwork>,
        host: &mut Witness<H>,
        Ghost(p): Ghost<Position>,
    )
        requires
            in_step(*old(state), *old(host)),
            old(state).ok(),
            plan_ok(p, *plan, *cfg),
            deep_ok(p, *plan, old(self)@),
        ensures
            in_step(*final(state), *final(host)),
            final(state).ok(),
            extends(final(state).log@, old(state).log@),
            order_ok(p, final(self)@.order),
            final(self)@.best_move.0 != 0 ==> legal_in(p, final(self)@.best_move),
            final(state)@ == (Run { asked: final(state)@.asked, ..old(state)@ }),
            forall|l: Seq<Answer>|
                extends(l, final(state).log@) ==> #[trigger] steadied(
                    env(*cfg, net@, l),
                    *plan,
                    old(self)@,
                    old(state)@,
                ) == (final(self)@, final(state)@),
    {
        if self.stable_move.is_null() || self.best_move == self.stable_move || self.stable_for < 6 {
            return ;
        }
        let i: usize = move_place(&plan.moves, self.stable_move);
        let j: usize = move_place(&plan.moves, self.best_move);
        if i == plan.moves.len() || j == plan.moves.len() {
            return ;
        }
        let answer = host.steadier(&self.scores[i], &self.scores[j]);
        proof {
            let told = Answer::Steady(self.scores@[i as int]@, self.scores@[j as int]@, answer);
            lemma_questions_push(state.log@, told);
            state.log@ = state.log@.push(told);
        }
        if let Some(score) = answer {
            self.best_move = self.stable_move;
            self.best_score = score;
        }
    }

    /// The result of the search.
    fn conclude(&self, board: &Board, plan: &Plan, nodes: u64, Ghost(cfg): Ghost<Config>) -> (r: SearchResult)
        requires
            board.ok(),
            plan_ok(board@, *plan, cfg),
            order_ok(board@, self@.order),
            self@.best_move.0 != 0 ==> legal_in(board@, self@.best_move),
        ensures
            outcome(r) == concluded(board@, *plan, self@, nodes),
            legal_in(board@, r.best_move),
    {
        proof {
            reveal(concluded);
        }
        if self.best_pv.len() == 0 {
            if let Some((score, pv)) = &plan.solution {
                if pv.len() > 0 {
                    let len: u8 = if pv.len() < 255 { pv.len() as u8 } else { 255 };
                    return SearchResult {
                        best_move: pv[0],
                        score: *score,
                        depth: if self.best_depth > len { self.best_depth } else { len },
                        nodes,
                        pv: sanitize_pv(board, pv),
                    };
                }
            }
        }
        let best_move = if self.best_move.is_null() { self.order[0].m } else { self.best_move };
        proof {
            assert(legal_in(board@, self@.order[0].m));
        }
        SearchResult {
            best_move,
            score: Score(self.best_score),
            depth: self.best_depth,
            nodes,
            pv: sanitize_pv(board, &self.best_pv),
        }
    }
}

/// The result of all iterations.
pub open spec fn ended(e: Env, p: Position, plan: Plan, order: Seq<Scored>, r: Run) -> (Outcome, Run) {
    let (d, r1) = deepened(e, p, plan, 1, started(order, plan.moves@.len() as int), r);
    let (d1, r2) = steadied(e, plan, d, r1);
    (concluded(p, plan, d1, r2.nodes), r2)
}

/// All iterations, and the result.
pub fn deepen_all<H: Host>(
    board: &mut Board,
    plan: &Plan,
    order: Vec<Scored>,
    state: &mut SearchState,
    cfg: &Config,
    net: &NnueNetwork,
    host: &mut Witness<H>,
) -> (r: SearchResult)
    requires
        in_step(*old(state), *old(host)),
        ready(*old(board), *old(state), *cfg, *net, 0),
        plan_ok(old(board)@, *plan, *cfg),
        order_ok(old(board)@, order@),
    ensures
        in_step(*final(state), *final(host)),
        final(state).ok(),
        legal_in(old(board)@, r.best_move),
        extends(final(state).log@, old(state).log@),
        forall|l: Seq<Answer>|
            extends(l, final(state).log@) ==> #[trigger] ended(
                env(*cfg, *net, l),
                old(board)@,
                *plan,
                order@,
                old(state)@,
            ) == (outcome(r), final(state)@),
{
    let ghost p = board@;
    let ghost r0 = state@;
    let ghost order0 = order@;
    let mut deep = Deepening::new(order, plan.moves.len());
    let ghost d0 = deep@;
    deepen(board, plan, &mut deep, state, cfg, net, host);
    let ghost d = deep@;
    let ghost r1 = state@;
    let ghost mid = state.log@;
    deep.steady(plan, state, cfg, Ghost(*net), host, Ghost(p));
    let r = deep.conclude(board, plan, state.nodes, Ghost(*cfg));
    proof {
        assert forall|l: Seq<Answer>| extends(l, state.log@) implies #[trigger] ended(
            env(*cfg, *net, l),
            p,
            *plan,
            order0,
            r0,
        ) == (outcome(r), state@) by {
            let e = env(*cfg, *net, l);
            assert(extends(l, mid));
            assert(deepened(e, p, *plan, 1, d0, r0) == (d, r1));
            assert(steadied(e, *plan, d, r1) == (deep@, state@));
        }
    }
    r
}

} // verus!
