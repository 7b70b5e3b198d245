//! The lines of one iteration: aspiration windows for the best line, full
//! windows for the others.

use vstd::prelude::*;
use crate::arith::{max_of, min_of};
use crate::board::{Board, Position};
use crate::lines::{by_score, leave_out, legal_in, lemma_by_score, playable, rescored_by, same_moves, sanitize_pv, sort_by_score, take_scores, without};
use crate::moves::Move;
use crate::nnue::network::NnueNetwork;
use crate::ordering::Scored;
use crate::quiescence::{kept, ready, score_ok};
use crate::root::{alpha_beta_root, root_list_ok, root_search, Root, LEFT_OUT};
use crate::search::{env, extends, in_step, lemma_questions_push, should_stop, tries, Answer, Config, Env, Host, Question, Run, SearchState, Witness};
use crate::timing::TimeLimit;

verus! {

/// Time on the clock, and the state after asking.
pub open spec fn clock(e: Env, r: Run) -> (u64, Run) {
    (e.log[r.asked.len() as int]->Clock_0, Run { asked: r.asked.push(Question::Clock), ..r })
}

impl SearchState {
    /// Milliseconds since the search began.
    pub fn elapsed<H: Host>(&mut self, cfg: &Config, net: Ghost<NnueNetwork>, host: &mut Witness<H>) -> (t: u64)
        requires
            in_step(*old(self), *old(host)),
            old(self).ok(),
        ensures
            in_step(*final(self), *final(host)),
            final(self).ok(),
            final(self).accumulators == old(self).accumulators,
            extends(final(self).log@, old(self).log@),
            forall|l: Seq<Answer>|
                extends(l, final(self).log@) ==> #[trigger] clock(env(*cfg, net@, l), old(self)@) == (t, final(self)@),
    {
        let t: u64 = host.elapsed_ms();
        proof {
            lemma_questions_push(self.log@, Answer::Clock(t));
            self.log@ = self.log@.push(Answer::Clock(t));
        }
        t
    }
}

/// What a search with widening windows comes to.
pub struct Found {
    pub score: i32,
    pub pv: Seq<Move>,
    pub list: Seq<Scored>,
    pub share: Option<(u64, u64)>,
    pub fails: u32,
    pub run: Run,
}

/// The last count of nodes that is not empty.
pub open spec fn merged(share: Option<(u64, u64)>, new: Option<(u64, u64)>) -> Option<(u64, u64)> {
    match new {
        Some((best, total)) => if total > 0 { Some((best, total)) } else { share },
        None => share,
    }
}

fn merge(share: Option<(u64, u64)>, new: Option<(u64, u64)>) -> (r: Option<(u64, u64)>)
    ensures
        r == merged(share, new),
{
    match new {
        Some((best, total)) => if total > 0 {
            Some((best, total))
        } else {
            share
        },
        None => share,
    }
}

/// A search that fails low may go on a little past its time, with enough on the
/// clock.
pub open spec fn may_extend(e: Env, t: TimeLimit, r: Run) -> (bool, Run) {
    match e.cfg.time_limit_ms {
        Some(limit) => {
            let (now, r1) = clock(e, r);
            (now < limit * 6 / 5 && t.time_remaining_ms >= 10_000 && t.time_remaining_ms > t.inc_ms * 8, r1)
        },
        None => (false, r),
    }
}

/// The step of the next window: half as much again, as far as that matters.
pub open spec fn widened(delta: int) -> int {
    min_of(delta + delta / 2, 1_000_000_000_000)
}

/// A search of the root within a window that widens as long as the score falls
/// out of it.
pub open spec fn aspirate(
    e: Env,
    t: TimeLimit,
    p: Position,
    depth: int,
    alpha: int,
    beta: int,
    delta: int,
    list: Seq<Scored>,
    share: Option<(u64, u64)>,
    fails: u32,
    r: Run,
) -> Found
    decreases (alpha + 2147483647) + (2147483647 - beta),
{
    let out = root_search(e, p, depth, alpha, beta, list, r);
    let share1 = merged(share, out.shares);
    let (stop, r1) = should_stop(e, out.run);
    let stopped = stop && depth > 1;
    let (extend, r2) = if stopped { may_extend(e, t, r1) } else { (false, r1) };
    let lower = max_of(out.score - delta, -2147483647);
    let higher = min_of(out.score + delta, 2147483647);
    if (!stopped || (out.score <= alpha && extend)) && out.score <= alpha && -2147483647 <= alpha && lower < alpha && beta
        <= 2147483647 {
        aspirate(e, t, p, depth, lower, beta, widened(delta), out.list, share1, fails.wrapping_add(1), r2)
    } else if !stopped && out.score > alpha && out.score >= beta && -2147483647 <= alpha && beta < higher {
        aspirate(e, t, p, depth, alpha, higher, widened(delta), out.list, share1, fails.wrapping_add(1), r2)
    } else {
        Found { score: out.score, pv: out.pv, list: out.list, share: share1, fails, run: r2 }
    }
}

/// Searches the root within widening windows.
fn aspiration_search<H: Host>(
    board: &mut Board,
    t: &TimeLimit,
    depth: u8,
    first_alpha: i32,
    first_beta: i32,
    pv: &mut Vec<Move>,
    state: &mut SearchState,
    cfg: &Config,
    net: &NnueNetwork,
    host: &mut Witness<H>,
    list: &mut Vec<Scored>,
    first_share: Option<(u64, u64)>,
) -> (r: (i32, Option<(u64, u64)>, u32))
    requires
        in_step(*old(state), *old(host)),
        ready(*old(board), *old(state), *cfg, *net, 0),
        1 <= depth <= 128,
        -2147483647 <= first_alpha < first_beta,
        first_alpha <= 2_147_200_000,
        first_beta >= -2_147_200_000,
        root_list_ok(old(board)@, old(list)@),
    ensures
        in_step(*final(state), *final(host)),
        kept(*old(board), *final(board), *old(state), *final(state), *cfg, *net, 0),
        score_ok(r.0 as int),
        root_list_ok(old(board)@, final(list)@),
        final(list)@.len() == old(list)@.len(),
        forall|l: Seq<Answer>|
            extends(l, final(state).log@) ==> #[trigger] aspirate(
                env(*cfg, *net, l),
                *t,
                old(board)@,
                depth as int,
                first_alpha as int,
                first_beta as int,
                60,
                old(list)@,
                first_share,
                0,
                old(state)@,
            ) == (Found {
                score: r.0,
                pv: final(pv)@,
                list: final(list)@,
                share: r.1,
                fails: r.2,
                run: final(state)@,
            }),
{
    let ghost p = board@;
    let ghost s0 = *state;
    let ghost list0 = list@;
    let mut alpha: i32 = first_alpha;
    let mut beta: i32 = first_beta;
    let mut delta: i64 = 60;
    let mut share = first_share;
    let mut fails: u32 = 0;
    loop
        invariant
            in_step(*state, *host),
            p == board@,
            p == old(board)@,
            s0 == *old(state),
            list0 == old(list)@,
            ready(*board, *state, *cfg, *net, 0),
            extends(state.log@, s0.log@),
            1 <= depth <= 128,
            -2147483647 <= alpha < beta,
            alpha <= 2_147_200_000,
            beta >= -2_147_200_000,
            60 <= delta <= 1_000_000_000_000,
            root_list_ok(p, list@),
            list@.len() == list0.len(),
            forall|l: Seq<Answer>|
                extends(l, state.log@) ==> #[trigger] aspirate(
                    env(*cfg, *net, l),
                    *t,
                    p,
                    depth as int,
                    first_alpha as int,
                    first_beta as int,
                    60,
                    list0,
                    first_share,
                    0,
                    s0@,
                ) == aspirate(
                    env(*cfg, *net, l),
                    *t,
                    p,
                    depth as int,
                    alpha as int,
                    beta as int,
                    delta as int,
                    list@,
                    share,
                    fails,
                    state@,
                ),
        decreases (alpha + 2147483647) + (2147483647 - beta),
    {
        let ghost s1 = *state;
        let ghost list1 = list@;
        let ghost share1 = share;
        let ghost alpha1 = alpha;
        let ghost beta1 = beta;
        let ghost delta1 = delta;
        let ghost fails1 = fails;
        let (score, shares) = alpha_beta_root(board, depth, alpha, beta, pv, state, cfg, net, host, list);
        share = merge(share, shares);
        let ghost s2 = *state;
        let ghost out = Root { score, pv: pv@, list: list@, shares, run: s2@ };
        let stop = state.should_stop(cfg, Ghost(*net), host);
        let ghost s3 = *state;
        let stopped = stop && depth > 1;
        let mut extend = false;
        if stopped {
            if let Some(limit) = cfg.time_limit_ms {
                let now: u64 = state.elapsed(cfg, Ghost(*net), host);
                extend = (now as u128) < limit as u128 * 6 / 5 && t.time_remaining_ms >= 10_000
                    && t.time_remaining_ms as u128 > t.inc_ms as u128 * 8;
            }
        }
        let low = score <= alpha;
        let high = score >= beta;
        let again = if stopped { low && extend } else { low || high };
        proof {
            assert forall|l: Seq<Answer>| extends(l, state.log@) implies #[trigger] root_search(
                env(*cfg, *net, l),
                p,
                depth as int,
                alpha1 as int,
                beta1 as int,
                list1,
                s1@,
            ) == out by {
                assert(extends(l, s2.log@));
            }
            assert forall|l: Seq<Answer>| extends(l, state.log@) implies #[trigger] should_stop(
                env(*cfg, *net, l),
                s2@,
            ) == (stop, s3@) by {
            }
        }
        if again {
            if low {
                let wide: i64 = score as i64 - delta;
                alpha = if wide < -2147483647 { -2147483647 } else { wide as i32 };
            } else {
                let wide: i64 = score as i64 + delta;
                beta = if wide > 2147483647 { 2147483647 } else { wide as i32 };
            }
            delta = if delta + delta / 2 < 1_000_000_000_000 { delta + delta / 2 } else { 1_000_000_000_000 };
            fails = fails.wrapping_add(1);
        }
        proof {
            assert forall|l: Seq<Answer>| extends(l, state.log@) implies #[trigger] aspirate(
                env(*cfg, *net, l),
                *t,
                p,
                depth as int,
                first_alpha as int,
                first_beta as int,
                60,
                list0,
                first_share,
                0,
                s0@,
            ) == (if again {
                aspirate(
                    env(*cfg, *net, l),
                    *t,
                    p,
                    depth as int,
                    alpha as int,
                    beta as int,
                    delta as int,
                    list@,
                    share,
                    fails,
                    state@,
                )
            } else {
                Found { score, pv: pv@, list: list@, share, fails, run: state@ }
            }) by {
                let e = env(*cfg, *net, l);
                assert(extends(l, s3.log@));
                assert(extends(l, s1.log@));
                assert(root_search(e, p, depth as int, alpha1 as int, beta1 as int, list1, s1@) == out);
                assert(should_stop(e, s2@) == (stop, s3@));
                assert(aspirate(
                    e,
                    *t,
                    p,
                    depth as int,
                    alpha1 as int,
                    beta1 as int,
                    delta1 as int,
                    list1,
                    share1,
                    fails1,
                    s1@,
                ) == aspirate(
                    e,
                    *t,
                    p,
                    depth as int,
                    first_alpha as int,
                    first_beta as int,
                    60,
                    list0,
                    first_share,
                    0,
                    s0@,
                ));
            }
        }
        if !again {
            return (score, share, fails);
        }
    }
}

// Lines.
/// One line of an iteration.
pub struct LineFound {
    pub score: i32,
    pub pv: Seq<Move>,
    pub seldepth: u8,
}

/// The lines of an iteration.
pub struct Lines {
    pub order: Seq<Scored>,
    pub results: Seq<LineFound>,
    pub excluded: Seq<Move>,
    pub share: Option<(u64, u64)>,
    pub fails: u32,
    pub completed: bool,
    pub run: Run,
}

/// Before the first line.
pub open spec fn no_lines(order: Seq<Scored>, run: Run) -> Lines {
    Lines {
        order,
        results: Seq::empty(),
        excluded: Seq::empty(),
        share: None,
        fails: 0,
        completed: true,
        run,
    }
}

/// The search of the next line: the best line within windows about the last
/// score, the others with the full window and the better moves left out.
pub open spec fn next_line(e: Env, t: TimeLimit, p: Position, depth: int, prev: int, first: bool, s: Lines) -> Found {
    let w = by_score(without(s.order, s.excluded));
    if first {
        let alpha = if depth >= 4 { prev - 30 } else { -2147483647 };
        let beta = if depth >= 4 { prev + 30 } else { 2147483647 };
        aspirate(e, t, p, depth, alpha, beta, 60, w, s.share, 0, s.run)
    } else {
        let out = root_search(e, p, depth, -2147483647, 2147483647, w, s.run);
        Found {
            score: out.score,
            pv: out.pv,
            list: out.list,
            share: merged(s.share, out.shares),
            fails: s.fails,
            run: out.run,
        }
    }
}

/// The lines of an iteration from a number on. A stop leaves the iteration
/// incomplete.
pub open spec fn search_lines(e: Env, t: TimeLimit, p: Position, depth: int, prev: int, multi: int, line: int, s: Lines) -> Lines
    decreases multi - line,
{
    let w = by_score(without(s.order, s.excluded));
    if line >= multi || w.len() == 0 || w[0].score == LEFT_OUT {
        s
    } else {
        let f = next_line(e, t, p, depth, prev, line == 0, s);
        let order = if line == 0 { rescored_by(s.order, f.list, f.list.len() as int) } else { s.order };
        let (stop, r1) = should_stop(e, f.run);
        let s1 = Lines { order, share: f.share, fails: f.fails, run: r1, ..s };
        if stop && depth > 1 {
            Lines { completed: false, ..s1 }
        } else {
            let best = if f.pv.len() > 0 { f.pv[0] } else { f.list[0].m };
            search_lines(
                e,
                t,
                p,
                depth,
                prev,
                multi,
                line + 1,
                Lines {
                    excluded: s.excluded.push(best),
                    results: s.results.push(
                        LineFound { score: f.score, pv: playable(p, f.pv), seldepth: r1.seldepth },
                    ),
                    ..s1
                },
            )
        }
    }
}

/// One line of an iteration.
pub struct LineResult {
    pub score: i32,
    pub pv: Vec<Move>,
    pub seldepth: u8,
}

/// The lines as found.
pub open spec fn found_lines(s: Seq<LineResult>) -> Seq<LineFound> {
    Seq::new(s.len(), |i: int| LineFound { score: s[i].score, pv: s[i].pv@, seldepth: s[i].seldepth })
}

/// Root moves that can be played, are legal, and are at least one.
pub open spec fn order_ok(p: Position, list: Seq<Scored>) -> bool {
    &&& list.len() > 0
    &&& forall|i: int| 0 <= i < list.len() ==> tries(p, #[trigger] list[i].m) && legal_in(p, list[i].m)
}

proof fn lemma_working(p: Position, order: Seq<Scored>, excluded: Seq<Move>)
    requires
        order_ok(p, order),
    ensures
        order_ok(p, by_score(without(order, excluded))),
{
    let m = without(order, excluded);
    lemma_by_score(m);
    let w = by_score(m);
    assert forall|i: int| 0 <= i < w.len() implies tries(p, #[trigger] w[i].m) && legal_in(p, w[i].m) by {
        assert(m.contains(w[i]));
        let j = choose|j: int| 0 <= j < m.len() && m[j] == w[i];
        assert(order[j].m == w[i].m);
    }
}

/// Searches the lines of an iteration. The results are the score, line and
/// depth of each, with whether all were completed, the nodes, and the number of
/// failed windows.
pub fn lines_search<H: Host>(
    board: &mut Board,
    t: &TimeLimit,
    depth: u8,
    prev_score: i32,
    multi: usize,
    state: &mut SearchState,
    cfg: &Config,
    net: &NnueNetwork,
    host: &mut Witness<H>,
    order: &mut Vec<Scored>,
    results: &mut Vec<LineResult>,
    excluded: &mut Vec<Move>,
) -> (r: (bool, Option<(u64, u64)>, u32))
    requires
        in_step(*old(state), *old(host)),
        ready(*old(board), *old(state), *cfg, *net, 0),
        1 <= depth <= 128,
        score_ok(prev_score as int),
        order_ok(old(board)@, old(order)@),
        old(results)@.len() == 0,
        old(excluded)@.len() == 0,
    ensures
        in_step(*final(state), *final(host)),
        kept(*old(board), *final(board), *old(state), *final(state), *cfg, *net, 0),
        order_ok(old(board)@, final(order)@),
        same_moves(final(order)@, old(order)@),
        forall|i: int| 0 <= i < final(results)@.len() ==> score_ok(#[trigger] final(results)@[i].score as int),
        forall|i: int|
            0 <= i < final(results)@.len() && final(results)@[i].pv@.len() > 0 ==> legal_in(
                old(board)@,
                #[trigger] final(results)@[i].pv@[0],
            ),
        forall|l: Seq<Answer>|
            extends(l, final(state).log@) ==> #[trigger] search_lines(
                env(*cfg, *net, l),
                *t,
                old(board)@,
                depth as int,
                prev_score as int,
                multi as int,
                0,
                no_lines(old(order)@, old(state)@),
            ) == lines_of(final(order)@, final(results)@, final(excluded)@, r.1, r.2, r.0, final(state)@),
{
    let ghost p = board@;
    let ghost s0 = *state;
    let ghost order0 = order@;
    let ghost begin = no_lines(order@, state@);
    let mut share: Option<(u64, u64)> = None;
    let mut fails: u32 = 0;
    let mut line: usize = 0;
    proof {
        assert(found_lines(results@) =~= Seq::<LineFound>::empty());
        assert(excluded@ =~= Seq::<Move>::empty());
    }
    while line < multi
        invariant
            in_step(*state, *host),
            p == board@,
            p == old(board)@,
            s0 == *old(state),
            order0 == old(order)@,
            begin == no_lines(order0, s0@),
            ready(*board, *state, *cfg, *net, 0),
            extends(state.log@, s0.log@),
            1 <= depth <= 128,
            score_ok(prev_score as int),
            order_ok(p, order@),
            same_moves(order@, order0),
            forall|i: int| 0 <= i < results@.len() ==> score_ok(#[trigger] results@[i].score as int),
            forall|i: int|
                0 <= i < results@.len() && results@[i].pv@.len() > 0 ==> legal_in(p, #[trigger] results@[i].pv@[0]),
            forall|l: Seq<Answer>|
                extends(l, state.log@) ==> #[trigger] search_lines(
                    env(*cfg, *net, l),
                    *t,
                    p,
                    depth as int,
                    prev_score as int,
                    multi as int,
                    0,
                    begin,
                ) == search_lines(
                    env(*cfg, *net, l),
                    *t,
                    p,
                    depth as int,
                    prev_score as int,
                    multi as int,
                    line as int,
                    lines_of(order@, results@, excluded@, share, fails, true, state@),
                ),
        decreases multi - line,
    {
        let ghost s1 = *state;
        let ghost cur = lines_of(order@, results@, excluded@, share, fails, true, state@);
        let masked = leave_out(order, excluded);
        let mut working = sort_by_score(&masked);
        let ghost w = working@;
        proof {
            lemma_working(p, order@, excluded@);
        }
        if working[0].score == LEFT_OUT {
            proof {
                assert forall|l: Seq<Answer>| extends(l, state.log@) implies #[trigger] search_lines(
                    env(*cfg, *net, l),
                    *t,
                    p,
                    depth as int,
                    prev_score as int,
                    multi as int,
                    0,
                    begin,
                ) == lines_of(order@, results@, excluded@, share, fails, true, state@) by {
                    assert(search_lines(
                        env(*cfg, *net, l),
                        *t,
                        p,
                        depth as int,
                        prev_score as int,
                        multi as int,
                        line as int,
                        cur,
                    ) == cur);
                }
            }
            return (true, share, fails);
        }
        let mut pv: Vec<Move> = Vec::new();
        let score: i32;
        let first = line == 0;
        if first {
            let alpha: i32 = if depth >= 4 { prev_score - 30 } else { -2147483647 };
            let beta: i32 = if depth >= 4 { prev_score + 30 } else { 2147483647 };
            let (s, sh, f) = aspiration_search(
                board,
                t,
                depth,
                alpha,
                beta,
                &mut pv,
                state,
                cfg,
                net,
                host,
                &mut working,
                share,
            );
            score = s;
            share = sh;
            fails = f;
        } else {
            let (s, sh) = alpha_beta_root(
                board,
                depth,
                -2147483647,
                2147483647,
                &mut pv,
                state,
                cfg,
                net,
                host,
                &mut working,
            );
            score = s;
            share = merge(share, sh);
        }
        let ghost found = Found { score, pv: pv@, list: working@, share, fails, run: state@ };
        let ghost s2 = *state;
        proof {
            assert forall|l: Seq<Answer>| extends(l, state.log@) implies #[trigger] next_line(
                env(*cfg, *net, l),
                *t,
                p,
                depth as int,
                prev_score as int,
                first,
                cur,
            ) == found by {
            }
        }
        if first {
            take_scores(order, &working);
        }
        proof {
            assert forall|i: int| 0 <= i < order@.len() implies tries(p, #[trigger] order@[i].m) && legal_in(
                p,
                order@[i].m,
            ) by {
                assert(cur.order[i].m == order@[i].m);
            }
        }
        let stop = state.should_stop(cfg, Ghost(*net), host);
        let ghost s3 = *state;
        if stop && depth > 1 {
            proof {
                assert forall|l: Seq<Answer>| extends(l, state.log@) implies #[trigger] search_lines(
                    env(*cfg, *net, l),
                    *t,
                    p,
                    depth as int,
                    prev_score as int,
                    multi as int,
                    0,
                    begin,
                ) == lines_of(order@, results@, excluded@, share, fails, false, state@) by {
                    let e = env(*cfg, *net, l);
                    assert(extends(l, s2.log@));
                    assert(extends(l, s1.log@));
                    assert(next_line(e, *t, p, depth as int, prev_score as int, first, cur) == found);
                    assert(should_stop(e, s2@) == (stop, s3@));
                    assert(search_lines(
                        e,
                        *t,
                        p,
                        depth as int,
                        prev_score as int,
                        multi as int,
                        line as int,
                        cur,
                    ) == lines_of(order@, results@, excluded@, share, fails, false, state@));
                }
            }
            return (false, share, fails);
        }
        let line_best = if pv.len() > 0 { pv[0] } else { working[0].m };
        excluded.push(line_best);
        let clean = sanitize_pv(board, &pv);
        let ghost before = results@;
        results.push(LineResult { score, pv: clean, seldepth: state.seldepth });
        proof {
            assert(found_lines(results@) =~= found_lines(before).push(
                LineFound { score, pv: playable(p, pv@), seldepth: state.seldepth },
            ));
            assert forall|l: Seq<Answer>| extends(l, state.log@) implies #[trigger] search_lines(
                env(*cfg, *net, l),
                *t,
                p,
                depth as int,
                prev_score as int,
                multi as int,
                0,
                begin,
            ) == search_lines(
                env(*cfg, *net, l),
                *t,
                p,
                depth as int,
                prev_score as int,
                multi as int,
                line + 1,
                lines_of(order@, results@, excluded@, share, fails, true, state@),
            ) by {
                let e = env(*cfg, *net, l);
                assert(extends(l, s2.log@));
                assert(extends(l, s1.log@));
                assert(next_line(e, *t, p, depth as int, prev_score as int, first, cur) == found);
                assert(should_stop(e, s2@) == (stop, s3@));
            }
        }
        line = line + 1;
    }
    (true, share, fails)
}

/// The lines of an iteration from what was found.
pub open spec fn lines_of(
    order: Seq<Scored>,
    results: Seq<LineResult>,
    excluded: Seq<Move>,
    share: Option<(u64, u64)>,
    fails: u32,
    completed: bool,
    run: Run,
) -> Lines {
    Lines { order, results: found_lines(results), excluded, share, fails, completed, run }
}

} // verus!
