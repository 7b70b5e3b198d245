//! Laws of the search at the root: which move is best, and what a draw is worth.

use vstd::prelude::*;
use crate::alphabeta::{ab, noted};
use crate::arith::{clamp, max_of, min_of};
use crate::aspiration::{aspirate, may_extend, merged, widened, Lines};
use crate::board::Position;
use crate::deepening::{concluded, depth_of, iterated, mate_settles, settled, Deep, Plan};
use crate::lines::{playable, without};
use crate::moves::Move;
use crate::ordering::Scored;
use crate::quiescence::line_of;
use crate::root::{find_move, hash_first, root_child, root_depth, root_end, root_moves, root_reduction, root_search, root_start, RootLine, LEFT_OUT};
use crate::search::{played, polled, should_stop, to_tt, Env, Run};
use crate::search_laws::{again_since, always, bound_in, law_repetition_is_worth_a_draw, lemma_verified, thrice};
use crate::timing::TimeLimit;
use crate::tt::TTFlag;

verus! {

/// A move leads to a position that is a draw by repetition or by the fifty-move
/// rule.
pub open spec fn leads_to_a_draw(e: Env, p: Position, m: Move) -> bool {
    thrice(p.after(m)) || again_since(p.after(m), e.cfg.game_ply as int) || p.after(m).halfmove >= 100
}

proof fn lemma_drawn_child(e: Env, p: Position, depth: int, i: int, alpha: int, beta: int, m: Move, r: Run)
    requires
        leads_to_a_draw(e, p, m),
        -2_000_000_000 <= e.cfg.contempt <= 2_000_000_000,
    ensures
        root_child(e, p, depth, i, alpha, beta, m, r).run.stop || root_child(e, p, depth, i, alpha, beta, m, r).score
            == -e.cfg.contempt,
{
    reveal(root_child);
    reveal(played);
    let q = played(p, m);
    let v = -e.cfg.contempt as int;
    assert forall|d: int, a: int, b: int, x: Move, s: Run|
        (#[trigger] ab(e, q, d, 1, a, b, x, Move(0), s)).run.stop || ab(e, q, d, 1, a, b, x, Move(0), s).score == v by {
        law_repetition_is_worth_a_draw(e, q, d, 1, a, b, x, Move(0), s);
    }
    assert(always(e, q, 1, v));
    let d = root_depth(p, depth) - 1;
    let out = ab(e, q, d - root_reduction(e, depth, i, d), 1, -alpha - 1, -alpha, m, Move(0), r);
    let first = ab(e, q, d, 1, -beta, -alpha, m, Move(0), r);
    lemma_verified(e, q, d, 0, alpha, beta, m, r, v);
    lemma_verified(e, q, d, 0, alpha, beta, m, out.run, v);
}

#[verifier::opaque]
spec fn draws(e: Env, p: Position, m: Move) -> bool {
    leads_to_a_draw(e, p, m)
}

/// What is known of the root moves before the `i`-th. `first` is the list as it
/// was.
#[verifier::opaque]
spec fn judged(e: Env, p: Position, i: int, first: Seq<Scored>, list: Seq<Scored>, best: i32, pv: Seq<Move>) -> bool {
    &&& forall|j: int| 0 <= j < i && j < list.len() ==> (#[trigger] list[j]).score <= best
    &&& forall|j: int|
        0 <= j < i && j < list.len() && draws(e, p, (#[trigger] list[j]).m) && first[j].score != LEFT_OUT
            ==> list[j].score == e.cfg.contempt
    &&& pv.len() > 0 ==> exists|j: int|
        0 <= j < i && j < list.len() && (#[trigger] list[j]).m == pv[0] && list[j].score == best
    &&& best > -2147483647 ==> exists|j: int| 0 <= j < i && j < list.len() && (#[trigger] list[j]).score == best
    &&& best >= -2147483647
}

/// The same moves, with the same ones left out.
pub open spec fn same_choice(a: Seq<Scored>, b: Seq<Scored>) -> bool {
    &&& a.len() == b.len()
    &&& forall|j: int| 0 <= j < a.len() ==> (#[trigger] a[j]).m == b[j].m
    &&& forall|j: int| 0 <= j < a.len() && b[j].score == LEFT_OUT ==> (#[trigger] a[j]).score == LEFT_OUT
}

proof fn lemma_root_moves(e: Env, p: Position, depth: int, beta: int, start: u64, i: int, s: RootLine, first: Seq<Scored>)
    requires
        0 <= i,
        first.len() == s.list.len(),
        forall|j: int| i <= j < first.len() ==> #[trigger] s.list[j] == first[j],
        same_choice(s.list, first),
        judged(e, p, i, first, s.list, s.best, s.pv),
        s.pv.len() > 0 ==> s.alpha == s.best,
        -2_000_000_000 <= e.cfg.contempt <= 2_000_000_000,
    ensures
        ({
            let out = root_moves(e, p, depth, beta, start, i, s);
            &&& same_choice(out.list, first)
            &&& out.shares is Some && out.score < beta ==> judged(
                e,
                p,
                first.len() as int,
                first,
                out.list,
                out.score,
                out.pv,
            )
        }),
    decreases s.list.len() - i,
{
    reveal(root_end);
    if i >= s.list.len() {
        lemma_judged_all(e, p, i, first, s.list, s.best, s.pv);
    } else if s.list[i].score == LEFT_OUT {
        lemma_judged_past(e, p, i, first, s.list, s.best, s.pv);
        lemma_root_moves(e, p, depth, beta, start, i + 1, s, first);
    } else {
        let m = s.list[i].m;
        let r = noted(s.run, 0, m, p);
        let child = root_child(e, p, depth, i, s.alpha as int, beta, m, r);
        let score = (-child.score) as i32;
        let x = Scored { m, score };
        let s1 = RootLine { list: s.list.update(i, x), run: child.run, ..s };
        let spent = child.run.nodes.wrapping_sub(s.run.nodes);
        if draws(e, p, m) {
            reveal(draws);
            lemma_drawn_child(e, p, depth, i, s.alpha as int, beta, m, r);
        }
        if !child.run.stop {
            if score <= s.best {
                lemma_judged_more(e, p, i, first, s.list, s.best, s.pv, x, s.best, s.pv);
                lemma_root_moves(e, p, depth, beta, start, i + 1, s1, first);
            } else if score <= s.alpha {
                let s2 = RootLine { best: score, best_move: m, best_nodes: spent, ..s1 };
                lemma_judged_more(e, p, i, first, s.list, s.best, s.pv, x, score, s.pv);
                lemma_root_moves(e, p, depth, beta, start, i + 1, s2, first);
            } else {
                let s2 = RootLine {
                    best: score,
                    best_move: m,
                    best_nodes: spent,
                    alpha: score,
                    flag: if score >= beta { TTFlag::LowerBound } else { TTFlag::Exact },
                    pv: line_of(m, child.pv),
                    ..s1
                };
                if score < beta {
                    lemma_judged_more(e, p, i, first, s.list, s.best, s.pv, x, score, s2.pv);
                    lemma_root_moves(e, p, depth, beta, start, i + 1, s2, first);
                }
            }
        }
    }
}

proof fn lemma_judged_all(e: Env, p: Position, i: int, first: Seq<Scored>, list: Seq<Scored>, best: i32, pv: Seq<Move>)
    requires
        judged(e, p, i, first, list, best, pv),
        i >= list.len(),
    ensures
        judged(e, p, list.len() as int, first, list, best, pv),
{
    reveal(judged);
}

proof fn lemma_judged_past(e: Env, p: Position, i: int, first: Seq<Scored>, list: Seq<Scored>, best: i32, pv: Seq<Move>)
    requires
        judged(e, p, i, first, list, best, pv),
        0 <= i < list.len(),
        list[i].score == LEFT_OUT,
        first[i].score == LEFT_OUT,
    ensures
        judged(e, p, i + 1, first, list, best, pv),
{
    reveal(judged);
}

proof fn lemma_judged_more(
    e: Env,
    p: Position,
    i: int,
    first: Seq<Scored>,
    list: Seq<Scored>,
    best: i32,
    pv: Seq<Move>,
    x: Scored,
    best1: i32,
    pv1: Seq<Move>,
)
    requires
        judged(e, p, i, first, list, best, pv),
        0 <= i < list.len(),
        best1 >= best,
        x.score <= best1,
        best1 == best || best1 == x.score,
        draws(e, p, x.m) ==> x.score == e.cfg.contempt,
        pv1.len() > 0 ==> (pv1 == pv && best1 == best) || (pv1[0] == x.m && x.score == best1),
    ensures
        judged(e, p, i + 1, first, list.update(i, x), best1, pv1),
{
    reveal(judged);
    let t = list.update(i, x);
    assert(t[i] == x);
    assert forall|j: int| 0 <= j < i && j < t.len() implies #[trigger] t[j] == list[j] by {}
    if best1 == best && best > -2147483647 {
        let j = choose|j: int| 0 <= j < i && j < list.len() && (#[trigger] list[j]).score == best;
        assert(t[j].score == best1);
    }
    if pv1.len() > 0 && !(pv1[0] == x.m && x.score == best1) {
        let j = choose|j: int| 0 <= j < i && j < list.len() && (#[trigger] list[j]).m == pv[0] && list[j].score == best;
        assert(t[j].m == pv1[0] && t[j].score == best1);
    }
}

/// A list with the hash move first holds the same entries.
proof fn lemma_hash_first(list: Seq<Scored>, m: Move, i: int)
    requires
        0 <= i < list.len(),
    ensures
        hash_first(list, m).len() == list.len(),
        exists|j: int| 0 <= j < list.len() && #[trigger] hash_first(list, m)[j] == list[i],
{
    let k = find_move(list, m, 1);
    let l = hash_first(list, m);
    let j = if m.0 != 0 && 0 < k < list.len() {
        if i == 0 {
            k
        } else if i == k {
            0
        } else {
            i
        }
    } else {
        i
    };
    assert(l[j] == list[i]);
}

proof fn lemma_root(e: Env, p: Position, depth: int, alpha: int, beta: int, list: Seq<Scored>, r: Run) -> (l: Seq<Scored>)
    requires
        -2_000_000_000 <= e.cfg.contempt <= 2_000_000_000,
    ensures
        ({
            let out = root_search(e, p, depth, alpha, beta, list, r);
            out.shares is Some ==> same_choice(out.list, l) && (out.score < beta ==> judged(
                e,
                p,
                l.len() as int,
                l,
                out.list,
                out.score,
                out.pv,
            ))
        }),
        exists|m: Move| l == #[trigger] hash_first(list, m),
{
    reveal(root_search);
    let (stopped, r1) = polled(e, r);
    let r2 = r1.counted();
    let tt_move = match r2.found(p.hash) {
        Some(entry) => entry.best_move,
        None => Move(0),
    };
    let l = hash_first(list, tt_move);
    let s = root_start(l, alpha, r2);
    assert(judged(e, p, 0, l, s.list, s.best, s.pv)) by {
        reveal(judged);
    }
    lemma_root_moves(e, p, depth, beta, r2.nodes, 0, s, l);
    l
}

/// The root is worth as much as its best move: no move that was searched has a
/// better score, the line begins with one that has it, and every score above the
/// least is that of a move. A search that reached the upper end of its window
/// need not have looked at all moves.
pub proof fn law_the_best_root_move_counts(
    e: Env,
    p: Position,
    depth: int,
    alpha: int,
    beta: int,
    list: Seq<Scored>,
    r: Run,
)
    requires
        -2_000_000_000 <= e.cfg.contempt <= 2_000_000_000,
    ensures
        ({
            let out = root_search(e, p, depth, alpha, beta, list, r);
            out.shares is Some && out.score < beta ==> {
                &&& out.list.len() == list.len()
                &&& forall|j: int| 0 <= j < out.list.len() ==> (#[trigger] out.list[j]).score <= out.score
                &&& out.pv.len() > 0 ==> exists|j: int|
                    0 <= j < out.list.len() && (#[trigger] out.list[j]).m == out.pv[0] && out.list[j].score == out.score
                &&& out.score > -2147483647 ==> exists|j: int|
                    0 <= j < out.list.len() && (#[trigger] out.list[j]).score == out.score
            }
        }),
{
    let l = lemma_root(e, p, depth, alpha, beta, list, r);
    let m = choose|m: Move| l == #[trigger] hash_first(list, m);
    if list.len() > 0 {
        lemma_hash_first(list, m, 0);
    }
    reveal(judged);
}

/// A side that can repeat the position, or invoke the fifty-move rule, is never
/// worse off than with a draw: if one of the root moves leads to such a position,
/// the root is worth at least what the draw is worth to the opponent, with the
/// opposite sign.
pub proof fn law_a_draw_at_hand_is_counted(
    e: Env,
    p: Position,
    depth: int,
    alpha: int,
    beta: int,
    list: Seq<Scored>,
    r: Run,
    i: int,
)
    requires
        -2_000_000_000 <= e.cfg.contempt <= 2_000_000_000,
        0 <= i < list.len(),
        list[i].score != LEFT_OUT,
        leads_to_a_draw(e, p, list[i].m),
    ensures
        ({
            let out = root_search(e, p, depth, alpha, beta, list, r);
            out.shares is Some && out.score < beta ==> out.score >= e.cfg.contempt && exists|j: int|
                0 <= j < out.list.len() && (#[trigger] out.list[j]).m == list[i].m && out.list[j].score == e.cfg.contempt
        }),
{
    let l = lemma_root(e, p, depth, alpha, beta, list, r);
    let m = choose|m: Move| l == #[trigger] hash_first(list, m);
    lemma_hash_first(list, m, i);
    let j = choose|j: int| 0 <= j < list.len() && #[trigger] hash_first(list, m)[j] == list[i];
    let out = root_search(e, p, depth, alpha, beta, list, r);
    assert(draws(e, p, list[i].m)) by {
        reveal(draws);
    }
    if out.shares is Some && out.score < beta {
        assert(out.list[j].m == l[j].m);
        lemma_judged_draw(e, p, l, out.list, out.score, out.pv, j);
    }
}

proof fn lemma_judged_draw(e: Env, p: Position, first: Seq<Scored>, list: Seq<Scored>, best: i32, pv: Seq<Move>, j: int)
    requires
        judged(e, p, first.len() as int, first, list, best, pv),
        first.len() == list.len(),
        0 <= j < first.len(),
        draws(e, p, list[j].m),
        first[j].score != LEFT_OUT,
    ensures
        list[j].score == e.cfg.contempt,
        list[j].score <= best,
{
    reveal(judged);
}

/// Whatever windows it takes, an iteration ends with what one search of the root
/// found: within its window, or told to stop, or at the end of all scores.
pub proof fn law_windows_close_on_the_score(
    e: Env,
    t: TimeLimit,
    p: Position,
    depth: int,
    alpha: int,
    beta: int,
    delta: int,
    list: Seq<Scored>,
    share: Option<(u64, u64)>,
    fails: u32,
    r: Run,
)
    requires
        -2147483647 <= alpha < beta <= 2147483647,
        delta > 0,
    ensures
        ({
            let f = aspirate(e, t, p, depth, alpha, beta, delta, list, share, fails, r);
            exists|a: int, b: int, l: Seq<Scored>, s: Run|
                {
                    let out = #[trigger] root_search(e, p, depth, a, b, l, s);
                    &&& f.score == out.score
                    &&& f.pv == out.pv
                    &&& f.list == out.list
                    &&& a <= alpha && beta <= b
                    &&& a < out.score < b || (should_stop(e, out.run).0 && depth > 1) || out.score <= -2147483647
                        || out.score >= 2147483647
                }
        }),
    decreases (alpha + 2147483647) + (2147483647 - beta),
{
    let out = root_search(e, p, depth, alpha, beta, list, r);
    let share1 = merged(share, out.shares);
    let (stop, r1) = should_stop(e, out.run);
    let stopped = stop && depth > 1;
    let (extend, r2) = if stopped { may_extend(e, t, r1) } else { (false, r1) };
    let lower = max_of(out.score - delta, -2147483647);
    let higher = min_of(out.score + delta, 2147483647);
    let f = aspirate(e, t, p, depth, alpha, beta, delta, list, share, fails, r);
    if (!stopped || (out.score <= alpha && extend)) && out.score <= alpha && -2147483647 <= alpha && lower < alpha && beta
        <= 2147483647 {
        law_windows_close_on_the_score(
            e,
            t,
            p,
            depth,
            lower,
            beta,
            widened(delta),
            out.list,
            share1,
            fails.wrapping_add(1),
            r2,
        );
        let (a, b, l, s) = choose|a: int, b: int, l: Seq<Scored>, s: Run|
            {
                let o = #[trigger] root_search(e, p, depth, a, b, l, s);
                &&& f.score == o.score
                &&& f.pv == o.pv
                &&& f.list == o.list
                &&& a <= lower && beta <= b
                &&& a < o.score < b || (should_stop(e, o.run).0 && depth > 1) || o.score <= -2147483647 || o.score
                    >= 2147483647
            };
        assert(f.score == root_search(e, p, depth, a, b, l, s).score);
    } else if !stopped && out.score > alpha && out.score >= beta && -2147483647 <= alpha && beta < higher {
        law_windows_close_on_the_score(
            e,
            t,
            p,
            depth,
            alpha,
            higher,
            widened(delta),
            out.list,
            share1,
            fails.wrapping_add(1),
            r2,
        );
        let (a, b, l, s) = choose|a: int, b: int, l: Seq<Scored>, s: Run|
            {
                let o = #[trigger] root_search(e, p, depth, a, b, l, s);
                &&& f.score == o.score
                &&& f.pv == o.pv
                &&& f.list == o.list
                &&& a <= alpha && higher <= b
                &&& a < o.score < b || (should_stop(e, o.run).0 && depth > 1) || o.score <= -2147483647 || o.score
                    >= 2147483647
            };
        assert(f.score == root_search(e, p, depth, a, b, l, s).score);
    } else {
        assert(f.score == root_search(e, p, depth, alpha, beta, list, r).score);
    }
}

/// A completed iteration takes over the first line: its first move is the best
/// move and its score the score, unless endgame tables know better.
pub proof fn law_iterations_take_the_best_line(p: Position, plan: Plan, base: int, lines: Lines, d: Deep, r: Run)
    requires
        plan.solution is None,
        lines.results.len() > 0,
        lines.results[0].pv.len() > 0,
    ensures
        ({
            let now = settled(p, plan, base, lines, d, r);
            &&& now.best_move == lines.results[0].pv[0]
            &&& now.best_score == lines.results[0].score
            &&& now.best_pv == lines.results[0].pv
            &&& now.prev_score == lines.results[0].score
            &&& base > 1 && d.best_move == now.best_move ==> now.pv_changes == d.pv_changes
            &&& base > 1 && d.best_move != now.best_move ==> now.stability == 0
        }),
{
}

/// An iteration that was not completed leaves the best move, its score and its
/// line as they were.
pub proof fn law_unfinished_iterations_change_nothing(e: Env, p: Position, plan: Plan, base: int, d: Deep, r: Run)
    ensures
        ({
            let (now, after, last) = iterated(e, p, plan, base, d, r);
            now.best_depth == d.best_depth && now.best_depth != clamp(base + plan.offset, 1, plan.max_depth as int)
                ==> now.best_move == d.best_move && now.best_score == d.best_score && now.best_pv == d.best_pv && last
        }),
{
    reveal(iterated);
}

/// The result of a search is the best move of its last completed iteration, with
/// its score and depth; a line is reported as far as it can be played.
pub proof fn law_results_are_the_last_iteration(p: Position, plan: Plan, d: Deep, nodes: u64)
    requires
        plan.solution is None,
        d.best_move.0 != 0,
    ensures
        concluded(p, plan, d, nodes).best_move == d.best_move,
        concluded(p, plan, d, nodes).score == d.best_score,
        concluded(p, plan, d, nodes).depth == d.best_depth,
        concluded(p, plan, d, nodes).nodes == nodes,
        concluded(p, plan, d, nodes).pv == playable(p, d.best_pv),
{
    reveal(concluded);
}

/// A move that is left out is marked and kept in its place; the others stay as
/// they are.
pub proof fn law_left_out_moves(list: Seq<Scored>, excluded: Seq<Move>, i: int)
    requires
        0 <= i < list.len(),
    ensures
        without(list, excluded).len() == list.len(),
        without(list, excluded)[i].m == list[i].m,
        excluded.contains(list[i].m) ==> without(list, excluded)[i].score == LEFT_OUT,
        !excluded.contains(list[i].m) ==> without(list, excluded)[i] == list[i],
{
}

proof fn lemma_root_bounds(e: Env, p: Position, depth: int, low: int, beta: int, start: u64, i: int, s: RootLine)
    requires
        low < beta,
        -2147483647 <= low,
        s.flag == TTFlag::UpperBound && s.alpha == low && s.best <= low || s.flag == TTFlag::Exact && s.alpha == s.best
            && low < s.best < beta,
    ensures
        ({
            let out = root_moves(e, p, depth, beta, start, i, s);
            out.shares is Some ==> exists|r: Run, m: Move|
                out.run == #[trigger] r.stored(
                    p.hash,
                    root_depth(p, depth) as u8,
                    to_tt(out.score as int, 0),
                    bound_in(low, beta, out.score as int),
                    m,
                )
        }),
    decreases s.list.len() - i,
{
    reveal(root_end);
    if i < 0 || i >= s.list.len() {
        let out = root_moves(e, p, depth, beta, start, i, s);
        assert(out.run == s.run.stored(
            p.hash,
            root_depth(p, depth) as u8,
            to_tt(out.score as int, 0),
            bound_in(low, beta, out.score as int),
            s.best_move,
        ));
    } else if s.list[i].score == LEFT_OUT {
        lemma_root_bounds(e, p, depth, low, beta, start, i + 1, s);
    } else {
        let m = s.list[i].m;
        let child = root_child(e, p, depth, i, s.alpha as int, beta, m, noted(s.run, 0, m, p));
        let score = (-child.score) as i32;
        let s1 = RootLine { list: s.list.update(i, Scored { m, score }), run: child.run, ..s };
        let spent = child.run.nodes.wrapping_sub(s.run.nodes);
        if !child.run.stop {
            if score <= s.best {
                lemma_root_bounds(e, p, depth, low, beta, start, i + 1, s1);
            } else if score <= s.alpha {
                lemma_root_bounds(
                    e,
                    p,
                    depth,
                    low,
                    beta,
                    start,
                    i + 1,
                    RootLine { best: score, best_move: m, best_nodes: spent, ..s1 },
                );
            } else {
                let s2 = RootLine {
                    best: score,
                    best_move: m,
                    best_nodes: spent,
                    alpha: score,
                    flag: if score >= beta { TTFlag::LowerBound } else { TTFlag::Exact },
                    pv: line_of(m, child.pv),
                    ..s1
                };
                if score >= beta {
                    let out = root_end(p, depth, start, s2);
                    assert(out.run == s2.run.stored(
                        p.hash,
                        root_depth(p, depth) as u8,
                        to_tt(out.score as int, 0),
                        bound_in(low, beta, out.score as int),
                        s2.best_move,
                    ));
                } else {
                    lemma_root_bounds(e, p, depth, low, beta, start, i + 1, s2);
                }
            }
        }
    }
}

/// What the root was found to be worth is stored as the bound that it is: exact
/// within the window, a lower bound from its top on, an upper bound up to its
/// bottom.
pub proof fn law_the_root_is_stored_as_a_bound(
    e: Env,
    p: Position,
    depth: int,
    alpha: int,
    beta: int,
    list: Seq<Scored>,
    r: Run,
)
    requires
        -2147483647 <= alpha < beta,
        alpha <= 2147483647,
    ensures
        ({
            let out = root_search(e, p, depth, alpha, beta, list, r);
            &&& out.shares is Some ==> exists|before: Run, m: Move|
                out.run == #[trigger] before.stored(
                    p.hash,
                    root_depth(p, depth) as u8,
                    to_tt(out.score as int, 0),
                    bound_in(alpha, beta, out.score as int),
                    m,
                )
            &&& out.score >= beta ==> bound_in(alpha, beta, out.score as int) == TTFlag::LowerBound
            &&& alpha < out.score < beta ==> bound_in(alpha, beta, out.score as int) == TTFlag::Exact
            &&& out.score <= alpha ==> bound_in(alpha, beta, out.score as int) == TTFlag::UpperBound
        }),
{
    reveal(root_search);
    let (stopped, r1) = polled(e, r);
    if !stopped {
        let r2 = r1.counted();
        let tt_move = match r2.found(p.hash) {
            Some(entry) => entry.best_move,
            None => Move(0),
        };
        let l = hash_first(list, tt_move);
        lemma_root_bounds(e, p, depth, alpha, beta, r2.nodes, 0, root_start(l, alpha, r2));
        let out = root_search(e, p, depth, alpha, beta, list, r);
        if out.shares is Some {
            let flag = bound_in(alpha, beta, out.score as int);
            let (before, m) = choose|before: Run, m: Move|
                out.run == #[trigger] before.stored(
                    p.hash,
                    root_depth(p, depth) as u8,
                    to_tt(out.score as int, 0),
                    flag,
                    m,
                );
            assert(out.run == before.stored(p.hash, root_depth(p, depth) as u8, to_tt(out.score as int, 0), flag, m));
        }
    }
}

/// A mate in at most three moves for the side to move ends the search at once, one
/// against it never does.
pub proof fn law_short_mates_end_the_search(e: Env, score: int, r: Run)
    ensures
        29_994 <= score <= 30_000 ==> mate_settles(e, score, r).0,
        score < 29_000 ==> !mate_settles(e, score, r).0,
        score < 29_994 && e.cfg.time_limit_ms is None ==> !mate_settles(e, score, r).0,
{
}

/// The main thread searches depth after depth; helpers are off by a few plies; no
/// one beyond the depth that was asked for.
pub proof fn law_depths_are_kept(plan: Plan, base: int)
    requires
        1 <= base <= plan.max_depth,
    ensures
        1 <= depth_of(plan, base) <= plan.max_depth,
        plan.offset == 0 ==> depth_of(plan, base) == base,
{
}

} // verus!
