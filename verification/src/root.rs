//! Alpha-beta search at the root, over an ordered list of root moves.

use vstd::prelude::*;
use crate::alphabeta::{ab, ab_verify, alpha_beta, is_quiet, noted, signed, signed_byte, store_ply_context, verify_child};
use crate::arith::{clamp, max_of, min_of};
use crate::board::{Board, Position};
use crate::lines::legal_in;
use crate::moves::Move;
use crate::nnue::network::NnueNetwork;
use crate::ordering::Scored;
use crate::quiescence::{advance_accumulator, kept, lemma_child_keeps, line_of, make_legal, ready, score_ok, set_line, take_back};
use crate::search::{checked, env, extends, in_step, is_checked, played, polled, score_to_tt, to_tt, tries, Answer, Config, Env, Host, Out, Run, SearchState, Witness};
use crate::tt::TTFlag;
use crate::types::Score;

verus! {

/// What a search of the root comes to.
pub struct Root {
    pub score: i32,
    pub pv: Seq<Move>,
    /// The root moves with their new scores.
    pub list: Seq<Scored>,
    /// Nodes spent on the best move, and on all moves, unless stopped.
    pub shares: Option<(u64, u64)>,
    pub run: Run,
}

/// How far the search among the root moves has come.
pub struct RootLine {
    pub list: Seq<Scored>,
    pub alpha: i32,
    pub best: i32,
    pub best_move: Move,
    pub flag: TTFlag,
    pub best_nodes: u64,
    pub pv: Seq<Move>,
    pub run: Run,
}

/// The mark of a root move that is left out.
pub const LEFT_OUT: i32 = -2_147_483_648;

/// The index, from `i` on, of a move that is not left out; or the length.
pub open spec fn find_move(s: Seq<Scored>, m: Move, i: int) -> int
    decreases s.len() - i,
{
    if i >= s.len() {
        s.len() as int
    } else if s[i].m == m && s[i].score != LEFT_OUT {
        i
    } else {
        find_move(s, m, i + 1)
    }
}

/// The list with the first and another entry swapped.
pub open spec fn swapped(s: Seq<Scored>, i: int) -> Seq<Scored> {
    if 0 < i < s.len() { s.update(0, s[i]).update(i, s[0]) } else { s }
}

/// The list with the hash move first, unless it is left out.
pub open spec fn hash_first(s: Seq<Scored>, m: Move) -> Seq<Scored> {
    if m.0 == 0 { s } else { swapped(s, find_move(s, m, 1)) }
}

/// A stop before anything is searched; otherwise the root moves in order, the
/// hash move first.
#[verifier::opaque]
pub open spec fn root_search(e: Env, p: Position, depth: int, alpha: int, beta: int, list: Seq<Scored>, r: Run) -> Root {
    let (stopped, r1) = polled(e, r);
    if stopped {
        Root { score: 0, pv: Seq::empty(), list, shares: None, run: r1 }
    } else {
        let r2 = r1.counted();
        let tt_move = match r2.found(p.hash) {
            Some(entry) => entry.best_move,
            None => Move(0),
        };
        let l = hash_first(list, tt_move);
        root_moves(e, p, depth, beta, r2.nodes, 0, root_start(l, alpha, r2))
    }
}

/// Before the first root move.
pub open spec fn root_start(list: Seq<Scored>, alpha: int, r: Run) -> RootLine {
    RootLine {
        list,
        alpha: alpha as i32,
        best: (-2147483647) as i32,
        best_move: list[0].m,
        flag: TTFlag::UpperBound,
        best_nodes: 0,
        pv: Seq::empty(),
        run: r,
    }
}

/// The depth at the root, one more in check.
pub open spec fn root_depth(p: Position, depth: int) -> int {
    if checked(p) { depth + 1 } else { depth }
}

/// The root moves from the `i`-th on.
pub open spec fn root_moves(e: Env, p: Position, depth: int, beta: int, start: u64, i: int, s: RootLine) -> Root
    decreases s.list.len() - i,
{
    if i < 0 || i >= s.list.len() {
        root_end(p, depth, start, s)
    } else if s.list[i].score == LEFT_OUT {
        root_moves(e, p, depth, beta, start, i + 1, s)
    } else {
        let m = s.list[i].m;
        let child = root_child(e, p, depth, i, s.alpha as int, beta, m, noted(s.run, 0, m, p));
        let score = (-child.score) as i32;
        let s1 = RootLine { list: s.list.update(i, Scored { m, score }), run: child.run, ..s };
        let spent = child.run.nodes.wrapping_sub(s.run.nodes);
        if child.run.stop {
            Root { score: 0, pv: s.pv, list: s1.list, shares: None, run: child.run }
        } else if score <= s.best {
            root_moves(e, p, depth, beta, start, i + 1, s1)
        } else if score <= s.alpha {
            root_moves(e, p, depth, beta, start, i + 1, RootLine { best: score, best_move: m, best_nodes: spent, ..s1 })
        } else {
            let s2 = RootLine {
                best: score,
                best_move: m,
                best_nodes: spent,
                alpha: score,
                flag: if score >= beta { TTFlag::LowerBound } else { TTFlag::Exact },
                pv: line_of(m, child.pv),
                ..s1
            };
            if score >= beta {
                root_end(p, depth, start, s2)
            } else {
                root_moves(e, p, depth, beta, start, i + 1, s2)
            }
        }
    }
}

/// The root moves are through.
#[verifier::opaque]
pub open spec fn root_end(p: Position, depth: int, start: u64, s: RootLine) -> Root {
    Root {
        score: s.best,
        pv: s.pv,
        list: s.list,
        shares: Some((s.best_nodes, s.run.nodes.wrapping_sub(start))),
        run: s.run.stored(p.hash, root_depth(p, depth) as u8, to_tt(s.best as int, 0), s.flag, s.best_move),
    }
}

/// The reduction of a late root move.
#[verifier::opaque]
pub open spec fn root_reduction(e: Env, depth: int, i: int, left: int) -> int {
    clamp(signed_byte(e.cfg.lmr_table@[min_of(depth, 63) * 64 + min_of(i, 63)] as int), 0, max_of(left - 1, 0))
}

/// The search of a root move, from the opponent's view: the first with the full
/// window, later ones reduced and with a null window first.
#[verifier::opaque]
pub open spec fn root_child(e: Env, p: Position, depth: int, i: int, alpha: int, beta: int, m: Move, r: Run) -> Out {
    let q = played(p, m);
    let d = root_depth(p, depth) - 1;
    if i == 0 {
        ab(e, q, d, 1, -beta, -alpha, m, Move(0), r)
    } else if i >= 3 && depth >= 3 && !checked(p) && !checked(q) && is_quiet(m) {
        let out = ab(e, q, d - root_reduction(e, depth, i, d), 1, -alpha - 1, -alpha, m, Move(0), r);
        if -out.score <= alpha { out } else { ab_verify(e, q, d, 0, alpha, beta, m, out.run) }
    } else {
        ab_verify(e, q, d, 0, alpha, beta, m, r)
    }
}

/// All root moves can be played, are legal, and the first is not left out.
pub open spec fn root_list_ok(p: Position, list: Seq<Scored>) -> bool {
    &&& list.len() > 0
    &&& list[0].score != LEFT_OUT
    &&& forall|i: int| 0 <= i < list.len() ==> tries(p, #[trigger] list[i].m) && legal_in(p, list[i].m)
}

fn bring_first(list: &mut Vec<Scored>, m: Move)
    requires
        old(list)@.len() > 0,
    ensures
        final(list)@ == hash_first(old(list)@, m),
        final(list)@.len() == old(list)@.len(),
        old(list)@[0].score != LEFT_OUT ==> final(list)@[0].score != LEFT_OUT,
        forall|i: int|
            0 <= i < final(list)@.len() ==> exists|j: int|
                0 <= j < old(list)@.len() && #[trigger] final(list)@[i] == #[trigger] old(list)@[j],
{
    let ghost s = list@;
    if m.is_null() {
        return ;
    }
    let mut i: usize = 1;
    let len: usize = list.len();
    while i < len && !(list[i].m == m && list[i].score != LEFT_OUT)
        invariant
            list@ == s,
            len == s.len(),
            1 <= i <= len,
            find_move(s, m, i as int) == find_move(s, m, 1),
        decreases len - i,
    {
        i = i + 1;
    }
    if i < len {
        let a = list[0];
        let b = list[i];
        list.set(0, b);
        list.set(i, a);
        proof {
            assert(list@ =~= swapped(s, i as int));
            assert forall|x: int| 0 <= x < list@.len() implies exists|j: int|
                0 <= j < s.len() && #[trigger] list@[x] == #[trigger] s[j] by {
                let j = if x == 0 { i as int } else if x == i { 0 } else { x };
                assert(list@[x] == s[j]);
            }
        }
    }
}

fn search_root_child<H: Host>(
    board: &mut Board,
    depth: u8,
    left: u8,
    in_check: bool,
    i: usize,
    alpha: i32,
    beta: i32,
    m: Move,
    child_pv: &mut Vec<Move>,
    state: &mut SearchState,
    cfg: &Config,
    net: &NnueNetwork,
    host: &mut Witness<H>,
    Ghost(p): Ghost<Position>,
) -> (r: i32)
    requires
        in_step(*old(state), *old(host)),
        ready(*old(board), *old(state), *cfg, *net, 1),
        1 <= depth <= 128,
        left == root_depth(p, depth as int) - 1,
        in_check == checked(p),
        old(board)@ == played(p, m),
        -2147483647 <= alpha < beta,
        alpha <= 2_147_200_000,
        beta >= -2_147_200_000,
        i > 0 ==> alpha >= -2_147_200_000,
    ensures
        in_step(*final(state), *final(host)),
        kept(*old(board), *final(board), *old(state), *final(state), *cfg, *net, 1),
        score_ok(r as int),
        forall|l: Seq<Answer>|
            extends(l, final(state).log@) ==> #[trigger] root_child(
                env(*cfg, *net, l),
                p,
                depth as int,
                i as int,
                alpha as int,
                beta as int,
                m,
                old(state)@,
            ) == (Out { score: (-r) as i32, pv: final(child_pv)@, run: final(state)@ }),
{
    let ghost q = board@;
    let ghost s0 = *state;
    proof {
        reveal(root_child);
    }
    if i == 0 {
        let score: i32 = alpha_beta(board, left, 1, -beta, -alpha, child_pv, state, cfg, net, host, m, Move::null());
        proof {
            assert forall|l: Seq<Answer>| extends(l, state.log@) implies #[trigger] root_child(
                env(*cfg, *net, l),
                p,
                depth as int,
                i as int,
                alpha as int,
                beta as int,
                m,
                s0@,
            ) == (Out { score, pv: child_pv@, run: state@ }) by {
                let e = env(*cfg, *net, l);
                assert(ab(e, q, left as int, 1, -beta as int, -alpha as int, m, Move(0), s0@) == (Out {
                    score,
                    pv: child_pv@,
                    run: state@,
                }));
            }
        }
        return -score;
    }
    let gives_check = is_checked(board);
    let reduce = i >= 3 && depth >= 3 && !in_check && !gives_check && !m.is_capture() && !m.is_promotion();
    let ghost mut out1 = Out { score: 0, pv: Seq::empty(), run: s0@ };
    let ghost mut less: int = 0;
    if reduce {
        let d: usize = if depth < 63 { depth as usize } else { 63 };
        let ms: usize = if i < 63 { i } else { 63 };
        let raw: i32 = signed(cfg.lmr_table[d * 64 + ms] as i32);
        let most: i32 = if left > 1 { left as i32 - 1 } else { 0 };
        let by: i32 = if raw < 0 {
            0
        } else if raw > most {
            most
        } else {
            raw
        };
        let reduced: u8 = (left as i32 - by) as u8;
        proof {
            less = reduced as int;
            assert forall|l: Seq<Answer>| #[trigger] root_reduction(env(*cfg, *net, l), depth as int, i as int, left as int)
                == by by {
                reveal(root_reduction);
            }
        }
        let score: i32 = alpha_beta(
            board,
            reduced,
            1,
            -alpha - 1,
            -alpha,
            child_pv,
            state,
            cfg,
            net,
            host,
            m,
            Move::null(),
        );
        proof {
            out1 = Out { score, pv: child_pv@, run: state@ };
        }
        if -score <= alpha {
            proof {
                assert forall|l: Seq<Answer>| extends(l, state.log@) implies #[trigger] root_child(
                    env(*cfg, *net, l),
                    p,
                    depth as int,
                    i as int,
                    alpha as int,
                    beta as int,
                    m,
                    s0@,
                ) == out1 by {
                    let e = env(*cfg, *net, l);
                    assert(root_reduction(e, depth as int, i as int, left as int) == by);
                    assert(ab(e, q, less, 1, -alpha - 1, -alpha as int, m, Move(0), s0@) == out1);
                }
            }
            return -score;
        }
    }
    let ghost s1 = *state;
    let r: i32 = verify_child(board, left, 0, alpha, beta, m, child_pv, state, cfg, net, host);
    proof {
        assert forall|l: Seq<Answer>| extends(l, state.log@) implies #[trigger] root_child(
            env(*cfg, *net, l),
            p,
            depth as int,
            i as int,
            alpha as int,
            beta as int,
            m,
            s0@,
        ) == (Out { score: (-r) as i32, pv: child_pv@, run: state@ }) by {
            let e = env(*cfg, *net, l);
            assert(extends(l, s1.log@));
            if reduce {
                assert(root_reduction(e, depth as int, i as int, left as int) == left - less);
                assert(ab(e, q, less, 1, -alpha - 1, -alpha as int, m, Move(0), s0@) == out1);
            }
            assert(ab_verify(e, q, left as int, 0, alpha as int, beta as int, m, s1@) == (Out {
                score: (-r) as i32,
                pv: child_pv@,
                run: state@,
            }));
        }
    }
    r
}

/// Searches the root moves. The list comes back with the new scores; with the
/// score come the nodes spent on the best move and on all moves.
pub fn alpha_beta_root<H: Host>(
    board: &mut Board,
    depth: u8,
    alpha: i32,
    beta: i32,
    pv: &mut Vec<Move>,
    state: &mut SearchState,
    cfg: &Config,
    net: &NnueNetwork,
    host: &mut Witness<H>,
    list: &mut Vec<Scored>,
) -> (r: (i32, Option<(u64, u64)>))
    requires
        in_step(*old(state), *old(host)),
        ready(*old(board), *old(state), *cfg, *net, 0),
        1 <= depth <= 128,
        -2147483647 <= alpha < beta,
        alpha <= 2_147_200_000,
        beta >= -2_147_200_000,
        root_list_ok(old(board)@, old(list)@),
    ensures
        in_step(*final(state), *final(host)),
        kept(*old(board), *final(board), *old(state), *final(state), *cfg, *net, 0),
        score_ok(r.0 as int),
        root_list_ok(old(board)@, final(list)@),
        final(list)@.len() == old(list)@.len(),
        forall|l: Seq<Answer>|
            extends(l, final(state).log@) ==> #[trigger] root_search(
                env(*cfg, *net, l),
                old(board)@,
                depth as int,
                alpha as int,
                beta as int,
                old(list)@,
                old(state)@,
            ) == (Root { score: r.0, pv: final(pv)@, list: final(list)@, shares: r.1, run: final(state)@ }),
{
    let ghost p = board@;
    let ghost s0 = *state;
    let ghost list0 = list@;
    proof {
        reveal(root_search);
    }
    pv.clear();
    proof {
        assert(pv@ =~= Seq::<Move>::empty());
    }
    if state.poll(cfg, Ghost(*net), host) {
        return (0, None);
    }
    let ghost polled_log = state.log@;
    let ghost r1 = state@;
    state.nodes = state.nodes.wrapping_add(1);
    let in_check = is_checked(board);
    let left: u8 = if in_check { depth } else { depth - 1 };
    let tt_move = match state.probe(board.hash) {
        Some(entry) => entry.best_move,
        None => Move::null(),
    };
    bring_first(list, tt_move);
    proof {
        assert forall|i: int| 0 <= i < list@.len() implies tries(p, #[trigger] list@[i].m) && legal_in(p, list@[i].m) by {
            let j = choose|j: int| 0 <= j < list0.len() && list@[i] == #[trigger] list0[j];
            assert(tries(p, list0[j].m));
        }
    }
    let start_nodes: u64 = state.nodes;
    let ghost start = root_start(list@, alpha as int, state@);
    let ghost start_log = state.log@;
    let mut a: i32 = alpha;
    let mut best: i32 = Score::NEG_INF;
    let mut best_move = list[0].m;
    let mut flag = TTFlag::UpperBound;
    let mut best_nodes: u64 = 0;
    let mut child_pv: Vec<Move> = Vec::new();
    let mut cut = false;
    let mut i: usize = 0;
    proof {
        assert forall|l: Seq<Answer>| extends(l, start_log) implies #[trigger] root_search(
            env(*cfg, *net, l),
            p,
            depth as int,
            alpha as int,
            beta as int,
            list0,
            s0@,
        ) == root_moves(env(*cfg, *net, l), p, depth as int, beta as int, start_nodes, 0, start) by {
            assert(polled(env(*cfg, *net, l), s0@) == (false, r1));
        }
    }
    while i < list.len() && !cut
        invariant
            in_step(*state, *host),
            list0 == old(list)@,
            forall|l: Seq<Answer>|
                extends(l, start_log) ==> #[trigger] root_search(
                    env(*cfg, *net, l),
                    p,
                    depth as int,
                    alpha as int,
                    beta as int,
                    list0,
                    s0@,
                ) == root_moves(env(*cfg, *net, l), p, depth as int, beta as int, start_nodes, 0, start),
            p == board@,
            p == old(board)@,
            s0 == *old(state),
            ready(*board, *state, *cfg, *net, 0),
            extends(state.log@, start_log),
            extends(start_log, s0.log@),
            1 <= depth <= 128,
            in_check == checked(p),
            left == root_depth(p, depth as int) - 1,
            i <= list@.len(),
            list@.len() > 0,
            forall|j: int| 0 <= j < list@.len() ==> tries(p, #[trigger] list@[j].m) && legal_in(p, list@[j].m),
            list@.len() == list0.len(),
            list@[0].score != LEFT_OUT,
            -2147483647 <= a,
            a <= 2_147_200_000,
            beta >= -2_147_200_000,
            !cut ==> a < beta,
            i > 0 ==> a >= -2_147_200_000 && score_ok(best as int),
            i == 0 ==> best == -2147483647 && !cut && a == alpha,
            forall|l: Seq<Answer>|
                extends(l, state.log@) ==> #[trigger] root_moves(
                    env(*cfg, *net, l),
                    p,
                    depth as int,
                    beta as int,
                    start_nodes,
                    0,
                    start,
                ) == (if cut {
                    root_end(
                        p,
                        depth as int,
                        start_nodes,
                        RootLine { list: list@, alpha: a, best, best_move, flag, best_nodes, pv: pv@, run: state@ },
                    )
                } else {
                    root_moves(
                        env(*cfg, *net, l),
                        p,
                        depth as int,
                        beta as int,
                        start_nodes,
                        i as int,
                        RootLine { list: list@, alpha: a, best, best_move, flag, best_nodes, pv: pv@, run: state@ },
                    )
                }),
        decreases list@.len() - i, (if cut { 0int } else { 1 }),
    {
        let ghost s1 = *state;
        let ghost line = RootLine { list: list@, alpha: a, best, best_move, flag, best_nodes, pv: pv@, run: state@ };
        let entry = list[i];
        if entry.score != LEFT_OUT {
            let m = entry.m;
            proof {
                assert(tries(p, list@[i as int].m));
            }
            let before: u64 = state.nodes;
            store_ply_context(state, 0, m, board);
            let ghost s2 = *state;
            let undo = match make_legal(board, m, Ghost(129)) {
                Some(undo) => undo,
                None => {
                    return (0, None);
                },
            };
            advance_accumulator(state, cfg, net, board, m, undo, 0, Ghost(p));
            let ghost s3 = *state;
            let score: i32 = search_root_child(
                board,
                depth,
                left,
                in_check,
                i,
                a,
                beta,
                m,
                &mut child_pv,
                state,
                cfg,
                net,
                host,
                Ghost(p),
            );
            take_back(board, m, undo, Ghost(p));
            let ghost child = Out { score: (-score) as i32, pv: child_pv@, run: state@ };
            let ghost s4 = *state;
            proof {
                lemma_child_keeps(s2, s3, *state, *cfg, *net, p, 0);
                assert forall|l: Seq<Answer>| extends(l, state.log@) implies #[trigger] root_child(
                    env(*cfg, *net, l),
                    p,
                    depth as int,
                    i as int,
                    line.alpha as int,
                    beta as int,
                    m,
                    s2@,
                ) == child by {
                }
            }
            list.set(i, Scored { m, score });
            if state.stop {
                proof {
                    assert forall|l: Seq<Answer>| extends(l, state.log@) implies #[trigger] root_search(
                        env(*cfg, *net, l),
                        p,
                        depth as int,
                        alpha as int,
                        beta as int,
                        list0,
                        s0@,
                    ) == (Root { score: 0, pv: pv@, list: list@, shares: None, run: state@ }) by {
                        let e = env(*cfg, *net, l);
                        assert(extends(l, s1.log@));
                        assert(extends(l, start_log));
                        assert(root_child(e, p, depth as int, i as int, line.alpha as int, beta as int, m, s2@) == child);
                        assert(root_moves(e, p, depth as int, beta as int, start_nodes, 0, start) == root_moves(
                            e,
                            p,
                            depth as int,
                            beta as int,
                            start_nodes,
                            i as int,
                            line,
                        ));
                    }
                }
                return (0, None);
            }
            let spent: u64 = state.nodes.wrapping_sub(before);
            if score > best {
                best = score;
                best_move = m;
                best_nodes = spent;
                if score > a {
                    a = score;
                    flag = if score >= beta { TTFlag::LowerBound } else { TTFlag::Exact };
                    set_line(pv, m, &child_pv);
                    cut = score >= beta;
                }
            }
            proof {
                assert forall|l: Seq<Answer>| extends(l, state.log@) implies #[trigger] root_moves(
                    env(*cfg, *net, l),
                    p,
                    depth as int,
                    beta as int,
                    start_nodes,
                    0,
                    start,
                ) == (if cut {
                    root_end(
                        p,
                        depth as int,
                        start_nodes,
                        RootLine { list: list@, alpha: a, best, best_move, flag, best_nodes, pv: pv@, run: state@ },
                    )
                } else {
                    root_moves(
                        env(*cfg, *net, l),
                        p,
                        depth as int,
                        beta as int,
                        start_nodes,
                        i + 1,
                        RootLine { list: list@, alpha: a, best, best_move, flag, best_nodes, pv: pv@, run: state@ },
                    )
                }) by {
                    let e = env(*cfg, *net, l);
                    assert(extends(l, s1.log@));
                    assert(root_child(e, p, depth as int, i as int, line.alpha as int, beta as int, m, s2@) == child);
                }
            }
        }
        i = i + 1;
    }
    let ghost line = RootLine { list: list@, alpha: a, best, best_move, flag, best_nodes, pv: pv@, run: state@ };
    let total: u64 = state.nodes.wrapping_sub(start_nodes);
    let ghost before = *state;
    state.store(board.hash, left + 1, score_to_tt(best, 0), flag, best_move);
    proof {
        reveal(root_end);
        assert forall|l: Seq<Answer>| extends(l, state.log@) implies #[trigger] root_search(
            env(*cfg, *net, l),
            p,
            depth as int,
            alpha as int,
            beta as int,
            list0,
            s0@,
        ) == (Root { score: best, pv: pv@, list: list@, shares: Some((best_nodes, total)), run: state@ }) by {
            let e = env(*cfg, *net, l);
            assert(extends(l, start_log));
            assert(root_moves(e, p, depth as int, beta as int, start_nodes, 0, start) == root_end(
                p,
                depth as int,
                start_nodes,
                line,
            ));
        }
    }
    (best, Some((best_nodes, total)))
}

} // verus!
