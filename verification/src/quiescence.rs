//! Quiescence search: captures and a few checks, until the position is quiet.

use vstd::prelude::*;
use crate::arith::{clamp, clamp_i32};
use crate::attacks::{attacked, is_square_attacked};
use crate::board::{Board, Position};
use crate::board_laws::{law_make_keeps_consistent, law_unmake_restores};
use crate::history::MAX_PLY;
use crate::movegen::{generate_pseudo_legal_captures, generate_pseudo_legal_moves, generate_pseudo_legal_quiets, pseudo_moves, quiet_moves, tactical_moves};
use crate::moves::{Move, MoveList};
use crate::nnue::incremental::update_accumulator_for_move;
use crate::nnue::network::NnueNetwork;
use crate::ordering::{capture_value, exchange_order, move_fits, pick_next_move, picked, Scored};
use crate::search::{bound_settles, checked, clock_room, drawn, env, evaluate_for_side, exchange, exchange_at_least, extends, from_tt, in_step, is_checked, is_drawn, net_ok, plain_eval, plain_evaluate, played, polled, score_from_tt, score_to_tt, settles, static_eval, to_tt, tries, Answer, Config, Env, Host, Out, Run, SearchState, Witness};
use crate::tt::TTFlag;
use crate::types::{CastlingRights, Color, Piece, Score, Square};

verus! {

/// How far a search among the moves of a position has come.
pub struct Line {
    pub alpha: int,
    pub best: int,
    pub best_move: Move,
    /// Whether a legal move was found.
    pub any: bool,
    pub pv: Seq<Move>,
    pub run: Run,
}

/// A line that begins with a move.
pub open spec fn line_of(m: Move, rest: Seq<Move>) -> Seq<Move> {
    seq![m] + rest
}

/// The first 128 captures with their scores; the hash move comes first.
pub open spec fn capture_list(p: Position, tt_move: Move, s: Seq<Move>) -> Seq<Scored>
    decreases s.len(),
{
    if s.len() == 0 {
        Seq::empty()
    } else {
        let rest = capture_list(p, tt_move, s.drop_last());
        let m = s.last();
        if rest.len() >= 128 {
            rest
        } else {
            rest.push(
                Scored {
                    m,
                    score: (if m == tt_move && tt_move.0 != 0 { 10_000_000 } else { exchange_order(p, m) }) as i32,
                },
            )
        }
    }
}

/// The quiescence search of a position: stop, ply limit and draws first.
pub open spec fn qs(e: Env, p: Position, ply: int, alpha: int, beta: int, checks: bool, r: Run) -> Out
    decreases 128 - ply, 5int, 0int,
{
    let (stopped, r1) = polled(e, r);
    if stopped {
        Out { score: 0, pv: Seq::empty(), run: r1 }
    } else if ply >= 128 {
        Out { score: clamp(plain_eval(e, p), alpha, beta) as i32, pv: Seq::empty(), run: r1 }
    } else if ply > 0 && drawn(p, e.cfg.game_ply as int) {
        Out { score: (-e.cfg.contempt) as i32, pv: Seq::empty(), run: r1 }
    } else {
        let r2 = r1.counted();
        qs_node(e, p, ply, alpha, beta, checks, Run { seldepth: if ply > r2.seldepth { ply as u8 } else { r2.seldepth }, ..r2 })
    }
}

/// A stored bound may settle the node. In check all moves are searched;
/// otherwise the static evaluation is a lower bound to begin with.
pub open spec fn qs_node(e: Env, p: Position, ply: int, alpha: int, beta: int, checks: bool, r: Run) -> Out
    decreases 128 - ply, 4int, 0int,
{
    let check = checked(p);
    match r.found(p.hash) {
        Some(entry) => if !check && bound_settles(entry.flag, from_tt(entry.score as int, ply), alpha, beta) {
            Out { score: from_tt(entry.score as int, ply) as i32, pv: Seq::empty(), run: r }
        } else {
            qs_moves(e, p, ply, alpha, beta, checks, check, entry.best_move, r)
        },
        None => qs_moves(e, p, ply, alpha, beta, checks, check, Move(0), r),
    }
}

pub open spec fn qs_moves(
    e: Env,
    p: Position,
    ply: int,
    alpha: int,
    beta: int,
    checks: bool,
    check: bool,
    tt_move: Move,
    r: Run,
) -> Out
    decreases 128 - ply, 3int, 0int,
{
    if check {
        qs_evasions(
            e,
            p,
            ply,
            beta,
            pseudo_moves(p),
            0,
            Line { alpha, best: -2147483647, best_move: Move(0), any: false, pv: Seq::empty(), run: r },
        )
    } else {
        let stand = static_eval(e, p, r, ply);
        let a = if stand > alpha { stand } else { alpha };
        if stand >= beta {
            Out {
                score: beta as i32,
                pv: Seq::empty(),
                run: r.stored(p.hash, 0, to_tt(stand, ply), TTFlag::LowerBound, Move(0)),
            }
        } else if stand + 1100 < a || tactical_moves(p).len() == 0 {
            Out { score: a as i32, pv: Seq::empty(), run: r }
        } else {
            qs_captures(
                e,
                p,
                ply,
                beta,
                checks,
                stand,
                capture_list(p, tt_move, tactical_moves(p)),
                0,
                Line { alpha: a, best: stand, best_move: Move(0), any: false, pv: Seq::empty(), run: r },
            )
        }
    }
}

/// All moves out of check, from the `i`-th on.
pub open spec fn qs_evasions(e: Env, p: Position, ply: int, beta: int, list: Seq<Move>, i: int, s: Line) -> Out
    decreases 128 - ply, 1int, list.len() - i,
{
    if i < 0 || i >= list.len() || ply >= 128 {
        if !s.any {
            Out { score: (-30000 + ply) as i32, pv: s.pv, run: s.run }
        } else {
            let flag = if s.best > s.alpha { TTFlag::Exact } else { TTFlag::UpperBound };
            Out { score: s.alpha as i32, pv: s.pv, run: s.run.stored(p.hash, 0, to_tt(s.best, ply), flag, s.best_move) }
        }
    } else {
        let m = list[i];
        if !tries(p, m) {
            qs_evasions(e, p, ply, beta, list, i + 1, s)
        } else {
            let child = qs(e, played(p, m), ply + 1, -beta, -s.alpha, false, s.run);
            let score = -child.score;
            let s1 = Line { any: true, run: child.run, ..s };
            if child.run.stop {
                Out { score: 0, pv: s.pv, run: child.run }
            } else if score <= s.best {
                qs_evasions(e, p, ply, beta, list, i + 1, s1)
            } else if score <= s.alpha {
                qs_evasions(e, p, ply, beta, list, i + 1, Line { best: score, best_move: m, ..s1 })
            } else if score >= beta {
                Out {
                    score: beta as i32,
                    pv: line_of(m, child.pv),
                    run: child.run.stored(p.hash, 0, to_tt(score, ply), TTFlag::LowerBound, m),
                }
            } else {
                qs_evasions(
                    e,
                    p,
                    ply,
                    beta,
                    list,
                    i + 1,
                    Line { best: score, best_move: m, alpha: score, pv: line_of(m, child.pv), ..s1 },
                )
            }
        }
    }
}

/// The line after a move that was tried, unless it ends the search.
pub open spec fn q_after(s: Line, m: Move, child: Out) -> Line {
    let score = -child.score;
    let s1 = Line { run: child.run, ..s };
    let s2 = if score > s.best { Line { best: score, best_move: m, ..s1 } } else { s1 };
    if score > s.alpha { Line { alpha: score, pv: line_of(m, child.pv), ..s2 } } else { s2 }
}

/// What a tried move that reaches beta comes to.
pub open spec fn q_cut(s: Line, p: Position, ply: int, beta: int, m: Move, child: Out) -> Out {
    let score = -child.score;
    let best = if score > s.best { score } else { s.best };
    let best_move = if score > s.best { m } else { s.best_move };
    Out {
        score: beta as i32,
        pv: s.pv,
        run: child.run.stored(p.hash, 0, to_tt(best, ply), TTFlag::LowerBound, best_move),
    }
}

/// Captures that do not lose material, best first, from the `i`-th on.
pub open spec fn qs_captures(
    e: Env,
    p: Position,
    ply: int,
    beta: int,
    checks: bool,
    stand: int,
    list: Seq<Scored>,
    i: int,
    s: Line,
) -> Out
    decreases 128 - ply, 2int, list.len() - i,
{
    if i < 0 || i >= list.len() || ply >= 128 {
        if checks {
            qs_checks(e, p, ply, beta, stand, quiet_moves(p), 0, s)
        } else {
            qs_done(p, ply, stand, s)
        }
    } else {
        let l = picked(list, i);
        let m = l[i].m;
        if exchange(p, m) < 0 || !tries(p, m) {
            qs_captures(e, p, ply, beta, checks, stand, l, i + 1, s)
        } else {
            let child = qs(e, played(p, m), ply + 1, -beta, -s.alpha, false, s.run);
            if child.run.stop {
                Out { score: 0, pv: s.pv, run: child.run }
            } else if -child.score >= beta {
                q_cut(s, p, ply, beta, m, child)
            } else {
                qs_captures(e, p, ply, beta, checks, stand, l, i + 1, q_after(s, m, child))
            }
        }
    }
}

/// Quiet moves that give check and do not lose material, from the `i`-th on.
pub open spec fn qs_checks(e: Env, p: Position, ply: int, beta: int, stand: int, list: Seq<Move>, i: int, s: Line) -> Out
    decreases 128 - ply, 1int, list.len() - i,
{
    if i < 0 || i >= list.len() || ply >= 128 {
        qs_done(p, ply, stand, s)
    } else {
        let m = list[i];
        if exchange(p, m) < 0 || !tries(p, m) || !checked(played(p, m)) {
            qs_checks(e, p, ply, beta, stand, list, i + 1, s)
        } else {
            let child = qs(e, played(p, m), ply + 1, -beta, -s.alpha, false, s.run);
            if child.run.stop {
                Out { score: 0, pv: s.pv, run: child.run }
            } else if -child.score >= beta {
                q_cut(s, p, ply, beta, m, child)
            } else {
                qs_checks(e, p, ply, beta, stand, list, i + 1, q_after(s, m, child))
            }
        }
    }
}

/// The moves are through: the best one is stored.
pub open spec fn qs_done(p: Position, ply: int, stand: int, s: Line) -> Out {
    let flag = if s.best > stand { TTFlag::Exact } else { TTFlag::UpperBound };
    Out {
        score: s.alpha as i32,
        pv: s.pv,
        run: if s.best_move.0 != 0 {
            s.run.stored(p.hash, 0, to_tt(s.best, ply), flag, s.best_move)
        } else {
            s.run
        },
    }
}

// What every part of a search needs and keeps.
/// The search can go on from here.
pub open spec fn ready(board: Board, state: SearchState, cfg: Config, net: NnueNetwork, ply: int) -> bool {
    &&& board.ok()
    &&& board@.consistent()
    &&& 0 <= ply <= 128
    &&& clock_room(board@, 129 - ply)
    &&& state.ok()
    &&& cfg.ok()
    &&& net_ok(cfg, net)
    &&& state.acc_ok(cfg, net, board@, ply)
}

/// The board is as it was, the state is sound, and nothing of the plies above
/// has changed.
pub open spec fn kept(
    board0: Board,
    board: Board,
    state0: SearchState,
    state: SearchState,
    cfg: Config,
    net: NnueNetwork,
    ply: int,
) -> bool {
    &&& board.ok()
    &&& board@ == board0@
    &&& state.ok()
    &&& state.acc_ok(cfg, net, board@, ply)
    &&& state.keeps_below(&state0, ply)
    &&& extends(state.log@, state0.log@)
}

/// A window that the quiescence search can take.
pub open spec fn window_ok(alpha: int, beta: int) -> bool {
    -40_000 <= alpha < beta <= 40_000
}

/// Scores of a search lie within this.
pub open spec fn score_ok(score: int) -> bool {
    -2_147_200_000 <= score <= 2_147_200_000
}

/// Whether the side that moved left its own king in check.
pub fn move_is_illegal(board: &Board, mover: Color) -> (r: bool)
    ensures
        r == attacked(board@, board@.king_at(mover), board@.side),
{
    let king_sq = board.king_square(mover);
    is_square_attacked(board, king_sq, board.side_to_move)
}

/// What is needed to take a move back.
#[derive(Clone, Copy)]
pub struct Undo {
    pub captured: Option<Piece>,
    pub castling: CastlingRights,
    pub en_passant: Option<Square>,
    pub halfmove: u16,
}

impl Undo {
    /// The record of a move from a position.
    #[verifier::opaque]
    pub open spec fn records(self, p: Position, m: Move) -> bool {
        &&& self.captured == p.captured_by(m)
        &&& self.castling == p.castling
        &&& self.en_passant == p.ep
        &&& self.halfmove == p.halfmove
    }
}

/// Makes a move if it can be played and is legal.
pub fn make_legal(board: &mut Board, m: Move, Ghost(room): Ghost<int>) -> (r: Option<Undo>)
    requires
        old(board).ok(),
        old(board)@.consistent(),
        clock_room(old(board)@, room),
        room >= 1,
    ensures
        final(board).ok(),
        r is Some <==> tries(old(board)@, m),
        r is None ==> final(board)@ == old(board)@,
        r is Some ==> final(board)@ == played(old(board)@, m) && final(board)@.consistent() && clock_room(
            final(board)@,
            room - 1,
        ) && r->Some_0.records(old(board)@, m),
{
    let ghost p = board@;
    proof {
        reveal(tries);
        reveal(played);
        reveal(Undo::records);
    }
    if !move_fits(board, m) {
        return None;
    }
    let us = board.side_to_move;
    let castling = board.castling;
    let en_passant = board.en_passant;
    let halfmove: u16 = board.halfmove_clock;
    proof {
        law_make_keeps_consistent(p, m);
        law_unmake_restores(p, m);
    }
    let captured = board.make_move(m);
    if move_is_illegal(board, us) {
        board.unmake_move(m, captured, castling, en_passant, halfmove);
        return None;
    }
    Some(Undo { captured, castling, en_passant, halfmove })
}

/// Takes back a move.
pub fn take_back(board: &mut Board, m: Move, undo: Undo, Ghost(p): Ghost<Position>)
    requires
        old(board).ok(),
        old(board)@ == played(p, m),
        p.consistent(),
        clock_room(p, 1),
        tries(p, m),
        undo.records(p, m),
    ensures
        final(board).ok(),
        final(board)@ == p,
{
    proof {
        reveal(tries);
        reveal(played);
        reveal(Undo::records);
        law_make_keeps_consistent(p, m);
        law_unmake_restores(p, m);
    }
    board.unmake_move(m, undo.captured, undo.castling, undo.en_passant, undo.halfmove);
}

/// Brings the accumulator of the next ply in step with a move that was made.
pub fn advance_accumulator(
    state: &mut SearchState,
    cfg: &Config,
    net: &NnueNetwork,
    board: &Board,
    m: Move,
    undo: Undo,
    ply: u8,
    Ghost(p): Ghost<Position>,
)
    requires
        old(state).ok(),
        net_ok(*cfg, *net),
        ply < 128,
        p.consistent(),
        tries(p, m),
        board@ == played(p, m),
        undo.records(p, m),
        old(state).acc_ok(*cfg, *net, p, ply as int),
    ensures
        final(state).ok(),
        final(state)@ == old(state)@,
        final(state).log == old(state).log,
        final(state).acc_ok(*cfg, *net, board@, ply + 1),
        final(state).keeps_below(old(state), ply + 1),
{
    proof {
        reveal(tries);
        reveal(played);
        reveal(Undo::records);
    }
    if cfg.use_nnue && ply as usize + 1 < MAX_PLY {
        let mut child = state.accumulators[ply as usize + 1].copied();
        update_accumulator_for_move(
            &state.accumulators[ply as usize],
            &mut child,
            net,
            board,
            m,
            undo.captured,
            undo.castling,
            undo.en_passant,
            Ghost(p),
        );
        state.accumulators.set(ply as usize + 1, child);
    }
}

/// Where a child kept what was above it, the accumulator of this ply is still
/// valid, and so are those above.
pub proof fn lemma_child_keeps(
    s0: SearchState,
    s1: SearchState,
    s2: SearchState,
    cfg: Config,
    net: NnueNetwork,
    p: Position,
    ply: int,
)
    requires
        0 <= ply < 128,
        s0.acc_ok(cfg, net, p, ply),
        s1.keeps_below(&s0, ply + 1),
        s2.keeps_below(&s1, ply + 1),
    ensures
        s2.acc_ok(cfg, net, p, ply),
        s2.keeps_below(&s0, ply),
{
    assert(s2.accumulators@[ply] == s1.accumulators@[ply]);
    assert(s1.accumulators@[ply] == s0.accumulators@[ply]);
    assert forall|q: int| 0 <= q < ply && q < 128 implies #[trigger] s2.accumulators@[q] == s0.accumulators@[q] by {
        assert(s2.accumulators@[q] == s1.accumulators@[q]);
        assert(s1.accumulators@[q] == s0.accumulators@[q]);
    }
}

pub fn set_line(pv: &mut Vec<Move>, m: Move, rest: &Vec<Move>)
    ensures
        final(pv)@ == line_of(m, rest@),
{
    pv.clear();
    pv.push(m);
    let mut i: usize = 0;
    while i < rest.len()
        invariant
            i <= rest@.len(),
            pv@ == line_of(m, rest@.take(i as int)),
        decreases rest@.len() - i,
    {
        pv.push(rest[i]);
        i = i + 1;
        proof {
            assert(pv@ =~= line_of(m, rest@.take(i as int)));
        }
    }
    proof {
        assert(rest@.take(i as int) =~= rest@);
    }
}

/// Tries a move: makes it if it can be played, searches the position after it
/// if it is legal, and gives check where that is asked for, and unmakes it.
fn try_move<H: Host>(
    board: &mut Board,
    m: Move,
    need_check: bool,
    ply: u8,
    alpha: i32,
    beta: i32,
    child_pv: &mut Vec<Move>,
    state: &mut SearchState,
    cfg: &Config,
    net: &NnueNetwork,
    host: &mut Witness<H>,
) -> (r: Option<i32>)
    requires
        in_step(*old(state), *old(host)),
        ready(*old(board), *old(state), *cfg, *net, ply as int),
        ply < 128,
        window_ok(alpha as int, beta as int),
    ensures
        in_step(*final(state), *final(host)),
        kept(*old(board), *final(board), *old(state), *final(state), *cfg, *net, ply as int),
        r is Some <==> tries(old(board)@, m) && (need_check ==> checked(played(old(board)@, m))),
        r is None ==> final(state)@ == old(state)@ && final(state).log == old(state).log,
        r is Some ==> score_ok(r->Some_0 as int) && forall|l: Seq<Answer>|
            extends(l, final(state).log@) ==> #[trigger] qs(
                env(*cfg, *net, l),
                played(old(board)@, m),
                ply + 1,
                -beta,
                -alpha,
                false,
                old(state)@,
            ) == (Out { score: (-r->Some_0) as i32, pv: final(child_pv)@, run: final(state)@ }),
    decreases 128 - ply, 0int,
{
    let ghost p = board@;
    let ghost s0 = *state;
    let undo = match make_legal(board, m, Ghost(129 - ply)) {
        Some(undo) => undo,
        None => {
            return None;
        },
    };
    if need_check && !is_checked(board) {
        take_back(board, m, undo, Ghost(p));
        return None;
    }
    advance_accumulator(state, cfg, net, board, m, undo, ply, Ghost(p));
    let ghost s1 = *state;
    let score: i32 = quiescence(board, ply + 1, -beta, -alpha, child_pv, state, cfg, net, host, false);
    take_back(board, m, undo, Ghost(p));
    proof {
        lemma_child_keeps(s0, s1, *state, *cfg, *net, p, ply as int);
    }
    Some(-score)
}

/// Quiescence search.
pub fn quiescence<H: Host>(
    board: &mut Board,
    ply: u8,
    alpha: i32,
    beta: i32,
    pv: &mut Vec<Move>,
    state: &mut SearchState,
    cfg: &Config,
    net: &NnueNetwork,
    host: &mut Witness<H>,
    generate_checks: bool,
) -> (r: i32)
    requires
        in_step(*old(state), *old(host)),
        ready(*old(board), *old(state), *cfg, *net, ply as int),
        window_ok(alpha as int, beta as int),
    ensures
        in_step(*final(state), *final(host)),
        kept(*old(board), *final(board), *old(state), *final(state), *cfg, *net, ply as int),
        score_ok(r as int),
        forall|l: Seq<Answer>|
            extends(l, final(state).log@) ==> #[trigger] qs(
                env(*cfg, *net, l),
                old(board)@,
                ply as int,
                alpha as int,
                beta as int,
                generate_checks,
                old(state)@,
            ) == (Out { score: r, pv: final(pv)@, run: final(state)@ }),
    decreases 128 - ply, 5int,
{
    let ghost p = board@;
    let ghost r0 = state@;
    pv.clear();
    proof {
        assert(pv@ =~= Seq::<Move>::empty());
    }
    if state.poll(cfg, Ghost(*net), host) {
        return 0;
    }
    let ghost r1 = state@;
    if ply as usize >= MAX_PLY {
        let stand_pat: i32 = plain_evaluate(board, cfg, Ghost(*net));
        let r: i32 = clamp_i32(stand_pat, alpha, beta);
        proof {
            assert forall|l: Seq<Answer>| extends(l, state.log@) implies #[trigger] qs(
                env(*cfg, *net, l),
                p,
                ply as int,
                alpha as int,
                beta as int,
                generate_checks,
                r0,
            ) == (Out { score: r, pv: pv@, run: state@ }) by {
                assert(polled(env(*cfg, *net, l), r0) == (false, r1));
            }
        }
        return r;
    }
    if ply > 0 && is_drawn(board, cfg.game_ply) {
        return -cfg.contempt;
    }
    state.nodes = state.nodes.wrapping_add(1);
    if ply > state.seldepth {
        state.seldepth = ply;
    }
    let ghost r2 = state@;
    let ghost mid = state.log@;
    let r: i32 = quiescence_node(board, ply, alpha, beta, pv, state, cfg, net, host, generate_checks);
    proof {
        assert forall|l: Seq<Answer>| extends(l, state.log@) implies #[trigger] qs(
            env(*cfg, *net, l),
            p,
            ply as int,
            alpha as int,
            beta as int,
            generate_checks,
            r0,
        ) == (Out { score: r, pv: pv@, run: state@ }) by {
            assert(extends(l, mid));
            assert(polled(env(*cfg, *net, l), r0) == (false, r1));
            assert(qs_node(env(*cfg, *net, l), p, ply as int, alpha as int, beta as int, generate_checks, r2) == (Out {
                score: r,
                pv: pv@,
                run: state@,
            }));
        }
    }
    r
}

fn quiescence_node<H: Host>(
    board: &mut Board,
    ply: u8,
    alpha: i32,
    beta: i32,
    pv: &mut Vec<Move>,
    state: &mut SearchState,
    cfg: &Config,
    net: &NnueNetwork,
    host: &mut Witness<H>,
    generate_checks: bool,
) -> (r: i32)
    requires
        in_step(*old(state), *old(host)),
        ready(*old(board), *old(state), *cfg, *net, ply as int),
        ply < 128,
        window_ok(alpha as int, beta as int),
        old(pv)@ == Seq::<Move>::empty(),
    ensures
        in_step(*final(state), *final(host)),
        kept(*old(board), *final(board), *old(state), *final(state), *cfg, *net, ply as int),
        score_ok(r as int),
        forall|l: Seq<Answer>|
            extends(l, final(state).log@) ==> #[trigger] qs_node(
                env(*cfg, *net, l),
                old(board)@,
                ply as int,
                alpha as int,
                beta as int,
                generate_checks,
                old(state)@,
            ) == (Out { score: r, pv: final(pv)@, run: final(state)@ }),
    decreases 128 - ply, 4int,
{
    let ghost p = board@;
    let ghost r0 = state@;
    let in_check = is_checked(board);
    let mut tt_move = Move::null();
    if let Some(entry) = state.probe(board.hash) {
        if !in_check {
            let adj_score: i32 = score_from_tt(entry.score, ply);
            if settles(entry.flag, adj_score, alpha, beta) {
                return adj_score;
            }
        }
        tt_move = entry.best_move;
    }
    let r: i32 = if in_check {
        quiescence_evasions(board, ply, alpha, beta, pv, state, cfg, net, host)
    } else {
        quiescence_quiet(board, ply, alpha, beta, tt_move, pv, state, cfg, net, host, generate_checks)
    };
    proof {
        assert forall|l: Seq<Answer>| extends(l, state.log@) implies #[trigger] qs_node(
            env(*cfg, *net, l),
            p,
            ply as int,
            alpha as int,
            beta as int,
            generate_checks,
            r0,
        ) == (Out { score: r, pv: pv@, run: state@ }) by {
            let e = env(*cfg, *net, l);
            if in_check {
                assert(qs_evasions(
                    e,
                    p,
                    ply as int,
                    beta as int,
                    pseudo_moves(p),
                    0,
                    Line {
                        alpha: alpha as int,
                        best: -2147483647,
                        best_move: Move(0),
                        any: false,
                        pv: Seq::empty(),
                        run: r0,
                    },
                ) == (Out { score: r, pv: pv@, run: state@ }));
            }
            assert(qs_moves(e, p, ply as int, alpha as int, beta as int, generate_checks, in_check, tt_move, r0) == (Out {
                score: r,
                pv: pv@,
                run: state@,
            }));
        }
    }
    r
}

/// In check: all moves are searched.
fn quiescence_evasions<H: Host>(
    board: &mut Board,
    ply: u8,
    alpha: i32,
    beta: i32,
    pv: &mut Vec<Move>,
    state: &mut SearchState,
    cfg: &Config,
    net: &NnueNetwork,
    host: &mut Witness<H>,
) -> (r: i32)
    requires
        in_step(*old(state), *old(host)),
        ready(*old(board), *old(state), *cfg, *net, ply as int),
        ply < 128,
        window_ok(alpha as int, beta as int),
        old(pv)@ == Seq::<Move>::empty(),
    ensures
        in_step(*final(state), *final(host)),
        kept(*old(board), *final(board), *old(state), *final(state), *cfg, *net, ply as int),
        score_ok(r as int),
        forall|l: Seq<Answer>|
            extends(l, final(state).log@) ==> #[trigger] qs_evasions(
                env(*cfg, *net, l),
                old(board)@,
                ply as int,
                beta as int,
                pseudo_moves(old(board)@),
                0,
                Line {
                    alpha: alpha as int,
                    best: -2147483647,
                    best_move: Move(0),
                    any: false,
                    pv: Seq::empty(),
                    run: old(state)@,
                },
            ) == (Out { score: r, pv: final(pv)@, run: final(state)@ }),
    decreases 128 - ply, 2int,
{
    let ghost p = board@;
    let ghost s0 = *state;
    let ghost start = Line {
        alpha: alpha as int,
        best: -2147483647,
        best_move: Move(0),
        any: false,
        pv: Seq::empty(),
        run: state@,
    };
    let pseudo = generate_pseudo_legal_moves(board);
    let ghost list = pseudo@;
    let mut a: i32 = alpha;
    let mut best: i32 = Score::NEG_INF;
    let mut best_move = Move::null();
    let mut any = false;
    let mut child_pv: Vec<Move> = Vec::new();
    let mut i: usize = 0;
    while i < pseudo.len()
        invariant
            in_step(*state, *host),
            p == board@,
            p == old(board)@,
            s0 == *old(state),
            start == (Line {
                alpha: alpha as int,
                best: -2147483647,
                best_move: Move(0),
                any: false,
                pv: Seq::empty(),
                run: s0@,
            }),
            pseudo@ == list,
            list == pseudo_moves(p),
            i <= pseudo@.len(),
            ply < 128,
            ready(*board, *state, *cfg, *net, ply as int),
            state.keeps_below(&s0, ply as int),
            extends(state.log@, s0.log@),
            window_ok(a as int, beta as int),
            any ==> score_ok(best as int),
            !any ==> best == -2147483647,
            forall|l: Seq<Answer>|
                extends(l, state.log@) ==> #[trigger] qs_evasions(env(*cfg, *net, l), p, ply as int, beta as int, list, 0, start)
                    == qs_evasions(
                    env(*cfg, *net, l),
                    p,
                    ply as int,
                    beta as int,
                    list,
                    i as int,
                    Line { alpha: a as int, best: best as int, best_move, any, pv: pv@, run: state@ },
                ),
        decreases pseudo@.len() - i,
    {
        let m = pseudo.get(i);
        let ghost line = Line { alpha: a as int, best: best as int, best_move, any, pv: pv@, run: state@ };
        let ghost before = *state;
        let tried = try_move(board, m, false, ply, a, beta, &mut child_pv, state, cfg, net, host);
        let ghost tail = *state;
        let ghost child = Out {
            score: (if tried is Some { -tried->Some_0 } else { 0 }) as i32,
            pv: child_pv@,
            run: state@,
        };
        proof {
            assert(tried is Some ==> forall|l: Seq<Answer>| extends(l, state.log@) ==> #[trigger] qs(
                env(*cfg, *net, l),
                played(p, m),
                ply + 1,
                -beta,
                -a,
                false,
                line.run,
            ) == child);
        }
        if let Some(score) = tried {
            any = true;
            if state.stop {
                proof {
                    assert forall|l: Seq<Answer>| extends(l, state.log@) implies #[trigger] qs_evasions(
                        env(*cfg, *net, l),
                        p,
                        ply as int,
                        beta as int,
                        list,
                        0,
                        start,
                    ) == (Out { score: 0, pv: pv@, run: state@ }) by {
                        assert(extends(l, before.log@));
                        assert(qs(env(*cfg, *net, l), played(p, m), ply + 1, -beta, -a, false, line.run) == child);
                    }
                }
                return 0;
            }
            if score > best {
                best = score;
                best_move = m;
                if score > a {
                    a = score;
                    set_line(pv, m, &child_pv);
                    if score >= beta {
                        state.store(board.hash, 0, score_to_tt(best, ply), TTFlag::LowerBound, best_move);
                        proof {
                            assert forall|l: Seq<Answer>| extends(l, state.log@) implies #[trigger] qs_evasions(
                                env(*cfg, *net, l),
                                p,
                                ply as int,
                                beta as int,
                                list,
                                0,
                                start,
                            ) == (Out { score: beta, pv: pv@, run: state@ }) by {
                                assert(extends(l, before.log@));
                                assert(qs(env(*cfg, *net, l), played(p, m), ply + 1, -beta, -line.alpha, false, line.run)
                                    == child);
                            }
                        }
                        return beta;
                    }
                }
            }
        }
        i = i + 1;
        proof {
            assert forall|l: Seq<Answer>| extends(l, state.log@) implies #[trigger] qs_evasions(
                env(*cfg, *net, l),
                p,
                ply as int,
                beta as int,
                list,
                0,
                start,
            ) == qs_evasions(
                env(*cfg, *net, l),
                p,
                ply as int,
                beta as int,
                list,
                i as int,
                Line { alpha: a as int, best: best as int, best_move, any, pv: pv@, run: state@ },
            ) by {
                assert(extends(l, before.log@));
                if tried is Some {
                    assert(qs(env(*cfg, *net, l), played(p, m), ply + 1, -beta, -line.alpha, false, line.run) == child);
                }
            }
        }
    }
    if !any {
        return Score::NEG_MATE + ply as i32;
    }
    let flag = if best > a { TTFlag::Exact } else { TTFlag::UpperBound };
    state.store(board.hash, 0, score_to_tt(best, ply), flag, best_move);
    a
}

/// The captures of a position with their scores.
fn list_captures(board: &Board, tt_move: Move, moves: &MoveList) -> (r: Vec<Scored>)
    ensures
        r@ == capture_list(board@, tt_move, moves@),
{
    let mut list: Vec<Scored> = Vec::new();
    let mut i: usize = 0;
    proof {
        assert(list@ =~= capture_list(board@, tt_move, moves@.take(0)));
    }
    while i < moves.len()
        invariant
            i <= moves@.len(),
            list@ == capture_list(board@, tt_move, moves@.take(i as int)),
        decreases moves@.len() - i,
    {
        let m = moves.get(i);
        proof {
            assert(moves@.take(i + 1).drop_last() =~= moves@.take(i as int));
            assert(moves@.take(i + 1).last() == m);
        }
        if list.len() < 128 {
            let score: i32 = if m == tt_move && !tt_move.is_null() { 10_000_000 } else { capture_value(board, m) };
            list.push(Scored { m, score });
        }
        i = i + 1;
    }
    proof {
        assert(moves@.take(i as int) =~= moves@);
    }
    list
}

/// Not in check: the static evaluation, then captures, then checks.
fn quiescence_quiet<H: Host>(
    board: &mut Board,
    ply: u8,
    alpha: i32,
    beta: i32,
    tt_move: Move,
    pv: &mut Vec<Move>,
    state: &mut SearchState,
    cfg: &Config,
    net: &NnueNetwork,
    host: &mut Witness<H>,
    generate_checks: bool,
) -> (r: i32)
    requires
        in_step(*old(state), *old(host)),
        ready(*old(board), *old(state), *cfg, *net, ply as int),
        ply < 128,
        window_ok(alpha as int, beta as int),
        old(pv)@ == Seq::<Move>::empty(),
    ensures
        in_step(*final(state), *final(host)),
        kept(*old(board), *final(board), *old(state), *final(state), *cfg, *net, ply as int),
        score_ok(r as int),
        forall|l: Seq<Answer>|
            extends(l, final(state).log@) ==> #[trigger] qs_moves(
                env(*cfg, *net, l),
                old(board)@,
                ply as int,
                alpha as int,
                beta as int,
                generate_checks,
                false,
                tt_move,
                old(state)@,
            ) == (Out { score: r, pv: final(pv)@, run: final(state)@ }),
    decreases 128 - ply, 3int,
{
    let ghost p = board@;
    let ghost r0 = state@;
    let stand_pat: i32 = evaluate_for_side(board, ply, state, cfg, net);
    if stand_pat >= beta {
        state.store(board.hash, 0, score_to_tt(stand_pat, ply), TTFlag::LowerBound, Move::null());
        return beta;
    }
    let a: i32 = if stand_pat > alpha { stand_pat } else { alpha };
    // Delta pruning: not even a queen would reach alpha.
    if stand_pat + 1100 < a {
        return a;
    }
    let captures = generate_pseudo_legal_captures(board);
    if captures.is_empty() {
        return a;
    }
    let list = list_captures(board, tt_move, &captures);
    let ghost list0 = list@;
    let r: i32 = quiescence_captures(board, ply, a, beta, stand_pat, list, pv, state, cfg, net, host, generate_checks);
    proof {
        assert forall|l: Seq<Answer>| extends(l, state.log@) implies #[trigger] qs_moves(
            env(*cfg, *net, l),
            p,
            ply as int,
            alpha as int,
            beta as int,
            generate_checks,
            false,
            tt_move,
            r0,
        ) == (Out { score: r, pv: pv@, run: state@ }) by {
            let e = env(*cfg, *net, l);
            assert(static_eval(e, p, r0, ply as int) == stand_pat);
            assert(qs_captures(
                e,
                p,
                ply as int,
                beta as int,
                generate_checks,
                stand_pat as int,
                list0,
                0,
                Line {
                    alpha: a as int,
                    best: stand_pat as int,
                    best_move: Move(0),
                    any: false,
                    pv: Seq::empty(),
                    run: r0,
                },
            ) == (Out { score: r, pv: pv@, run: state@ }));
        }
    }
    r
}

/// The captures that do not lose material, best first.
fn quiescence_captures<H: Host>(
    board: &mut Board,
    ply: u8,
    alpha: i32,
    beta: i32,
    stand_pat: i32,
    captures: Vec<Scored>,
    pv: &mut Vec<Move>,
    state: &mut SearchState,
    cfg: &Config,
    net: &NnueNetwork,
    host: &mut Witness<H>,
    generate_checks: bool,
) -> (r: i32)
    requires
        in_step(*old(state), *old(host)),
        ready(*old(board), *old(state), *cfg, *net, ply as int),
        ply < 128,
        window_ok(alpha as int, beta as int),
        score_ok(stand_pat as int),
        old(pv)@ == Seq::<Move>::empty(),
    ensures
        in_step(*final(state), *final(host)),
        kept(*old(board), *final(board), *old(state), *final(state), *cfg, *net, ply as int),
        score_ok(r as int),
        forall|l: Seq<Answer>|
            extends(l, final(state).log@) ==> #[trigger] qs_captures(
                env(*cfg, *net, l),
                old(board)@,
                ply as int,
                beta as int,
                generate_checks,
                stand_pat as int,
                captures@,
                0,
                Line {
                    alpha: alpha as int,
                    best: stand_pat as int,
                    best_move: Move(0),
                    any: false,
                    pv: Seq::empty(),
                    run: old(state)@,
                },
            ) == (Out { score: r, pv: final(pv)@, run: final(state)@ }),
    decreases 128 - ply, 2int,
{
    let ghost p = board@;
    let ghost s0 = *state;
    let ghost start = Line {
        alpha: alpha as int,
        best: stand_pat as int,
        best_move: Move(0),
        any: false,
        pv: Seq::empty(),
        run: state@,
    };
    let mut list = captures;
    let ghost list0 = list@;
    let mut a: i32 = alpha;
    let mut best: i32 = stand_pat;
    let mut best_move = Move::null();
    let mut child_pv: Vec<Move> = Vec::new();
    let mut i: usize = 0;
    while i < list.len()
        invariant
            in_step(*state, *host),
            p == board@,
            p == old(board)@,
            s0 == *old(state),
            start == (Line {
                alpha: alpha as int,
                best: stand_pat as int,
                best_move: Move(0),
                any: false,
                pv: Seq::empty(),
                run: s0@,
            }),
            list0 == captures@,
            i <= list@.len(),
            ply < 128,
            ready(*board, *state, *cfg, *net, ply as int),
            state.keeps_below(&s0, ply as int),
            extends(state.log@, s0.log@),
            window_ok(a as int, beta as int),
            score_ok(best as int),
            forall|l: Seq<Answer>|
                extends(l, state.log@) ==> #[trigger] qs_captures(
                    env(*cfg, *net, l),
                    p,
                    ply as int,
                    beta as int,
                    generate_checks,
                    stand_pat as int,
                    list0,
                    0,
                    start,
                ) == qs_captures(
                    env(*cfg, *net, l),
                    p,
                    ply as int,
                    beta as int,
                    generate_checks,
                    stand_pat as int,
                    list@,
                    i as int,
                    Line { alpha: a as int, best: best as int, best_move, any: false, pv: pv@, run: state@ },
                ),
        decreases list@.len() - i,
    {
        let ghost line = Line { alpha: a as int, best: best as int, best_move, any: false, pv: pv@, run: state@ };
        let ghost before = *state;
        let ghost l0 = list@;
        pick_next_move(&mut list, i);
        let m = list[i].m;
        let tried = if exchange_at_least(board, m, 0) {
            try_move(board, m, false, ply, a, beta, &mut child_pv, state, cfg, net, host)
        } else {
            None
        };
        let ghost child = Out {
            score: (if tried is Some { -tried->Some_0 } else { 0 }) as i32,
            pv: child_pv@,
            run: state@,
        };
        if let Some(score) = tried {
            if state.stop {
                proof {
                    assert forall|l: Seq<Answer>| extends(l, state.log@) implies #[trigger] qs_captures(
                        env(*cfg, *net, l),
                        p,
                        ply as int,
                        beta as int,
                        generate_checks,
                        stand_pat as int,
                        list0,
                        0,
                        start,
                    ) == (Out { score: 0, pv: pv@, run: state@ }) by {
                        assert(extends(l, before.log@));
                        assert(qs(env(*cfg, *net, l), played(p, m), ply + 1, -beta, -line.alpha, false, line.run) == child);
                    }
                }
                return 0;
            }
            if score > best {
                best = score;
                best_move = m;
            }
            if score >= beta {
                state.store(board.hash, 0, score_to_tt(best, ply), TTFlag::LowerBound, best_move);
                proof {
                    assert forall|l: Seq<Answer>| extends(l, state.log@) implies #[trigger] qs_captures(
                        env(*cfg, *net, l),
                        p,
                        ply as int,
                        beta as int,
                        generate_checks,
                        stand_pat as int,
                        list0,
                        0,
                        start,
                    ) == (Out { score: beta, pv: pv@, run: state@ }) by {
                        assert(extends(l, before.log@));
                        assert(qs(env(*cfg, *net, l), played(p, m), ply + 1, -beta, -line.alpha, false, line.run) == child);
                    }
                }
                return beta;
            }
            if score > a {
                a = score;
                set_line(pv, m, &child_pv);
            }
        }
        i = i + 1;
        proof {
            assert forall|l: Seq<Answer>| extends(l, state.log@) implies #[trigger] qs_captures(
                env(*cfg, *net, l),
                p,
                ply as int,
                beta as int,
                generate_checks,
                stand_pat as int,
                list0,
                0,
                start,
            ) == qs_captures(
                env(*cfg, *net, l),
                p,
                ply as int,
                beta as int,
                generate_checks,
                stand_pat as int,
                list@,
                i as int,
                Line { alpha: a as int, best: best as int, best_move, any: false, pv: pv@, run: state@ },
            ) by {
                assert(extends(l, before.log@));
                if tried is Some {
                    assert(qs(env(*cfg, *net, l), played(p, m), ply + 1, -beta, -line.alpha, false, line.run) == child);
                }
            }
        }
    }
    if generate_checks {
        let ghost before = *state;
        let ghost line = Line { alpha: a as int, best: best as int, best_move, any: false, pv: pv@, run: state@ };
        let r: i32 = quiescence_checks(board, ply, a, beta, stand_pat, best, best_move, pv, state, cfg, net, host);
        proof {
            assert forall|l: Seq<Answer>| extends(l, state.log@) implies #[trigger] qs_captures(
                env(*cfg, *net, l),
                p,
                ply as int,
                beta as int,
                generate_checks,
                stand_pat as int,
                list0,
                0,
                start,
            ) == (Out { score: r, pv: pv@, run: state@ }) by {
                assert(extends(l, before.log@));
                let e = env(*cfg, *net, l);
                assert(qs_checks(e, p, ply as int, beta as int, stand_pat as int, quiet_moves(p), 0, line) == (Out {
                    score: r,
                    pv: pv@,
                    run: state@,
                }));
                assert(qs_captures(
                    e,
                    p,
                    ply as int,
                    beta as int,
                    generate_checks,
                    stand_pat as int,
                    list@,
                    i as int,
                    line,
                ) == qs_checks(e, p, ply as int, beta as int, stand_pat as int, quiet_moves(p), 0, line));
            }
        }
        r
    } else {
        store_best(board, ply, stand_pat, best, best_move, state);
        a
    }
}

/// Stores the best move, if there is one.
fn store_best(board: &Board, ply: u8, stand_pat: i32, best: i32, best_move: Move, state: &mut SearchState)
    requires
        old(state).ok(),
        score_ok(best as int),
    ensures
        final(state).ok(),
        final(state).log == old(state).log,
        final(state).accumulators == old(state).accumulators,
        forall|alpha: int, any: bool, pv: Seq<Move>|
            final(state)@ == (#[trigger] qs_done(
                board@,
                ply as int,
                stand_pat as int,
                Line { alpha, best: best as int, best_move, any, pv, run: old(state)@ },
            )).run,
{
    if !best_move.is_null() {
        let flag = if best > stand_pat { TTFlag::Exact } else { TTFlag::UpperBound };
        state.store(board.hash, 0, score_to_tt(best, ply), flag, best_move);
    }
}

/// Quiet moves that give check and do not lose material.
fn quiescence_checks<H: Host>(
    board: &mut Board,
    ply: u8,
    alpha: i32,
    beta: i32,
    stand_pat: i32,
    best_so_far: i32,
    best_move_so_far: Move,
    pv: &mut Vec<Move>,
    state: &mut SearchState,
    cfg: &Config,
    net: &NnueNetwork,
    host: &mut Witness<H>,
) -> (r: i32)
    requires
        in_step(*old(state), *old(host)),
        ready(*old(board), *old(state), *cfg, *net, ply as int),
        ply < 128,
        window_ok(alpha as int, beta as int),
        score_ok(best_so_far as int),
    ensures
        in_step(*final(state), *final(host)),
        kept(*old(board), *final(board), *old(state), *final(state), *cfg, *net, ply as int),
        score_ok(r as int),
        forall|l: Seq<Answer>|
            extends(l, final(state).log@) ==> #[trigger] qs_checks(
                env(*cfg, *net, l),
                old(board)@,
                ply as int,
                beta as int,
                stand_pat as int,
                quiet_moves(old(board)@),
                0,
                Line {
                    alpha: alpha as int,
                    best: best_so_far as int,
                    best_move: best_move_so_far,
                    any: false,
                    pv: old(pv)@,
                    run: old(state)@,
                },
            ) == (Out { score: r, pv: final(pv)@, run: final(state)@ }),
    decreases 128 - ply, 1int,
{
    let ghost p = board@;
    let ghost s0 = *state;
    let ghost start = Line {
        alpha: alpha as int,
        best: best_so_far as int,
        best_move: best_move_so_far,
        any: false,
        pv: pv@,
        run: state@,
    };
    let quiets = generate_pseudo_legal_quiets(board);
    let ghost list = quiets@;
    let mut a: i32 = alpha;
    let mut best: i32 = best_so_far;
    let mut best_move = best_move_so_far;
    let mut child_pv: Vec<Move> = Vec::new();
    let mut i: usize = 0;
    while i < quiets.len()
        invariant
            in_step(*state, *host),
            p == board@,
            p == old(board)@,
            s0 == *old(state),
            start == (Line {
                alpha: alpha as int,
                best: best_so_far as int,
                best_move: best_move_so_far,
                any: false,
                pv: old(pv)@,
                run: s0@,
            }),
            quiets@ == list,
            list == quiet_moves(p),
            i <= list.len(),
            ply < 128,
            ready(*board, *state, *cfg, *net, ply as int),
            state.keeps_below(&s0, ply as int),
            extends(state.log@, s0.log@),
            window_ok(a as int, beta as int),
            score_ok(best as int),
            forall|l: Seq<Answer>|
                extends(l, state.log@) ==> #[trigger] qs_checks(
                    env(*cfg, *net, l),
                    p,
                    ply as int,
                    beta as int,
                    stand_pat as int,
                    list,
                    0,
                    start,
                ) == qs_checks(
                    env(*cfg, *net, l),
                    p,
                    ply as int,
                    beta as int,
                    stand_pat as int,
                    list,
                    i as int,
                    Line { alpha: a as int, best: best as int, best_move, any: false, pv: pv@, run: state@ },
                ),
        decreases list.len() - i,
    {
        let ghost line = Line { alpha: a as int, best: best as int, best_move, any: false, pv: pv@, run: state@ };
        let ghost before = *state;
        let m = quiets.get(i);
        let tried = if exchange_at_least(board, m, 0) {
            try_move(board, m, true, ply, a, beta, &mut child_pv, state, cfg, net, host)
        } else {
            None
        };
        let ghost child = Out {
            score: (if tried is Some { -tried->Some_0 } else { 0 }) as i32,
            pv: child_pv@,
            run: state@,
        };
        if let Some(score) = tried {
            if state.stop {
                proof {
                    assert forall|l: Seq<Answer>| extends(l, state.log@) implies #[trigger] qs_checks(
                        env(*cfg, *net, l),
                        p,
                        ply as int,
                        beta as int,
                        stand_pat as int,
                        list,
                        0,
                        start,
                    ) == (Out { score: 0, pv: pv@, run: state@ }) by {
                        assert(extends(l, before.log@));
                        assert(qs(env(*cfg, *net, l), played(p, m), ply + 1, -beta, -line.alpha, false, line.run) == child);
                    }
                }
                return 0;
            }
            if score > best {
                best = score;
                best_move = m;
            }
            if score >= beta {
                state.store(board.hash, 0, score_to_tt(best, ply), TTFlag::LowerBound, best_move);
                proof {
                    assert forall|l: Seq<Answer>| extends(l, state.log@) implies #[trigger] qs_checks(
                        env(*cfg, *net, l),
                        p,
                        ply as int,
                        beta as int,
                        stand_pat as int,
                        list,
                        0,
                        start,
                    ) == (Out { score: beta, pv: pv@, run: state@ }) by {
                        assert(extends(l, before.log@));
                        assert(qs(env(*cfg, *net, l), played(p, m), ply + 1, -beta, -line.alpha, false, line.run) == child);
                    }
                }
                return beta;
            }
            if score > a {
                a = score;
                set_line(pv, m, &child_pv);
            }
        }
        i = i + 1;
        proof {
            assert forall|l: Seq<Answer>| extends(l, state.log@) implies #[trigger] qs_checks(
                env(*cfg, *net, l),
                p,
                ply as int,
                beta as int,
                stand_pat as int,
                list,
                0,
                start,
            ) == qs_checks(
                env(*cfg, *net, l),
                p,
                ply as int,
                beta as int,
                stand_pat as int,
                list,
                i as int,
                Line { alpha: a as int, best: best as int, best_move, any: false, pv: pv@, run: state@ },
            ) by {
                assert(extends(l, before.log@));
                if tried is Some {
                    assert(qs(env(*cfg, *net, l), played(p, m), ply + 1, -beta, -line.alpha, false, line.run) == child);
                }
            }
        }
    }
    store_best(board, ply, stand_pat, best, best_move, state);
    a
}

} // verus!
