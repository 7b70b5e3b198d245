//! Alpha-beta search below the root.

use vstd::prelude::*;
use crate::arith::{clamp, div_i32, max_of, min_of, quot};
use crate::board::{Board, Position};
use crate::history::{pair_slot, PlyContext, Tables, MAX_PLY};
use crate::movegen::{generate_pseudo_legal_captures, tactical_moves};
use crate::moves::Move;
use crate::nnue::incremental::update_accumulator_for_null_move;
use crate::nnue::network::NnueNetwork;
use crate::ordering::{lemma_picker_advances, Hints, MovePicker, Picker};
use crate::quiescence::{advance_accumulator, kept, lemma_child_keeps, line_of, make_legal, qs, quiescence, ready, score_ok, set_line, take_back};
use crate::search::{bound_settles, checked, drawn, env, evaluate_for_side, exchange, exchange_at_least, extends, from_tt, in_step, is_checked, is_drawn, lemma_questions_push, plain_eval, plain_evaluate, played, polled, score_from_tt, score_to_tt, settles, static_eval, to_tt, tries, Answer, Config, Env, Host, MATE_THRESHOLD, Out, Question, Run, SearchState, Witness};
use crate::syzygy::{can_probe, probe_view, validated_probe_inputs, wdl_score, wdl_to_score, Wdl};
use crate::tt::TTFlag;
use crate::types::{magnitude, Color, PieceKind, Score, Square};
use crate::zobrist::{ep_key, side_key};

verus! {

/// What is known of a node before its moves are searched.
#[derive(Clone, Copy, PartialEq, Eq, Debug, Structural)]
pub struct Node {
    pub depth: u8,
    pub ply: u8,
    pub alpha: i32,
    pub beta: i32,
    /// The window is open: the node may be on the principal variation.
    pub is_pv: bool,
    pub in_check: bool,
    /// The depth, but at least one when in check.
    pub effective: u8,
    pub tt_move: Move,
    pub tt_score: i32,
    pub tt_depth: u8,
    pub tt_flag: TTFlag,
    /// The static evaluation, refined by the stored bound; far below any score
    /// when in check.
    pub eval: i32,
    /// The evaluation is better than two plies before.
    pub improving: bool,
    /// The window holds mate scores.
    pub mating: bool,
    pub prev: Move,
    /// The move that a singular search leaves out, or the null move.
    pub excluded: Move,
}

/// How far the search among the moves of a node has come.
pub struct Moves {
    pub alpha: i32,
    pub best: i32,
    pub best_move: Move,
    pub flag: TTFlag,
    pub searched: u32,
    pub quiets: Seq<Move>,
    pub captures: Seq<Move>,
    pub pv: Seq<Move>,
    pub run: Run,
}

/// A node is done, or the search goes on.
pub enum Step {
    Done(Out),
    Go(Seq<Move>, Run),
}

// Windows.
/// The window after mate distance pruning: no mate shorter than this node is
/// possible. A number in place of the window settles the node.
pub open spec fn mate_window(alpha: int, beta: int, ply: int) -> (int, int, Option<int>) {
    let b = min_of(beta, 30000 - ply);
    let a = max_of(alpha, -30000 + ply);
    if 30000 - ply < beta && alpha >= b {
        (alpha, b, Some(alpha))
    } else if -30000 + ply > alpha && a >= b {
        (a, b, Some(b))
    } else {
        (a, b, None)
    }
}

fn mate_distance(alpha: i32, beta: i32, ply: u8) -> (r: (i32, i32, Option<i32>))
    requires
        alpha < beta,
        ply <= 128,
    ensures
        r.0 == mate_window(alpha as int, beta as int, ply as int).0,
        r.1 == mate_window(alpha as int, beta as int, ply as int).1,
        r.2 is Some <==> mate_window(alpha as int, beta as int, ply as int).2 is Some,
        r.2 is Some ==> r.2->Some_0 == mate_window(alpha as int, beta as int, ply as int).2->Some_0,
        r.2 is None ==> -30000 + ply <= r.0 < r.1 <= 30000 - ply,
        r.2 is Some ==> (r.2->Some_0 == alpha && alpha >= 29_872) || (r.2->Some_0 == beta && beta <= -29_872),
{
    let mut a: i32 = alpha;
    let mut b: i32 = beta;
    let mating: i32 = Score::MATE - ply as i32;
    if mating < b {
        b = mating;
        if a >= b {
            return (a, b, Some(a));
        }
    }
    let mated: i32 = -Score::MATE + ply as i32;
    if mated > a {
        a = mated;
        if a >= b {
            return (a, b, Some(b));
        }
    }
    (a, b, None)
}

/// The bound that an outcome gives.
pub open spec fn wdl_bound(wdl: Wdl) -> TTFlag {
    match wdl {
        Wdl::Win | Wdl::CursedWin => TTFlag::LowerBound,
        Wdl::Loss | Wdl::BlessedLoss => TTFlag::UpperBound,
        Wdl::Draw => TTFlag::Exact,
    }
}

/// The tables know the outcome of the position.
#[verifier::opaque]
pub open spec fn tables_asked(e: Env, p: Position, excluded: Move) -> bool {
    &&& e.cfg.table_pieces is Some
    &&& excluded.0 == 0
    &&& can_probe(p, e.cfg.table_pieces->Some_0)
}

// Positions and contexts.
/// The position after a null move.
#[verifier::opaque]
pub open spec fn passed(p: Position) -> Position {
    Position {
        hash: (match p.ep {
            Some(sq) => p.hash ^ ep_key(sq.0 as int % 8),
            None => p.hash,
        }) ^ side_key(),
        side: p.side.other(),
        ep: None,
        ..p
    }
}

/// The side to move has a piece other than pawns and king.
#[verifier::opaque]
pub open spec fn has_pieces(p: Position) -> bool {
    ||| p.set_of(p.side, PieceKind::Knight).0 != 0
    ||| p.set_of(p.side, PieceKind::Bishop).0 != 0
    ||| p.set_of(p.side, PieceKind::Rook).0 != 0
    ||| p.set_of(p.side, PieceKind::Queen).0 != 0
}

/// The state with a move recorded as that of a ply.
#[verifier::opaque]
pub open spec fn noted(r: Run, ply: int, m: Move, p: Position) -> Run {
    match p.mailbox[m.src()] {
        Some(piece) => Run {
            ctxs: r.ctxs.update(
                ply,
                PlyContext { piece_kind: piece.kind.idx() as usize, to_sq: m.dst() as usize },
            ),
            ..r
        },
        None => r,
    }
}

/// A pawn on its way to the last rank but one, or a promotion.
#[verifier::opaque]
pub open spec fn pawn_threat(p: Position, m: Move) -> bool {
    ||| m.kind().promotes()
    ||| match p.mailbox[m.src()] {
        Some(piece) => piece.kind == PieceKind::Pawn && m.dst() / 8 == (match piece.color {
            Color::White => 6int,
            Color::Black => 1,
        }),
        None => false,
    }
}

/// What the histories say of a quiet move.
#[verifier::opaque]
pub open spec fn worth(t: Tables, p: Position, m: Move, ctxs: Seq<PlyContext>, ply: int) -> int {
    t.quiet_worth(p, m, ctxs, ply)
}

/// The history score of a move.
#[verifier::opaque]
pub open spec fn history_score(t: Tables, m: Move) -> int {
    t.history[pair_slot(m)] as int
}

/// Neither capture nor promotion.
pub open spec fn is_quiet(m: Move) -> bool {
    !m.kind().captures() && !m.kind().promotes()
}

/// Two's complement of a byte.
#[verifier::opaque]
pub open spec fn signed_byte(x: int) -> int {
    (x + 128) % 256 - 128
}

/// A quotient rounded towards zero, for a divisor of either sign.
#[verifier::opaque]
pub open spec fn quotient(a: int, b: int) -> int {
    if b > 0 { quot(a, b) } else { -quot(a, -b) }
}

// Decisions before the moves.
/// The static evaluation, refined by a stored bound.
pub open spec fn refined(raw: int, found: bool, flag: TTFlag, score: int) -> int {
    if found && magnitude(score) < 29_000 && (flag == TTFlag::Exact || (flag == TTFlag::LowerBound && score > raw) || (
    flag == TTFlag::UpperBound && score < raw)) {
        score
    } else {
        raw
    }
}

/// The node may be pruned before its moves are searched.
pub open spec fn prunable(n: Node) -> bool {
    !n.is_pv && !n.in_check && n.excluded.0 == 0 && !n.mating
}

/// Margin of reverse futility pruning.
pub open spec fn rfp_margin(e: Env, n: Node) -> int {
    (if n.improving { e.cfg.tune.rfp_margin_imp } else { e.cfg.tune.rfp_margin_noimp }) * n.depth
}

/// Depth of a null move search.
pub open spec fn null_depth(n: Node) -> int {
    let r = 3 + n.depth / 4 + min_of((n.eval - n.beta) / 200, 3);
    max_of(n.depth - 1 - r, 0)
}

/// Without a hash move the depth is reduced.
pub open spec fn missing_reduction(n: Node) -> int {
    if n.tt_move.0 == 0 && n.depth >= 3 {
        if !n.is_pv && n.depth >= 8 {
            2
        } else {
            1
        }
    } else {
        0
    }
}

// Decisions at a move.
/// The hash move is tested for being singular.
#[verifier::opaque]
pub open spec fn tests_singular(e: Env, n: Node, s: Moves, m: Move) -> bool {
    let mode = e.cfg.singular_ext_mode;
    &&& !n.in_check && s.searched == 0 && m == n.tt_move && n.tt_move.0 != 0 && n.excluded.0 == 0
    &&& magnitude(n.tt_score as int) < 29_000
    &&& {
        ||| mode == 1 && !n.is_pv && n.depth >= 8 && n.tt_depth >= n.depth - 2 && n.tt_flag == TTFlag::LowerBound
            && n.tt_score >= s.alpha + 50
        ||| mode >= 2 && n.depth >= 7 && n.tt_depth >= n.depth - 3 && n.tt_flag != TTFlag::UpperBound && n.tt_score
            >= s.alpha + 30
    }
}

/// The move is pruned before it is made, by its exchange value.
#[verifier::opaque]
pub open spec fn pruned_by_exchange(e: Env, p: Position, n: Node, s: Moves, m: Move) -> bool {
    &&& s.searched > 0 && !n.is_pv && !n.in_check
    &&& {
        ||| n.depth <= 7 && m.kind().captures() && exchange(p, m) < -30 * n.depth
        ||| n.depth <= 5 && is_quiet(m) && exchange(p, m) < -e.cfg.tune.see_quiet_margin * n.depth
    }
}

/// The number of quiet moves after which the rest is pruned.
pub open spec fn late_count(n: Node) -> int {
    if n.improving { 3 + n.depth * n.depth } else { (3 + n.depth * n.depth) / 2 }
}

/// The move is pruned once it is made: futility, late moves, bad history.
#[verifier::opaque]
pub open spec fn pruned_late(e: Env, p: Position, n: Node, s: Moves, m: Move, r: Run) -> bool {
    let margin = (if n.improving { e.cfg.tune.fut_margin_imp } else { e.cfg.tune.fut_margin_noimp }) * n.depth + 50;
    &&& s.searched > 0 && !n.is_pv && !n.in_check && !checked(played(p, m)) && is_quiet(m) && !n.mating
    &&& {
        ||| n.depth <= 5 && n.eval + margin <= s.alpha
        ||| n.depth <= 6 && s.searched >= late_count(n)
        ||| n.depth <= 4 && worth(r.tables, played(p, m), m, r.ctxs, n.ply as int) < -3000 * n.depth
    }
}

/// The depth to which a move is searched.
pub open spec fn move_depth(n: Node, extension: int) -> int {
    max_of(n.effective - 1 + extension - missing_reduction(n), 0)
}

/// The move is searched to a reduced depth first.
pub open spec fn reduces(p: Position, n: Node, s: Moves, m: Move) -> bool {
    s.searched >= 2 && n.depth >= 3 && !n.in_check && !checked(played(p, m)) && is_quiet(m)
}

/// The reduction before it is limited: less on the principal variation, for
/// killers, when improving and with a good history.
pub open spec fn raw_reduction(n: Node, k: (Move, Move, Move), alpha: int, m: Move, base: int, by_worth: int, history: int) -> int {
    base + (if n.is_pv { -1int } else { 1 }) - (if m == k.0 || m == k.1 || m == k.2 { 1int } else { 0 }) + (if n.improving {
        0int
    } else {
        1
    }) - by_worth + (if history < -4000 { 1int } else { 0 }) + (if !n.is_pv && n.eval + 150 < alpha { 1int } else { 0 })
}

/// The reduction of a late move, by depth and number of the move, and by what
/// is known of it.
#[verifier::opaque]
pub open spec fn reduction(e: Env, p: Position, n: Node, k: (Move, Move, Move), s: Moves, m: Move, r: Run, depth: int) -> int {
    let base = signed_byte(e.cfg.lmr_table@[min_of(n.depth as int, 63) * 64 + min_of(s.searched as int, 63)] as int);
    let by_worth = signed_byte(
        quotient(worth(r.tables, played(p, m), m, r.ctxs, n.ply as int), e.cfg.tune.hist_lmr_div as int),
    );
    clamp(
        raw_reduction(n, k, s.alpha as int, m, base, by_worth, history_score(r.tables, m)),
        0,
        max_of(depth - 1, 0),
    )
}

/// The moves of a node that are remembered once one of them cuts it off: a
/// malus for each of the others.
pub open spec fn quiets_punished(t: Tables, p: Position, n: Node, m: Move, ctxs: Seq<PlyContext>, s: Seq<Move>) -> Tables
    decreases s.len(),
{
    if s.len() == 0 {
        t
    } else {
        let before = quiets_punished(t, p, n, m, ctxs, s.drop_last());
        if s.last() == m {
            before
        } else {
            before.quiet_bumped(p, s.last(), -(n.depth * n.depth), ctxs, n.ply as int)
        }
    }
}

pub open spec fn captures_punished(t: Tables, p: Position, n: Node, m: Move, s: Seq<Move>) -> Tables
    decreases s.len(),
{
    if s.len() == 0 {
        t
    } else {
        let before = captures_punished(t, p, n, m, s.drop_last());
        if s.last() == m { before } else { before.capture_bumped(p, s.last(), -(n.depth * n.depth)) }
    }
}

/// The killers with a move in front.
pub open spec fn with_killer(k: Seq<(Move, Move)>, ply: int, m: Move) -> Seq<(Move, Move)> {
    if k[ply].0 == m { k } else { k.update(ply, (m, k[ply].0)) }
}

/// What is learned from a cutoff.
#[verifier::opaque]
pub open spec fn learned(r: Run, p: Position, n: Node, m: Move, quiets: Seq<Move>, captures: Seq<Move>) -> Run {
    if !m.kind().captures() {
        let t = r.tables.quiet_bumped(p, m, n.depth * n.depth, r.ctxs, n.ply as int).counter_noted(n.prev, m);
        Run {
            killers: with_killer(r.killers, n.ply as int, m),
            tables: quiets_punished(t, p, n, m, r.ctxs, quiets),
            ..r
        }
    } else {
        let t = r.tables.capture_bumped(p, m, n.depth * n.depth);
        Run { tables: captures_punished(t, p, n, m, captures), ..r }
    }
}

/// The search result corrects the static evaluation: not in check, a quiet best
/// move, no mate, and a bound that agrees with the sign of the residual.
pub open spec fn corrects(n: Node, s: Moves) -> bool {
    &&& !n.in_check && s.best_move.0 != 0 && !s.best_move.kind().captures()
    &&& -29_000 < s.best < 29_000
    &&& match s.flag {
        TTFlag::Exact => true,
        TTFlag::LowerBound => s.best >= n.eval,
        TTFlag::UpperBound => s.best <= n.eval,
    }
}

#[verifier::opaque]
pub open spec fn corrected_run(r: Run, p: Position, n: Node, best: int) -> Run {
    Run { tables: r.tables.residual_seen(p, n.depth as int, best - n.eval, r.ctxs, n.ply as int), ..r }
}

/// The next move of a picker.
#[verifier::opaque]
pub open spec fn next_move(pk: Picker, p: Position, r: Run, k: (Move, Move, Move), ply: int) -> (Picker, Option<Move>) {
    pk.next(p, Hints { tables: r.tables, ctxs: r.ctxs, ply, killers: (k.0, k.1), counter: k.2 })
}

/// The moves after one was searched.
pub open spec fn remembered(s: Moves, m: Move) -> Moves {
    let s1 = if is_quiet(m) && s.quiets.len() < 128 {
        Moves { quiets: s.quiets.push(m), ..s }
    } else if m.kind().captures() && s.captures.len() < 128 {
        Moves { captures: s.captures.push(m), ..s }
    } else {
        s
    };
    Moves { searched: s.searched.wrapping_add(1), ..s1 }
}

// The search.
/// The search of a node: stop, ply limit, draws and mate distance first; at
/// depth zero the quiescence search.
pub open spec fn ab(e: Env, p: Position, depth: int, ply: int, alpha: int, beta: int, prev: Move, excluded: Move, r: Run) -> Out
    decreases 128 - ply, depth, 10int, 0int, 0int,
{
    let (stopped, r1) = polled(e, r);
    let (a, b, settled) = mate_window(alpha, beta, ply);
    let check = checked(p);
    if stopped {
        Out { score: 0, pv: Seq::empty(), run: r1 }
    } else if ply >= 128 {
        Out { score: plain_eval(e, p) as i32, pv: Seq::empty(), run: r1 }
    } else if drawn(p, e.cfg.game_ply as int) {
        Out { score: (-e.cfg.contempt) as i32, pv: Seq::empty(), run: r1 }
    } else if settled is Some {
        Out { score: settled->Some_0 as i32, pv: Seq::empty(), run: r1 }
    } else if depth == 0 && !check {
        qs(e, p, ply, a, b, true, r1.counted())
    } else {
        ab_tables(e, p, depth, ply, a, b, prev, excluded, check, r1.counted())
    }
}

/// An outcome known from the tables settles the node or narrows the window.
pub open spec fn ab_tables(
    e: Env,
    p: Position,
    depth: int,
    ply: int,
    alpha: int,
    beta: int,
    prev: Move,
    excluded: Move,
    check: bool,
    r: Run,
) -> Out
    decreases 128 - ply, depth, 9int, 0int, 0int,
{
    let effective = if check { max_of(depth, 1) } else { depth };
    let is_pv = beta - alpha > 1;
    if tables_asked(e, p, excluded) {
        let r1 = Run { asked: r.asked.push(Question::Probe(probe_view(p))), ..r };
        match e.log[r.asked.len() as int]->Probe_1 {
            Some(wdl) => {
                let score = wdl_score(wdl);
                let r2 = r1.stored(p.hash, effective as u8, to_tt(score, ply), wdl_bound(wdl), Move(0));
                if bound_settles(wdl_bound(wdl), score, alpha, beta) {
                    Out { score: score as i32, pv: Seq::empty(), run: r2 }
                } else if wdl_bound(wdl) == TTFlag::LowerBound {
                    ab_hash(e, p, depth, ply, max_of(alpha, score), beta, prev, excluded, check, is_pv, r2)
                } else {
                    ab_hash(e, p, depth, ply, alpha, min_of(beta, score), prev, excluded, check, is_pv, r2)
                }
            },
            None => ab_hash(e, p, depth, ply, alpha, beta, prev, excluded, check, is_pv, r1),
        }
    } else {
        ab_hash(e, p, depth, ply, alpha, beta, prev, excluded, check, is_pv, r)
    }
}

/// The node, given the hash entry and the static evaluation.
pub open spec fn node_of(
    e: Env,
    p: Position,
    depth: int,
    ply: int,
    alpha: int,
    beta: int,
    prev: Move,
    excluded: Move,
    check: bool,
    is_pv: bool,
    r: Run,
) -> Node {
    let entry = r.found(p.hash);
    let tt_score = if entry is Some { from_tt(entry->Some_0.score as int, ply) } else { 0 };
    let tt_flag = if entry is Some { entry->Some_0.flag } else { TTFlag::UpperBound };
    let eval = if check { -1073741824 } else { refined(static_eval(e, p, r, ply), entry is Some, tt_flag, tt_score) };
    Node {
        depth: depth as u8,
        ply: ply as u8,
        alpha: alpha as i32,
        beta: beta as i32,
        is_pv,
        in_check: check,
        effective: (if check { max_of(depth, 1) } else { depth }) as u8,
        tt_move: if entry is Some { entry->Some_0.best_move } else { Move(0) },
        tt_score: tt_score as i32,
        tt_depth: if entry is Some { entry->Some_0.depth } else { 0 },
        tt_flag,
        eval: eval as i32,
        improving: !check && ply >= 2 && eval > r.evals[ply - 2],
        mating: alpha < -29_000 || alpha > 29_000 || beta < -29_000 || beta > 29_000,
        prev,
        excluded,
    }
}

/// A deep enough stored bound settles a node off the principal variation.
pub open spec fn ab_hash(
    e: Env,
    p: Position,
    depth: int,
    ply: int,
    alpha: int,
    beta: int,
    prev: Move,
    excluded: Move,
    check: bool,
    is_pv: bool,
    r: Run,
) -> Out
    decreases 128 - ply, depth, 8int, 0int, 0int,
{
    let entry = r.found(p.hash);
    let n = node_of(e, p, depth, ply, alpha, beta, prev, excluded, check, is_pv, r);
    if entry is Some && !is_pv && n.tt_depth >= n.effective && excluded.0 == 0 && bound_settles(
        n.tt_flag,
        n.tt_score as int,
        alpha,
        beta,
    ) {
        Out { score: n.tt_score, pv: Seq::empty(), run: r }
    } else if 0 <= ply < 128 && 0 <= depth < 256 {
        ab_search(e, p, n, Run { evals: r.evals.update(ply, n.eval), ..r })
    } else {
        Out { score: 0, pv: Seq::empty(), run: r }
    }
}

/// The cuts before the moves, then the moves.
pub open spec fn ab_search(e: Env, p: Position, n: Node, r: Run) -> Out
    decreases 128 - n.ply, n.depth as int, 7int, 0int, 0int,
{
    match ab_cuts(e, p, n, r) {
        Step::Done(out) => out,
        Step::Go(pv, r1) => moves_of(e, p, n, pv, r1),
    }
}

/// Before the first move.
pub open spec fn no_moves(n: Node, pv: Seq<Move>, r: Run) -> Moves {
    Moves {
        alpha: n.alpha,
        best: (-2147483647) as i32,
        best_move: Move(0),
        flag: TTFlag::UpperBound,
        searched: 0,
        quiets: Seq::empty(),
        captures: Seq::empty(),
        pv,
        run: r,
    }
}

/// The killers of a ply, and the noted reply to the last move.
#[verifier::opaque]
pub open spec fn favourites(n: Node, r: Run) -> (Move, Move, Move) {
    (r.killers[n.ply as int].0, r.killers[n.ply as int].1, r.tables.counter_to(n.prev))
}

/// All moves of a node.
pub open spec fn moves_of(e: Env, p: Position, n: Node, pv: Seq<Move>, r: Run) -> Out
    decreases 128 - n.ply, n.depth as int, 6int, 0int, 0int,
{
    ab_moves(e, p, n, favourites(n, r), Picker::fresh(n.tt_move), no_moves(n, pv, r))
}

/// Reverse futility, null move, probing captures and razoring, in turn.
pub open spec fn ab_cuts(e: Env, p: Position, n: Node, r: Run) -> Step
    decreases 128 - n.ply, n.depth as int, 6int, 0int, 0int,
{
    if !prunable(n) {
        Step::Go(Seq::empty(), r)
    } else if n.depth <= 6 && n.eval - rfp_margin(e, n) >= n.beta {
        // The score is as high as a score can be.
        Step::Done(
            Out { score: min_of(n.eval - rfp_margin(e, n), 2_147_200_000) as i32, pv: Seq::empty(), run: r },
        )
    } else {
        match ab_null(e, p, n, r) {
            Step::Done(out) => Step::Done(out),
            Step::Go(_, r1) => match ab_probcut(e, p, n, tactical_moves(p), 0, r1) {
                Step::Done(out) => Step::Done(out),
                Step::Go(_, r2) => ab_razor(e, p, n, r2),
            },
        }
    }
}

/// If the opponent may move twice and the score is still at least beta, so will
/// it be after a move.
pub open spec fn ab_null(e: Env, p: Position, n: Node, r: Run) -> Step
    decreases 128 - n.ply, n.depth as int, 5int, 0int, 0int,
{
    if n.ply < 128 && n.depth >= 3 && n.eval >= n.beta && has_pieces(p) {
        let child = ab(e, passed(p), null_depth(n), n.ply + 1, -n.beta, -n.beta + 1, Move(0), Move(0), r);
        if -child.score >= n.beta {
            Step::Done(Out { score: n.beta, pv: Seq::empty(), run: child.run })
        } else {
            Step::Go(Seq::empty(), child.run)
        }
    } else {
        Step::Go(Seq::empty(), r)
    }
}

/// If a shallow search of a capture beats beta by a margin, so very likely does
/// the full search. Captures from the `i`-th on.
pub open spec fn ab_probcut(e: Env, p: Position, n: Node, list: Seq<Move>, i: int, r: Run) -> Step
    decreases 128 - n.ply, n.depth as int, 4int, list.len() - i, 0int,
{
    let goal = n.beta + 200;
    if n.ply >= 128 || n.depth < 5 || n.eval < goal - 100 || i < 0 || i >= list.len() {
        Step::Go(Seq::empty(), r)
    } else {
        let m = list[i];
        let r1 = noted(r, n.ply as int, m, p);
        if exchange(p, m) < goal - n.eval {
            ab_probcut(e, p, n, list, i + 1, r)
        } else if !tries(p, m) {
            ab_probcut(e, p, n, list, i + 1, r1)
        } else {
            let child = ab_probe(e, played(p, m), n, m, r1.counted());
            if -child.score >= goal {
                Step::Done(
                    Out {
                        score: (-child.score) as i32,
                        pv: Seq::empty(),
                        run: child.run.stored(
                            p.hash,
                            n.depth,
                            to_tt(-child.score as int, n.ply as int),
                            TTFlag::LowerBound,
                            m,
                        ),
                    },
                )
            } else {
                ab_probcut(e, p, n, list, i + 1, child.run)
            }
        }
    }
}

/// The quiescence search of a capture, and a shallow search if it beats the
/// margin.
pub open spec fn ab_probe(e: Env, q: Position, n: Node, m: Move, r: Run) -> Out
    decreases 128 - n.ply, n.depth as int, 3int, 0int, 0int,
{
    let goal = n.beta + 200;
    let shallow = qs(e, q, n.ply + 1, -goal, -goal + 1, true, r);
    if n.ply < 128 && -shallow.score >= goal {
        ab(e, q, n.depth - 4, n.ply + 1, -goal, -goal + 1, m, Move(0), shallow.run)
    } else {
        shallow
    }
}

/// Far below alpha at low depth, the quiescence search decides.
#[verifier::opaque]
pub open spec fn ab_razor(e: Env, p: Position, n: Node, r: Run) -> Step {
    if n.depth <= 3 && n.eval + 300 + 200 * n.depth <= n.alpha {
        let out = qs(e, p, n.ply as int, n.alpha as int, n.beta as int, true, r);
        if out.score <= n.alpha { Step::Done(out) } else { Step::Go(out.pv, out.run) }
    } else {
        Step::Go(Seq::empty(), r)
    }
}

/// The moves that are left of a picker. `k` holds the killers and the noted
/// reply.
pub open spec fn ab_moves(e: Env, p: Position, n: Node, k: (Move, Move, Move), pk: Picker, s: Moves) -> Out
    decreases 128 - n.ply, n.depth as int, 3int, pk.rank(), pk.left(),
    via ab_moves_decreases
{
    let (pk1, next) = next_move(pk, p, s.run, k, n.ply as int);
    if next is None || !pk.ok() || n.ply >= 128 {
        ab_end(p, n, s)
    } else {
        let m = next->Some_0;
        let (singular, r1) = ab_singular(e, p, n, s, m);
        let extension = if singular || pawn_threat(p, m) { 1int } else { 0 };
        let r2 = noted(r1, n.ply as int, m, p);
        if m == n.excluded && n.excluded.0 != 0 {
            ab_moves(e, p, n, k, pk1, s)
        } else if pruned_by_exchange(e, p, n, s, m) {
            ab_moves(e, p, n, k, pk1, Moves { run: r1, ..s })
        } else if !tries(p, m) || pruned_late(e, p, n, s, m, r2) {
            ab_moves(e, p, n, k, pk1, Moves { run: r2, ..s })
        } else {
            let child = ab_child(e, p, n, k, s, m, move_depth(n, extension), r2);
            let score = -child.score;
            let s1 = Moves { run: child.run, ..remembered(s, m) };
            if child.run.stop {
                Out { score: 0, pv: s.pv, run: child.run }
            } else if score <= s.best {
                ab_moves(e, p, n, k, pk1, s1)
            } else if score <= s.alpha {
                ab_moves(e, p, n, k, pk1, Moves { best: score as i32, best_move: m, ..s1 })
            } else {
                let s2 = Moves {
                    best: score as i32,
                    best_move: m,
                    alpha: score as i32,
                    flag: TTFlag::Exact,
                    pv: line_of(m, child.pv),
                    ..s1
                };
                if score >= n.beta {
                    ab_end(
                        p,
                        n,
                        Moves { flag: TTFlag::LowerBound, run: learned(s2.run, p, n, m, s2.quiets, s2.captures), ..s2 },
                    )
                } else {
                    ab_moves(e, p, n, k, pk1, s2)
                }
            }
        }
    }
}

#[via_fn]
proof fn ab_moves_decreases(e: Env, p: Position, n: Node, k: (Move, Move, Move), pk: Picker, s: Moves) {
    reveal(next_move);
    if pk.ok() {
        lemma_picker_advances(
            pk,
            p,
            Hints { tables: s.run.tables, ctxs: s.run.ctxs, ply: n.ply as int, killers: (k.0, k.1), counter: k.2 },
        );
    }
}

/// Whether the hash move is singular: a search without it stays below its
/// score by a margin.
pub open spec fn ab_singular(e: Env, p: Position, n: Node, s: Moves, m: Move) -> (bool, Run)
    decreases 128 - n.ply, n.depth as int, 1int, 0int, 0int,
{
    if tests_singular(e, n, s, m) && n.depth > 0 {
        let goal = n.tt_score - 2 * n.depth;
        let out = ab(e, p, (n.depth - 1) / 2, n.ply as int, goal - 1, goal, n.prev, m, s.run);
        (out.score < goal, out.run)
    } else {
        (false, s.run)
    }
}

/// The search of a move, from the opponent's view: the first move with the full
/// window, later ones reduced and with a null window first.
pub open spec fn ab_child(
    e: Env,
    p: Position,
    n: Node,
    k: (Move, Move, Move),
    s: Moves,
    m: Move,
    depth: int,
    r: Run,
) -> Out
    decreases 128 - n.ply, n.depth as int, 1int, 0int, 0int,
{
    let q = played(p, m);
    let a = s.alpha as int;
    let b = n.beta as int;
    if n.ply >= 128 {
        Out { score: 0, pv: Seq::empty(), run: r }
    } else if s.searched == 0 {
        ab(e, q, depth, n.ply + 1, -b, -a, m, Move(0), r)
    } else if reduces(p, n, s, m) {
        let less = max_of(depth - reduction(e, p, n, k, s, m, r, depth), 0);
        let out = ab(e, q, less, n.ply + 1, -a - 1, -a, m, Move(0), r);
        if -out.score <= a { out } else { ab_verify(e, q, depth, n.ply as int, a, b, m, out.run) }
    } else {
        ab_verify(e, q, depth, n.ply as int, a, b, m, r)
    }
}

/// A null window search, and one with the full window if it says that the move
/// is better than all before.
pub open spec fn ab_verify(e: Env, q: Position, depth: int, ply: int, alpha: int, beta: int, m: Move, r: Run) -> Out
    decreases 128 - ply, 0int, 0int, 0int, 0int,
{
    if ply >= 128 {
        Out { score: 0, pv: Seq::empty(), run: r }
    } else {
        let out = ab(e, q, depth, ply + 1, -alpha - 1, -alpha, m, Move(0), r);
        if -out.score > alpha && -out.score < beta {
            ab(e, q, depth, ply + 1, -beta, -alpha, m, Move(0), out.run)
        } else {
            out
        }
    }
}

/// The moves are through. Without a legal move it is mate or stalemate, except
/// where a move was left out.
#[verifier::opaque]
pub open spec fn ab_end(p: Position, n: Node, s: Moves) -> Out {
    if s.searched == 0 {
        Out {
            score: if n.excluded.0 != 0 {
                s.alpha
            } else if n.in_check {
                (-30000 + n.ply) as i32
            } else {
                0
            },
            pv: s.pv,
            run: s.run,
        }
    } else if n.excluded.0 == 0 {
        let r1 = if corrects(n, s) { corrected_run(s.run, p, n, s.best as int) } else { s.run };
        Out {
            score: s.best,
            pv: s.pv,
            run: r1.stored(p.hash, n.effective, to_tt(s.best as int, n.ply as int), s.flag, s.best_move),
        }
    } else {
        Out { score: s.best, pv: s.pv, run: s.run }
    }
}

// Small steps of the search.
pub fn signed(x: i32) -> (r: i32)
    requires
        -100_000_000 <= x <= 100_000_000,
    ensures
        r == signed_byte(x as int),
        -128 <= r <= 127,
{
    // A multiple of 256 keeps the dividend positive.
    let shifted: i32 = x + 128 + 256_000_000;
    proof {
        reveal(signed_byte);
        assert((x + 128 + 256 * 1_000_000) % 256 == (x + 128) % 256);
    }
    shifted % 256 - 128
}

fn quotient_of(a: i32, b: i32) -> (r: i32)
    requires
        -100_000 <= a <= 100_000,
        b != 0,
    ensures
        r == quotient(a as int, b as int),
        -100_000 <= r <= 100_000,
{
    proof {
        reveal(quotient);
    }
    if b > 0 {
        proof {
            crate::arith::lemma_quot_bounds(a as int, b as int);
        }
        div_i32(a, b)
    } else if b == i32::MIN {
        proof {
            assert(quot(a as int, 2147483648) == 0);
        }
        0
    } else {
        proof {
            crate::arith::lemma_quot_bounds(a as int, -b);
        }
        -div_i32(a, -b)
    }
}

/// Asks the tables about a position that they may know.
fn ask_tables<H: Host>(
    board: &Board,
    excluded: Move,
    state: &mut SearchState,
    cfg: &Config,
    net: Ghost<NnueNetwork>,
    host: &mut Witness<H>,
) -> (r: (bool, Option<Wdl>))
    requires
        in_step(*old(state), *old(host)),
        board.ok(),
        old(state).ok(),
    ensures
        in_step(*final(state), *final(host)),
        forall|l: Seq<Answer>| r.0 == #[trigger] tables_asked(env(*cfg, net@, l), board@, excluded),
        !r.0 ==> r.1 is None && final(state)@ == old(state)@ && final(state).log == old(state).log,
        r.0 ==> final(state).log@ == old(state).log@.push(Answer::Probe(probe_view(board@), r.1)) && final(state)@ == (Run {
            asked: old(state)@.asked.push(Question::Probe(probe_view(board@))),
            ..old(state)@
        }),
        extends(final(state).log@, old(state).log@),
        final(state).ok(),
        final(state).accumulators == old(state).accumulators,
{
    proof {
        reveal(tables_asked);
    }
    if let Some(max) = cfg.table_pieces {
        if excluded.is_null() {
            if let Some(inputs) = validated_probe_inputs(board, max) {
                let answer = host.probe_wdl(inputs);
                proof {
                    lemma_questions_push(state.log@, Answer::Probe(inputs, answer));
                    state.log@ = state.log@.push(Answer::Probe(inputs, answer));
                }
                return (true, answer);
            }
        }
    }
    (false, None)
}

/// Records a move as that of a ply.
pub fn store_ply_context(state: &mut SearchState, ply: u8, m: Move, board: &Board)
    requires
        old(state).ok(),
        ply < 128,
    ensures
        final(state).ok(),
        final(state)@ == noted(old(state)@, ply as int, m, board@),
        final(state)@.stop == old(state)@.stop,
        final(state).log == old(state).log,
        final(state).accumulators == old(state).accumulators,
{
    proof {
        reveal(noted);
    }
    if let Some(piece) = board.piece_at(m.from_sq()) {
        state.contexts.set(
            ply as usize,
            PlyContext { piece_kind: piece.kind.index(), to_sq: m.to_sq().index() },
        );
    }
}

fn is_pawn_threat(board: &Board, m: Move) -> (r: bool)
    ensures
        r == pawn_threat(board@, m),
{
    proof {
        reveal(pawn_threat);
    }
    if m.is_promotion() {
        return true;
    }
    match board.piece_at(m.from_sq()) {
        Some(piece) => {
            let goal: u8 = if piece.color == Color::White { 6 } else { 1 };
            piece.kind == PieceKind::Pawn && m.to_sq().rank() == goal
        },
        None => false,
    }
}

/// Whether the side to move has a piece other than pawns and king.
fn has_non_pawn_material(board: &Board) -> (r: bool)
    ensures
        r == has_pieces(board@),
{
    proof {
        reveal(has_pieces);
    }
    let us = board.side_to_move;
    board.set_of(us, PieceKind::Knight).0 != 0 || board.set_of(us, PieceKind::Bishop).0 != 0 || board.set_of(
        us,
        PieceKind::Rook,
    ).0 != 0 || board.set_of(us, PieceKind::Queen).0 != 0
}

/// Makes a null move.
fn make_null(board: &mut Board)
    requires
        old(board).ok(),
        old(board)@.consistent(),
    ensures
        final(board).ok(),
        final(board)@ == passed(old(board)@),
        final(board)@.consistent(),
        final(board)@.pieces == old(board)@.pieces,
        final(board)@.castling == old(board)@.castling,
        final(board)@.halfmove == old(board)@.halfmove,
        final(board)@.fullmove == old(board)@.fullmove,
{
    proof {
        reveal(passed);
    }
    let ghost p = board@;
    board.update_hash_for_null_move();
    let ghost p1 = board@;
    board.side_to_move = board.side_to_move.opposite();
    board.en_passant = None;
    proof {
        assert(board@.pieces =~= p1.pieces);
        assert(board@ == passed(p));
        assert(board@.consistent()) by {
            assert(board@.pieces == p.pieces && board@.mailbox == p.mailbox && board@.occupancy == p.occupancy);
        }
    }
}

/// Takes a null move back.
fn take_back_null(board: &mut Board, en_passant: Option<Square>, hash: u64, Ghost(p): Ghost<Position>)
    requires
        old(board).ok(),
        old(board)@ == passed(p),
        en_passant == p.ep,
        en_passant is Some ==> en_passant->Some_0.ok(),
        hash == p.hash,
    ensures
        final(board).ok(),
        final(board)@ == p,
{
    proof {
        reveal(passed);
    }
    let ghost p1 = board@;
    board.side_to_move = board.side_to_move.opposite();
    board.en_passant = en_passant;
    board.hash = hash;
    proof {
        assert(board@.pieces =~= p1.pieces);
        assert(board@ == p);
    }
}

fn worth_of(state: &SearchState, board: &Board, m: Move, ply: u8) -> (r: i32)
    requires
        state.ok(),
    ensures
        r == worth(state@.tables, board@, m, state@.ctxs, ply as int),
        -28672 <= r <= 28672,
{
    proof {
        reveal(worth);
    }
    state.tables.quiet_worth(m, board, &state.contexts, ply)
}

fn history_score_of(state: &SearchState, m: Move) -> (r: i32)
    requires
        state.ok(),
    ensures
        r == history_score(state@.tables, m),
{
    proof {
        reveal(history_score);
    }
    state.tables.history_of(m)
}

fn correct(state: &mut SearchState, board: &Board, n: &Node, best: i32)
    requires
        old(state).ok(),
    ensures
        final(state).ok(),
        final(state)@ == corrected_run(old(state)@, board@, *n, best as int),
        final(state).log == old(state).log,
        final(state).accumulators == old(state).accumulators,
{
    proof {
        reveal(corrected_run);
    }
    let diff: i64 = best as i64 - n.eval as i64;
    state.tables.update_corrhist(board, n.depth, diff, &state.contexts, n.ply);
}

fn store_killer(state: &mut SearchState, ply: u8, m: Move)
    requires
        old(state).ok(),
        ply < 128,
    ensures
        final(state).ok(),
        final(state)@ == (Run { killers: with_killer(old(state)@.killers, ply as int, m), ..old(state)@ }),
        final(state).log == old(state).log,
        final(state).accumulators == old(state).accumulators,
{
    let old_pair = state.killers[ply as usize];
    if old_pair.0 != m {
        state.killers.set(ply as usize, (m, old_pair.0));
    }
}

/// Learns from a cutoff.
fn learn(state: &mut SearchState, board: &Board, n: &Node, m: Move, quiets: &Vec<Move>, captures: &Vec<Move>)
    requires
        old(state).ok(),
        n.ply < 128,
    ensures
        final(state).ok(),
        final(state)@ == learned(old(state)@, board@, *n, m, quiets@, captures@),
        final(state).log == old(state).log,
        final(state).accumulators == old(state).accumulators,
{
    let ghost r0 = state@;
    let ghost s0 = *state;
    proof {
        reveal(learned);
    }
    if !m.is_capture() {
        store_killer(state, n.ply, m);
        state.tables.update_history(m, n.depth, board, &state.contexts, n.ply);
        state.tables.store_counter_move(n.prev, m);
        let ghost t = state.tables@;
        let mut i: usize = 0;
        proof {
            assert(quiets_punished(t, board@, *n, m, r0.ctxs, quiets@.take(0)) == t);
        }
        while i < quiets.len()
            invariant
                i <= quiets@.len(),
                state.ok(),
                state.tables@ == quiets_punished(t, board@, *n, m, r0.ctxs, quiets@.take(i as int)),
                state@ == (Run {
                    killers: with_killer(r0.killers, n.ply as int, m),
                    tables: state.tables@,
                    ..r0
                }),
                state.log == s0.log,
                state.accumulators == s0.accumulators,
            decreases quiets@.len() - i,
        {
            let q = quiets[i];
            proof {
                assert(quiets@.take(i + 1).drop_last() =~= quiets@.take(i as int));
                assert(quiets@.take(i + 1).last() == q);
            }
            if q != m {
                state.tables.update_history_malus(q, n.depth, board, &state.contexts, n.ply);
            }
            i = i + 1;
        }
        proof {
            assert(quiets@.take(i as int) =~= quiets@);
        }
    } else {
        state.tables.update_capture_history(m, n.depth, board);
        let ghost t = state.tables@;
        let mut i: usize = 0;
        proof {
            assert(captures_punished(t, board@, *n, m, captures@.take(0)) == t);
        }
        while i < captures.len()
            invariant
                i <= captures@.len(),
                state.ok(),
                state.tables@ == captures_punished(t, board@, *n, m, captures@.take(i as int)),
                state@ == (Run { tables: state.tables@, ..r0 }),
                state.log == s0.log,
                state.accumulators == s0.accumulators,
            decreases captures@.len() - i,
        {
            let c = captures[i];
            proof {
                assert(captures@.take(i + 1).drop_last() =~= captures@.take(i as int));
                assert(captures@.take(i + 1).last() == c);
            }
            if c != m {
                state.tables.update_capture_history_malus(c, n.depth, board);
            }
            i = i + 1;
        }
        proof {
            assert(captures@.take(i as int) =~= captures@);
        }
    }
}

fn pick(picker: &mut MovePicker, board: &Board, state: &SearchState, ply: u8, k: (Move, Move, Move)) -> (r: Option<Move>)
    requires
        old(picker)@.ok(),
        board.ok(),
        board@.consistent(),
        state.ok(),
    ensures
        final(picker)@.ok(),
        (final(picker)@, r) == next_move(old(picker)@, board@, state@, k, ply as int),
        r is Some ==> 0 <= final(picker)@.rank() < old(picker)@.rank() || (final(picker)@.rank() == old(picker)@.rank()
            && 0 <= final(picker)@.left() < old(picker)@.left()),
{
    proof {
        reveal(next_move);
        lemma_picker_advances(
            picker@,
            board@,
            Hints { tables: state@.tables, ctxs: state@.ctxs, ply: ply as int, killers: (k.0, k.1), counter: k.2 },
        );
    }
    picker.next(board, &state.tables, &state.contexts, ply, (k.0, k.1), k.2)
}

/// A score of a node: within the limits of scores, or at a window that lies
/// beyond them.
pub open spec fn in_limits(score: int, alpha: int, beta: int) -> bool {
    score <= max_of(2_147_200_000, alpha) && score >= min_of(-2_147_200_000, beta)
}

/// The numbers of a node are in range.
pub open spec fn node_ok(n: Node) -> bool {
    &&& 1 <= n.ply < 128
    &&& n.depth <= 128
    &&& n.effective <= 128
    &&& -30_000 <= n.alpha < n.beta <= 30_000
    &&& -33_000 <= n.tt_score <= 33_000
    &&& -2_147_064_000 <= n.eval <= 2_147_064_000
}

/// Alpha-beta search of a node below the root.
pub fn alpha_beta<H: Host>(
    board: &mut Board,
    depth: u8,
    ply: u8,
    alpha: i32,
    beta: i32,
    pv: &mut Vec<Move>,
    state: &mut SearchState,
    cfg: &Config,
    net: &NnueNetwork,
    host: &mut Witness<H>,
    prev_move: Move,
    excluded_move: Move,
) -> (r: i32)
    requires
        in_step(*old(state), *old(host)),
        ready(*old(board), *old(state), *cfg, *net, ply as int),
        1 <= ply,
        depth <= 128,
        i32::MIN < alpha < beta,
    ensures
        in_step(*final(state), *final(host)),
        kept(*old(board), *final(board), *old(state), *final(state), *cfg, *net, ply as int),
        in_limits(r as int, alpha as int, beta as int),
        forall|l: Seq<Answer>|
            extends(l, final(state).log@) ==> #[trigger] ab(
                env(*cfg, *net, l),
                old(board)@,
                depth as int,
                ply as int,
                alpha as int,
                beta as int,
                prev_move,
                excluded_move,
                old(state)@,
            ) == (Out { score: r, pv: final(pv)@, run: final(state)@ }),
    decreases 128 - ply, depth, 10int,
{
    let ghost p = board@;
    let ghost r0 = state@;
    pv.clear();
    proof {
        assert(pv@ =~= Seq::<Move>::empty());
    }
    if state.poll(cfg, Ghost(*net), host) {
        return 0;
    }
    let ghost r1 = state@;
    let ghost mid = state.log@;
    // The ply limit keeps the search from outgrowing its tables.
    if ply as usize >= MAX_PLY {
        let r: i32 = plain_evaluate(board, cfg, Ghost(*net));
        proof {
            assert forall|l: Seq<Answer>| extends(l, state.log@) implies #[trigger] ab(
                env(*cfg, *net, l),
                p,
                depth as int,
                ply as int,
                alpha as int,
                beta as int,
                prev_move,
                excluded_move,
                r0,
            ) == (Out { score: r, pv: pv@, run: state@ }) by {
                assert(polled(env(*cfg, *net, l), r0) == (false, r1));
                assert(plain_eval(env(*cfg, *net, l), p) == r);
            }
        }
        return r;
    }
    if is_drawn(board, cfg.game_ply) {
        return -cfg.contempt;
    }
    let (a, b, settled) = mate_distance(alpha, beta, ply);
    if let Some(v) = settled {
        return v;
    }
    state.nodes = state.nodes.wrapping_add(1);
    let ghost r2 = state@;
    let in_check = is_checked(board);
    // In check a full ply is searched, so that no mate is missed.
    let r: i32 = if depth == 0 && !in_check {
        quiescence(board, ply, a, b, pv, state, cfg, net, host, true)
    } else {
        node_tables(board, depth, ply, a, b, pv, state, cfg, net, host, prev_move, excluded_move, in_check)
    };
    proof {
        assert forall|l: Seq<Answer>| extends(l, state.log@) implies #[trigger] ab(
            env(*cfg, *net, l),
            p,
            depth as int,
            ply as int,
            alpha as int,
            beta as int,
            prev_move,
            excluded_move,
            r0,
        ) == (Out { score: r, pv: pv@, run: state@ }) by {
            let e = env(*cfg, *net, l);
            assert(extends(l, mid));
            assert(polled(e, r0) == (false, r1));
            if depth == 0 && !in_check {
                assert(qs(e, p, ply as int, a as int, b as int, true, r2) == (Out { score: r, pv: pv@, run: state@ }));
            } else {
                assert(ab_tables(
                    e,
                    p,
                    depth as int,
                    ply as int,
                    a as int,
                    b as int,
                    prev_move,
                    excluded_move,
                    in_check,
                    r2,
                ) == (Out { score: r, pv: pv@, run: state@ }));
            }
        }
    }
    r
}

fn node_tables<H: Host>(
    board: &mut Board,
    depth: u8,
    ply: u8,
    alpha: i32,
    beta: i32,
    pv: &mut Vec<Move>,
    state: &mut SearchState,
    cfg: &Config,
    net: &NnueNetwork,
    host: &mut Witness<H>,
    prev_move: Move,
    excluded_move: Move,
    in_check: bool,
) -> (r: i32)
    requires
        in_step(*old(state), *old(host)),
        ready(*old(board), *old(state), *cfg, *net, ply as int),
        1 <= ply < 128,
        depth <= 128,
        -30_000 <= alpha < beta <= 30_000,
        in_check == checked(old(board)@),
        old(pv)@ == Seq::<Move>::empty(),
    ensures
        in_step(*final(state), *final(host)),
        kept(*old(board), *final(board), *old(state), *final(state), *cfg, *net, ply as int),
        score_ok(r as int),
        forall|l: Seq<Answer>|
            extends(l, final(state).log@) ==> #[trigger] ab_tables(
                env(*cfg, *net, l),
                old(board)@,
                depth as int,
                ply as int,
                alpha as int,
                beta as int,
                prev_move,
                excluded_move,
                in_check,
                old(state)@,
            ) == (Out { score: r, pv: final(pv)@, run: final(state)@ }),
    decreases 128 - ply, depth, 9int,
{
    let ghost p = board@;
    let ghost s0 = *state;
    let effective: u8 = if in_check && depth < 1 { 1 } else { depth };
    let is_pv = beta - alpha > 1;
    let mut a: i32 = alpha;
    let mut b: i32 = beta;
    let (asked, known) = ask_tables(board, excluded_move, state, cfg, Ghost(*net), host);
    let ghost s1 = *state;
    if let Some(wdl) = known {
        let score: i32 = wdl_to_score(wdl);
        let flag = match wdl {
            Wdl::Win | Wdl::CursedWin => TTFlag::LowerBound,
            Wdl::Loss | Wdl::BlessedLoss => TTFlag::UpperBound,
            Wdl::Draw => TTFlag::Exact,
        };
        state.store(board.hash, effective, score_to_tt(score, ply), flag, Move::null());
        if settles(flag, score, a, b) {
            proof {
                assert forall|l: Seq<Answer>| extends(l, state.log@) implies #[trigger] ab_tables(
                    env(*cfg, *net, l),
                    p,
                    depth as int,
                    ply as int,
                    alpha as int,
                    beta as int,
                    prev_move,
                    excluded_move,
                    in_check,
                    s0@,
                ) == (Out { score, pv: pv@, run: state@ }) by {
                    assert(tables_asked(env(*cfg, *net, l), p, excluded_move));
                    assert(l[s0.log@.len() as int] == s1.log@[s0.log@.len() as int]);
                }
            }
            return score;
        }
        if flag == TTFlag::LowerBound {
            if score > a {
                a = score;
            }
        } else if score < b {
            b = score;
        }
    }
    let ghost s2 = *state;
    let r: i32 = node_hash(board, depth, ply, a, b, pv, state, cfg, net, host, prev_move, excluded_move, in_check, is_pv);
    proof {
        assert forall|l: Seq<Answer>| extends(l, state.log@) implies #[trigger] ab_tables(
            env(*cfg, *net, l),
            p,
            depth as int,
            ply as int,
            alpha as int,
            beta as int,
            prev_move,
            excluded_move,
            in_check,
            s0@,
        ) == (Out { score: r, pv: pv@, run: state@ }) by {
            let e = env(*cfg, *net, l);
            assert(extends(l, s1.log@));
            assert(tables_asked(e, p, excluded_move) == asked);
            if asked {
                assert(l[s0.log@.len() as int] == s1.log@[s0.log@.len() as int]);
            }
            assert(ab_hash(
                e,
                p,
                depth as int,
                ply as int,
                a as int,
                b as int,
                prev_move,
                excluded_move,
                in_check,
                is_pv,
                s2@,
            ) == (Out { score: r, pv: pv@, run: state@ }));
        }
    }
    r
}

fn node_hash<H: Host>(
    board: &mut Board,
    depth: u8,
    ply: u8,
    alpha: i32,
    beta: i32,
    pv: &mut Vec<Move>,
    state: &mut SearchState,
    cfg: &Config,
    net: &NnueNetwork,
    host: &mut Witness<H>,
    prev_move: Move,
    excluded_move: Move,
    in_check: bool,
    is_pv: bool,
) -> (r: i32)
    requires
        in_step(*old(state), *old(host)),
        ready(*old(board), *old(state), *cfg, *net, ply as int),
        1 <= ply < 128,
        depth <= 128,
        -30_000 <= alpha < beta <= 30_000,
        in_check == checked(old(board)@),
        old(pv)@ == Seq::<Move>::empty(),
    ensures
        in_step(*final(state), *final(host)),
        kept(*old(board), *final(board), *old(state), *final(state), *cfg, *net, ply as int),
        score_ok(r as int),
        forall|l: Seq<Answer>|
            extends(l, final(state).log@) ==> #[trigger] ab_hash(
                env(*cfg, *net, l),
                old(board)@,
                depth as int,
                ply as int,
                alpha as int,
                beta as int,
                prev_move,
                excluded_move,
                in_check,
                is_pv,
                old(state)@,
            ) == (Out { score: r, pv: final(pv)@, run: final(state)@ }),
    decreases 128 - ply, depth, 8int,
{
    let ghost p = board@;
    let ghost s0 = *state;
    let effective: u8 = if in_check && depth < 1 { 1 } else { depth };
    let mut tt_move = Move::null();
    let mut tt_score: i32 = 0;
    let mut tt_depth: u8 = 0;
    let mut tt_flag = TTFlag::UpperBound;
    let mut found = false;
    if let Some(entry) = state.probe(board.hash) {
        found = true;
        tt_move = entry.best_move;
        tt_score = score_from_tt(entry.score, ply);
        tt_depth = entry.depth;
        tt_flag = entry.flag;
        if !is_pv && tt_depth >= effective && excluded_move.is_null() && settles(tt_flag, tt_score, alpha, beta) {
            return tt_score;
        }
    }
    let eval: i32 = if in_check {
        -1_073_741_824
    } else {
        let raw: i32 = evaluate_for_side(board, ply, state, cfg, net);
        // A stored search result is often better than the static evaluation.
        if found && -MATE_THRESHOLD < tt_score && tt_score < MATE_THRESHOLD && (tt_flag == TTFlag::Exact || (tt_flag
            == TTFlag::LowerBound && tt_score > raw) || (tt_flag == TTFlag::UpperBound && tt_score < raw)) {
            tt_score
        } else {
            raw
        }
    };
    let improving = !in_check && ply >= 2 && eval > state.static_evals[ply as usize - 2];
    state.static_evals.set(ply as usize, eval);
    let mating = alpha < -MATE_THRESHOLD || alpha > MATE_THRESHOLD || beta < -MATE_THRESHOLD || beta > MATE_THRESHOLD;
    let n = Node {
        depth,
        ply,
        alpha,
        beta,
        is_pv,
        in_check,
        effective,
        tt_move,
        tt_score,
        tt_depth,
        tt_flag,
        eval,
        improving,
        mating,
        prev: prev_move,
        excluded: excluded_move,
    };
    let ghost s1 = *state;
    proof {
        assert forall|l: Seq<Answer>| #[trigger] node_of(
            env(*cfg, *net, l),
            p,
            depth as int,
            ply as int,
            alpha as int,
            beta as int,
            prev_move,
            excluded_move,
            in_check,
            is_pv,
            s0@,
        ) == n by {
            if !in_check {
                let raw = static_eval(env(*cfg, *net, l), p, s0@, ply as int);
            }
        }
    }
    let r: i32 = node_search(board, &n, pv, state, cfg, net, host);
    proof {
        assert forall|l: Seq<Answer>| extends(l, state.log@) implies #[trigger] ab_hash(
            env(*cfg, *net, l),
            p,
            depth as int,
            ply as int,
            alpha as int,
            beta as int,
            prev_move,
            excluded_move,
            in_check,
            is_pv,
            s0@,
        ) == (Out { score: r, pv: pv@, run: state@ }) by {
            let e = env(*cfg, *net, l);
            assert(node_of(
                e,
                p,
                depth as int,
                ply as int,
                alpha as int,
                beta as int,
                prev_move,
                excluded_move,
                in_check,
                is_pv,
                s0@,
            ) == n);
            assert(ab_search(e, p, n, s1@) == (Out { score: r, pv: pv@, run: state@ }));
        }
    }
    r
}

fn node_search<H: Host>(
    board: &mut Board,
    n: &Node,
    pv: &mut Vec<Move>,
    state: &mut SearchState,
    cfg: &Config,
    net: &NnueNetwork,
    host: &mut Witness<H>,
) -> (r: i32)
    requires
        in_step(*old(state), *old(host)),
        ready(*old(board), *old(state), *cfg, *net, n.ply as int),
        node_ok(*n),
        n.in_check == checked(old(board)@),
        old(pv)@ == Seq::<Move>::empty(),
    ensures
        in_step(*final(state), *final(host)),
        kept(*old(board), *final(board), *old(state), *final(state), *cfg, *net, n.ply as int),
        score_ok(r as int),
        forall|l: Seq<Answer>|
            extends(l, final(state).log@) ==> #[trigger] ab_search(env(*cfg, *net, l), old(board)@, *n, old(state)@)
                == (Out { score: r, pv: final(pv)@, run: final(state)@ }),
    decreases 128 - n.ply, n.depth, 7int,
{
    let ghost p = board@;
    let ghost s0 = *state;
    if let Some(score) = node_cuts(board, n, pv, state, cfg, net, host) {
        proof {
            assert forall|l: Seq<Answer>| extends(l, state.log@) implies #[trigger] ab_search(
                env(*cfg, *net, l),
                p,
                *n,
                s0@,
            ) == (Out { score, pv: pv@, run: state@ }) by {
                assert(ab_cuts(env(*cfg, *net, l), p, *n, s0@) == Step::Done(Out { score, pv: pv@, run: state@ }));
            }
        }
        return score;
    }
    let ghost s1 = *state;
    let ghost pv1 = pv@;
    let r: i32 = node_moves(board, n, pv, state, cfg, net, host);
    proof {
        assert forall|l: Seq<Answer>| extends(l, state.log@) implies #[trigger] ab_search(
            env(*cfg, *net, l),
            p,
            *n,
            s0@,
        ) == (Out { score: r, pv: pv@, run: state@ }) by {
            let e = env(*cfg, *net, l);
            assert(extends(l, s1.log@));
            assert(ab_cuts(e, p, *n, s0@) == Step::Go(pv1, s1@));
            assert(moves_of(e, p, *n, pv1, s1@) == (Out { score: r, pv: pv@, run: state@ }));
        }
    }
    r
}


/// The cuts before the moves are searched.
fn node_cuts<H: Host>(
    board: &mut Board,
    n: &Node,
    pv: &mut Vec<Move>,
    state: &mut SearchState,
    cfg: &Config,
    net: &NnueNetwork,
    host: &mut Witness<H>,
) -> (r: Option<i32>)
    requires
        in_step(*old(state), *old(host)),
        ready(*old(board), *old(state), *cfg, *net, n.ply as int),
        node_ok(*n),
        old(pv)@ == Seq::<Move>::empty(),
    ensures
        in_step(*final(state), *final(host)),
        kept(*old(board), *final(board), *old(state), *final(state), *cfg, *net, n.ply as int),
        r is Some ==> score_ok(r->Some_0 as int),
        forall|l: Seq<Answer>|
            extends(l, final(state).log@) ==> #[trigger] ab_cuts(env(*cfg, *net, l), old(board)@, *n, old(state)@) == (
            if r is Some {
                Step::Done(Out { score: r->Some_0, pv: final(pv)@, run: final(state)@ })
            } else {
                Step::Go(final(pv)@, final(state)@)
            }),
    decreases 128 - n.ply, n.depth, 6int,
{
    let ghost p = board@;
    let ghost s0 = *state;
    if n.is_pv || n.in_check || !n.excluded.is_null() || n.mating {
        return None;
    }
    // Reverse futility: far above beta at low depth.
    if n.depth <= 6 {
        let per_depth: i32 = if n.improving { cfg.tune.rfp_margin_imp } else { cfg.tune.rfp_margin_noimp };
        proof {
            let d = n.depth as int;
            assert(-12_884_901_888 <= per_depth * d <= 12_884_901_888) by (nonlinear_arith)
                requires
                    -2_147_483_648 <= per_depth <= 2_147_483_647,
                    0 <= d <= 6,
            ;
        }
        let margin: i64 = per_depth as i64 * n.depth as i64;
        let score: i64 = n.eval as i64 - margin;
        if score >= n.beta as i64 {
            return Some(
                if score < 2_147_200_000 {
                    score as i32
                } else {
                    2_147_200_000
                },
            );
        }
    }
    if let Some(score) = node_null(board, n, state, cfg, net, host) {
        proof {
            assert forall|l: Seq<Answer>| extends(l, state.log@) implies #[trigger] ab_cuts(
                env(*cfg, *net, l),
                p,
                *n,
                s0@,
            ) == Step::Done(Out { score, pv: pv@, run: state@ }) by {
                let e = env(*cfg, *net, l);
                assert(ab_null(e, p, *n, s0@) == Step::Done(Out { score, pv: Seq::empty(), run: state@ }));
            }
        }
        return Some(score);
    }
    let ghost s1 = *state;
    if let Some(score) = node_probcut(board, n, state, cfg, net, host) {
        proof {
            assert forall|l: Seq<Answer>| extends(l, state.log@) implies #[trigger] ab_cuts(
                env(*cfg, *net, l),
                p,
                *n,
                s0@,
            ) == Step::Done(Out { score, pv: pv@, run: state@ }) by {
                let e = env(*cfg, *net, l);
                assert(extends(l, s1.log@));
                assert(ab_null(e, p, *n, s0@) == Step::Go(Seq::empty(), s1@));
                assert(ab_probcut(e, p, *n, tactical_moves(p), 0, s1@) == Step::Done(
                    Out { score, pv: Seq::empty(), run: state@ },
                ));
            }
        }
        return Some(score);
    }
    let ghost s2 = *state;
    let r = node_razor(board, n, pv, state, cfg, net, host);
    proof {
        assert forall|l: Seq<Answer>| extends(l, state.log@) implies #[trigger] ab_cuts(
            env(*cfg, *net, l),
            p,
            *n,
            s0@,
        ) == (if r is Some {
            Step::Done(Out { score: r->Some_0, pv: pv@, run: state@ })
        } else {
            Step::Go(pv@, state@)
        }) by {
            let e = env(*cfg, *net, l);
            assert(extends(l, s2.log@));
            assert(extends(l, s1.log@));
            assert(ab_null(e, p, *n, s0@) == Step::Go(Seq::empty(), s1@));
            assert(ab_probcut(e, p, *n, tactical_moves(p), 0, s1@) == Step::Go(Seq::empty(), s2@));
            assert(ab_razor(e, p, *n, s2@) == (if r is Some {
                Step::Done(Out { score: r->Some_0, pv: pv@, run: state@ })
            } else {
                Step::Go(pv@, state@)
            }));
        }
    }
    r
}

/// Null move pruning.
fn node_null<H: Host>(
    board: &mut Board,
    n: &Node,
    state: &mut SearchState,
    cfg: &Config,
    net: &NnueNetwork,
    host: &mut Witness<H>,
) -> (r: Option<i32>)
    requires
        in_step(*old(state), *old(host)),
        ready(*old(board), *old(state), *cfg, *net, n.ply as int),
        node_ok(*n),
    ensures
        in_step(*final(state), *final(host)),
        kept(*old(board), *final(board), *old(state), *final(state), *cfg, *net, n.ply as int),
        r is Some ==> score_ok(r->Some_0 as int),
        forall|l: Seq<Answer>|
            extends(l, final(state).log@) ==> #[trigger] ab_null(env(*cfg, *net, l), old(board)@, *n, old(state)@) == (
            if r is Some {
                Step::Done(Out { score: r->Some_0, pv: Seq::empty(), run: final(state)@ })
            } else {
                Step::Go(Seq::empty(), final(state)@)
            }),
    decreases 128 - n.ply, n.depth, 5int,
{
    let ghost p = board@;
    let ghost s0 = *state;
    if n.depth < 3 || n.eval < n.beta || !has_non_pawn_material(board) {
        return None;
    }
    let above: i32 = (n.eval - n.beta) / 200;
    let reduction: u8 = 3 + n.depth / 4 + if above < 3 { above as u8 } else { 3 };
    let depth: u8 = if n.depth > 1 + reduction { n.depth - 1 - reduction } else { 0 };
    let en_passant = board.en_passant;
    let hash: u64 = board.hash;
    make_null(board);
    if cfg.use_nnue && n.ply as usize + 1 < MAX_PLY {
        let mut child = state.accumulators[n.ply as usize + 1].copied();
        update_accumulator_for_null_move(
            &state.accumulators[n.ply as usize],
            &mut child,
            net,
            board,
            en_passant,
            Ghost(p),
        );
        state.accumulators.set(n.ply as usize + 1, child);
    }
    let ghost s1 = *state;
    proof {
        assert(s1@ == s0@);
    }
    let mut null_pv: Vec<Move> = Vec::new();
    let score: i32 = alpha_beta(
        board,
        depth,
        n.ply + 1,
        -n.beta,
        -n.beta + 1,
        &mut null_pv,
        state,
        cfg,
        net,
        host,
        Move::null(),
        Move::null(),
    );
    take_back_null(board, en_passant, hash, Ghost(p));
    proof {
        lemma_child_keeps(s0, s1, *state, *cfg, *net, p, n.ply as int);
        assert forall|l: Seq<Answer>| extends(l, state.log@) implies #[trigger] ab_null(
            env(*cfg, *net, l),
            p,
            *n,
            s0@,
        ) == (if -score >= n.beta {
            Step::Done(Out { score: n.beta, pv: Seq::empty(), run: state@ })
        } else {
            Step::Go(Seq::empty(), state@)
        }) by {
            let e = env(*cfg, *net, l);
            assert(ab(e, passed(p), depth as int, n.ply + 1, -n.beta, -n.beta + 1, Move(0), Move(0), s0@) == (Out {
                score,
                pv: null_pv@,
                run: state@,
            }));
        }
    }
    if -score >= n.beta {
        Some(n.beta)
    } else {
        None
    }
}

/// Razoring.
fn node_razor<H: Host>(
    board: &mut Board,
    n: &Node,
    pv: &mut Vec<Move>,
    state: &mut SearchState,
    cfg: &Config,
    net: &NnueNetwork,
    host: &mut Witness<H>,
) -> (r: Option<i32>)
    requires
        in_step(*old(state), *old(host)),
        ready(*old(board), *old(state), *cfg, *net, n.ply as int),
        node_ok(*n),
        old(pv)@ == Seq::<Move>::empty(),
    ensures
        in_step(*final(state), *final(host)),
        kept(*old(board), *final(board), *old(state), *final(state), *cfg, *net, n.ply as int),
        r is Some ==> score_ok(r->Some_0 as int),
        forall|l: Seq<Answer>|
            extends(l, final(state).log@) ==> #[trigger] ab_razor(env(*cfg, *net, l), old(board)@, *n, old(state)@) == (
            if r is Some {
                Step::Done(Out { score: r->Some_0, pv: final(pv)@, run: final(state)@ })
            } else {
                Step::Go(final(pv)@, final(state)@)
            }),
{
    let ghost p = board@;
    let ghost s0 = *state;
    proof {
        reveal(ab_razor);
    }
    if n.depth > 3 || n.eval + 300 + 200 * n.depth as i32 > n.alpha {
        return None;
    }
    let score: i32 = quiescence(board, n.ply, n.alpha, n.beta, pv, state, cfg, net, host, true);
    proof {
        assert forall|l: Seq<Answer>| extends(l, state.log@) implies #[trigger] ab_razor(
            env(*cfg, *net, l),
            p,
            *n,
            s0@,
        ) == (if score <= n.alpha {
            Step::Done(Out { score, pv: pv@, run: state@ })
        } else {
            Step::Go(pv@, state@)
        }) by {
            let e = env(*cfg, *net, l);
            assert(qs(e, p, n.ply as int, n.alpha as int, n.beta as int, true, s0@) == (Out {
                score,
                pv: pv@,
                run: state@,
            }));
        }
    }
    if score <= n.alpha {
        Some(score)
    } else {
        None
    }
}

/// Searches a capture that was made: quiescence, then a shallow search.
fn probe_capture<H: Host>(
    board: &mut Board,
    n: &Node,
    m: Move,
    state: &mut SearchState,
    cfg: &Config,
    net: &NnueNetwork,
    host: &mut Witness<H>,
) -> (r: i32)
    requires
        in_step(*old(state), *old(host)),
        ready(*old(board), *old(state), *cfg, *net, n.ply + 1),
        node_ok(*n),
        n.depth >= 5,
    ensures
        in_step(*final(state), *final(host)),
        kept(*old(board), *final(board), *old(state), *final(state), *cfg, *net, n.ply + 1),
        score_ok(r as int),
        forall|l: Seq<Answer>|
            extends(l, final(state).log@) ==> (#[trigger] ab_probe(env(*cfg, *net, l), old(board)@, *n, m, old(state)@)).score
                == -r && ab_probe(env(*cfg, *net, l), old(board)@, *n, m, old(state)@).run == final(state)@,
    decreases 128 - n.ply, n.depth, 3int,
{
    let ghost p = board@;
    let ghost s0 = *state;
    let goal: i32 = n.beta + 200;
    let mut pv: Vec<Move> = Vec::new();
    let shallow: i32 = quiescence(board, n.ply + 1, -goal, -goal + 1, &mut pv, state, cfg, net, host, true);
    let ghost s1 = *state;
    let ghost pv1 = pv@;
    if -shallow < goal {
        proof {
            assert forall|l: Seq<Answer>| extends(l, state.log@) implies (#[trigger] ab_probe(
                env(*cfg, *net, l),
                p,
                *n,
                m,
                s0@,
            )) == (Out { score: shallow, pv: pv1, run: state@ }) by {
                let e = env(*cfg, *net, l);
                assert(qs(e, p, n.ply + 1, -goal, -goal + 1, true, s0@) == (Out { score: shallow, pv: pv1, run: s1@ }));
            }
        }
        return -shallow;
    }
    let score: i32 = alpha_beta(
        board,
        n.depth - 4,
        n.ply + 1,
        -goal,
        -goal + 1,
        &mut pv,
        state,
        cfg,
        net,
        host,
        m,
        Move::null(),
    );
    proof {
        assert forall|l: Seq<Answer>| extends(l, state.log@) implies (#[trigger] ab_probe(
            env(*cfg, *net, l),
            p,
            *n,
            m,
            s0@,
        )) == (Out { score, pv: pv@, run: state@ }) by {
            let e = env(*cfg, *net, l);
            assert(extends(l, s1.log@));
            assert(qs(e, p, n.ply + 1, -goal, -goal + 1, true, s0@) == (Out { score: shallow, pv: pv1, run: s1@ }));
            assert(ab(e, p, n.depth - 4, n.ply + 1, -goal, -goal + 1, m, Move(0), s1@) == (Out {
                score,
                pv: pv@,
                run: state@,
            }));
        }
    }
    -score
}

/// Probing captures.
fn node_probcut<H: Host>(
    board: &mut Board,
    n: &Node,
    state: &mut SearchState,
    cfg: &Config,
    net: &NnueNetwork,
    host: &mut Witness<H>,
) -> (r: Option<i32>)
    requires
        in_step(*old(state), *old(host)),
        ready(*old(board), *old(state), *cfg, *net, n.ply as int),
        node_ok(*n),
    ensures
        in_step(*final(state), *final(host)),
        kept(*old(board), *final(board), *old(state), *final(state), *cfg, *net, n.ply as int),
        r is Some ==> score_ok(r->Some_0 as int),
        forall|l: Seq<Answer>|
            extends(l, final(state).log@) ==> #[trigger] ab_probcut(
                env(*cfg, *net, l),
                old(board)@,
                *n,
                tactical_moves(old(board)@),
                0,
                old(state)@,
            ) == (if r is Some {
                Step::Done(Out { score: r->Some_0, pv: Seq::empty(), run: final(state)@ })
            } else {
                Step::Go(Seq::empty(), final(state)@)
            }),
    decreases 128 - n.ply, n.depth, 4int,
{
    let ghost p = board@;
    let ghost s0 = *state;
    let goal: i32 = n.beta + 200;
    if n.depth < 5 || n.eval < goal - 100 {
        return None;
    }
    let captures = generate_pseudo_legal_captures(board);
    let ghost list = captures@;
    let mut i: usize = 0;
    while i < captures.len()
        invariant
            in_step(*state, *host),
            p == board@,
            p == old(board)@,
            s0 == *old(state),
            captures@ == list,
            list == tactical_moves(p),
            i <= list.len(),
            node_ok(*n),
            goal == n.beta + 200,
            n.depth >= 5,
            n.eval >= goal - 100,
            ready(*board, *state, *cfg, *net, n.ply as int),
            state.keeps_below(&s0, n.ply as int),
            extends(state.log@, s0.log@),
            forall|l: Seq<Answer>|
                extends(l, state.log@) ==> #[trigger] ab_probcut(env(*cfg, *net, l), p, *n, list, 0, s0@) == ab_probcut(
                    env(*cfg, *net, l),
                    p,
                    *n,
                    list,
                    i as int,
                    state@,
                ),
        decreases list.len() - i,
    {
        let m = captures.get(i);
        let ghost s1 = *state;
        let ghost r1 = state@;
        let mut outcome: Option<i32> = None;
        if exchange_at_least(board, m, (goal - n.eval) as i64) {
            store_ply_context(state, n.ply, m, board);
            if let Some(undo) = make_legal(board, m, Ghost(129 - n.ply)) {
                advance_accumulator(state, cfg, net, board, m, undo, n.ply, Ghost(p));
                state.nodes = state.nodes.wrapping_add(1);
                let ghost s2 = *state;
                let score: i32 = probe_capture(board, n, m, state, cfg, net, host);
                take_back(board, m, undo, Ghost(p));
                proof {
                    lemma_child_keeps(s1, s2, *state, *cfg, *net, p, n.ply as int);
                    assert(s2@ == noted(r1, n.ply as int, m, p).counted());
                }
                outcome = Some(score);
                if score >= goal {
                    let ghost s3 = *state;
                    state.store(board.hash, n.depth, score_to_tt(score, n.ply), TTFlag::LowerBound, m);
                    proof {
                        assert forall|l: Seq<Answer>| extends(l, state.log@) implies #[trigger] ab_probcut(
                            env(*cfg, *net, l),
                            p,
                            *n,
                            list,
                            0,
                            s0@,
                        ) == Step::Done(Out { score, pv: Seq::empty(), run: state@ }) by {
                            let e = env(*cfg, *net, l);
                            assert(extends(l, s1.log@));
                            let child = ab_probe(e, played(p, m), *n, m, s2@);
                            assert(child.score == -score && child.run == s3@);
                        }
                    }
                    return Some(score);
                }
            }
        }
        i = i + 1;
        proof {
            assert forall|l: Seq<Answer>| extends(l, state.log@) implies #[trigger] ab_probcut(
                env(*cfg, *net, l),
                p,
                *n,
                list,
                0,
                s0@,
            ) == ab_probcut(env(*cfg, *net, l), p, *n, list, i as int, state@) by {
                let e = env(*cfg, *net, l);
                assert(extends(l, s1.log@));
                if outcome is Some {
                    let child = ab_probe(e, played(p, m), *n, m, noted(r1, n.ply as int, m, p).counted());
                    assert(child.score == -outcome->Some_0 && child.run == state@);
                }
            }
        }
    }
    None
}

/// Whether the hash move is singular.
fn test_singular<H: Host>(
    board: &mut Board,
    n: &Node,
    alpha: i32,
    searched: u32,
    m: Move,
    state: &mut SearchState,
    cfg: &Config,
    net: &NnueNetwork,
    host: &mut Witness<H>,
    Ghost(s): Ghost<Moves>,
) -> (r: bool)
    requires
        in_step(*old(state), *old(host)),
        ready(*old(board), *old(state), *cfg, *net, n.ply as int),
        node_ok(*n),
        -30_000 <= alpha <= 30_000,
        s.alpha == alpha,
        s.searched == searched,
        s.run == old(state)@,
    ensures
        in_step(*final(state), *final(host)),
        kept(*old(board), *final(board), *old(state), *final(state), *cfg, *net, n.ply as int),
        forall|l: Seq<Answer>|
            extends(l, final(state).log@) ==> #[trigger] ab_singular(env(*cfg, *net, l), old(board)@, *n, s, m) == (
                r,
                final(state)@,
            ),
    decreases 128 - n.ply, n.depth, 1int,
{
    proof {
        reveal(tests_singular);
    }
    let ghost p = board@;
    let ghost s0 = *state;
    let mode: u8 = cfg.singular_ext_mode;
    let candidate = !n.in_check && searched == 0 && m == n.tt_move && !n.tt_move.is_null() && n.excluded.is_null()
        && -MATE_THRESHOLD < n.tt_score && n.tt_score < MATE_THRESHOLD;
    let conservative = mode == 1 && !n.is_pv && n.depth >= 8 && n.tt_depth as i32 >= n.depth as i32 - 2 && n.tt_flag
        == TTFlag::LowerBound && n.tt_score >= alpha + 50;
    let aggressive = mode >= 2 && n.depth >= 7 && n.tt_depth as i32 >= n.depth as i32 - 3 && n.tt_flag
        != TTFlag::UpperBound && n.tt_score >= alpha + 30;
    if !(candidate && (conservative || aggressive)) {
        return false;
    }
    let goal: i32 = n.tt_score - 2 * n.depth as i32;
    let mut pv: Vec<Move> = Vec::new();
    let score: i32 = alpha_beta(
        board,
        (n.depth - 1) / 2,
        n.ply,
        goal - 1,
        goal,
        &mut pv,
        state,
        cfg,
        net,
        host,
        n.prev,
        m,
    );
    proof {
        assert forall|l: Seq<Answer>| extends(l, state.log@) implies #[trigger] ab_singular(
            env(*cfg, *net, l),
            p,
            *n,
            s,
            m,
        ) == (score < goal, state@) by {
            let e = env(*cfg, *net, l);
            assert(ab(e, p, (n.depth - 1) / 2, n.ply as int, goal - 1, goal as int, n.prev, m, s0@) == (Out {
                score,
                pv: pv@,
                run: state@,
            }));
        }
    }
    score < goal
}

/// Whether a move is pruned before it is made.
fn prunes_by_exchange(
    board: &Board,
    n: &Node,
    searched: u32,
    m: Move,
    cfg: &Config,
    net: Ghost<NnueNetwork>,
    Ghost(s): Ghost<Moves>,
) -> (r: bool)
    requires
        board@.consistent(),
        cfg.ok(),
        s.searched == searched,
    ensures
        forall|l: Seq<Answer>| r == #[trigger] pruned_by_exchange(env(*cfg, net@, l), board@, *n, s, m),
{
    proof {
        reveal(pruned_by_exchange);
    }
    if searched == 0 || n.is_pv || n.in_check {
        return false;
    }
    if n.depth <= 7 && m.is_capture() {
        return !exchange_at_least(board, m, -30 * n.depth as i64);
    }
    if n.depth <= 5 && !m.is_capture() && !m.is_promotion() {
        let per_depth: i32 = cfg.tune.see_quiet_margin;
        proof {
            let d = n.depth as int;
            assert(-10_737_418_240 <= (-per_depth) * d <= 10_737_418_240) by (nonlinear_arith)
                requires
                    -2_147_483_648 <= per_depth <= 2_147_483_647,
                    0 <= d <= 5,
            ;
        }
        return !exchange_at_least(board, m, -(per_depth as i64) * n.depth as i64);
    }
    false
}

/// Whether a move is pruned once it is made. The board shows the position
/// after it.
fn prunes_late(
    board: &Board,
    n: &Node,
    alpha: i32,
    searched: u32,
    m: Move,
    gives_check: bool,
    state: &SearchState,
    cfg: &Config,
    net: Ghost<NnueNetwork>,
    Ghost(p): Ghost<Position>,
    Ghost(s): Ghost<Moves>,
) -> (r: bool)
    requires
        node_ok(*n),
        cfg.ok(),
        state.ok(),
        board@ == played(p, m),
        gives_check == checked(board@),
        s.searched == searched,
        s.alpha == alpha,
    ensures
        forall|l: Seq<Answer>| r == #[trigger] pruned_late(env(*cfg, net@, l), p, *n, s, m, state@),
{
    proof {
        reveal(pruned_late);
    }
    if searched == 0 || n.is_pv || n.in_check || gives_check || m.is_capture() || m.is_promotion() || n.mating {
        return false;
    }
    let depth: i32 = n.depth as i32;
    if n.depth <= 5 {
        let per_depth: i32 = if n.improving { cfg.tune.fut_margin_imp } else { cfg.tune.fut_margin_noimp };
        proof {
            assert(-10_737_418_240 <= per_depth * depth <= 10_737_418_240) by (nonlinear_arith)
                requires
                    -2_147_483_648 <= per_depth <= 2_147_483_647,
                    0 <= depth <= 5,
            ;
        }
        let margin: i64 = per_depth as i64 * depth as i64 + 50;
        if n.eval as i64 + margin <= alpha as i64 {
            return true;
        }
    }
    if n.depth <= 6 {
        proof {
            assert(0 <= depth * depth <= 36) by (nonlinear_arith)
                requires
                    0 <= depth <= 6,
            ;
        }
        let most: u32 = 3 + (depth * depth) as u32;
        let count: u32 = if n.improving { most } else { most / 2 };
        if searched >= count {
            return true;
        }
    }
    if n.depth <= 4 {
        let least: i32 = 3000 * n.depth as i32;
        return worth_of(state, board, m, n.ply) < -least;
    }
    false
}

/// The late move reduction. The board shows the position after the move.
fn late_reduction(
    board: &Board,
    n: &Node,
    k: (Move, Move, Move),
    alpha: i32,
    searched: u32,
    m: Move,
    depth: u8,
    state: &SearchState,
    cfg: &Config,
    net: Ghost<NnueNetwork>,
    Ghost(p): Ghost<Position>,
    Ghost(s): Ghost<Moves>,
) -> (r: u8)
    requires
        node_ok(*n),
        cfg.ok(),
        state.ok(),
        depth <= 128,
        -30_000 <= alpha <= 30_000,
        board@ == played(p, m),
        s.searched == searched,
        s.alpha == alpha,
    ensures
        forall|l: Seq<Answer>|
            r == #[trigger] reduction(env(*cfg, net@, l), p, *n, k, s, m, state@, depth as int),
        r <= depth,
{
    proof {
        reveal(reduction);
    }
    let d: usize = if n.depth < 63 { n.depth as usize } else { 63 };
    let ms: usize = if searched < 63 { searched as usize } else { 63 };
    let base: i32 = signed(cfg.lmr_table[d * 64 + ms] as i32);
    let by_worth: i32 = signed(quotient_of(worth_of(state, board, m, n.ply), cfg.tune.hist_lmr_div));
    let history: i32 = history_score_of(state, m);
    let x: i32 = sum_reduction(n, k, alpha, m, base, by_worth, history);
    let most: i32 = if depth > 1 { depth as i32 - 1 } else { 0 };
    if x < 0 {
        0
    } else if x > most {
        most as u8
    } else {
        x as u8
    }
}

fn sum_reduction(n: &Node, k: (Move, Move, Move), alpha: i32, m: Move, base: i32, by_worth: i32, history: i32) -> (r: i32)
    requires
        node_ok(*n),
        -128 <= base <= 127,
        -128 <= by_worth <= 127,
    ensures
        r == raw_reduction(*n, k, alpha as int, m, base as int, by_worth as int, history as int),
        -300 <= r <= 300,
{
    let mut x: i32 = base;
    if n.is_pv {
        x = x - 1;
    } else {
        x = x + 1;
    }
    if m == k.0 || m == k.1 || m == k.2 {
        x = x - 1;
    }
    if !n.improving {
        x = x + 1;
    }
    x = x - by_worth;
    if history < -4000 {
        x = x + 1;
    }
    if !n.is_pv && n.eval + 150 < alpha {
        x = x + 1;
    }
    x
}

/// Searches a move that was made with a null window, and with the full window
/// if need be.
pub fn verify_child<H: Host>(
    board: &mut Board,
    depth: u8,
    ply: u8,
    alpha: i32,
    beta: i32,
    m: Move,
    child_pv: &mut Vec<Move>,
    state: &mut SearchState,
    cfg: &Config,
    net: &NnueNetwork,
    host: &mut Witness<H>,
) -> (r: i32)
    requires
        in_step(*old(state), *old(host)),
        ready(*old(board), *old(state), *cfg, *net, ply + 1),
        ply < 128,
        depth <= 128,
        score_ok(alpha as int),
        alpha < beta,
    ensures
        in_step(*final(state), *final(host)),
        kept(*old(board), *final(board), *old(state), *final(state), *cfg, *net, ply + 1),
        score_ok(r as int),
        forall|l: Seq<Answer>|
            extends(l, final(state).log@) ==> #[trigger] ab_verify(
                env(*cfg, *net, l),
                old(board)@,
                depth as int,
                ply as int,
                alpha as int,
                beta as int,
                m,
                old(state)@,
            ) == (Out { score: (-r) as i32, pv: final(child_pv)@, run: final(state)@ }),
    decreases 128 - ply, 0int, 0int,
{
    let ghost p = board@;
    let ghost s0 = *state;
    let score: i32 = alpha_beta(
        board,
        depth,
        ply + 1,
        -alpha - 1,
        -alpha,
        child_pv,
        state,
        cfg,
        net,
        host,
        m,
        Move::null(),
    );
    let ghost s1 = *state;
    let ghost pv1 = child_pv@;
    if !(-score > alpha && -score < beta) {
        proof {
            assert forall|l: Seq<Answer>| extends(l, state.log@) implies #[trigger] ab_verify(
                env(*cfg, *net, l),
                p,
                depth as int,
                ply as int,
                alpha as int,
                beta as int,
                m,
                s0@,
            ) == (Out { score, pv: child_pv@, run: state@ }) by {
                let e = env(*cfg, *net, l);
                assert(ab(e, p, depth as int, ply + 1, -alpha - 1, -alpha as int, m, Move(0), s0@) == (Out {
                    score,
                    pv: pv1,
                    run: s1@,
                }));
            }
        }
        return -score;
    }
    let full: i32 = alpha_beta(
        board,
        depth,
        ply + 1,
        -beta,
        -alpha,
        child_pv,
        state,
        cfg,
        net,
        host,
        m,
        Move::null(),
    );
    proof {
        assert forall|l: Seq<Answer>| extends(l, state.log@) implies #[trigger] ab_verify(
            env(*cfg, *net, l),
            p,
            depth as int,
            ply as int,
            alpha as int,
            beta as int,
            m,
            s0@,
        ) == (Out { score: full, pv: child_pv@, run: state@ }) by {
            let e = env(*cfg, *net, l);
            assert(extends(l, s1.log@));
            assert(ab(e, p, depth as int, ply + 1, -alpha - 1, -alpha as int, m, Move(0), s0@) == (Out {
                score,
                pv: pv1,
                run: s1@,
            }));
            assert(ab(e, p, depth as int, ply + 1, -beta as int, -alpha as int, m, Move(0), s1@) == (Out {
                score: full,
                pv: child_pv@,
                run: state@,
            }));
        }
    }
    -full
}

/// Searches a move that was made: the first with the full window, later ones
/// reduced and with a null window first.
fn search_child<H: Host>(
    board: &mut Board,
    n: &Node,
    k: (Move, Move, Move),
    alpha: i32,
    searched: u32,
    m: Move,
    depth: u8,
    gives_check: bool,
    child_pv: &mut Vec<Move>,
    state: &mut SearchState,
    cfg: &Config,
    net: &NnueNetwork,
    host: &mut Witness<H>,
    Ghost(p): Ghost<Position>,
    Ghost(s): Ghost<Moves>,
) -> (r: i32)
    requires
        in_step(*old(state), *old(host)),
        ready(*old(board), *old(state), *cfg, *net, n.ply + 1),
        node_ok(*n),
        depth <= 128,
        -30_000 <= alpha < n.beta,
        old(board)@ == played(p, m),
        gives_check == checked(old(board)@),
        s.alpha == alpha,
        s.searched == searched,
    ensures
        in_step(*final(state), *final(host)),
        kept(*old(board), *final(board), *old(state), *final(state), *cfg, *net, n.ply + 1),
        score_ok(r as int),
        forall|l: Seq<Answer>|
            extends(l, final(state).log@) ==> #[trigger] ab_child(
                env(*cfg, *net, l),
                p,
                *n,
                k,
                s,
                m,
                depth as int,
                old(state)@,
            ) == (Out { score: (-r) as i32, pv: final(child_pv)@, run: final(state)@ }),
    decreases 128 - n.ply, n.depth, 1int,
{
    let ghost q = board@;
    let ghost s0 = *state;
    if searched == 0 {
        let score: i32 = alpha_beta(
            board,
            depth,
            n.ply + 1,
            -n.beta,
            -alpha,
            child_pv,
            state,
            cfg,
            net,
            host,
            m,
            Move::null(),
        );
        proof {
            assert forall|l: Seq<Answer>| extends(l, state.log@) implies #[trigger] ab_child(
                env(*cfg, *net, l),
                p,
                *n,
                k,
                s,
                m,
                depth as int,
                s0@,
            ) == (Out { score, pv: child_pv@, run: state@ }) by {
                let e = env(*cfg, *net, l);
                assert(ab(e, q, depth as int, n.ply + 1, -n.beta as int, -alpha as int, m, Move(0), s0@) == (Out {
                    score,
                    pv: child_pv@,
                    run: state@,
                }));
            }
        }
        return -score;
    }
    let reduce = searched >= 2 && n.depth >= 3 && !n.in_check && !gives_check && !m.is_capture() && !m.is_promotion();
    let ghost mut out1 = Out { score: 0, pv: Seq::empty(), run: s0@ };
    let ghost mut less: int = 0;
    if reduce {
        let by: u8 = late_reduction(board, n, k, alpha, searched, m, depth, state, cfg, Ghost(*net), Ghost(p), Ghost(s));
        proof {
            less = depth - by;
        }
        let score: i32 = alpha_beta(
            board,
            depth - by,
            n.ply + 1,
            -alpha - 1,
            -alpha,
            child_pv,
            state,
            cfg,
            net,
            host,
            m,
            Move::null(),
        );
        proof {
            out1 = Out { score, pv: child_pv@, run: state@ };
        }
        if -score <= alpha {
            proof {
                assert forall|l: Seq<Answer>| extends(l, state.log@) implies #[trigger] ab_child(
                    env(*cfg, *net, l),
                    p,
                    *n,
                    k,
                    s,
                    m,
                    depth as int,
                    s0@,
                ) == out1 by {
                    let e = env(*cfg, *net, l);
                    assert(reduction(e, p, *n, k, s, m, s0@, depth as int) == by);
                    assert(ab(e, q, less, n.ply + 1, -alpha - 1, -alpha as int, m, Move(0), s0@) == out1);
                }
            }
            return -score;
        }
    }
    let ghost s1 = *state;
    let r: i32 = verify_child(board, depth, n.ply, alpha, n.beta, m, child_pv, state, cfg, net, host);
    proof {
        assert forall|l: Seq<Answer>| extends(l, state.log@) implies #[trigger] ab_child(
            env(*cfg, *net, l),
            p,
            *n,
            k,
            s,
            m,
            depth as int,
            s0@,
        ) == (Out { score: (-r) as i32, pv: child_pv@, run: state@ }) by {
            let e = env(*cfg, *net, l);
            assert(extends(l, s1.log@));
            if reduce {
                assert(reduction(e, p, *n, k, s, m, s0@, depth as int) == depth - less);
                assert(ab(e, q, less, n.ply + 1, -alpha - 1, -alpha as int, m, Move(0), s0@) == out1);
            }
            assert(ab_verify(e, q, depth as int, n.ply as int, alpha as int, n.beta as int, m, s1@) == (Out {
                score: (-r) as i32,
                pv: child_pv@,
                run: state@,
            }));
        }
    }
    r
}

/// The moves are through.
fn node_finish(
    board: &Board,
    n: &Node,
    alpha: i32,
    best: i32,
    best_move: Move,
    flag: TTFlag,
    searched: u32,
    state: &mut SearchState,
    Ghost(s): Ghost<Moves>,
) -> (r: i32)
    requires
        old(state).ok(),
        node_ok(*n),
        score_ok(alpha as int),
        searched != 0 ==> score_ok(best as int),
        s.alpha == alpha && s.best == best && s.best_move == best_move && s.flag == flag && s.searched == searched,
        s.run == old(state)@,
    ensures
        final(state).ok(),
        final(state).log == old(state).log,
        final(state).accumulators == old(state).accumulators,
        score_ok(r as int),
        ab_end(board@, *n, s) == (Out { score: r, pv: s.pv, run: final(state)@ }),
{
    proof {
        reveal(ab_end);
    }
    if searched == 0 {
        if !n.excluded.is_null() {
            return alpha;
        }
        return if n.in_check {
            -Score::MATE + n.ply as i32
        } else {
            Score::DRAW
        };
    }
    if n.excluded.is_null() {
        let agrees = match flag {
            TTFlag::Exact => true,
            TTFlag::LowerBound => best >= n.eval,
            TTFlag::UpperBound => best <= n.eval,
        };
        if !n.in_check && !best_move.is_null() && !best_move.is_capture() && best < MATE_THRESHOLD && best
            > -MATE_THRESHOLD && agrees {
            correct(state, board, n, best);
        }
        state.store(board.hash, n.effective, score_to_tt(best, n.ply), flag, best_move);
    }
    best
}

/// The killers of a ply and the noted reply to the last move.
fn favourites_of(n: &Node, state: &SearchState) -> (r: (Move, Move, Move))
    requires
        state.ok(),
        n.ply < 128,
    ensures
        r == favourites(*n, state@),
{
    proof {
        reveal(favourites);
    }
    let pair = state.killers[n.ply as usize];
    (pair.0, pair.1, state.tables.get_counter_move(n.prev))
}

/// Remembers a searched move.
fn remember(m: Move, quiets: &mut Vec<Move>, captures: &mut Vec<Move>, Ghost(s): Ghost<Moves>)
    requires
        s.quiets == old(quiets)@,
        s.captures == old(captures)@,
    ensures
        final(quiets)@ == remembered(s, m).quiets,
        final(captures)@ == remembered(s, m).captures,
{
    if !m.is_capture() && !m.is_promotion() && quiets.len() < 128 {
        quiets.push(m);
    } else if m.is_capture() && captures.len() < 128 {
        captures.push(m);
    }
}

/// The search among the moves of a node, in the order of a picker.
#[verifier::rlimit(60)]
fn node_moves<H: Host>(
    board: &mut Board,
    n: &Node,
    pv: &mut Vec<Move>,
    state: &mut SearchState,
    cfg: &Config,
    net: &NnueNetwork,
    host: &mut Witness<H>,
) -> (r: i32)
    requires
        in_step(*old(state), *old(host)),
        ready(*old(board), *old(state), *cfg, *net, n.ply as int),
        node_ok(*n),
        n.in_check == checked(old(board)@),
    ensures
        in_step(*final(state), *final(host)),
        kept(*old(board), *final(board), *old(state), *final(state), *cfg, *net, n.ply as int),
        score_ok(r as int),
        forall|l: Seq<Answer>|
            extends(l, final(state).log@) ==> #[trigger] moves_of(
                env(*cfg, *net, l),
                old(board)@,
                *n,
                old(pv)@,
                old(state)@,
            ) == (Out { score: r, pv: final(pv)@, run: final(state)@ }),
    decreases 128 - n.ply, n.depth, 6int,
{
    let ghost p = board@;
    let ghost s0 = *state;
    let k = favourites_of(n, state);
    let mut picker = MovePicker::new(n.tt_move);
    let ghost pk0 = picker@;
    let ghost start = no_moves(*n, pv@, state@);
    let mut alpha: i32 = n.alpha;
    let mut best: i32 = Score::NEG_INF;
    let mut best_move = Move::null();
    let mut flag = TTFlag::UpperBound;
    let mut searched: u32 = 0;
    let mut quiets: Vec<Move> = Vec::new();
    let mut captures: Vec<Move> = Vec::new();
    let mut child_pv: Vec<Move> = Vec::new();
    proof {
        assert(quiets@ =~= Seq::<Move>::empty());
        assert(captures@ =~= Seq::<Move>::empty());
        assert(start == (Moves { alpha, best, best_move, flag, searched, quiets: quiets@, captures: captures@, pv: pv@, run: state@ }));
    }
    loop
        invariant
            in_step(*state, *host),
            p == board@,
            p == old(board)@,
            s0 == *old(state),
            pk0 == Picker::fresh(n.tt_move),
            start == no_moves(*n, old(pv)@, s0@),
            k == favourites(*n, s0@),
            node_ok(*n),
            n.in_check == checked(p),
            picker@.ok(),
            ready(*board, *state, *cfg, *net, n.ply as int),
            state.keeps_below(&s0, n.ply as int),
            extends(state.log@, s0.log@),
            -30_000 <= alpha < n.beta,
            best == -2147483647 || score_ok(best as int),
            searched != 0 ==> score_ok(best as int),
            forall|l: Seq<Answer>|
                extends(l, state.log@) ==> #[trigger] ab_moves(env(*cfg, *net, l), p, *n, k, pk0, start) == ab_moves(
                    env(*cfg, *net, l),
                    p,
                    *n,
                    k,
                    picker@,
                    Moves { alpha, best, best_move, flag, searched, quiets: quiets@, captures: captures@, pv: pv@, run: state@ },
                ),
        decreases picker@.rank(), picker@.left(),
    {
        let ghost s = Moves { alpha, best, best_move, flag, searched, quiets: quiets@, captures: captures@, pv: pv@, run: state@ };
        let ghost s1 = *state;
        let ghost pk1 = picker@;
        let next = pick(&mut picker, board, state, n.ply, k);
        let m = match next {
            Some(m) => m,
            None => {
                let r: i32 = node_finish(board, n, alpha, best, best_move, flag, searched, state, Ghost(s));
                proof {
                    assert forall|l: Seq<Answer>| extends(l, state.log@) implies #[trigger] moves_of(
                        env(*cfg, *net, l),
                        p,
                        *n,
                        old(pv)@,
                        s0@,
                    ) == (Out { score: r, pv: pv@, run: state@ }) by {
                        let e = env(*cfg, *net, l);
                        assert(ab_moves(e, p, *n, k, pk0, start) == ab_moves(e, p, *n, k, pk1, s));
                    }
                }
                return r;
            },
        };
        if m == n.excluded && !n.excluded.is_null() {
            proof {
                assert forall|l: Seq<Answer>| extends(l, state.log@) implies #[trigger] ab_moves(
                    env(*cfg, *net, l),
                    p,
                    *n,
                    k,
                    pk0,
                    start,
                ) == ab_moves(env(*cfg, *net, l), p, *n, k, picker@, Moves { alpha, best, best_move, flag, searched, quiets: quiets@, captures: captures@, pv: pv@, run: state@ }) by {
                    let e = env(*cfg, *net, l);
                    assert(extends(l, s1.log@));
                    assert(ab_moves(e, p, *n, k, pk0, start) == ab_moves(e, p, *n, k, pk1, s));
                }
            }
            continue;
        }
        let singular = test_singular(board, n, alpha, searched, m, state, cfg, net, host, Ghost(s));
        let ghost s2 = *state;
        let extension: u8 = if singular || is_pawn_threat(board, m) { 1 } else { 0 };
        if prunes_by_exchange(board, n, searched, m, cfg, Ghost(*net), Ghost(s)) {
            proof {
                assert forall|l: Seq<Answer>| extends(l, state.log@) implies #[trigger] ab_moves(
                    env(*cfg, *net, l),
                    p,
                    *n,
                    k,
                    pk0,
                    start,
                ) == ab_moves(env(*cfg, *net, l), p, *n, k, picker@, Moves { alpha, best, best_move, flag, searched, quiets: quiets@, captures: captures@, pv: pv@, run: state@ }) by {
                    let e = env(*cfg, *net, l);
                    assert(extends(l, s1.log@));
                    assert(ab_moves(e, p, *n, k, pk0, start) == ab_moves(e, p, *n, k, pk1, s));
                    assert(extends(l, s2.log@));
                    assert(ab_singular(e, p, *n, s, m) == (singular, s2@));
                    assert(pruned_by_exchange(e, p, *n, s, m));
                }
            }
            continue;
        }
        store_ply_context(state, n.ply, m, board);
        let ghost s3 = *state;
        let undo = match make_legal(board, m, Ghost(129 - n.ply)) {
            Some(undo) => undo,
            None => {
                proof {
                    assert forall|l: Seq<Answer>| extends(l, state.log@) implies #[trigger] ab_moves(
                        env(*cfg, *net, l),
                        p,
                        *n,
                        k,
                        pk0,
                        start,
                    ) == ab_moves(env(*cfg, *net, l), p, *n, k, picker@, Moves { alpha, best, best_move, flag, searched, quiets: quiets@, captures: captures@, pv: pv@, run: state@ }) by {
                        let e = env(*cfg, *net, l);
                        assert(extends(l, s1.log@));
                        assert(ab_moves(e, p, *n, k, pk0, start) == ab_moves(e, p, *n, k, pk1, s));
                        assert(extends(l, s2.log@));
                        assert(ab_singular(e, p, *n, s, m) == (singular, s2@));
                        assert(!pruned_by_exchange(e, p, *n, s, m));
                    }
                }
                continue;
            },
        };
        let gives_check = is_checked(board);
        if prunes_late(board, n, alpha, searched, m, gives_check, state, cfg, Ghost(*net), Ghost(p), Ghost(s)) {
            take_back(board, m, undo, Ghost(p));
            proof {
                assert forall|l: Seq<Answer>| extends(l, state.log@) implies #[trigger] ab_moves(
                    env(*cfg, *net, l),
                    p,
                    *n,
                    k,
                    pk0,
                    start,
                ) == ab_moves(env(*cfg, *net, l), p, *n, k, picker@, Moves { alpha, best, best_move, flag, searched, quiets: quiets@, captures: captures@, pv: pv@, run: state@ }) by {
                    let e = env(*cfg, *net, l);
                    assert(extends(l, s1.log@));
                    assert(ab_moves(e, p, *n, k, pk0, start) == ab_moves(e, p, *n, k, pk1, s));
                    assert(extends(l, s2.log@));
                    assert(ab_singular(e, p, *n, s, m) == (singular, s2@));
                    assert(!pruned_by_exchange(e, p, *n, s, m));
                    assert(pruned_late(e, p, *n, s, m, s3@));
                }
            }
            continue;
        }
        advance_accumulator(state, cfg, net, board, m, undo, n.ply, Ghost(p));
        let ghost s4 = *state;
        let depth: u8 = move_depth_of(n, extension);
        let score: i32 = search_child(
            board,
            n,
            k,
            alpha,
            searched,
            m,
            depth,
            gives_check,
            &mut child_pv,
            state,
            cfg,
            net,
            host,
            Ghost(p),
            Ghost(s),
        );
        take_back(board, m, undo, Ghost(p));
        proof {
            lemma_child_keeps(s3, s4, *state, *cfg, *net, p, n.ply as int);
        }
        let ghost s5 = *state;
        let ghost child = Out { score: (-score) as i32, pv: child_pv@, run: state@ };
        proof {
            assert forall|l: Seq<Answer>| extends(l, state.log@) implies #[trigger] ab_child(
                env(*cfg, *net, l),
                p,
                *n,
                k,
                s,
                m,
                depth as int,
                s3@,
            ) == child by {
            }
        }
        remember(m, &mut quiets, &mut captures, Ghost(s));
        searched = searched.wrapping_add(1);
        if state.stop {
            proof {
                assert forall|l: Seq<Answer>| extends(l, state.log@) implies #[trigger] moves_of(
                    env(*cfg, *net, l),
                    p,
                    *n,
                    old(pv)@,
                    s0@,
                ) == (Out { score: 0, pv: pv@, run: state@ }) by {
                    let e = env(*cfg, *net, l);
                    assert(extends(l, s1.log@));
                    assert(ab_moves(e, p, *n, k, pk0, start) == ab_moves(e, p, *n, k, pk1, s));
                    assert(extends(l, s2.log@));
                    assert(ab_singular(e, p, *n, s, m) == (singular, s2@));
                    assert(!pruned_by_exchange(e, p, *n, s, m));
                    assert(!pruned_late(e, p, *n, s, m, s3@));
                    assert(extends(l, s5.log@));
                    assert(ab_child(e, p, *n, k, s, m, depth as int, s3@) == child);
                }
            }
            return 0;
        }
        if score > best {
            best = score;
            best_move = m;
            if score > alpha {
                alpha = score;
                flag = TTFlag::Exact;
                set_line(pv, m, &child_pv);
                if score >= n.beta {
                    flag = TTFlag::LowerBound;
                    learn(state, board, n, m, &quiets, &captures);
                    let ghost cut = Moves { alpha, best, best_move, flag, searched, quiets: quiets@, captures: captures@, pv: pv@, run: state@ };
                    let r: i32 = node_finish(board, n, alpha, best, best_move, flag, searched, state, Ghost(cut));
                    proof {
                        assert forall|l: Seq<Answer>| extends(l, state.log@) implies #[trigger] moves_of(
                            env(*cfg, *net, l),
                            p,
                            *n,
                            old(pv)@,
                            s0@,
                        ) == (Out { score: r, pv: pv@, run: state@ }) by {
                            let e = env(*cfg, *net, l);
                            assert(extends(l, s1.log@));
                            assert(ab_moves(e, p, *n, k, pk0, start) == ab_moves(e, p, *n, k, pk1, s));
                            assert(extends(l, s2.log@));
                            assert(ab_singular(e, p, *n, s, m) == (singular, s2@));
                            assert(!pruned_by_exchange(e, p, *n, s, m));
                            assert(!pruned_late(e, p, *n, s, m, s3@));
                            assert(extends(l, s5.log@));
                            assert(ab_child(e, p, *n, k, s, m, depth as int, s3@) == child);
                        }
                    }
                    return r;
                }
            }
        }
        proof {
            assert forall|l: Seq<Answer>| extends(l, state.log@) implies #[trigger] ab_moves(
                env(*cfg, *net, l),
                p,
                *n,
                k,
                pk0,
                start,
            ) == ab_moves(env(*cfg, *net, l), p, *n, k, picker@, Moves { alpha, best, best_move, flag, searched, quiets: quiets@, captures: captures@, pv: pv@, run: state@ }) by {
                let e = env(*cfg, *net, l);
                assert(extends(l, s1.log@));
                assert(ab_moves(e, p, *n, k, pk0, start) == ab_moves(e, p, *n, k, pk1, s));
                assert(extends(l, s2.log@));
                assert(ab_singular(e, p, *n, s, m) == (singular, s2@));
                assert(!pruned_by_exchange(e, p, *n, s, m));
                assert(!pruned_late(e, p, *n, s, m, s3@));
                assert(extends(l, s5.log@));
                assert(ab_child(e, p, *n, k, s, m, depth as int, s3@) == child);
            }
        }
    }
}

/// The depth to which a move is searched.
fn move_depth_of(n: &Node, extension: u8) -> (r: u8)
    requires
        node_ok(*n),
        extension <= 1,
    ensures
        r == move_depth(*n, extension as int),
        r <= 128,
{
    let less: i32 = if n.tt_move.is_null() && n.depth >= 3 {
        if !n.is_pv && n.depth >= 8 {
            2
        } else {
            1
        }
    } else {
        0
    };
    let d: i32 = n.effective as i32 - 1 + extension as i32 - less;
    if d < 0 {
        0
    } else {
        d as u8
    }
}

} // verus!
