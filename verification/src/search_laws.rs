//! Laws of the search below the root: draws, mates and quiet positions.

use vstd::prelude::*;
use vstd::set_lib::{lemma_int_range, lemma_len_subset, set_int_range};
use crate::alphabeta::{ab, ab_child, ab_cuts, ab_end, ab_moves, ab_null, ab_singular, ab_tables, ab_verify, corrected_run, corrects, favourites, has_pieces, learned, mate_window, move_depth, next_move, no_moves, node_of, noted, passed, pawn_threat, pruned_by_exchange, pruned_late, reduction, refined, remembered, tables_asked, tests_singular, Moves, Node, Step};
use crate::arith::max_of;
use crate::attacks::in_check;
use crate::board::Position;
use crate::board_laws::law_null_move_hash;
use crate::eval::{scaled_score, score_of};
use crate::history::{contexts_ok, law_corrections_have_the_sign_of_the_residual, lemma_blank_correction, Tables};
use crate::movegen::{in_check_after, legal_moves, pseudo_moves, quiet_moves, tactical_moves};
use crate::movegen_laws::{law_generated_moves_fit, lemma_keep_safe_contains, lemma_occurs, occurrences};
use crate::moves::Move;
use crate::nnue::incremental::position_value;
use crate::ordering::{best_from, lemma_best_from, lemma_picker_advances, picked, Hints, Picker, Scored};
use crate::ordering_laws::{has_room, lemma_all_to_come, lemma_next_of_those_to_come, losing_captures, pending};
use crate::quiescence::{capture_list, line_of, q_after, qs, qs_captures, qs_checks, qs_evasions, qs_moves, qs_node, Line};
use crate::search::{bound_settles, checked, drawn, exchange, from_tt, plain_eval, played, polled, should_stop, static_eval, to_tt, tries, Answer, Env, Out, Run};
use crate::see::static_exchange;
use crate::syzygy::{can_probe, probe_view, Wdl};
use crate::tt::{TTFlag, Table};
use crate::types::{Color, PieceKind};

verus! {

/// The position was there at least twice before.
pub open spec fn thrice(p: Position) -> bool {
    exists|i: int, j: int|
        0 <= i < j < p.history.len() && #[trigger] p.history[i] == p.hash && #[trigger] p.history[j] == p.hash
}

/// The position was there before, at one of the plies from `since` on, and no
/// move since has been a capture or a pawn move.
pub open spec fn again_since(p: Position, since: int) -> bool {
    exists|i: int|
        since <= i < p.history.len() && 0 <= i && p.history.len() - i <= p.halfmove && #[trigger] p.history[i] == p.hash
}

/// No earlier position has the hash of this one, and the fifty-move rule does
/// not apply.
pub open spec fn is_new(p: Position) -> bool {
    p.halfmove < 100 && forall|i: int| 0 <= i < p.history.len() ==> #[trigger] p.history[i] != p.hash
}

/// A position counts as drawn if it was there twice before in the game, or once
/// since the search began, or if fifty moves have passed; a new one does not.
pub proof fn law_what_counts_as_drawn(p: Position, game_ply: int)
    requires
        0 <= game_ply,
    ensures
        thrice(p) ==> drawn(p, game_ply),
        again_since(p, game_ply) ==> drawn(p, game_ply),
        p.halfmove >= 100 ==> drawn(p, game_ply),
        is_new(p) ==> !drawn(p, game_ply),
{
    reveal(drawn);
    if again_since(p, game_ply) {
        let i = choose|i: int|
            game_ply <= i < p.history.len() && 0 <= i && p.history.len() - i <= p.halfmove && #[trigger] p.history[i]
                == p.hash;
        assert(game_ply <= i < p.history.len() && p.history.len() - i <= p.halfmove && p.history[i] == p.hash);
    }
}

/// Asking whether to stop never takes back a stop, and is not done but every
/// 1024 nodes.
proof fn lemma_polled(e: Env, r: Run)
    ensures
        polled(e, r).0 ==> polled(e, r).1.stop,
        r.nodes % 1024 != 0 ==> !polled(e, r).0 && polled(e, r).1 == r,
        polled(e, r).1.tt == r.tt,
{
    reveal(polled);
    reveal(should_stop);
}

/// A repeated position below the root is worth the draw at once, from the view
/// of the side to move, unless the search is told to stop there: one that was
/// there twice before in the game, one that was there since the search began, and
/// one to which the fifty-move rule applies.
pub proof fn law_repetition_is_worth_a_draw(
    e: Env,
    p: Position,
    depth: int,
    ply: int,
    alpha: int,
    beta: int,
    prev: Move,
    excluded: Move,
    r: Run,
)
    requires
        1 <= ply < 128,
        e.cfg.contempt > i32::MIN,
        thrice(p) || again_since(p, e.cfg.game_ply as int) || p.halfmove >= 100,
    ensures
        ({
            let out = ab(e, p, depth, ply, alpha, beta, prev, excluded, r);
            &&& out.run.stop || out.score == -e.cfg.contempt
            &&& r.nodes % 1024 != 0 ==> out.score == -e.cfg.contempt
            &&& out.pv.len() == 0
        }),
{
    law_what_counts_as_drawn(p, e.cfg.game_ply as int);
    lemma_polled(e, r);
}

/// The same in the quiescence search.
pub proof fn law_quiet_repetition_is_worth_a_draw(
    e: Env,
    p: Position,
    ply: int,
    alpha: int,
    beta: int,
    checks: bool,
    r: Run,
)
    requires
        1 <= ply < 128,
        e.cfg.contempt > i32::MIN,
        thrice(p) || again_since(p, e.cfg.game_ply as int) || p.halfmove >= 100,
    ensures
        ({
            let out = qs(e, p, ply, alpha, beta, checks, r);
            &&& out.run.stop || out.score == -e.cfg.contempt
            &&& r.nodes % 1024 != 0 ==> out.score == -e.cfg.contempt
            &&& out.pv.len() == 0
        }),
{
    law_what_counts_as_drawn(p, e.cfg.game_ply as int);
    lemma_polled(e, r);
}

/// Every search of a position comes to a score, or stops.
pub open spec fn always(e: Env, q: Position, ply: int, v: int) -> bool {
    forall|d: int, a: int, b: int, m: Move, r: Run|
        (#[trigger] ab(e, q, d, ply, a, b, m, Move(0), r)).run.stop || ab(e, q, d, ply, a, b, m, Move(0), r).score == v
}

proof fn lemma_child(e: Env, p: Position, n: Node, k: (Move, Move, Move), s: Moves, m: Move, depth: int, r: Run, v: int)
    requires
        n.ply < 127,
        always(e, played(p, m), n.ply + 1, v),
    ensures
        ab_child(e, p, n, k, s, m, depth, r).run.stop || ab_child(e, p, n, k, s, m, depth, r).score == v,
{
    let q = played(p, m);
    let ply = n.ply as int;
    let a = s.alpha as int;
    let b = n.beta as int;
    let first = ab(e, q, depth, ply + 1, -b, -a, m, Move(0), r);
    let less = max_of(depth - reduction(e, p, n, k, s, m, r, depth), 0);
    let out = ab(e, q, less, ply + 1, -a - 1, -a, m, Move(0), r);
    lemma_verified(e, q, depth, ply, a, b, m, r, v);
    lemma_verified(e, q, depth, ply, a, b, m, out.run, v);
}

/// A null window search and one with the full window come to the same.
pub proof fn lemma_verified(e: Env, q: Position, depth: int, ply: int, a: int, b: int, m: Move, r: Run, v: int)
    requires
        ply < 128,
        always(e, q, ply + 1, v),
    ensures
        ab_verify(e, q, depth, ply, a, b, m, r).run.stop || ab_verify(e, q, depth, ply, a, b, m, r).score == v,
{
    let narrow = ab(e, q, depth, ply + 1, -a - 1, -a, m, Move(0), r);
    let wide = ab(e, q, depth, ply + 1, -b, -a, m, Move(0), narrow.run);
}

/// The moves of a node on the principal variation, where each of them comes to
/// the same score and `m0` is still to come unless one has been searched. `seen`
/// holds those that were yielded.
proof fn lemma_level_moves(
    e: Env,
    p: Position,
    n: Node,
    k: (Move, Move, Move),
    pk: Picker,
    s: Moves,
    v: int,
    m0: Move,
    seen: Set<int>,
)
    requires
        pk.ok(),
        has_room(pk, p),
        n.ply < 127,
        n.is_pv,
        n.excluded.0 == 0,
        n.tt_move.0 == 0,
        -2_000_000_000 <= v <= 2_000_000_000,
        forall|m: Move| #[trigger] pending(pk, p, m) <= occurrences(pseudo_moves(p), m),
        forall|m: Move| seen.contains(m.0 as int) ==> #[trigger] pending(pk, p, m) == 0,
        seen.subset_of(set_int_range(0, 65536)),
        forall|m: Move| pseudo_moves(p).contains(m) && #[trigger] tries(p, m) ==> always(e, played(p, m), n.ply + 1, -v),
        forall|m: Move| #[trigger] occurrences(pseudo_moves(p), m) <= 1,
        tries(p, m0),
        s.searched <= seen.len(),
        s.searched == 0 ==> s.best == -2147483647 && pending(pk, p, m0) > 0,
        s.searched > 0 ==> s.best == v,
    ensures
        ab_moves(e, p, n, k, pk, s).run.stop || ab_moves(e, p, n, k, pk, s).score == v,
    decreases pk.rank(), pk.left(),
{
    reveal(next_move);
    reveal(tests_singular);
    reveal(pruned_by_exchange);
    reveal(pruned_late);
    reveal(ab_end);
    reveal(Run::stored);
    reveal(corrected_run);
    reveal(learned);
    let h = Hints { tables: s.run.tables, ctxs: s.run.ctxs, ply: n.ply as int, killers: (k.0, k.1), counter: k.2 };
    let (pk1, next) = pk.next(p, h);
    lemma_picker_advances(pk, p, h);
    lemma_next_of_those_to_come(pk, p, h, m0);
    lemma_int_range(0, 65536);
    lemma_len_subset(seen, set_int_range(0, 65536));
    if next is Some {
        let m = next->Some_0;
        lemma_next_of_those_to_come(pk, p, h, m);
        lemma_occurs(pseudo_moves(p), m);
        assert(pending(pk, p, m) >= 1);
        assert(occurrences(pseudo_moves(p), m) >= 1);
        let more = seen.insert(m.0 as int);
        assert(!seen.contains(m.0 as int));
        assert forall|x: Move| #[trigger] pending(pk1, p, x) <= occurrences(pseudo_moves(p), x) by {
            lemma_next_of_those_to_come(pk, p, h, x);
            assert(pending(pk, p, x) <= occurrences(pseudo_moves(p), x));
        }
        assert forall|x: Move| more.contains(x.0 as int) implies #[trigger] pending(pk1, p, x) == 0 by {
            lemma_next_of_those_to_come(pk, p, h, x);
            assert(pending(pk, p, x) <= occurrences(pseudo_moves(p), x));
            assert(occurrences(pseudo_moves(p), x) <= 1);
            if x.0 == m.0 {
                assert(x == m);
            } else {
                assert(seen.contains(x.0 as int));
            }
        }
        assert(more.subset_of(set_int_range(0, 65536)));
        assert(more.len() == seen.len() + 1);
        let (singular, r1) = ab_singular(e, p, n, s, m);
        assert(!singular && r1 == s.run);
        let r2 = noted(r1, n.ply as int, m, p);
        if !tries(p, m) {
            lemma_level_moves(e, p, n, k, pk1, Moves { run: r2, ..s }, v, m0, more);
        } else {
            let extension = if singular || pawn_threat(p, m) { 1int } else { 0 };
            let d = move_depth(n, extension);
            lemma_child(e, p, n, k, s, m, d, r2, -v);
            let child = ab_child(e, p, n, k, s, m, d, r2);
            let s1 = Moves { run: child.run, ..remembered(s, m) };
            if !child.run.stop {
                assert(s1.searched == s.searched + 1);
                if s.searched > 0 {
                    lemma_level_moves(e, p, n, k, pk1, s1, v, m0, more);
                } else if v <= s.alpha {
                    lemma_level_moves(e, p, n, k, pk1, Moves { best: v as i32, best_move: m, ..s1 }, v, m0, more);
                } else {
                    let s2 = Moves {
                        best: v as i32,
                        best_move: m,
                        alpha: v as i32,
                        flag: TTFlag::Exact,
                        pv: line_of(m, child.pv),
                        ..s1
                    };
                    if v < n.beta {
                        lemma_level_moves(e, p, n, k, pk1, s2, v, m0, more);
                    }
                }
            }
        }
    }
}

/// The moves of a node on the principal variation, where none of them is legal.
proof fn lemma_no_legal_moves(e: Env, p: Position, n: Node, k: (Move, Move, Move), pk: Picker, s: Moves)
    requires
        pk.ok(),
        has_room(pk, p),
        n.ply < 127,
        n.is_pv,
        n.excluded.0 == 0,
        n.tt_move.0 == 0,
        forall|m: Move| #[trigger] pending(pk, p, m) <= occurrences(pseudo_moves(p), m),
        forall|m: Move| pseudo_moves(p).contains(m) ==> !#[trigger] tries(p, m),
        s.searched == 0,
    ensures
        ab_moves(e, p, n, k, pk, s).score == (if n.in_check { -30000 + n.ply } else { 0 }),
    decreases pk.rank(), pk.left(),
{
    reveal(next_move);
    reveal(tests_singular);
    reveal(pruned_by_exchange);
    reveal(ab_end);
    let h = Hints { tables: s.run.tables, ctxs: s.run.ctxs, ply: n.ply as int, killers: (k.0, k.1), counter: k.2 };
    let (pk1, next) = pk.next(p, h);
    lemma_picker_advances(pk, p, h);
    if next is Some {
        let m = next->Some_0;
        lemma_next_of_those_to_come(pk, p, h, m);
        lemma_occurs(pseudo_moves(p), m);
        assert(pending(pk, p, m) >= 1);
        assert(occurrences(pseudo_moves(p), m) >= 1);
        assert forall|x: Move| #[trigger] pending(pk1, p, x) <= occurrences(pseudo_moves(p), x) by {
            lemma_next_of_those_to_come(pk, p, h, x);
            assert(pending(pk, p, x) <= occurrences(pseudo_moves(p), x));
        }
        let (singular, r1) = ab_singular(e, p, n, s, m);
        assert(!singular && r1 == s.run);
        let r2 = noted(r1, n.ply as int, m, p);
        assert(!tries(p, m));
        lemma_no_legal_moves(e, p, n, k, pk1, Moves { run: r2, ..s });
    }
}

/// Which moves are tried: of the pseudo-legal ones those that are legal.
proof fn lemma_tried_iff_legal(p: Position, m: Move)
    requires
        p.sound(),
        pseudo_moves(p).contains(m),
    ensures
        tries(p, m) <==> legal_moves(p).contains(m),
{
    reveal(tries);
    law_generated_moves_fit(p, m);
    lemma_keep_safe_contains(p, pseudo_moves(p), m);
}

/// A node that is searched with an open window, below the root, where nothing is
/// known of the position and it is no draw.
pub open spec fn open_node(e: Env, p: Position, depth: int, ply: int, alpha: int, beta: int, r: Run) -> bool {
    &&& p.sound()
    &&& is_new(p)
    &&& 1 <= ply < 127
    &&& 1 <= depth <= 128
    &&& -30000 + ply <= alpha
    &&& beta <= 30000 - ply
    &&& beta - alpha > 1
    &&& e.cfg.table_pieces is None
    &&& r.tt.found(p.hash) is None
    &&& losing_captures(p, Move(0)).len() <= 64
}

/// What an open node comes to once its moves are searched.
proof fn lemma_open_node(e: Env, p: Position, depth: int, ply: int, alpha: int, beta: int, prev: Move, r: Run) -> (w: (
    Node,
    Run,
))
    requires
        open_node(e, p, depth, ply, alpha, beta, r),
    ensures
        w.0.is_pv,
        w.0.ply == ply,
        w.0.excluded.0 == 0,
        w.0.tt_move.0 == 0,
        w.0.in_check == in_check(p, p.side),
        w.0.alpha == alpha,
        w.0.beta == beta,
        w.0.effective >= depth,
        ab(e, p, depth, ply, alpha, beta, prev, Move(0), r).run.stop || ab(
            e,
            p,
            depth,
            ply,
            alpha,
            beta,
            prev,
            Move(0),
            r,
        ) == ab_moves(
            e,
            p,
            w.0,
            favourites(w.0, w.1),
            Picker::fresh(Move(0)),
            no_moves(w.0, Seq::empty(), w.1),
        ),
{
    law_what_counts_as_drawn(p, e.cfg.game_ply as int);
    lemma_polled(e, r);
    reveal(tables_asked);
    reveal(checked);
    reveal(Run::found);
    let r1 = polled(e, r).1.counted();
    let check = checked(p);
    let n = node_of(e, p, depth, ply, alpha, beta, prev, Move(0), check, true, r1);
    let r2 = Run { evals: r1.evals.update(ply, n.eval), ..r1 };
    assert(mate_window(alpha, beta, ply) == (alpha, beta, None::<int>));
    (n, r2)
}

/// A side that is mated below the root is scored as mated at that distance, and
/// one without a legal move that is not in check is scored as a draw.
pub proof fn law_mate_and_stalemate_are_seen(
    e: Env,
    p: Position,
    depth: int,
    ply: int,
    alpha: int,
    beta: int,
    prev: Move,
    r: Run,
)
    requires
        open_node(e, p, depth, ply, alpha, beta, r),
        legal_moves(p).len() == 0,
    ensures
        ({
            let out = ab(e, p, depth, ply, alpha, beta, prev, Move(0), r);
            out.run.stop || out.score == (if in_check(p, p.side) { -30000 + ply } else { 0 })
        }),
{
    let (n, r1) = lemma_open_node(e, p, depth, ply, alpha, beta, prev, r);
    assert forall|m: Move| pseudo_moves(p).contains(m) implies !#[trigger] tries(p, m) by {
        lemma_tried_iff_legal(p, m);
    }
    assert forall|m: Move| #[trigger] pending(Picker::fresh(Move(0)), p, m) <= occurrences(pseudo_moves(p), m) by {
        lemma_all_to_come(p, m);
    }
    lemma_all_to_come(p, Move(0));
    lemma_no_legal_moves(
        e,
        p,
        n,
        favourites(n, r1),
        Picker::fresh(Move(0)),
        no_moves(n, Seq::empty(), r1),
    );
}

/// Where every legal move leads to a draw by repetition or by the fifty-move
/// rule, a position is worth what a draw is worth to the opponent, with the
/// opposite sign.
pub proof fn law_only_draws_are_left(
    e: Env,
    p: Position,
    depth: int,
    ply: int,
    alpha: int,
    beta: int,
    prev: Move,
    r: Run,
)
    requires
        open_node(e, p, depth, ply, alpha, beta, r),
        -2_000_000_000 <= e.cfg.contempt <= 2_000_000_000,
        legal_moves(p).len() > 0,
        forall|m: Move| #[trigger]
            legal_moves(p).contains(m) ==> thrice(p.after(m)) || again_since(p.after(m), e.cfg.game_ply as int) || p.after(
                m,
            ).halfmove >= 100,
    ensures
        ({
            let out = ab(e, p, depth, ply, alpha, beta, prev, Move(0), r);
            out.run.stop || out.score == e.cfg.contempt
        }),
{
    reveal(played);
    let v = e.cfg.contempt as int;
    let (n, r1) = lemma_open_node(e, p, depth, ply, alpha, beta, prev, r);
    let m0 = legal_moves(p)[0];
    assert(legal_moves(p).contains(m0));
    lemma_keep_safe_contains(p, pseudo_moves(p), m0);
    lemma_tried_iff_legal(p, m0);
    lemma_occurs(pseudo_moves(p), m0);
    lemma_children_draw(e, p, ply);
    assert forall|m: Move| #[trigger] pending(Picker::fresh(Move(0)), p, m) <= occurrences(pseudo_moves(p), m) by {
        lemma_all_to_come(p, m);
    }
    assert forall|m: Move| #[trigger] occurrences(pseudo_moves(p), m) <= 1 by {
        lemma_all_to_come(p, m);
    }
    lemma_all_to_come(p, m0);
    lemma_level_moves(
        e,
        p,
        n,
        favourites(n, r1),
        Picker::fresh(Move(0)),
        no_moves(n, Seq::empty(), r1),
        v,
        m0,
        Set::empty(),
    );
}

/// The quiescence search scores a side that is mated as mated at its distance
/// from the root, whatever is stored of the position.
pub proof fn law_quiescence_sees_mate(e: Env, p: Position, ply: int, alpha: int, beta: int, checks: bool, r: Run)
    requires
        p.sound(),
        is_new(p),
        1 <= ply < 128,
        in_check(p, p.side),
        legal_moves(p).len() == 0,
    ensures
        ({
            let out = qs(e, p, ply, alpha, beta, checks, r);
            out.run.stop || out.score == -30000 + ply
        }),
{
    law_what_counts_as_drawn(p, e.cfg.game_ply as int);
    lemma_polled(e, r);
    reveal(checked);
    assert forall|m: Move| pseudo_moves(p).contains(m) implies !#[trigger] tries(p, m) by {
        lemma_tried_iff_legal(p, m);
    }
    if !polled(e, r).0 {
        let r2 = polled(e, r).1.counted();
        let r3 = Run { seldepth: if ply > r2.seldepth { ply as u8 } else { r2.seldepth }, ..r2 };
        let s = Line { alpha, best: -2147483647, best_move: Move(0), any: false, pv: Seq::empty(), run: r3 };
        lemma_no_evasion(e, p, ply, beta, 0, s);
        let tt_move = match r3.found(p.hash) {
            Some(entry) => entry.best_move,
            None => Move(0),
        };
        assert(qs_moves(e, p, ply, alpha, beta, checks, true, tt_move, r3) == qs_evasions(
            e,
            p,
            ply,
            beta,
            pseudo_moves(p),
            0,
            s,
        ));
        assert(qs_node(e, p, ply, alpha, beta, checks, r3) == qs_moves(
            e,
            p,
            ply,
            alpha,
            beta,
            checks,
            true,
            tt_move,
            r3,
        ));
        assert(qs(e, p, ply, alpha, beta, checks, r) == qs_node(e, p, ply, alpha, beta, checks, r3));
    }
}

proof fn lemma_no_evasion(e: Env, p: Position, ply: int, beta: int, i: int, s: Line)
    requires
        0 <= i <= pseudo_moves(p).len(),
        0 <= ply < 128,
        !s.any,
        forall|m: Move| pseudo_moves(p).contains(m) ==> !#[trigger] tries(p, m),
    ensures
        qs_evasions(e, p, ply, beta, pseudo_moves(p), i, s).score == -30000 + ply,
    decreases pseudo_moves(p).len() - i,
{
    if i < pseudo_moves(p).len() {
        assert(pseudo_moves(p).contains(pseudo_moves(p)[i]));
        lemma_no_evasion(e, p, ply, beta, i + 1, s);
    }
}

/// A line whose bounds make sense.
spec fn in_window(s: Line, low: int, beta: int) -> bool {
    -40_000 <= low <= s.alpha < beta <= 40_000
}

spec fn bounded(out: Out, low: int, beta: int) -> bool {
    out.run.stop || low <= out.score <= beta
}

proof fn lemma_checks_bounded(e: Env, p: Position, ply: int, beta: int, stand: int, list: Seq<Move>, i: int, s: Line, low: int)
    requires
        in_window(s, low, beta),
    ensures
        bounded(qs_checks(e, p, ply, beta, stand, list, i, s), low, beta),
    decreases list.len() - i,
{
    reveal(Run::stored);
    if !(i < 0 || i >= list.len() || ply >= 128) {
        let m = list[i];
        if exchange(p, m) < 0 || !tries(p, m) || !checked(played(p, m)) {
            lemma_checks_bounded(e, p, ply, beta, stand, list, i + 1, s, low);
        } else {
            let child = qs(e, played(p, m), ply + 1, -beta, -s.alpha, false, s.run);
            if !child.run.stop && -child.score < beta {
                lemma_checks_bounded(
                    e,
                    p,
                    ply,
                    beta,
                    stand,
                    list,
                    i + 1,
                    q_after(s, m, child),
                    low,
                );
            }
        }
    }
}

proof fn lemma_captures_bounded(
    e: Env,
    p: Position,
    ply: int,
    beta: int,
    checks: bool,
    stand: int,
    list: Seq<Scored>,
    i: int,
    s: Line,
    low: int,
)
    requires
        in_window(s, low, beta),
    ensures
        bounded(qs_captures(e, p, ply, beta, checks, stand, list, i, s), low, beta),
    decreases list.len() - i,
{
    reveal(Run::stored);
    if i < 0 || i >= list.len() || ply >= 128 {
        if checks {
            lemma_checks_bounded(e, p, ply, beta, stand, quiet_moves(p), 0, s, low);
        }
    } else {
        let l = picked(list, i);
        let m = l[i].m;
        if exchange(p, m) < 0 || !tries(p, m) {
            lemma_captures_bounded(e, p, ply, beta, checks, stand, l, i + 1, s, low);
        } else {
            let child = qs(e, played(p, m), ply + 1, -beta, -s.alpha, false, s.run);
            if !child.run.stop && -child.score < beta {
                lemma_captures_bounded(
                    e,
                    p,
                    ply,
                    beta,
                    checks,
                    stand,
                    l,
                    i + 1,
                    q_after(s, m, child),
                    low,
                );
            }
        }
    }
}

/// A side that is not in check need not capture: in the quiescence search a
/// position of which nothing is stored is worth at least its evaluation for the
/// side to move, within the window. Where nothing can be captured it is worth
/// just that.
pub proof fn law_standing_pat(e: Env, p: Position, ply: int, alpha: int, beta: int, checks: bool, r: Run)
    requires
        is_new(p),
        1 <= ply < 128,
        !in_check(p, p.side),
        -40_000 <= alpha < beta <= 40_000,
        r.tt.found(p.hash) is None,
        r.nodes % 1024 != 0,
    ensures
        ({
            let out = qs(e, p, ply, alpha, beta, checks, r);
            let stand = static_eval(
                e,
                p,
                Run { nodes: r.nodes.wrapping_add(1), seldepth: if ply > r.seldepth { ply as u8 } else { r.seldepth }, ..r },
                ply,
            );
            &&& out.run.stop || alpha <= out.score <= beta
            &&& out.run.stop || (stand >= beta ==> out.score == beta)
            &&& out.run.stop || (stand < beta ==> out.score >= stand)
            &&& tactical_moves(p).len() == 0 && alpha < stand < beta ==> out.score == stand
            &&& tactical_moves(p).len() == 0 && stand <= alpha ==> out.score == alpha
        }),
{
    law_what_counts_as_drawn(p, e.cfg.game_ply as int);
    lemma_polled(e, r);
    reveal(checked);
    reveal(Run::found);
    let r2 = r.counted();
    let r3 = Run { seldepth: if ply > r2.seldepth { ply as u8 } else { r2.seldepth }, ..r2 };
    let stand = static_eval(e, p, r3, ply);
    let a = if stand > alpha { stand } else { alpha };
    assert(qs(e, p, ply, alpha, beta, checks, r) == qs_node(e, p, ply, alpha, beta, checks, r3));
    assert(qs_node(e, p, ply, alpha, beta, checks, r3) == qs_moves(
        e,
        p,
        ply,
        alpha,
        beta,
        checks,
        false,
        Move(0),
        r3,
    ));
    if stand < beta {
        lemma_captures_bounded(
            e,
            p,
            ply,
            beta,
            checks,
            stand,
            capture_list(p, Move(0), tactical_moves(p)),
            0,
            Line { alpha: a, best: stand, best_move: Move(0), any: false, pv: Seq::empty(), run: r3 },
            a,
        );
    }
}

/// When a search stops: once it was stopped, when it is told to, when its nodes
/// are used up, or when its time is; and not otherwise.
pub proof fn law_when_to_stop(e: Env, r: Run, told: bool, now: u64)
    requires
        e.log[r.asked.len() as int] == Answer::Stop(told),
        e.log[r.asked.len() as int + 1] == Answer::Clock(now),
    ensures
        ({
            let stops = should_stop(e, r).0;
            &&& r.stop ==> stops
            &&& told ==> stops
            &&& e.cfg.max_nodes is Some && r.nodes >= e.cfg.max_nodes->Some_0 ==> stops
            &&& e.cfg.time_limit_ms is Some && now >= e.cfg.time_limit_ms->Some_0 ==> stops
            &&& !r.stop && !told && (e.cfg.max_nodes is None || r.nodes < e.cfg.max_nodes->Some_0) && (
            e.cfg.time_limit_ms is None || now < e.cfg.time_limit_ms->Some_0) ==> !stops
        }),
{
    reveal(should_stop);
}

/// The search looks whether to stop at every 1024th node, and never carries on
/// past one at which it should.
pub proof fn law_stops_are_heeded(
    e: Env,
    p: Position,
    depth: int,
    ply: int,
    alpha: int,
    beta: int,
    prev: Move,
    excluded: Move,
    r: Run,
)
    requires
        r.nodes % 1024 == 0,
        should_stop(e, r).0,
    ensures
        ab(e, p, depth, ply, alpha, beta, prev, excluded, r).run.stop,
        ab(e, p, depth, ply, alpha, beta, prev, excluded, r).pv.len() == 0,
        ab(e, p, depth, ply, alpha, beta, prev, excluded, r).run.nodes == r.nodes,
{
    reveal(polled);
    reveal(should_stop);
}

/// What the endgame tables say of a position settles it: a draw is scored as
/// level, a win that exceeds the window as a win, and a loss below it as a loss.
pub proof fn law_endgame_tables_decide(
    e: Env,
    p: Position,
    depth: int,
    ply: int,
    alpha: int,
    beta: int,
    prev: Move,
    r: Run,
    wdl: Wdl,
)
    requires
        is_new(p),
        1 <= ply < 128,
        1 <= depth <= 128,
        -30000 + ply <= alpha < beta <= 30000 - ply,
        e.cfg.table_pieces is Some,
        can_probe(p, e.cfg.table_pieces->Some_0),
        r.nodes % 1024 != 0,
        e.log[r.asked.len() as int] == Answer::Probe(probe_view(p), Some(wdl)),
    ensures
        ({
            let out = ab(e, p, depth, ply, alpha, beta, prev, Move(0), r);
            &&& wdl == Wdl::Draw ==> out.score == 0
            &&& wdl == Wdl::Win && beta <= 28_000 ==> out.score == 28_000
            &&& wdl == Wdl::Loss && alpha >= -28_000 ==> out.score == -28_000
            &&& wdl == Wdl::Draw ==> out.pv.len() == 0
        }),
{
    law_what_counts_as_drawn(p, e.cfg.game_ply as int);
    lemma_polled(e, r);
    reveal(tables_asked);
    let r1 = r.counted();
    assert(mate_window(alpha, beta, ply) == (alpha, beta, None::<int>));
    assert(ab(e, p, depth, ply, alpha, beta, prev, Move(0), r) == ab_tables(
        e,
        p,
        depth,
        ply,
        alpha,
        beta,
        prev,
        Move(0),
        checked(p),
        r1,
    ));
}

/// A bound that was stored settles a window as bounds do: a lower bound from
/// above, an upper bound from below, an exact score always.
pub proof fn law_bounds_settle_as_bounds(flag: TTFlag, score: int, alpha: int, beta: int)
    requires
        alpha < beta,
    ensures
        flag == TTFlag::Exact ==> bound_settles(flag, score, alpha, beta),
        flag == TTFlag::LowerBound ==> (bound_settles(flag, score, alpha, beta) <==> score >= beta),
        flag == TTFlag::UpperBound ==> (bound_settles(flag, score, alpha, beta) <==> score <= alpha),
{
}

/// A mate is stored by its distance from the position in which it was seen, and
/// read by its distance from the root: a mate in so many plies from here is
/// further from the root by the plies between, for either side.
pub proof fn law_mates_are_stored_by_distance(plies_to_mate: int, ply: int)
    requires
        0 <= plies_to_mate,
        0 <= ply,
        plies_to_mate + ply < 1000,
    ensures
        to_tt(30000 - (ply + plies_to_mate), ply) == 30000 - plies_to_mate,
        to_tt(-30000 + (ply + plies_to_mate), ply) == -30000 + plies_to_mate,
        from_tt(30000 - plies_to_mate, ply) == 30000 - (ply + plies_to_mate),
        from_tt(-30000 + plies_to_mate, ply) == -30000 + (ply + plies_to_mate),
{
}

/// The evaluation that the search uses is that of the side to move: White's with
/// White to move, and with the opposite sign with Black to move. Without the
/// network and with nothing learned it is the static evaluation itself.
pub proof fn law_evaluations_are_for_the_side_to_move(e: Env, p: Position, r: Run, ply: int)
    requires
        !e.cfg.use_nnue,
        -2_000_000_000 <= score_of(p, e.cfg.eval) <= 2_000_000_000,
        r.tables == Tables::blank(),
        contexts_ok(r.ctxs),
        0 <= ply <= 128,
    ensures
        p.side == Color::White ==> static_eval(e, p, r, ply) == score_of(p, e.cfg.eval),
        p.side == Color::Black ==> static_eval(e, p, r, ply) == -score_of(p, e.cfg.eval),
{
    reveal(static_eval);
    reveal(plain_eval);
    lemma_blank_correction(p, r.ctxs, ply, e.cfg.tune.corrhist_mult as int);
}

/// With the network, the evaluation is its value of the position, for the side to
/// move, save for what the endgame scale takes off.
pub proof fn law_network_values_are_for_the_side_to_move(e: Env, p: Position, r: Run, ply: int)
    requires
        e.cfg.use_nnue,
        0 <= ply < 128,
        r.tables == Tables::blank(),
        contexts_ok(r.ctxs),
        -900_000 <= position_value(e.net, p) <= 900_000,
        forall|x: int| -900_000 <= x <= 900_000 ==> #[trigger] scaled_score(p, e.cfg.eval, x) == x,
    ensures
        static_eval(e, p, r, ply) == position_value(e.net, p),
{
    reveal(static_eval);
    lemma_blank_correction(p, r.ctxs, ply, e.cfg.tune.corrhist_mult as int);
    let v = position_value(e.net, p);
    assert(scaled_score(p, e.cfg.eval, v) == v && scaled_score(p, e.cfg.eval, -v) == -v);
}

/// A repeated position is worth the draw, or nothing where the search was told to
/// stop.
pub proof fn lemma_drawn_or_stopped(
    e: Env,
    p: Position,
    depth: int,
    ply: int,
    alpha: int,
    beta: int,
    prev: Move,
    excluded: Move,
    r: Run,
)
    requires
        1 <= ply < 128,
        e.cfg.contempt > i32::MIN,
        thrice(p) || again_since(p, e.cfg.game_ply as int) || p.halfmove >= 100,
    ensures
        ab(e, p, depth, ply, alpha, beta, prev, excluded, r).score == -e.cfg.contempt || ab(
            e,
            p,
            depth,
            ply,
            alpha,
            beta,
            prev,
            excluded,
            r,
        ).score == 0,
{
    law_what_counts_as_drawn(p, e.cfg.game_ply as int);
}

/// A null move passes the turn and gives up the right to take en passant; nothing
/// else changes, and the hash is that of the new position.
pub proof fn law_null_moves_pass_the_turn(p: Position)
    ensures
        p.side == Color::White ==> passed(p).side == Color::Black,
        p.side == Color::Black ==> passed(p).side == Color::White,
        passed(p).ep is None,
        passed(p).mailbox == p.mailbox,
        passed(p).pieces == p.pieces,
        passed(p).occupancy == p.occupancy,
        passed(p).castling == p.castling,
        passed(p).rooks == p.rooks,
        passed(p).halfmove == p.halfmove,
        passed(p).fullmove == p.fullmove,
        passed(p).history == p.history,
        p.hash == p.full_hash() ==> passed(p).hash == passed(p).full_hash(),
{
    reveal(passed);
    if p.hash == p.full_hash() {
        law_null_move_hash(p);
    }
}

/// The entry of a move is still ahead in a list.
spec fn still_ahead(list: Seq<Scored>, i: int, m: Move) -> bool {
    exists|j: int| i <= j < list.len() && (#[trigger] list[j]).m == m
}

proof fn lemma_ahead_after_pick(list: Seq<Scored>, i: int, m: Move)
    requires
        0 <= i < list.len(),
        still_ahead(list, i, m),
    ensures
        picked(list, i).len() == list.len(),
        picked(list, i)[i].m == m || still_ahead(picked(list, i), i + 1, m),
{
    lemma_best_from(list, i, i + 1);
    let b = best_from(list, i, i + 1);
    let l = picked(list, i);
    let j = choose|j: int| i <= j < list.len() && (#[trigger] list[j]).m == m;
    if j == b {
        assert(l[i].m == m);
    } else if j == i {
        assert(l[b].m == m);
    } else {
        assert(l[j].m == m);
    }
}

proof fn lemma_captures_find(
    e: Env,
    p: Position,
    ply: int,
    beta: int,
    checks: bool,
    stand: int,
    list: Seq<Scored>,
    i: int,
    s: Line,
    m: Move,
    v: int,
)
    requires
        0 <= i,
        0 <= ply < 128,
        in_window(s, s.alpha, beta),
        still_ahead(list, i, m),
        exchange(p, m) >= 0,
        tries(p, m),
        forall|a: int, b: int, r: Run|
            (#[trigger] qs(e, played(p, m), ply + 1, a, b, false, r)).run.stop || qs(
                e,
                played(p, m),
                ply + 1,
                a,
                b,
                false,
                r,
            ).score == -v,
    ensures
        ({
            let out = qs_captures(e, p, ply, beta, checks, stand, list, i, s);
            out.run.stop || out.score >= v || out.score == beta
        }),
    decreases list.len() - i,
{
    reveal(Run::stored);
    lemma_ahead_after_pick(list, i, m);
    let l = picked(list, i);
    let x = l[i].m;
    if exchange(p, x) < 0 || !tries(p, x) {
        lemma_captures_find(e, p, ply, beta, checks, stand, l, i + 1, s, m, v);
    } else {
        let child = qs(e, played(p, x), ply + 1, -beta, -s.alpha, false, s.run);
        if !child.run.stop && -child.score < beta {
            let s1 = q_after(s, x, child);
            if x == m {
                assert(child.score == -v);
                lemma_captures_bounded(e, p, ply, beta, checks, stand, l, i + 1, s1, s1.alpha);
            } else {
                lemma_captures_find(e, p, ply, beta, checks, stand, l, i + 1, s1, m, v);
            }
        }
    }
}

proof fn lemma_listed(p: Position, tt_move: Move, s: Seq<Move>, m: Move)
    requires
        s.contains(m),
        s.len() <= 128,
    ensures
        capture_list(p, tt_move, s).len() == s.len(),
        still_ahead(capture_list(p, tt_move, s), 0, m),
    decreases s.len(),
{
    lemma_listed_len(p, tt_move, s);
    let t = s.drop_last();
    lemma_listed_len(p, tt_move, t);
    let rest = capture_list(p, tt_move, t);
    let all = capture_list(p, tt_move, s);
    if s.last() == m {
        assert(all[s.len() - 1].m == m);
    } else {
        let k = choose|k: int| 0 <= k < s.len() && s[k] == m;
        assert(t[k] == m);
        lemma_listed(p, tt_move, t, m);
        let j = choose|j: int| 0 <= j < rest.len() && (#[trigger] rest[j]).m == m;
        assert(all[j].m == m);
    }
}

proof fn lemma_listed_len(p: Position, tt_move: Move, s: Seq<Move>)
    requires
        s.len() <= 128,
    ensures
        capture_list(p, tt_move, s).len() == s.len(),
    decreases s.len(),
{
    if s.len() > 0 {
        lemma_listed_len(p, tt_move, s.drop_last());
    }
}

/// The quiescence search finds a capture that mates: where one of the captures or
/// promotions loses no material and leaves the opponent in check without a legal
/// move, a position of which nothing is stored is worth a mate in that many
/// plies, or all that the window holds.
pub proof fn law_quiescence_finds_mating_captures(
    e: Env,
    p: Position,
    ply: int,
    alpha: int,
    beta: int,
    checks: bool,
    r: Run,
    m: Move,
)
    requires
        is_new(p),
        1 <= ply < 127,
        !in_check(p, p.side),
        -40_000 <= alpha < beta <= 40_000,
        r.tt.found(p.hash) is None,
        r.nodes % 1024 != 0,
        alpha <= static_eval(
            e,
            p,
            Run { nodes: r.nodes.wrapping_add(1), seldepth: if ply > r.seldepth { ply as u8 } else { r.seldepth }, ..r },
            ply,
        ) + 1100,
        tactical_moves(p).contains(m),
        tactical_moves(p).len() <= 128,
        static_exchange(p, m) >= 0,
        p.fits(m),
        !in_check_after(p, m),
        p.after(m).sound(),
        is_new(p.after(m)),
        in_check(p.after(m), p.after(m).side),
        legal_moves(p.after(m)).len() == 0,
    ensures
        ({
            let out = qs(e, p, ply, alpha, beta, checks, r);
            out.run.stop || out.score >= 30000 - (ply + 1) || out.score == beta
        }),
{
    law_what_counts_as_drawn(p, e.cfg.game_ply as int);
    lemma_polled(e, r);
    reveal(checked);
    reveal(Run::found);
    reveal(Run::stored);
    reveal(exchange);
    reveal(tries);
    reveal(played);
    let r2 = r.counted();
    let r3 = Run { seldepth: if ply > r2.seldepth { ply as u8 } else { r2.seldepth }, ..r2 };
    let stand = static_eval(e, p, r3, ply);
    let a = if stand > alpha { stand } else { alpha };
    assert(qs(e, p, ply, alpha, beta, checks, r) == qs_node(e, p, ply, alpha, beta, checks, r3));
    assert(qs_node(e, p, ply, alpha, beta, checks, r3) == qs_moves(
        e,
        p,
        ply,
        alpha,
        beta,
        checks,
        false,
        Move(0),
        r3,
    ));
    if stand < beta {
        assert forall|x: int, y: int, s: Run|
            (#[trigger] qs(e, played(p, m), ply + 1, x, y, false, s)).run.stop || qs(
                e,
                played(p, m),
                ply + 1,
                x,
                y,
                false,
                s,
            ).score == -(30000 - (ply + 1)) by {
            law_quiescence_sees_mate(e, played(p, m), ply + 1, x, y, false, s);
        }
        lemma_listed(p, Move(0), tactical_moves(p), m);
        lemma_captures_find(
            e,
            p,
            ply,
            beta,
            checks,
            stand,
            capture_list(p, Move(0), tactical_moves(p)),
            0,
            Line { alpha: a, best: stand, best_move: Move(0), any: false, pv: Seq::empty(), run: r3 },
            m,
            30000 - (ply + 1),
        );
    }
}

/// No mate is shorter than the way to this node: a window beyond it is settled at
/// once, at its near end.
pub proof fn law_mate_distance_settles(
    e: Env,
    p: Position,
    depth: int,
    ply: int,
    alpha: int,
    beta: int,
    prev: Move,
    excluded: Move,
    r: Run,
)
    requires
        is_new(p),
        1 <= ply < 128,
        r.nodes % 1024 != 0,
        i32::MIN <= alpha < beta <= i32::MAX,
    ensures
        alpha >= 30000 - ply ==> ab(e, p, depth, ply, alpha, beta, prev, excluded, r).score == alpha,
        beta <= -30000 + ply ==> ab(e, p, depth, ply, alpha, beta, prev, excluded, r).score == beta,
{
    law_what_counts_as_drawn(p, e.cfg.game_ply as int);
    lemma_polled(e, r);
}

/// Nothing is cut before its moves are searched in check, on the principal
/// variation, when a move is left out, or among mates; and a side that has nothing
/// but pawns and king never passes its move.
pub proof fn law_when_nothing_is_cut(e: Env, p: Position, n: Node, r: Run)
    ensures
        n.in_check || n.is_pv || n.excluded.0 != 0 || n.mating ==> ab_cuts(e, p, n, r) == Step::Go(Seq::empty(), r),
        p.set_of(p.side, PieceKind::Knight).0 == 0 && p.set_of(p.side, PieceKind::Bishop).0 == 0 && p.set_of(
            p.side,
            PieceKind::Rook,
        ).0 == 0 && p.set_of(p.side, PieceKind::Queen).0 == 0 ==> ab_null(e, p, n, r) == Step::Go(Seq::empty(), r),
        n.eval < n.beta ==> ab_null(e, p, n, r) == Step::Go(Seq::empty(), r),
{
    reveal(has_pieces);
}

/// The first move of a node is never passed over for its prospects, nor is any on
/// the principal variation or in check.
pub proof fn law_when_no_move_is_passed_over(e: Env, p: Position, n: Node, s: Moves, m: Move, r: Run)
    requires
        s.searched == 0 || n.is_pv || n.in_check,
    ensures
        !pruned_by_exchange(e, p, n, s, m),
        !pruned_late(e, p, n, s, m, r),
{
    reveal(pruned_by_exchange);
    reveal(pruned_late);
}

/// What is learned from a quiet move that refutes another: it becomes the first
/// killer of its ply, the last one becomes the second, and it is noted as the
/// reply.
pub proof fn law_refutations_are_remembered(r: Run, p: Position, n: Node, m: Move)
    requires
        !m.kind().captures(),
        n.ply < 128,
        r.killers.len() == 128,
        r.tables.counters.len() == 4096,
    ensures
        ({
            let now = learned(r, p, n, m, Seq::empty(), Seq::empty());
            &&& now.killers[n.ply as int].0 == m
            &&& r.killers[n.ply as int].0 != m ==> now.killers[n.ply as int].1 == r.killers[n.ply as int].0
            &&& n.prev.0 != 0 ==> now.tables.counter_to(n.prev) == m
            &&& forall|i: int| 0 <= i < 128 && i != n.ply ==> #[trigger] now.killers[i] == r.killers[i]
            &&& now.tt == r.tt && now.nodes == r.nodes && now.stop == r.stop
        }),
{
    reveal(learned);
}

/// The static evaluation gives way to a stored score that says more: an exact one,
/// a lower bound above it, or an upper bound below it. Mates are not taken over.
pub proof fn law_stored_scores_refine_the_evaluation(raw: int, score: int)
    requires
        -29_000 < score < 29_000,
    ensures
        refined(raw, true, TTFlag::Exact, score) == score,
        refined(raw, true, TTFlag::LowerBound, score) == (if score > raw { score } else { raw }),
        refined(raw, true, TTFlag::UpperBound, score) == (if score < raw { score } else { raw }),
        forall|flag: TTFlag, s: int| #[trigger] refined(raw, false, flag, s) == raw,
        forall|flag: TTFlag, s: int| s >= 29_000 || s <= -29_000 ==> #[trigger] refined(raw, true, flag, s) == raw,
{
}

/// A result above the evaluation of a position raises it the next time, one below
/// lowers it, where nothing was learned before.
pub proof fn law_results_correct_the_evaluation(r: Run, p: Position, n: Node, best: int)
    requires
        r.tables == Tables::blank(),
        contexts_ok(r.ctxs),
        n.depth <= 128,
        n.ply <= 128,
    ensures
        ({
            let now = corrected_run(r, p, n, best);
            let c = now.tables.correction(p, now.ctxs, n.ply as int, 100);
            &&& best >= n.eval ==> c >= 0
            &&& best <= n.eval ==> c <= 0
            &&& now.tt == r.tt && now.nodes == r.nodes && now.stop == r.stop
        }),
{
    reveal(corrected_run);
    law_corrections_have_the_sign_of_the_residual(p, n.depth as int, best - n.eval, r.ctxs, n.ply as int);
}

/// The bound that a score is, seen from the window in which it was found.
pub open spec fn bound_in(alpha: int, beta: int, score: int) -> TTFlag {
    if score >= beta {
        TTFlag::LowerBound
    } else if score > alpha {
        TTFlag::Exact
    } else {
        TTFlag::UpperBound
    }
}

/// The last thing that a search does is to store a score with a bound.
spec fn ends_in_store(out: Out, p: Position, n: Node, v: int) -> bool {
    exists|r: Run, m: Move|
        out.run == #[trigger] r.stored(
            p.hash,
            n.effective,
            to_tt(v, n.ply as int),
            bound_in(n.alpha as int, n.beta as int, v),
            m,
        )
}

proof fn lemma_end_stores(p: Position, n: Node, s: Moves, v: int)
    requires
        s.searched > 0,
        n.excluded.0 == 0,
        s.best == v,
        s.flag == bound_in(n.alpha as int, n.beta as int, v),
    ensures
        ends_in_store(ab_end(p, n, s), p, n, v),
{
    reveal(ab_end);
    let r1 = if corrects(n, s) { corrected_run(s.run, p, n, s.best as int) } else { s.run };
    assert(ab_end(p, n, s).run == r1.stored(
        p.hash,
        n.effective,
        to_tt(v, n.ply as int),
        bound_in(n.alpha as int, n.beta as int, v),
        s.best_move,
    ));
}

proof fn lemma_level_moves_store(
    e: Env,
    p: Position,
    n: Node,
    k: (Move, Move, Move),
    pk: Picker,
    s: Moves,
    v: int,
    m0: Move,
    seen: Set<int>,
)
    requires
        pk.ok(),
        has_room(pk, p),
        n.ply < 127,
        n.is_pv,
        n.excluded.0 == 0,
        n.tt_move.0 == 0,
        n.alpha < n.beta,
        -2_000_000_000 <= v <= 2_000_000_000,
        forall|m: Move| #[trigger] pending(pk, p, m) <= occurrences(pseudo_moves(p), m),
        forall|m: Move| seen.contains(m.0 as int) ==> #[trigger] pending(pk, p, m) == 0,
        seen.subset_of(set_int_range(0, 65536)),
        forall|m: Move| pseudo_moves(p).contains(m) && #[trigger] tries(p, m) ==> always(e, played(p, m), n.ply + 1, -v),
        forall|m: Move| #[trigger] occurrences(pseudo_moves(p), m) <= 1,
        tries(p, m0),
        s.searched <= seen.len(),
        s.searched == 0 ==> s.best == -2147483647 && pending(pk, p, m0) > 0 && s.alpha == n.alpha && s.flag
            == TTFlag::UpperBound,
        s.searched > 0 ==> s.best == v && v < n.beta && s.flag == bound_in(n.alpha as int, n.beta as int, v),
    ensures
        ab_moves(e, p, n, k, pk, s).run.stop || ends_in_store(ab_moves(e, p, n, k, pk, s), p, n, v),
    decreases pk.rank(), pk.left(),
{
    reveal(next_move);
    reveal(tests_singular);
    reveal(pruned_by_exchange);
    reveal(pruned_late);
    let h = Hints { tables: s.run.tables, ctxs: s.run.ctxs, ply: n.ply as int, killers: (k.0, k.1), counter: k.2 };
    let (pk1, next) = pk.next(p, h);
    lemma_picker_advances(pk, p, h);
    lemma_next_of_those_to_come(pk, p, h, m0);
    lemma_int_range(0, 65536);
    lemma_len_subset(seen, set_int_range(0, 65536));
    if next is Some {
        let m = next->Some_0;
        lemma_next_of_those_to_come(pk, p, h, m);
        lemma_occurs(pseudo_moves(p), m);
        assert(pending(pk, p, m) >= 1);
        assert(occurrences(pseudo_moves(p), m) >= 1);
        let more = seen.insert(m.0 as int);
        assert(!seen.contains(m.0 as int));
        assert forall|x: Move| #[trigger] pending(pk1, p, x) <= occurrences(pseudo_moves(p), x) by {
            lemma_next_of_those_to_come(pk, p, h, x);
            assert(pending(pk, p, x) <= occurrences(pseudo_moves(p), x));
        }
        assert forall|x: Move| more.contains(x.0 as int) implies #[trigger] pending(pk1, p, x) == 0 by {
            lemma_next_of_those_to_come(pk, p, h, x);
            assert(pending(pk, p, x) <= occurrences(pseudo_moves(p), x));
            assert(occurrences(pseudo_moves(p), x) <= 1);
            if x.0 == m.0 {
                assert(x == m);
            } else {
                assert(seen.contains(x.0 as int));
            }
        }
        assert(more.subset_of(set_int_range(0, 65536)));
        assert(more.len() == seen.len() + 1);
        let (singular, r1) = ab_singular(e, p, n, s, m);
        assert(!singular && r1 == s.run);
        let r2 = noted(r1, n.ply as int, m, p);
        if !tries(p, m) {
            lemma_level_moves_store(e, p, n, k, pk1, Moves { run: r2, ..s }, v, m0, more);
        } else {
            let extension = if singular || pawn_threat(p, m) { 1int } else { 0 };
            let d = move_depth(n, extension);
            lemma_child(e, p, n, k, s, m, d, r2, -v);
            let child = ab_child(e, p, n, k, s, m, d, r2);
            let s1 = Moves { run: child.run, ..remembered(s, m) };
            if !child.run.stop {
                assert(s1.searched == s.searched + 1);
                if s.searched > 0 {
                    lemma_level_moves_store(e, p, n, k, pk1, s1, v, m0, more);
                } else if v <= s.alpha {
                    lemma_level_moves_store(e, p, n, k, pk1, Moves { best: v as i32, best_move: m, ..s1 }, v, m0, more);
                } else {
                    let s2 = Moves {
                        best: v as i32,
                        best_move: m,
                        alpha: v as i32,
                        flag: TTFlag::Exact,
                        pv: line_of(m, child.pv),
                        ..s1
                    };
                    if v < n.beta {
                        lemma_level_moves_store(e, p, n, k, pk1, s2, v, m0, more);
                    } else {
                        lemma_end_stores(
                            p,
                            n,
                            Moves { flag: TTFlag::LowerBound, run: learned(s2.run, p, n, m, s2.quiets, s2.captures), ..s2 },
                            v,
                        );
                    }
                }
            }
        }
    } else {
        lemma_end_stores(p, n, s, v);
    }
}

proof fn lemma_children_draw(e: Env, p: Position, ply: int)
    requires
        p.sound(),
        1 <= ply < 127,
        -2_000_000_000 <= e.cfg.contempt <= 2_000_000_000,
        forall|m: Move| #[trigger]
            legal_moves(p).contains(m) ==> thrice(p.after(m)) || again_since(p.after(m), e.cfg.game_ply as int) || p.after(
                m,
            ).halfmove >= 100,
    ensures
        forall|m: Move|
            pseudo_moves(p).contains(m) && #[trigger] tries(p, m) ==> always(
                e,
                played(p, m),
                ply + 1,
                -e.cfg.contempt as int,
            ),
{
    reveal(played);
    let v = e.cfg.contempt as int;
    assert forall|m: Move| pseudo_moves(p).contains(m) && #[trigger] tries(p, m) implies always(
        e,
        played(p, m),
        ply + 1,
        -v,
    ) by {
        lemma_tried_iff_legal(p, m);
        let q = played(p, m);
        assert forall|d: int, a: int, b: int, x: Move, s: Run|
            (#[trigger] ab(e, q, d, ply + 1, a, b, x, Move(0), s)).run.stop || ab(
                e,
                q,
                d,
                ply + 1,
                a,
                b,
                x,
                Move(0),
                s,
            ).score == -v by {
            law_repetition_is_worth_a_draw(e, q, d, ply + 1, a, b, x, Move(0), s);
        }
    }
}

proof fn lemma_draws_stored(e: Env, p: Position, depth: int, ply: int, alpha: int, beta: int, prev: Move, r: Run) -> (n: Node)
    requires
        open_node(e, p, depth, ply, alpha, beta, r),
        -2_000_000_000 <= e.cfg.contempt <= 2_000_000_000,
        legal_moves(p).len() > 0,
        forall|m: Move|
            pseudo_moves(p).contains(m) && #[trigger] tries(p, m) ==> always(
                e,
                played(p, m),
                ply + 1,
                -e.cfg.contempt as int,
            ),
    ensures
        n.alpha == alpha,
        n.beta == beta,
        n.ply == ply,
        n.effective >= depth,
        ab(e, p, depth, ply, alpha, beta, prev, Move(0), r).run.stop || ends_in_store(
            ab(e, p, depth, ply, alpha, beta, prev, Move(0), r),
            p,
            n,
            e.cfg.contempt as int,
        ),
{
    let v = e.cfg.contempt as int;
    let (n, r1) = lemma_open_node(e, p, depth, ply, alpha, beta, prev, r);
    let m0 = legal_moves(p)[0];
    assert(legal_moves(p).contains(m0));
    lemma_keep_safe_contains(p, pseudo_moves(p), m0);
    lemma_tried_iff_legal(p, m0);
    lemma_occurs(pseudo_moves(p), m0);
    assert forall|m: Move| #[trigger] pending(Picker::fresh(Move(0)), p, m) <= occurrences(pseudo_moves(p), m) by {
        lemma_all_to_come(p, m);
    }
    assert forall|m: Move| #[trigger] occurrences(pseudo_moves(p), m) <= 1 by {
        lemma_all_to_come(p, m);
    }
    lemma_all_to_come(p, m0);
    lemma_level_moves_store(
        e,
        p,
        n,
        favourites(n, r1),
        Picker::fresh(Move(0)),
        no_moves(n, Seq::empty(), r1),
        v,
        m0,
        Set::empty(),
    );
    n
}

proof fn lemma_stored_in_table(out: Out, p: Position, n: Node, v: int, alpha: int, beta: int, ply: int)
    requires
        ends_in_store(out, p, n, v),
        n.alpha == alpha,
        n.beta == beta,
        n.ply == ply,
    ensures
        exists|before: Table, m: Move|
            out.run.tt == #[trigger] before.stored(p.hash, n.effective, to_tt(v, ply), bound_in(alpha, beta, v), m),
{
    reveal(Run::stored);
    let (r0, m) = choose|r0: Run, m: Move|
        out.run == #[trigger] r0.stored(
            p.hash,
            n.effective,
            to_tt(v, n.ply as int),
            bound_in(n.alpha as int, n.beta as int, v),
            m,
        );
    assert(out.run.tt == r0.tt.stored(p.hash, n.effective, to_tt(v, ply), bound_in(alpha, beta, v), m));
}

/// A table in which the last thing stored is a score with a bound, at a depth no
/// less than a given one.
#[verifier::opaque]
pub open spec fn just_stored(t: Table, hash: u64, least: int, score: int, flag: TTFlag) -> bool {
    exists|before: Table, d: u8, m: Move| t == #[trigger] before.stored(hash, d, score, flag, m) && d >= least
}

proof fn lemma_just_stored(t: Table, before: Table, hash: u64, d: u8, least: int, score: int, flag: TTFlag, m: Move)
    requires
        t == before.stored(hash, d, score, flag, m),
        d >= least,
    ensures
        just_stored(t, hash, least, score, flag),
{
    reveal(just_stored);
}

proof fn lemma_draws_just_stored(e: Env, p: Position, depth: int, ply: int, alpha: int, beta: int, prev: Move, r: Run)
    requires
        open_node(e, p, depth, ply, alpha, beta, r),
        -2_000_000_000 <= e.cfg.contempt <= 2_000_000_000,
        legal_moves(p).len() > 0,
        forall|m: Move|
            pseudo_moves(p).contains(m) && #[trigger] tries(p, m) ==> always(
                e,
                played(p, m),
                ply + 1,
                -e.cfg.contempt as int,
            ),
    ensures
        ab(e, p, depth, ply, alpha, beta, prev, Move(0), r).run.stop || just_stored(
            ab(e, p, depth, ply, alpha, beta, prev, Move(0), r).run.tt,
            p.hash,
            depth,
            to_tt(e.cfg.contempt as int, ply),
            bound_in(alpha, beta, e.cfg.contempt as int),
        ),
{
    let n = lemma_draws_stored(e, p, depth, ply, alpha, beta, prev, r);
    let out = ab(e, p, depth, ply, alpha, beta, prev, Move(0), r);
    let v = e.cfg.contempt as int;
    if !out.run.stop {
        lemma_stored_in_table(out, p, n, v, alpha, beta, ply);
        let (before, m) = choose|before: Table, m: Move|
            out.run.tt == #[trigger] before.stored(p.hash, n.effective, to_tt(v, ply), bound_in(alpha, beta, v), m);
        lemma_just_stored(
            out.run.tt,
            before,
            p.hash,
            n.effective,
            depth,
            to_tt(v, ply),
            bound_in(alpha, beta, v),
            m,
        );
    }
}

/// What was found out about a position is stored as the bound that it is: where
/// every legal move leads to a draw, the score of the draw is stored as exact if it
/// lies within the window, as a lower bound from the top of the window on, and as
/// an upper bound up to its bottom.
pub proof fn law_bounds_are_stored_as_such(
    e: Env,
    p: Position,
    depth: int,
    ply: int,
    alpha: int,
    beta: int,
    prev: Move,
    r: Run,
)
    requires
        open_node(e, p, depth, ply, alpha, beta, r),
        -2_000_000_000 <= e.cfg.contempt <= 2_000_000_000,
        legal_moves(p).len() > 0,
        forall|m: Move| #[trigger]
            legal_moves(p).contains(m) ==> thrice(p.after(m)) || again_since(p.after(m), e.cfg.game_ply as int) || p.after(
                m,
            ).halfmove >= 100,
    ensures
        ({
            let out = ab(e, p, depth, ply, alpha, beta, prev, Move(0), r);
            let v = e.cfg.contempt as int;
            let flag = if v >= beta {
                TTFlag::LowerBound
            } else if v > alpha {
                TTFlag::Exact
            } else {
                TTFlag::UpperBound
            };
            out.run.stop || just_stored(out.run.tt, p.hash, depth, to_tt(v, ply), flag)
        }),
{
    lemma_children_draw(e, p, ply);
    lemma_draws_just_stored(e, p, depth, ply, alpha, beta, prev, r);
}

proof fn lemma_evasions_level(e: Env, p: Position, ply: int, alpha: int, beta: int, i: int, s: Line, v: int)
    requires
        0 <= i <= pseudo_moves(p).len(),
        0 <= ply < 127,
        -40_000 <= alpha < beta <= 40_000,
        forall|m: Move|
            pseudo_moves(p).contains(m) && #[trigger] tries(p, m) ==> forall|a: int, b: int, r: Run|
                (#[trigger] qs(e, played(p, m), ply + 1, a, b, false, r)).run.stop || qs(
                    e,
                    played(p, m),
                    ply + 1,
                    a,
                    b,
                    false,
                    r,
                ).score == -v,
        s.any ==> v < beta && s.best == v && s.alpha == (if v > alpha { v } else { alpha }),
        !s.any ==> s.best == -2147483647 && s.alpha == alpha,
        -2_000_000_000 <= v <= 2_000_000_000,
        s.any || exists|k: int| i <= k < pseudo_moves(p).len() && #[trigger] tries(p, pseudo_moves(p)[k]),
    ensures
        ({
            let out = qs_evasions(e, p, ply, beta, pseudo_moves(p), i, s);
            out.run.stop || out.score == (if v >= beta { beta } else if v > alpha { v } else { alpha })
        }),
    decreases pseudo_moves(p).len() - i,
{
    reveal(Run::stored);
    let list = pseudo_moves(p);
    if i < list.len() {
        let m = list[i];
        assert(list.contains(m));
        if !tries(p, m) {
            lemma_evasions_level(e, p, ply, alpha, beta, i + 1, s, v);
        } else {
            let child = qs(e, played(p, m), ply + 1, -beta, -s.alpha, false, s.run);
            if !child.run.stop {
                assert(child.score == -v);
                let s1 = Line { any: true, run: child.run, ..s };
                if v <= s.best {
                    lemma_evasions_level(e, p, ply, alpha, beta, i + 1, s1, v);
                } else if v <= s.alpha {
                    lemma_evasions_level(e, p, ply, alpha, beta, i + 1, Line { best: v, best_move: m, ..s1 }, v);
                } else if v < beta {
                    lemma_evasions_level(
                        e,
                        p,
                        ply,
                        alpha,
                        beta,
                        i + 1,
                        Line { best: v, best_move: m, alpha: v, pv: line_of(m, child.pv), ..s1 },
                        v,
                    );
                }
            }
        }
    }
}

/// Out of check the quiescence search tries every move: where each of them leads to
/// a draw by repetition or by the fifty-move rule, the position is worth what the
/// draw is worth to the opponent, with the opposite sign, within the window.
pub proof fn law_quiescence_of_evasions(e: Env, p: Position, ply: int, alpha: int, beta: int, checks: bool, r: Run)
    requires
        p.sound(),
        is_new(p),
        1 <= ply < 127,
        -40_000 <= alpha < beta <= 40_000,
        -2_000_000_000 <= e.cfg.contempt <= 2_000_000_000,
        in_check(p, p.side),
        legal_moves(p).len() > 0,
        forall|m: Move| #[trigger]
            legal_moves(p).contains(m) ==> thrice(p.after(m)) || again_since(p.after(m), e.cfg.game_ply as int) || p.after(
                m,
            ).halfmove >= 100,
    ensures
        ({
            let out = qs(e, p, ply, alpha, beta, checks, r);
            let v = e.cfg.contempt;
            out.run.stop || out.score == (if v >= beta { beta } else if v > alpha { v as int } else { alpha })
        }),
{
    law_what_counts_as_drawn(p, e.cfg.game_ply as int);
    lemma_polled(e, r);
    reveal(checked);
    reveal(played);
    let v = e.cfg.contempt as int;
    let list = pseudo_moves(p);
    assert forall|m: Move| list.contains(m) && #[trigger] tries(p, m) implies forall|a: int, b: int, s: Run|
        (#[trigger] qs(e, played(p, m), ply + 1, a, b, false, s)).run.stop || qs(
            e,
            played(p, m),
            ply + 1,
            a,
            b,
            false,
            s,
        ).score == -v by {
        lemma_tried_iff_legal(p, m);
        assert forall|a: int, b: int, s: Run|
            (#[trigger] qs(e, played(p, m), ply + 1, a, b, false, s)).run.stop || qs(
                e,
                played(p, m),
                ply + 1,
                a,
                b,
                false,
                s,
            ).score == -v by {
            law_quiet_repetition_is_worth_a_draw(e, played(p, m), ply + 1, a, b, false, s);
        }
    }
    let m0 = legal_moves(p)[0];
    assert(legal_moves(p).contains(m0));
    lemma_keep_safe_contains(p, list, m0);
    lemma_tried_iff_legal(p, m0);
    let k = choose|k: int| 0 <= k < list.len() && list[k] == m0;
    assert(tries(p, list[k]));
    if !polled(e, r).0 {
        let r2 = polled(e, r).1.counted();
        let r3 = Run { seldepth: if ply > r2.seldepth { ply as u8 } else { r2.seldepth }, ..r2 };
        let s = Line { alpha, best: -2147483647, best_move: Move(0), any: false, pv: Seq::empty(), run: r3 };
        lemma_evasions_level(e, p, ply, alpha, beta, 0, s, v);
        let tt_move = match r3.found(p.hash) {
            Some(entry) => entry.best_move,
            None => Move(0),
        };
        assert(qs_moves(e, p, ply, alpha, beta, checks, true, tt_move, r3) == qs_evasions(e, p, ply, beta, list, 0, s));
        assert(qs_node(e, p, ply, alpha, beta, checks, r3) == qs_moves(
            e,
            p,
            ply,
            alpha,
            beta,
            checks,
            true,
            tt_move,
            r3,
        ));
        assert(qs(e, p, ply, alpha, beta, checks, r) == qs_node(e, p, ply, alpha, beta, checks, r3));
    }
}

/// The searches of the positions after the moves of a position come to numbers
/// that can be negated.
pub open spec fn can_be_negated(e: Env, p: Position, ply: int) -> bool {
    forall|m: Move, d: int, a: int, b: int, r: Run|
        (#[trigger] ab(e, played(p, m), d, ply + 1, a, b, m, Move(0), r)).score > i32::MIN
}

proof fn lemma_child_negates(e: Env, p: Position, n: Node, k: (Move, Move, Move), s: Moves, m: Move, depth: int, r: Run)
    requires
        n.ply < 127,
        can_be_negated(e, p, n.ply as int),
    ensures
        ab_child(e, p, n, k, s, m, depth, r).score > i32::MIN,
{
    let q = played(p, m);
    let ply = n.ply as int;
    let a = s.alpha as int;
    let b = n.beta as int;
    let first = ab(e, q, depth, ply + 1, -b, -a, m, Move(0), r);
    let less = max_of(depth - reduction(e, p, n, k, s, m, r, depth), 0);
    let out = ab(e, q, less, ply + 1, -a - 1, -a, m, Move(0), r);
    let narrow = ab(e, q, depth, ply + 1, -a - 1, -a, m, Move(0), r);
    let wide = ab(e, q, depth, ply + 1, -b, -a, m, Move(0), narrow.run);
    let narrow2 = ab(e, q, depth, ply + 1, -a - 1, -a, m, Move(0), out.run);
    let wide2 = ab(e, q, depth, ply + 1, -b, -a, m, Move(0), narrow2.run);
    let v1 = ab_verify(e, q, depth, ply, a, b, m, r);
    let v2 = ab_verify(e, q, depth, ply, a, b, m, out.run);
}

proof fn lemma_drawing_move(
    e: Env,
    p: Position,
    n: Node,
    k: (Move, Move, Move),
    pk: Picker,
    s: Moves,
    v: int,
    m0: Move,
    seen: Set<int>,
)
    requires
        pk.ok(),
        has_room(pk, p),
        n.ply < 127,
        n.is_pv,
        n.excluded.0 == 0,
        n.tt_move.0 == 0,
        -2_000_000_000 <= v <= 2_000_000_000,
        can_be_negated(e, p, n.ply as int),
        forall|m: Move| seen.contains(m.0 as int) ==> #[trigger] pending(pk, p, m) == 0,
        forall|m: Move| #[trigger] pending(pk, p, m) <= 1,
        seen.subset_of(set_int_range(0, 65536)),
        tries(p, m0),
        always(e, played(p, m0), n.ply + 1, -v),
        s.searched <= seen.len(),
        s.searched > 0 && s.best >= v || pending(pk, p, m0) > 0,
    ensures
        ({
            let out = ab_moves(e, p, n, k, pk, s);
            out.run.stop || out.score >= v || out.score >= n.beta
        }),
    decreases pk.rank(), pk.left(),
{
    reveal(next_move);
    reveal(tests_singular);
    reveal(pruned_by_exchange);
    reveal(pruned_late);
    reveal(ab_end);
    let h = Hints { tables: s.run.tables, ctxs: s.run.ctxs, ply: n.ply as int, killers: (k.0, k.1), counter: k.2 };
    let (pk1, next) = pk.next(p, h);
    lemma_picker_advances(pk, p, h);
    lemma_next_of_those_to_come(pk, p, h, m0);
    lemma_int_range(0, 65536);
    lemma_len_subset(seen, set_int_range(0, 65536));
    if next is Some {
        let m = next->Some_0;
        lemma_next_of_those_to_come(pk, p, h, m);
        assert(pending(pk, p, m) >= 1);
        let more = seen.insert(m.0 as int);
        assert(!seen.contains(m.0 as int));
        assert forall|x: Move| #[trigger] pending(pk1, p, x) <= 1 by {
            lemma_next_of_those_to_come(pk, p, h, x);
            assert(pending(pk, p, x) <= 1);
        }
        assert forall|x: Move| more.contains(x.0 as int) implies #[trigger] pending(pk1, p, x) == 0 by {
            lemma_next_of_those_to_come(pk, p, h, x);
            assert(pending(pk, p, x) <= 1);
            if x.0 == m.0 {
                assert(x == m);
            } else {
                assert(seen.contains(x.0 as int));
            }
        }
        assert(more.subset_of(set_int_range(0, 65536)));
        assert(more.len() == seen.len() + 1);
        let (singular, r1) = ab_singular(e, p, n, s, m);
        assert(!singular && r1 == s.run);
        let r2 = noted(r1, n.ply as int, m, p);
        if !tries(p, m) {
            lemma_drawing_move(e, p, n, k, pk1, Moves { run: r2, ..s }, v, m0, more);
        } else {
            let extension = if singular || pawn_threat(p, m) { 1int } else { 0 };
            let d = move_depth(n, extension);
            lemma_child_negates(e, p, n, k, s, m, d, r2);
            if m == m0 {
                lemma_child(e, p, n, k, s, m, d, r2, -v);
            }
            let child = ab_child(e, p, n, k, s, m, d, r2);
            let score = -child.score;
            let s1 = Moves { run: child.run, ..remembered(s, m) };
            if !child.run.stop {
                assert(s1.searched == s.searched + 1);
                if score <= s.best {
                    lemma_drawing_move(e, p, n, k, pk1, s1, v, m0, more);
                } else if score <= s.alpha {
                    lemma_drawing_move(e, p, n, k, pk1, Moves { best: score as i32, best_move: m, ..s1 }, v, m0, more);
                } else {
                    let s2 = Moves {
                        best: score as i32,
                        best_move: m,
                        alpha: score as i32,
                        flag: TTFlag::Exact,
                        pv: line_of(m, child.pv),
                        ..s1
                    };
                    if score < n.beta {
                        lemma_drawing_move(e, p, n, k, pk1, s2, v, m0, more);
                    }
                }
            }
        }
    }
}

/// A draw at hand is never missed: on the principal variation a position from which
/// a legal move leads to a draw is worth at least that draw, or more than the
/// window holds.
pub proof fn law_a_drawing_move_is_not_missed(
    e: Env,
    p: Position,
    depth: int,
    ply: int,
    alpha: int,
    beta: int,
    prev: Move,
    r: Run,
    m0: Move,
)
    requires
        open_node(e, p, depth, ply, alpha, beta, r),
        -2_000_000_000 <= e.cfg.contempt <= 2_000_000_000,
        can_be_negated(e, p, ply),
        legal_moves(p).contains(m0),
        thrice(p.after(m0)) || again_since(p.after(m0), e.cfg.game_ply as int) || p.after(m0).halfmove >= 100,
    ensures
        ({
            let out = ab(e, p, depth, ply, alpha, beta, prev, Move(0), r);
            out.run.stop || out.score >= e.cfg.contempt || out.score >= beta
        }),
{
    reveal(played);
    let v = e.cfg.contempt as int;
    let (n, r1) = lemma_open_node(e, p, depth, ply, alpha, beta, prev, r);
    lemma_keep_safe_contains(p, pseudo_moves(p), m0);
    lemma_tried_iff_legal(p, m0);
    lemma_occurs(pseudo_moves(p), m0);
    let q = played(p, m0);
    assert forall|d: int, a: int, b: int, x: Move, s: Run|
        (#[trigger] ab(e, q, d, ply + 1, a, b, x, Move(0), s)).run.stop || ab(
            e,
            q,
            d,
            ply + 1,
            a,
            b,
            x,
            Move(0),
            s,
        ).score == -v by {
        law_repetition_is_worth_a_draw(e, q, d, ply + 1, a, b, x, Move(0), s);
    }
    assert(always(e, q, ply + 1, -v));
    assert forall|m: Move| #[trigger] pending(Picker::fresh(Move(0)), p, m) <= 1 by {
        lemma_all_to_come(p, m);
    }
    lemma_all_to_come(p, m0);
    lemma_drawing_move(
        e,
        p,
        n,
        favourites(n, r1),
        Picker::fresh(Move(0)),
        no_moves(n, Seq::empty(), r1),
        v,
        m0,
        Set::empty(),
    );
}

} // verus!
