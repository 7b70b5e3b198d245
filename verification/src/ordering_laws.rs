//! Laws of the move order.

use vstd::prelude::*;
use crate::board::Position;
use crate::movegen::{pseudo_moves, quiet_moves, tactical_moves};
use crate::movegen_laws::{law_generated_moves_fit, law_no_move_is_listed_twice, law_staged_generators_cover, law_staged_generators_split, lemma_occurrences_add, lemma_occurs, occurrences};
use crate::moves::Move;
use crate::ordering::{best_from, hash_move_passes, lemma_best_from, lemma_picker_advances, picked, scored_captures, scored_quiets, Hints, MpStage, Picker, Scored};
use crate::see::static_exchange;

verus! {

/// All moves that a picker still yields, where `hints(i)` orders the moves when
/// the move with number `i` is asked for.
pub open spec fn drained(pk: Picker, p: Position, hints: spec_fn(int) -> Hints, i: int) -> Seq<Move>
    decreases pk.rank(), pk.left(),
    when pk.ok()
    via drained_decreases
{
    match pk.next(p, hints(i)) {
        (q, Some(m)) => seq![m] + drained(q, p, hints, i + 1),
        (_, None) => Seq::empty(),
    }
}

#[via_fn]
proof fn drained_decreases(pk: Picker, p: Position, hints: spec_fn(int) -> Hints, i: int) {
    lemma_picker_advances(pk, p, hints(i));
}

/// A capture other than the hash move that loses material.
pub open spec fn is_losing(p: Position, tt_move: Move) -> spec_fn(Move) -> bool {
    |m: Move| m != tt_move && static_exchange(p, m) < 0
}

/// The captures that are put aside to come last.
pub open spec fn losing_captures(p: Position, tt_move: Move) -> Seq<Move> {
    tactical_moves(p).filter(is_losing(p, tt_move))
}

// Counting in a scored list.
spec fn one(b: bool) -> int {
    if b { 1 } else { 0 }
}

spec fn tally(s: Seq<Scored>, i: int, f: spec_fn(Move) -> bool) -> int
    decreases s.len() - i,
{
    if i >= s.len() { 0 } else { one(f(s[i].m)) + tally(s, i + 1, f) }
}

spec fn is_move(m: Move) -> spec_fn(Move) -> bool {
    |x: Move| x == m
}

spec fn loses(p: Position) -> spec_fn(Move) -> bool {
    |x: Move| static_exchange(p, x) < 0
}

proof fn lemma_tally_update(s: Seq<Scored>, i: int, k: int, x: Scored, f: spec_fn(Move) -> bool)
    requires
        0 <= i <= k < s.len(),
    ensures
        tally(s.update(k, x), i, f) == tally(s, i, f) - one(f(s[k].m)) + one(f(x.m)),
    decreases k - i,
{
    if i == k {
        lemma_tally_tail(s, s.update(k, x), i + 1, f);
    } else {
        lemma_tally_update(s, i + 1, k, x, f);
    }
}

proof fn lemma_tally_tail(s: Seq<Scored>, t: Seq<Scored>, i: int, f: spec_fn(Move) -> bool)
    requires
        0 <= i,
        s.len() == t.len(),
        forall|j: int| i <= j < s.len() ==> #[trigger] s[j] == t[j],
    ensures
        tally(s, i, f) == tally(t, i, f),
    decreases s.len() - i,
{
    if i < s.len() {
        assert(s[i] == t[i]);
        lemma_tally_tail(s, t, i + 1, f);
    }
}

proof fn lemma_tally_picked(s: Seq<Scored>, i: int, f: spec_fn(Move) -> bool)
    requires
        0 <= i < s.len(),
    ensures
        tally(s, i, f) == one(f(picked(s, i)[i].m)) + tally(picked(s, i), i + 1, f),
{
    lemma_best_from(s, i, i + 1);
    let b = best_from(s, i, i + 1);
    let t = s.update(i, s[b]);
    lemma_tally_update(s, i, i, s[b], f);
    lemma_tally_update(t, i, b, s[i], f);
    assert(t.update(b, s[i]) =~= picked(s, i));
    assert(t[b] == s[b]);
}

proof fn lemma_tally_push(s: Seq<Scored>, x: Scored, i: int, f: spec_fn(Move) -> bool)
    requires
        0 <= i <= s.len(),
    ensures
        tally(s.push(x), i, f) == tally(s, i, f) + one(f(x.m)),
    decreases s.len() - i,
{
    if i < s.len() {
        assert(s.push(x)[i] == s[i]);
        lemma_tally_push(s, x, i + 1, f);
    } else {
        assert(s.push(x)[i] == x);
        assert(tally(s.push(x), i + 1, f) == 0);
    }
}

proof fn lemma_occurrences_last(s: Seq<Move>, m: Move)
    requires
        s.len() > 0,
    ensures
        occurrences(s, m) == occurrences(s.drop_last(), m) + one(s.last() == m),
{
    assert(s =~= s.drop_last() + seq![s.last()]);
    lemma_occurrences_add(s.drop_last(), seq![s.last()], m);
    let l = seq![s.last()];
    assert(l.drop_first() =~= Seq::<Move>::empty());
    assert(occurrences(l.drop_first(), m) == 0);
}

/// How often a move occurs in a list without the hash move.
spec fn besides(s: Seq<Move>, tt_move: Move, m: Move) -> int {
    if m == tt_move { 0 } else { occurrences(s, m) }
}

proof fn lemma_captures_tally(p: Position, h: Hints, tt_move: Move, s: Seq<Move>, m: Move)
    ensures
        tally(scored_captures(p, h, tt_move, s), 0, is_move(m)) == besides(s, tt_move, m),
        tally(scored_captures(p, h, tt_move, s), 0, loses(p)) == s.filter(is_losing(p, tt_move)).len(),
    decreases s.len(),
{
    reveal(Seq::filter);
    if s.len() > 0 {
        lemma_captures_tally(p, h, tt_move, s.drop_last(), m);
        lemma_occurrences_last(s, m);
        let rest = scored_captures(p, h, tt_move, s.drop_last());
        let all = scored_captures(p, h, tt_move, s);
        if s.last() != tt_move {
            lemma_tally_push(rest, all.last(), 0, is_move(m));
            lemma_tally_push(rest, all.last(), 0, loses(p));
            assert(all == rest.push(all.last()));
        }
    }
}

proof fn lemma_quiets_tally(p: Position, h: Hints, tt_move: Move, s: Seq<Move>, m: Move)
    ensures
        tally(scored_quiets(p, h, tt_move, s), 0, is_move(m)) == besides(s, tt_move, m),
    decreases s.len(),
{
    if s.len() > 0 {
        lemma_quiets_tally(p, h, tt_move, s.drop_last(), m);
        lemma_occurrences_last(s, m);
        let rest = scored_quiets(p, h, tt_move, s.drop_last());
        let all = scored_quiets(p, h, tt_move, s);
        if s.last() != tt_move {
            lemma_tally_push(rest, all.last(), 0, is_move(m));
            assert(all == rest.push(all.last()));
        }
    }
}

// What is still to come.
/// How often a picker still yields a move.
pub closed spec fn pending(pk: Picker, p: Position, m: Move) -> int {
    let hash = one(m == pk.tt_move && hash_move_passes(p, m));
    let captures = besides(tactical_moves(p), pk.tt_move, m);
    let quiets = besides(quiet_moves(p), pk.tt_move, m);
    let listed = tally(pk.list, pk.idx, is_move(m));
    let aside = occurrences(pk.bad, m);
    match pk.stage {
        MpStage::TtMove => hash + captures + quiets + aside,
        MpStage::InitCaptures => captures + quiets + aside,
        MpStage::GoodCaptures => listed + quiets + aside,
        MpStage::InitQuiets => quiets + aside,
        MpStage::Quiets => listed + aside,
        MpStage::BadCaptures => occurrences(pk.bad.skip(pk.bad_idx), m),
        MpStage::Done => 0,
    }
}

/// There is room for all captures that are put aside.
pub closed spec fn has_room(pk: Picker, p: Position) -> bool {
    match pk.stage {
        MpStage::TtMove | MpStage::InitCaptures => pk.bad.len() + losing_captures(p, pk.tt_move).len() <= 64,
        MpStage::GoodCaptures => pk.bad.len() + tally(pk.list, pk.idx, loses(p)) <= 64,
        _ => true,
    }
}

/// One step of a picker takes the move that it yields from those to come, and
/// the last step leaves none.
spec fn takes_one(before: int, out: (Picker, Option<Move>), p: Position, m: Move) -> bool {
    match out.1 {
        Some(x) => before == one(x == m) + pending(out.0, p, m) && has_room(out.0, p),
        None => before == 0,
    }
}

proof fn lemma_bad_step(pk: Picker, p: Position, m: Move)
    requires
        pk.ok(),
        pk.stage == MpStage::BadCaptures,
    ensures
        takes_one(pending(pk, p, m), pk.from_bad(), p, m),
{
    let s = pk.bad.skip(pk.bad_idx);
    if pk.bad_idx < pk.bad.len() {
        assert(s[0] == pk.bad[pk.bad_idx]);
        assert(s.drop_first() =~= pk.bad.skip(pk.bad_idx + 1));
    } else {
        assert(s.len() == 0);
    }
}

proof fn lemma_listed_step(pk: Picker, p: Position, h: Hints, m: Move)
    requires
        pk.ok(),
        pk.stage == MpStage::Quiets,
    ensures
        takes_one(pending(pk, p, m), pk.from_listed(p, h), p, m),
{
    if pk.idx < pk.list.len() {
        lemma_tally_picked(pk.list, pk.idx, is_move(m));
    } else {
        assert(pk.bad.skip(0) =~= pk.bad);
        lemma_bad_step(Picker { stage: MpStage::BadCaptures, bad_idx: 0, ..pk }, p, m);
    }
}

proof fn lemma_quiets_step(pk: Picker, p: Position, h: Hints, m: Move)
    requires
        pk.ok(),
    ensures
        takes_one(
            besides(quiet_moves(p), pk.tt_move, m) + occurrences(pk.bad, m),
            pk.from_quiets(p, h),
            p,
            m,
        ),
{
    lemma_quiets_tally(p, h, pk.tt_move, quiet_moves(p), m);
    lemma_listed_step(
        Picker { list: scored_quiets(p, h, pk.tt_move, quiet_moves(p)), idx: 0, stage: MpStage::Quiets, ..pk },
        p,
        h,
        m,
    );
}

proof fn lemma_good_step(pk: Picker, p: Position, h: Hints, m: Move)
    requires
        pk.ok(),
        pk.stage == MpStage::GoodCaptures,
        has_room(pk, p),
    ensures
        takes_one(pending(pk, p, m), pk.from_good(p, h), p, m),
    decreases pk.list.len() - pk.idx,
{
    if pk.idx < pk.list.len() {
        let list = picked(pk.list, pk.idx);
        let x = list[pk.idx].m;
        let q = Picker { list, idx: pk.idx + 1, ..pk };
        lemma_tally_picked(pk.list, pk.idx, is_move(m));
        lemma_tally_picked(pk.list, pk.idx, loses(p));
        if static_exchange(p, x) < 0 {
            lemma_tally_nonnegative(list, pk.idx + 1, loses(p));
            lemma_occurrences_last(pk.bad.push(x), m);
            assert(pk.bad.push(x).drop_last() =~= pk.bad);
            lemma_good_step(Picker { bad: pk.bad.push(x), ..q }, p, h, m);
        }
    } else {
        lemma_quiets_step(Picker { stage: MpStage::InitQuiets, ..pk }, p, h, m);
    }
}

proof fn lemma_tally_nonnegative(s: Seq<Scored>, i: int, f: spec_fn(Move) -> bool)
    ensures
        tally(s, i, f) >= 0,
    decreases s.len() - i,
{
    if i < s.len() {
        lemma_tally_nonnegative(s, i + 1, f);
    }
}

proof fn lemma_captures_step(pk: Picker, p: Position, h: Hints, m: Move)
    requires
        pk.ok(),
        pk.bad.len() + losing_captures(p, pk.tt_move).len() <= 64,
    ensures
        takes_one(
            besides(tactical_moves(p), pk.tt_move, m) + besides(quiet_moves(p), pk.tt_move, m) + occurrences(pk.bad, m),
            pk.from_captures(p, h),
            p,
            m,
        ),
{
    lemma_captures_tally(p, h, pk.tt_move, tactical_moves(p), m);
    lemma_good_step(
        Picker {
            list: scored_captures(p, h, pk.tt_move, tactical_moves(p)),
            idx: 0,
            stage: MpStage::GoodCaptures,
            ..pk
        },
        p,
        h,
        m,
    );
}

proof fn lemma_step(pk: Picker, p: Position, h: Hints, m: Move)
    requires
        pk.ok(),
        has_room(pk, p),
    ensures
        takes_one(pending(pk, p, m), pk.next(p, h), p, m),
{
    match pk.stage {
        MpStage::TtMove => {
            lemma_captures_step(Picker { stage: MpStage::InitCaptures, ..pk }, p, h, m);
        },
        MpStage::InitCaptures => lemma_captures_step(pk, p, h, m),
        MpStage::GoodCaptures => lemma_good_step(pk, p, h, m),
        MpStage::InitQuiets => lemma_quiets_step(pk, p, h, m),
        MpStage::Quiets => lemma_listed_step(pk, p, h, m),
        MpStage::BadCaptures => lemma_bad_step(pk, p, m),
        MpStage::Done => {},
    }
}

proof fn lemma_drained(pk: Picker, p: Position, hints: spec_fn(int) -> Hints, i: int, m: Move)
    requires
        pk.ok(),
        has_room(pk, p),
    ensures
        occurrences(drained(pk, p, hints, i), m) == pending(pk, p, m),
    decreases pk.rank(), pk.left(),
{
    lemma_picker_advances(pk, p, hints(i));
    lemma_step(pk, p, hints(i), m);
    let (q, out) = pk.next(p, hints(i));
    if let Some(x) = out {
        lemma_drained(q, p, hints, i + 1, m);
        let rest = drained(q, p, hints, i + 1);
        assert(drained(pk, p, hints, i) == seq![x] + rest);
        assert((seq![x] + rest).drop_first() =~= rest);
    }
}

/// A picker yields the hash move once if it passes and never if it does not,
/// and every other pseudo-legal move as often as the full generator lists it,
/// whatever orders the moves. There is room for 64 captures that lose material;
/// a position with more of them loses the rest.
pub proof fn law_picker_yields_every_move(p: Position, tt_move: Move, hints: spec_fn(int) -> Hints, m: Move)
    requires
        p.consistent(),
        losing_captures(p, tt_move).len() <= 64,
    ensures
        occurrences(drained(Picker::fresh(tt_move), p, hints, 0), m) == if m == tt_move {
            if hash_move_passes(p, m) { 1int } else { 0 }
        } else {
            occurrences(pseudo_moves(p), m)
        },
{
    lemma_drained(Picker::fresh(tt_move), p, hints, 0, m);
    law_staged_generators_cover(p, m);
}

// The order of the stages.
/// Where a move comes in the order: captures and promotions that lose nothing,
/// quiet moves, captures and promotions that lose material.
pub open spec fn band(p: Position, m: Move) -> int {
    if !(m.kind().captures() || m.kind().promotes()) {
        1
    } else if static_exchange(p, m) >= 0 {
        0
    } else {
        2
    }
}

/// The first band from which a picker still yields moves.
spec fn floor(pk: Picker) -> int {
    match pk.stage {
        MpStage::TtMove | MpStage::InitCaptures | MpStage::GoodCaptures => 0,
        MpStage::InitQuiets | MpStage::Quiets => 1,
        _ => 2,
    }
}

spec fn tactical(m: Move) -> bool {
    m.kind().captures() || m.kind().promotes()
}

/// The lists of a picker hold what their stage says.
spec fn sorted_out(pk: Picker, p: Position) -> bool {
    &&& forall|i: int| 0 <= i < pk.bad.len() ==> band(p, #[trigger] pk.bad[i]) == 2
    &&& pk.stage == MpStage::GoodCaptures ==> forall|i: int| 0 <= i < pk.list.len() ==> tactical((#[trigger] pk.list[i]).m)
    &&& pk.stage == MpStage::Quiets ==> forall|i: int| 0 <= i < pk.list.len() ==> !tactical((#[trigger] pk.list[i]).m)
}

proof fn lemma_picked_among(s: Seq<Scored>, i: int, j: int)
    requires
        0 <= i < s.len(),
        0 <= j < s.len(),
    ensures
        exists|k: int| 0 <= k < s.len() && picked(s, i)[j] == #[trigger] s[k],
        picked(s, i).len() == s.len(),
{
    lemma_best_from(s, i, i + 1);
    let b = best_from(s, i, i + 1);
    let k = if j == i { b } else if j == b { i } else { j };
    assert(picked(s, i)[j] == s[k]);
}

proof fn lemma_scored_among(p: Position, h: Hints, tt_move: Move, s: Seq<Move>, i: int)
    ensures
        0 <= i < scored_captures(p, h, tt_move, s).len() ==> s.contains(scored_captures(p, h, tt_move, s)[i].m),
        0 <= i < scored_quiets(p, h, tt_move, s).len() ==> s.contains(scored_quiets(p, h, tt_move, s)[i].m),
    decreases s.len(),
{
    if s.len() > 0 {
        let t = s.drop_last();
        lemma_scored_among(p, h, tt_move, t, i);
        assert(s.contains(s.last()));
        assert forall|m: Move| t.contains(m) implies s.contains(m) by {
            let k = choose|k: int| 0 <= k < t.len() && t[k] == m;
            assert(s[k] == m);
        }
    }
}

/// A step of a picker yields a move of its band or a later one, and goes on from
/// there.
spec fn in_order(floor_before: int, out: (Picker, Option<Move>), p: Position) -> bool {
    match out.1 {
        Some(m) => floor_before <= band(p, m) && floor(out.0) >= band(p, m) && sorted_out(out.0, p),
        None => out.0.stage == MpStage::Done,
    }
}

proof fn lemma_listed_order(pk: Picker, p: Position, h: Hints)
    requires
        pk.ok(),
        pk.stage == MpStage::Quiets,
        sorted_out(pk, p),
    ensures
        in_order(1, pk.from_listed(p, h), p),
{
    if pk.idx < pk.list.len() {
        assert forall|j: int| 0 <= j < pk.list.len() implies !tactical((#[trigger] picked(pk.list, pk.idx)[j]).m) by {
            lemma_picked_among(pk.list, pk.idx, j);
        }
    }
}

proof fn lemma_quiets_order(pk: Picker, p: Position, h: Hints)
    requires
        pk.ok(),
        p.consistent(),
        sorted_out(Picker { stage: MpStage::InitQuiets, ..pk }, p),
    ensures
        in_order(1, pk.from_quiets(p, h), p),
{
    let list = scored_quiets(p, h, pk.tt_move, quiet_moves(p));
    assert forall|i: int| 0 <= i < list.len() implies !tactical((#[trigger] list[i]).m) by {
        lemma_scored_among(p, h, pk.tt_move, quiet_moves(p), i);
        law_staged_generators_split(p, list[i].m);
    }
    let q = Picker { list, idx: 0, stage: MpStage::Quiets, ..pk };
    assert(Picker { stage: MpStage::InitQuiets, ..pk }.bad == q.bad);
    lemma_listed_order(q, p, h);
}

proof fn lemma_good_order(pk: Picker, p: Position, h: Hints)
    requires
        pk.ok(),
        p.consistent(),
        pk.stage == MpStage::GoodCaptures,
        sorted_out(pk, p),
    ensures
        in_order(0, pk.from_good(p, h), p),
    decreases pk.list.len() - pk.idx,
{
    if pk.idx < pk.list.len() {
        let list = picked(pk.list, pk.idx);
        assert forall|j: int| 0 <= j < pk.list.len() implies tactical((#[trigger] list[j]).m) by {
            lemma_picked_among(pk.list, pk.idx, j);
        }
        let m = list[pk.idx].m;
        let q = Picker { list, idx: pk.idx + 1, ..pk };
        assert(tactical(list[pk.idx].m));
        if static_exchange(p, m) >= 0 {
        } else if pk.bad.len() < 64 {
            lemma_good_order(Picker { bad: pk.bad.push(m), ..q }, p, h);
        } else {
            lemma_good_order(q, p, h);
        }
    } else {
        lemma_quiets_order(Picker { stage: MpStage::InitQuiets, ..pk }, p, h);
    }
}

proof fn lemma_captures_order(pk: Picker, p: Position, h: Hints)
    requires
        pk.ok(),
        p.consistent(),
        sorted_out(Picker { stage: MpStage::InitCaptures, ..pk }, p),
    ensures
        in_order(0, pk.from_captures(p, h), p),
{
    let list = scored_captures(p, h, pk.tt_move, tactical_moves(p));
    assert forall|i: int| 0 <= i < list.len() implies tactical((#[trigger] list[i]).m) by {
        lemma_scored_among(p, h, pk.tt_move, tactical_moves(p), i);
        law_staged_generators_split(p, list[i].m);
    }
    let q = Picker { list, idx: 0, stage: MpStage::GoodCaptures, ..pk };
    assert(Picker { stage: MpStage::InitCaptures, ..pk }.bad == q.bad);
    lemma_good_order(q, p, h);
}

proof fn lemma_order(pk: Picker, p: Position, hints: spec_fn(int) -> Hints, n: int, i: int, j: int)
    requires
        pk.ok(),
        p.consistent(),
        pk.stage != MpStage::TtMove,
        sorted_out(pk, p),
    ensures
        ({
            let s = drained(pk, p, hints, n);
            &&& 0 <= i < s.len() ==> floor(pk) <= band(p, s[i])
            &&& 0 <= i < j < s.len() ==> band(p, s[i]) <= band(p, s[j])
        }),
    decreases pk.rank(), pk.left(),
{
    let h = hints(n);
    lemma_picker_advances(pk, p, h);
    match pk.stage {
        MpStage::TtMove => {},
        MpStage::InitCaptures => lemma_captures_order(pk, p, h),
        MpStage::GoodCaptures => lemma_good_order(pk, p, h),
        MpStage::InitQuiets => lemma_quiets_order(pk, p, h),
        MpStage::Quiets => lemma_listed_order(pk, p, h),
        MpStage::BadCaptures => {},
        MpStage::Done => {},
    }
    let (q, out) = pk.next(p, h);
    if let Some(m) = out {
        let rest = drained(q, p, hints, n + 1);
        let s = drained(pk, p, hints, n);
        assert(s == seq![m] + rest);
        lemma_order(q, p, hints, n + 1, i - 1, j - 1);
        lemma_order(q, p, hints, n + 1, j - 1, j - 1);
        if 0 < i < s.len() {
            assert(s[i] == rest[i - 1]);
        }
        if 0 < j < s.len() {
            assert(s[j] == rest[j - 1]);
        }
    }
}

/// A picker yields the hash move first, if it passes; then the captures and
/// promotions that lose nothing, then the quiet moves, then the captures and
/// promotions that lose material.
pub proof fn law_picker_keeps_the_stages(p: Position, tt_move: Move, hints: spec_fn(int) -> Hints, i: int, j: int)
    requires
        p.consistent(),
        (if hash_move_passes(p, tt_move) { 1int } else { 0 }) <= i < j < drained(
            Picker::fresh(tt_move),
            p,
            hints,
            0,
        ).len(),
    ensures
        band(p, drained(Picker::fresh(tt_move), p, hints, 0)[i]) <= band(
            p,
            drained(Picker::fresh(tt_move), p, hints, 0)[j],
        ),
        hash_move_passes(p, tt_move) ==> drained(Picker::fresh(tt_move), p, hints, 0)[0] == tt_move,
{
    let pk = Picker::fresh(tt_move);
    let later = Picker { stage: MpStage::InitCaptures, ..pk };
    let s = drained(pk, p, hints, 0);
    lemma_picker_advances(pk, p, hints(0));
    if tt_move.0 != 0 {
        if hash_move_passes(p, tt_move) {
            let rest = drained(later, p, hints, 1);
            assert(s == seq![tt_move] + rest);
            lemma_order(later, p, hints, 1, i - 1, j - 1);
            assert(s[i] == rest[i - 1] && s[j] == rest[j - 1]);
        } else {
            assert(pk.next(p, hints(0)) == later.next(p, hints(0)));
            assert(s == drained(later, p, hints, 0));
            lemma_order(later, p, hints, 0, i, j);
        }
    } else {
        lemma_order(pk, p, hints, 0, i, j);
    }
}

/// A picker that has no move left yields none ever after.
pub proof fn law_picker_stays_empty(pk: Picker, p: Position, h: Hints, later: Position, other: Hints)
    requires
        pk.ok(),
        p.consistent(),
        pk.next(p, h).1 is None,
    ensures
        pk.next(p, h).0.next(later, other) == (pk.next(p, h).0, None::<Move>),
{
    lemma_done(pk, p, h);
}

proof fn lemma_done(pk: Picker, p: Position, h: Hints)
    requires
        pk.ok(),
    ensures
        pk.next(p, h).1 is None ==> pk.next(p, h).0.stage == MpStage::Done,
{
    let q = if pk.stage == MpStage::TtMove { Picker { stage: MpStage::InitCaptures, ..pk } } else { pk };
    lemma_good_done(
        Picker {
            list: scored_captures(p, h, q.tt_move, tactical_moves(p)),
            idx: 0,
            stage: MpStage::GoodCaptures,
            ..q
        },
        p,
        h,
    );
    if pk.stage == MpStage::GoodCaptures {
        lemma_good_done(pk, p, h);
    }
}

proof fn lemma_good_done(pk: Picker, p: Position, h: Hints)
    requires
        pk.ok(),
        pk.stage == MpStage::GoodCaptures,
    ensures
        pk.from_good(p, h).1 is None ==> pk.from_good(p, h).0.stage == MpStage::Done,
    decreases pk.list.len() - pk.idx,
{
    if pk.idx < pk.list.len() {
        let list = picked(pk.list, pk.idx);
        let m = list[pk.idx].m;
        let q = Picker { list, idx: pk.idx + 1, ..pk };
        if static_exchange(p, m) >= 0 {
        } else if pk.bad.len() < 64 {
            lemma_good_done(Picker { bad: pk.bad.push(m), ..q }, p, h);
        } else {
            lemma_good_done(q, p, h);
        }
    }
}

proof fn lemma_occurrences_count(s: Seq<Move>, m: Move)
    ensures
        occurrences(s, m) == s.to_multiset().count(m),
    decreases s.len(),
{
    if s.len() > 0 {
        let rest = s.drop_first();
        let one = seq![s[0]];
        lemma_occurrences_count(rest, m);
        assert(one + rest =~= s);
        vstd::seq_lib::lemma_multiset_commutative(one, rest);
        assert(one =~= Seq::<Move>::empty().push(s[0]));
        Seq::<Move>::empty().to_multiset_ensures();
        assert(one.to_multiset() =~= vstd::multiset::Multiset::empty().insert(s[0]));
    } else {
        s.to_multiset_ensures();
    }
}

/// Without a hash move a picker yields the pseudo-legal moves, each once, in
/// three parts: the captures and promotions that lose nothing, the quiet moves,
/// and the captures and promotions that lose material, of which there is room
/// for 64.
pub proof fn law_picker_orders_the_moves(p: Position, hints: spec_fn(int) -> Hints)
    requires
        p.sound(),
        losing_captures(p, Move(0)).len() <= 64,
    ensures
        ({
            let s = drained(Picker::fresh(Move(0)), p, hints, 0);
            &&& s.to_multiset() == pseudo_moves(p).to_multiset()
            &&& forall|m: Move| #[trigger] s.to_multiset().count(m) <= 1
            &&& forall|i: int, j: int| 0 <= i < j < s.len() ==> band(p, #[trigger] s[i]) <= band(p, #[trigger] s[j])
        }),
{
    let none = Move(0);
    let s = drained(Picker::fresh(none), p, hints, 0);
    assert forall|m: Move| s.to_multiset().count(m) == pseudo_moves(p).to_multiset().count(m) && #[trigger] s.to_multiset().count(m) <= 1 by {
        law_picker_yields_every_move(p, none, hints, m);
        law_no_move_is_listed_twice(p, m);
        lemma_occurrences_count(s, m);
        lemma_occurrences_count(pseudo_moves(p), m);
        lemma_occurs(pseudo_moves(p), m);
        if m == none && pseudo_moves(p).contains(m) {
            law_generated_moves_fit(p, m);
            assert(m.src() == 0 && m.dst() == 0);
            assert(false);
        }
    }
    assert(s.to_multiset() =~= pseudo_moves(p).to_multiset());
    assert forall|i: int, j: int| 0 <= i < j < s.len() implies band(p, #[trigger] s[i]) <= band(p, #[trigger] s[j]) by {
        law_picker_keeps_the_stages(p, none, hints, i, j);
    }
}

/// One step of a picker: the move that it yields is one of those to come, and a
/// picker that yields nothing has nothing left.
pub proof fn lemma_next_of_those_to_come(pk: Picker, p: Position, h: Hints, m: Move)
    requires
        pk.ok(),
        has_room(pk, p),
    ensures
        pending(pk, p, m) >= 0,
        match pk.next(p, h) {
            (q, Some(x)) => has_room(q, p) && pending(pk, p, m) == (if x == m { 1int } else { 0 }) + pending(q, p, m)
                && pending(q, p, m) >= 0,
            (_, None) => pending(pk, p, m) == 0,
        },
{
    lemma_step(pk, p, h, m);
    lemma_pending_nonnegative(pk, p, m);
    lemma_pending_nonnegative(pk.next(p, h).0, p, m);
}

proof fn lemma_pending_nonnegative(pk: Picker, p: Position, m: Move)
    ensures
        pending(pk, p, m) >= 0,
{
    lemma_occurs(tactical_moves(p), m);
    lemma_occurs(quiet_moves(p), m);
    lemma_occurs(pk.bad, m);
    lemma_occurs(pk.bad.skip(pk.bad_idx), m);
    lemma_tally_nonnegative(pk.list, pk.idx, is_move(m));
}

/// A picker without a hash move begins with all pseudo-legal moves to come.
pub proof fn lemma_all_to_come(p: Position, m: Move)
    requires
        p.sound(),
        losing_captures(p, Move(0)).len() <= 64,
    ensures
        has_room(Picker::fresh(Move(0)), p),
        pending(Picker::fresh(Move(0)), p, m) == occurrences(pseudo_moves(p), m),
        pending(Picker::fresh(Move(0)), p, m) <= 1,
{
    law_staged_generators_cover(p, m);
    law_no_move_is_listed_twice(p, m);
    lemma_occurs(pseudo_moves(p), m);
    if m == Move(0) && pseudo_moves(p).contains(m) {
        law_generated_moves_fit(p, m);
        assert(m.src() == 0 && m.dst() == 0);
        assert(false);
    }
}

} // verus!
