//! Root moves in order, and lines of play.

use vstd::prelude::*;
use crate::board::{Board, Position};
use crate::movegen::{generate_legal_moves, legal_moves};
use crate::moves::Move;
use crate::ordering::Scored;
use crate::root::LEFT_OUT;
use crate::search::{occurred_twice, played};

verus! {

/// A move put behind all that score at least as much.
pub open spec fn put_in(s: Seq<Scored>, x: Scored) -> Seq<Scored>
    decreases s.len(),
{
    if s.len() == 0 || s.last().score >= x.score {
        s.push(x)
    } else {
        put_in(s.drop_last(), x).push(s.last())
    }
}

/// The list by descending score; equal scores keep their order.
pub open spec fn by_score(s: Seq<Scored>) -> Seq<Scored>
    decreases s.len(),
{
    if s.len() == 0 { Seq::empty() } else { put_in(by_score(s.drop_last()), s.last()) }
}

/// Every entry of one list occurs in another.
pub open spec fn drawn_from(s: Seq<Scored>, t: Seq<Scored>) -> bool {
    forall|i: int| 0 <= i < s.len() ==> t.contains(#[trigger] s[i])
}

proof fn lemma_put_in(s: Seq<Scored>, x: Scored)
    ensures
        put_in(s, x).len() == s.len() + 1,
        forall|i: int| 0 <= i <= s.len() ==> (#[trigger] put_in(s, x)[i] == x || s.contains(put_in(s, x)[i])),
    decreases s.len(),
{
    if s.len() == 0 || s.last().score >= x.score {
        assert forall|i: int| 0 <= i <= s.len() implies (#[trigger] put_in(s, x)[i] == x || s.contains(put_in(s, x)[i])) by {
            if i < s.len() {
                assert(put_in(s, x)[i] == s[i]);
            }
        }
    } else {
        lemma_put_in(s.drop_last(), x);
        let t = put_in(s.drop_last(), x);
        assert forall|i: int| 0 <= i <= s.len() implies (#[trigger] put_in(s, x)[i] == x || s.contains(put_in(s, x)[i])) by {
            if i < s.len() {
                assert(put_in(s, x)[i] == t[i]);
                if t[i] != x {
                    let j = choose|j: int| 0 <= j < s.drop_last().len() && s.drop_last()[j] == t[i];
                    assert(s[j] == t[i]);
                }
            } else {
                assert(put_in(s, x)[i] == s[s.len() - 1]);
            }
        }
    }
}

/// Sorting keeps the length and invents no entries.
pub proof fn lemma_by_score(s: Seq<Scored>)
    ensures
        by_score(s).len() == s.len(),
        drawn_from(by_score(s), s),
    decreases s.len(),
{
    if s.len() > 0 {
        let rest = s.drop_last();
        lemma_by_score(rest);
        lemma_put_in(by_score(rest), s.last());
        let t = by_score(s);
        assert forall|i: int| 0 <= i < t.len() implies s.contains(#[trigger] t[i]) by {
            if t[i] == s.last() {
                assert(s[s.len() - 1] == t[i]);
            } else {
                let b = by_score(rest);
                let j = choose|j: int| 0 <= j < b.len() && b[j] == t[i];
                assert(rest.contains(b[j]));
                let h = choose|h: int| 0 <= h < rest.len() && rest[h] == b[j];
                assert(s[h] == t[i]);
            }
        }
    }
}

/// The list is in descending order.
pub open spec fn descending(s: Seq<Scored>) -> bool {
    forall|i: int, j: int| 0 <= i <= j < s.len() ==> (#[trigger] s[i]).score >= (#[trigger] s[j]).score
}

/// Putting a move in keeps the order.
proof fn lemma_put_in_descending(s: Seq<Scored>, x: Scored)
    requires
        descending(s),
    ensures
        descending(put_in(s, x)),
        s.len() > 0 ==> put_in(s, x).last().score <= s.last().score || put_in(s, x).last() == x,
    decreases s.len(),
{
    lemma_put_in(s, x);
    if s.len() == 0 || s.last().score >= x.score {
    } else {
        let rest = s.drop_last();
        lemma_put_in_descending(rest, x);
        lemma_put_in(rest, x);
        let t = put_in(rest, x);
        assert(put_in(s, x) == t.push(s.last()));
        assert forall|i: int| 0 <= i < t.len() implies (#[trigger] t[i]).score >= s.last().score by {
            if t[i] != x {
                let j = choose|j: int| 0 <= j < rest.len() && rest[j] == t[i];
                assert(s[j].score >= s[s.len() - 1].score);
            }
        }
    }
}

/// The order of root moves: by descending score, and a rearrangement.
pub proof fn law_by_score_is_descending(s: Seq<Scored>)
    ensures
        descending(by_score(s)),
        by_score(s).len() == s.len(),
        drawn_from(by_score(s), s),
    decreases s.len(),
{
    lemma_by_score(s);
    if s.len() > 0 {
        law_by_score_is_descending(s.drop_last());
        lemma_put_in_descending(by_score(s.drop_last()), s.last());
    }
}

/// Puts a move behind all that score at least as much.
fn insert_scored(list: &mut Vec<Scored>, x: Scored)
    ensures
        final(list)@ == put_in(old(list)@, x),
{
    let ghost s = list@;
    let mut k: usize = list.len();
    proof {
        assert(s.take(k as int) =~= s);
        assert(put_in(s, x) =~= put_in(s.take(k as int), x) + s.skip(k as int));
    }
    while k > 0 && list[k - 1].score < x.score
        invariant
            k <= list@.len(),
            list@ == s,
            put_in(s, x) == put_in(s.take(k as int), x) + s.skip(k as int),
        decreases k,
    {
        proof {
            let t = s.take(k as int);
            assert(t.drop_last() =~= s.take(k - 1));
            assert(t.last() == s[k - 1]);
            assert(put_in(t, x) + s.skip(k as int) =~= put_in(s.take(k - 1), x) + s.skip(k - 1));
        }
        k = k - 1;
    }
    list.insert(k, x);
    proof {
        assert(put_in(s.take(k as int), x) == s.take(k as int).push(x)) by {
            if k > 0 {
                assert(s.take(k as int).last() == s[k - 1]);
            }
        }
        assert(list@ =~= s.take(k as int).push(x) + s.skip(k as int));
    }
}

/// Sorts root moves by descending score.
pub fn sort_by_score(list: &Vec<Scored>) -> (r: Vec<Scored>)
    ensures
        r@ == by_score(list@),
        r@.len() == list@.len(),
{
    let mut out: Vec<Scored> = Vec::new();
    let mut i: usize = 0;
    proof {
        assert(out@ =~= by_score(list@.take(0)));
    }
    while i < list.len()
        invariant
            i <= list@.len(),
            out@ == by_score(list@.take(i as int)),
        decreases list@.len() - i,
    {
        proof {
            assert(list@.take(i + 1).drop_last() =~= list@.take(i as int));
            assert(list@.take(i + 1).last() == list@[i as int]);
        }
        insert_scored(&mut out, list[i]);
        i = i + 1;
    }
    proof {
        assert(list@.take(i as int) =~= list@);
        lemma_by_score(list@);
    }
    out
}

/// The list with some moves left out.
pub open spec fn without(s: Seq<Scored>, excluded: Seq<Move>) -> Seq<Scored> {
    Seq::new(
        s.len(),
        |i: int| if excluded.contains(s[i].m) { Scored { m: s[i].m, score: LEFT_OUT } } else { s[i] },
    )
}

fn holds(moves: &Vec<Move>, m: Move) -> (r: bool)
    ensures
        r == moves@.contains(m),
{
    let mut i: usize = 0;
    while i < moves.len()
        invariant
            i <= moves@.len(),
            forall|j: int| 0 <= j < i ==> #[trigger] moves@[j] != m,
        decreases moves@.len() - i,
    {
        if moves[i] == m {
            return true;
        }
        i = i + 1;
    }
    false
}

/// The list with some moves left out.
pub fn leave_out(list: &Vec<Scored>, excluded: &Vec<Move>) -> (r: Vec<Scored>)
    ensures
        r@ == without(list@, excluded@),
{
    let mut out: Vec<Scored> = Vec::new();
    let mut i: usize = 0;
    while i < list.len()
        invariant
            i <= list@.len(),
            out@.len() == i,
            forall|j: int| 0 <= j < i ==> #[trigger] out@[j] == without(list@, excluded@)[j],
        decreases list@.len() - i,
    {
        let x = list[i];
        if holds(excluded, x.m) {
            out.push(Scored { m: x.m, score: LEFT_OUT });
        } else {
            out.push(x);
        }
        i = i + 1;
    }
    proof {
        assert(out@ =~= without(list@, excluded@));
    }
    out
}

/// The first index of a move, from `i` on; or the length.
pub open spec fn index_of(s: Seq<Scored>, m: Move, i: int) -> int
    decreases s.len() - i,
{
    if i >= s.len() {
        s.len() as int
    } else if s[i].m == m {
        i
    } else {
        index_of(s, m, i + 1)
    }
}

/// The first index of a move.
pub fn position_of(list: &Vec<Scored>, m: Move, from: usize) -> (r: usize)
    requires
        from <= list@.len(),
    ensures
        r == index_of(list@, m, from as int),
        r <= list@.len(),
        r < list@.len() ==> from <= r && list@[r as int].m == m,
        r == list@.len() ==> forall|j: int| from <= j < list@.len() ==> #[trigger] list@[j].m != m,
{
    let mut i: usize = from;
    while i < list.len() && list[i].m != m
        invariant
            from <= i <= list@.len(),
            index_of(list@, m, from as int) == index_of(list@, m, i as int),
            forall|j: int| from <= j < i ==> #[trigger] list@[j].m != m,
        decreases list@.len() - i,
    {
        i = i + 1;
    }
    i
}

/// The list with the score of a move replaced.
pub open spec fn rescored(s: Seq<Scored>, x: Scored) -> Seq<Scored> {
    let i = index_of(s, x.m, 0);
    if i < s.len() { s.update(i, x) } else { s }
}

/// The list with the scores of the first `n` of another.
pub open spec fn rescored_by(s: Seq<Scored>, t: Seq<Scored>, n: int) -> Seq<Scored>
    decreases n,
{
    if n <= 0 { s } else { rescored(rescored_by(s, t, n - 1), t[n - 1]) }
}

/// The same moves in the same order.
pub open spec fn same_moves(s: Seq<Scored>, t: Seq<Scored>) -> bool {
    s.len() == t.len() && forall|i: int| 0 <= i < s.len() ==> (#[trigger] s[i]).m == t[i].m
}

/// Takes over the scores of another list.
pub fn take_scores(list: &mut Vec<Scored>, other: &Vec<Scored>)
    ensures
        final(list)@ == rescored_by(old(list)@, other@, other@.len() as int),
        same_moves(final(list)@, old(list)@),
{
    let ghost s = list@;
    let mut i: usize = 0;
    while i < other.len()
        invariant
            s == old(list)@,
            i <= other@.len(),
            list@ == rescored_by(s, other@, i as int),
            same_moves(list@, s),
        decreases other@.len() - i,
    {
        let x = other[i];
        let j: usize = position_of(list, x.m, 0);
        if j < list.len() {
            list.set(j, x);
        }
        i = i + 1;
    }
}

/// The move is legal.
#[verifier::opaque]
pub open spec fn legal_in(p: Position, m: Move) -> bool {
    legal_moves(p).contains(m)
}

/// The game ends here in a draw, by the fifty-move rule or by repetition.
#[verifier::opaque]
pub open spec fn rule_draw(p: Position) -> bool {
    p.halfmove >= 100 || occurred_twice(p)
}

/// The move can be played, and the game goes on after it.
pub open spec fn goes_on(p: Position, m: Move) -> bool {
    p.has_room() && legal_in(p, m) && !rule_draw(played(p, m))
}

/// The part of a line that can be played: up to the first move that is not
/// legal, or that brings about a draw by the fifty-move rule or by repetition.
pub open spec fn playable(p: Position, pv: Seq<Move>) -> Seq<Move>
    decreases pv.len(),
{
    if pv.len() == 0 || !goes_on(p, pv[0]) {
        Seq::empty()
    } else {
        seq![pv[0]] + playable(played(p, pv[0]), pv.drop_first())
    }
}

/// Plays a move of a line, if the game goes on after it.
fn play_on(b: &mut Board, m: Move) -> (r: bool)
    requires
        old(b).ok(),
    ensures
        final(b).ok(),
        r == goes_on(old(b)@, m),
        r ==> final(b)@ == played(old(b)@, m),
{
    proof {
        reveal(legal_in);
        reveal(rule_draw);
        reveal(played);
    }
    if b.halfmove_clock == u16::MAX || b.fullmove_number == u16::MAX {
        return false;
    }
    let legal = generate_legal_moves(b);
    if !legal.contains(&m) {
        return false;
    }
    let _ = b.make_move(m);
    !(b.halfmove_clock >= 100 || b.is_repetition())
}

/// Cuts a line at the first move that cannot be played, or that ends the game
/// in a draw. Stale hash entries can put illegal moves into a line.
pub fn sanitize_pv(board: &Board, pv: &Vec<Move>) -> (r: Vec<Move>)
    requires
        board.ok(),
    ensures
        r@ == playable(board@, pv@),
        r@.len() > 0 ==> legal_in(board@, r@[0]),
{
    let ghost p0 = board@;
    let ghost all = playable(p0, pv@);
    let mut b = board.clone();
    let mut result: Vec<Move> = Vec::new();
    let mut i: usize = 0;
    proof {
        assert(pv@.skip(0) =~= pv@);
        assert(all =~= result@ + playable(b@, pv@.skip(0)));
    }
    while i < pv.len()
        invariant
            i <= pv@.len(),
            p0 == board@,
            all == playable(p0, pv@),
            b.ok(),
            result@.len() == i,
            all == result@ + playable(b@, pv@.skip(i as int)),
            i == 0 ==> b@ == p0,
            i > 0 ==> legal_in(p0, result@[0]),
        decreases pv@.len() - i,
    {
        let m = pv[i];
        proof {
            assert(pv@.skip(i as int)[0] == m);
            assert(pv@.skip(i as int).drop_first() =~= pv@.skip(i + 1));
        }
        if !play_on(&mut b, m) {
            proof {
                assert(all =~= result@);
            }
            return result;
        }
        result.push(m);
        i = i + 1;
        proof {
            assert(all =~= result@ + playable(b@, pv@.skip(i as int)));
        }
    }
    proof {
        assert(all =~= result@);
    }
    result
}

/// Every move of a playable line is legal where it is played, and it is a
/// beginning of the line.
pub proof fn law_playable_line_is_legal(p: Position, pv: Seq<Move>)
    ensures
        playable(p, pv).len() > 0 ==> legal_moves(p).contains(pv[0]) && playable(p, pv)[0] == pv[0] && playable(
            p,
            pv,
        ).drop_first() == playable(p.after(pv[0]), pv.drop_first()),
        playable(p, pv).len() <= pv.len(),
    decreases pv.len(),
{
    reveal(legal_in);
    reveal(played);
    let s = playable(p, pv);
    if s.len() > 0 {
        assert(s.drop_first() =~= playable(p.after(pv[0]), pv.drop_first()));
        law_playable_line_is_legal(p.after(pv[0]), pv.drop_first());
    }
}

/// Cutting a line that was cut changes nothing.
pub proof fn law_playable_is_idempotent(p: Position, pv: Seq<Move>)
    ensures
        playable(p, playable(p, pv)) == playable(p, pv),
    decreases pv.len(),
{
    let s = playable(p, pv);
    if s.len() > 0 {
        let q = played(p, pv[0]);
        law_playable_is_idempotent(q, pv.drop_first());
        assert(s.drop_first() =~= playable(q, pv.drop_first()));
    }
}

} // verus!
