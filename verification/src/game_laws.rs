//! Laws of self-play games: how a game stands, what it is worth, and what is
//! recorded of it.

use vstd::prelude::*;
use crate::attacks::in_check;
use crate::bits::{bit, group_bits};
use crate::board::Position;
use crate::datagen::{believed, closed_with, ends, found, game_params, goes_on, noted, recent_average, recorded_sets, records, size_sum, standing, white_score, Adjudication, DataEntry, Ending, Setup, Stage, Standing};
use crate::deepening::Outcome;
use crate::engine::Settings;
use crate::movegen::legal_moves;
use crate::search::{played, Answer};
use crate::syzygy::lemma_kind_shown;
use crate::tt::Table;
use crate::types::{Color, PieceKind, Score};

verus! {

/// Each side has one king.
pub open spec fn two_kings(p: Position) -> bool {
    p.set_of(Color::White, PieceKind::King).size() == 1 && p.set_of(Color::Black, PieceKind::King).size() == 1
}

/// A side that is in check and has no legal move has lost, and the other side
/// has won.
pub proof fn law_the_mated_side_has_lost(p: Position, entries: Seq<DataEntry>, ply: int)
    requires
        two_kings(p),
        legal_moves(p).len() == 0,
        in_check(p, p.side),
    ensures
        p.side == Color::White ==> standing(p, entries, ply) == Standing::Over(Ending::BlackWins),
        p.side == Color::Black ==> standing(p, entries, ply) == Standing::Over(Ending::WhiteWins),
{
}

/// A side that has no legal move and is not in check has drawn.
pub proof fn law_stalemate_is_drawn(p: Position, entries: Seq<DataEntry>, ply: int)
    requires
        two_kings(p),
        legal_moves(p).len() == 0,
        !in_check(p, p.side),
    ensures
        standing(p, entries, ply) == Standing::Over(Ending::Draw),
{
}

/// The records of a game that ends on the board by mate are all worth nothing
/// for White if White is mated, and everything if Black is. Only the result is
/// filled in.
pub proof fn law_a_mated_game_is_labelled(
    g: Setup,
    a: Stage,
    table: Table,
    heard: Seq<Answer>,
    r: Seq<DataEntry>,
    i: int,
)
    requires
        ends(g, a, table, heard, r),
        two_kings(a.p),
        legal_moves(a.p).len() == 0,
        in_check(a.p, a.p.side),
        0 <= i < a.entries.len(),
    ensures
        r.len() == a.entries.len(),
        a.p.side == Color::White ==> r[i].half_points == 0,
        a.p.side == Color::Black ==> r[i].half_points == 2,
        r[i].score_cp == a.entries[i].score_cp && r[i].stm == a.entries[i].stm && r[i].bbs == a.entries[i].bbs,
{
    reveal(ends);
    law_the_mated_side_has_lost(a.p, a.entries, a.ply);
}

/// The records of a stalemate, or of a game that the fifty-move rule ends, are
/// worth a half.
pub proof fn law_a_drawn_game_is_labelled(
    g: Setup,
    a: Stage,
    table: Table,
    heard: Seq<Answer>,
    r: Seq<DataEntry>,
    i: int,
)
    requires
        ends(g, a, table, heard, r),
        two_kings(a.p),
        legal_moves(a.p).len() == 0 && !in_check(a.p, a.p.side) || legal_moves(a.p).len() > 0 && a.p.halfmove >= 100,
        0 <= i < a.entries.len(),
    ensures
        r.len() == a.entries.len(),
        r[i].half_points == 1,
{
    reveal(ends);
}

/// Sides are treated alike: what is a win for the one is a win for the other
/// with the roles exchanged.
pub proof fn law_standings_are_even_handed(
    p: Position,
    q: Position,
    a: Seq<DataEntry>,
    b: Seq<DataEntry>,
    ply: int,
)
    requires
        two_kings(p),
        two_kings(q),
        p.side != q.side,
        (legal_moves(p).len() == 0) == (legal_moves(q).len() == 0),
        in_check(p, p.side) == in_check(q, q.side),
        p.halfmove == q.halfmove,
        p.hash == q.hash,
        p.history == q.history,
        a.len() == b.len(),
        forall|i: int| 0 <= i < a.len() ==> #[trigger] a[i].score_cp == -b[i].score_cp,
    ensures
        standing(p, a, ply) == Standing::Over(Ending::WhiteWins) <==> standing(q, b, ply) == Standing::Over(
            Ending::BlackWins,
        ),
        standing(p, a, ply) == Standing::Over(Ending::BlackWins) <==> standing(q, b, ply) == Standing::Over(
            Ending::WhiteWins,
        ),
        standing(p, a, ply) == Standing::Over(Ending::Draw) <==> standing(q, b, ply) == Standing::Over(Ending::Draw),
        standing(p, a, ply) == Standing::Open <==> standing(q, b, ply) == Standing::Open,
{
    lemma_sizes_negated(a, b, 4);
    lemma_sizes_negated(a, b, a.len() as int);
}

proof fn lemma_sizes_negated(a: Seq<DataEntry>, b: Seq<DataEntry>, n: int)
    requires
        a.len() == b.len(),
        forall|i: int| 0 <= i < a.len() ==> #[trigger] a[i].score_cp == -b[i].score_cp,
    ensures
        size_sum(a, n) == size_sum(b, n),
    decreases n,
{
    if n > 0 && a.len() > 0 {
        let (x, y) = (a.drop_last(), b.drop_last());
        assert forall|i: int| 0 <= i < x.len() implies #[trigger] x[i].score_cp == -y[i].score_cp by {
            assert(a[i].score_cp == -b[i].score_cp);
        }
        lemma_sizes_negated(x, y, n - 1);
        assert(a[a.len() - 1].score_cp == -b[a.len() - 1].score_cp);
    }
}

/// A position with a legal move that was there twice before is a draw, or the
/// game is thrown away; it is never played on. A new position with time on the
/// clocks is.
pub proof fn law_repetition_ends_a_game(p: Position, entries: Seq<DataEntry>, ply: int, i: int, j: int)
    requires
        two_kings(p),
        legal_moves(p).len() > 0,
        0 <= i < j < p.history.len(),
        p.history[i] == p.hash,
        p.history[j] == p.hash,
    ensures
        standing(p, entries, ply) == Standing::Over(Ending::Draw) || standing(p, entries, ply) == Standing::Discarded,
        p.halfmove >= 100 || entries.len() == 0 ==> standing(p, entries, ply) == Standing::Over(Ending::Draw),
{
}

/// A repetition counts as a draw while the last four scores are small, and
/// throws the game away once they are large.
pub proof fn law_unbelieved_repetition(p: Position, entries: Seq<DataEntry>, ply: int, i: int, j: int)
    requires
        two_kings(p),
        legal_moves(p).len() > 0,
        p.halfmove < 100,
        0 <= i < j < p.history.len(),
        p.history[i] == p.hash,
        p.history[j] == p.hash,
        entries.len() >= 4,
    ensures
        (forall|k: int|
            entries.len() - 4 <= k < entries.len() ==> -250 < (#[trigger] entries[k]).score_cp < 250) ==> standing(
            p,
            entries,
            ply,
        ) == Standing::Over(Ending::Draw),
        (forall|k: int|
            entries.len() - 4 <= k < entries.len() ==> (#[trigger] entries[k]).score_cp >= 250
                || entries[k].score_cp <= -250) ==> standing(p, entries, ply) == Standing::Discarded,
{
    law_average_of_the_last_four(entries);
    let n = entries.len();
    let (a, b, c, d) = (entries[n - 1], entries[n - 2], entries[n - 3], entries[n - 4]);
}

/// The average is that of the sizes of the last four scores.
pub proof fn law_average_of_the_last_four(entries: Seq<DataEntry>)
    requires
        entries.len() >= 4,
    ensures
        ({
            let n = entries.len();
            let (a, b, c, d) = (
                entries[n - 1].score_cp as int,
                entries[n - 2].score_cp as int,
                entries[n - 3].score_cp as int,
                entries[n - 4].score_cp as int,
            );
            recent_average(entries, 4) == ((if a < 0 { -a } else { a }) + (if b < 0 { -b } else { b }) + (if c < 0 {
                -c
            } else {
                c
            }) + (if d < 0 { -d } else { d })) / 4
        }),
{
    reveal_with_fuel(size_sum, 5);
    let e1 = entries.drop_last();
    let e2 = e1.drop_last();
    let e3 = e2.drop_last();
    assert(e1.last() == entries[entries.len() - 2]);
    assert(e2.last() == entries[entries.len() - 3]);
    assert(e3.last() == entries[entries.len() - 4]);
    assert(size_sum(e3.drop_last(), 0) == 0);
}

/// A game is played on as long as the side to move has a legal move, the
/// position is new, and neither the fifty-move rule nor the limit on its length
/// applies.
pub proof fn law_a_fresh_game_goes_on(p: Position, entries: Seq<DataEntry>, ply: int)
    requires
        two_kings(p),
        legal_moves(p).len() > 0,
        p.halfmove < 100,
        ply <= 400,
        forall|i: int| 0 <= i < p.history.len() ==> #[trigger] p.history[i] != p.hash,
    ensures
        standing(p, entries, ply) == Standing::Open,
        standing(p, entries, 401) == Standing::Over(Ending::Draw),
{
}

/// A score ends a game for the side that it sees winning, or as a draw if it
/// sees neither ahead.
pub proof fn law_scores_end_a_game_their_way(a: Adjudication, score_white: int)
    requires
        a.verdict() is None,
    ensures
        a.after(score_white).verdict() == Some(Ending::WhiteWins) ==> score_white >= 600,
        a.after(score_white).verdict() == Some(Ending::BlackWins) ==> score_white <= -600,
        a.after(score_white).verdict() == Some(Ending::Draw) ==> -15 < score_white < 15,
        score_white >= 600 && a.leader != Some(Color::White) ==> a.after(score_white).verdict() is None,
        score_white <= -600 && a.leader != Some(Color::Black) ==> a.after(score_white).verdict() is None,
{
}

/// Three scores never end a new game, and neither do seven level ones; eight do.
pub proof fn law_a_new_game_is_given_time(s: Seq<int>)
    requires
        s.len() == 8,
        forall|i: int| 0 <= i < 8 ==> -15 < #[trigger] s[i] < 15,
    ensures
        ({
            let a = Adjudication { high: 0, leader: None, low: 0 };
            let b = a.after(s[0]).after(s[1]).after(s[2]).after(s[3]).after(s[4]).after(s[5]).after(s[6]);
            &&& forall|x: int, y: int, z: int|
                (#[trigger] a.after(x).after(y).after(z)).verdict() is None
            &&& b.verdict() is None
            &&& b.after(s[7]).verdict() == Some(Ending::Draw)
        }),
{
    assert(-15 < s[0] < 15 && -15 < s[1] < 15 && -15 < s[2] < 15 && -15 < s[3] < 15 && -15 < s[4] < 15 && -15 < s[5]
        < 15 && -15 < s[6] < 15 && -15 < s[7] < 15);
}

/// A record shows the score as White sees it: as it is with White to move, with
/// the opposite sign with Black to move, and never beyond 3000.
pub proof fn law_records_show_whites_score(before: Seq<DataEntry>, after: Seq<DataEntry>, p: Position, score: Score)
    requires
        records(before, after, p, score),
        after.len() > before.len(),
    ensures
        ({
            let e = after[after.len() - 1];
            &&& after.len() == before.len() + 1
            &&& forall|i: int| 0 <= i < before.len() ==> #[trigger] after[i] == before[i]
            &&& p.side == Color::White && -3000 <= score.0 <= 3000 ==> e.score_cp == score.0
            &&& p.side == Color::Black && -3000 <= score.0 <= 3000 ==> e.score_cp == -score.0
            &&& p.side == Color::White && score.0 > 3000 ==> e.score_cp == 3000
            &&& p.side == Color::White && score.0 < -3000 ==> e.score_cp == -3000
            &&& p.side == Color::Black && score.0 > 3000 ==> e.score_cp == -3000
            &&& p.side == Color::Black && score.0 < -3000 ==> e.score_cp == 3000
            &&& e.stm == (if p.side == Color::White { 0int } else { 1 })
        }),
{
    assert forall|i: int| 0 <= i < before.len() implies #[trigger] after[i] == before[i] by {
        assert(after.drop_last()[i] == before[i]);
    }
}

/// Every quiet position is recorded, and none in which the side to move is in
/// check or sees a mate.
pub proof fn law_quiet_positions_are_recorded(before: Seq<DataEntry>, after: Seq<DataEntry>, p: Position, score: Score)
    requires
        records(before, after, p, score),
    ensures
        after.len() == before.len() + 1 <==> !in_check(p, p.side) && -29_000 < score.0 < 29_000,
        after.len() == before.len() <==> in_check(p, p.side) || score.0 >= 29_000 || score.0 <= -29_000,
{
}

/// The recorded sets are those of the board: White's pieces, Black's, and the
/// pieces of each kind.
pub proof fn law_records_show_the_board(p: Position, i: int)
    requires
        p.consistent(),
        0 <= i < 64,
    ensures
        bit(recorded_sets(p)[0], i) <==> p.mailbox[i] is Some && p.mailbox[i]->Some_0.color == Color::White,
        bit(recorded_sets(p)[1], i) <==> p.mailbox[i] is Some && p.mailbox[i]->Some_0.color == Color::Black,
        bit(recorded_sets(p)[2], i) <==> p.mailbox[i] is Some && p.mailbox[i]->Some_0.kind == PieceKind::Pawn,
        bit(recorded_sets(p)[3], i) <==> p.mailbox[i] is Some && p.mailbox[i]->Some_0.kind == PieceKind::Knight,
        bit(recorded_sets(p)[4], i) <==> p.mailbox[i] is Some && p.mailbox[i]->Some_0.kind == PieceKind::Bishop,
        bit(recorded_sets(p)[5], i) <==> p.mailbox[i] is Some && p.mailbox[i]->Some_0.kind == PieceKind::Rook,
        bit(recorded_sets(p)[6], i) <==> p.mailbox[i] is Some && p.mailbox[i]->Some_0.kind == PieceKind::Queen,
        bit(recorded_sets(p)[7], i) <==> p.mailbox[i] is Some && p.mailbox[i]->Some_0.kind == PieceKind::King,
{
    broadcast use group_bits;
    assert(p.occupancy[0].has(i) || !p.occupancy[0].has(i));
    assert(p.occupancy[1].has(i) || !p.occupancy[1].has(i));
    lemma_kind_shown(p, PieceKind::Pawn, i);
    lemma_kind_shown(p, PieceKind::Knight, i);
    lemma_kind_shown(p, PieceKind::Bishop, i);
    lemma_kind_shown(p, PieceKind::Rook, i);
    lemma_kind_shown(p, PieceKind::Queen, i);
    lemma_kind_shown(p, PieceKind::King, i);
}

/// The searches of a game go to their depth: no clock, no time per move and no
/// number of nodes limits them, and a draw is worth nothing.
pub proof fn law_game_searches_have_only_a_depth(depth: u8, s: Settings)
    ensures
        ({
            let q = game_params(depth, s);
            &&& q.max_depth == depth
            &&& q.max_nodes is None
            &&& q.move_time_ms is None
            &&& q.white_time_ms is None
            &&& q.black_time_ms is None
            &&& q.contempt == 0
            &&& q.tune == s.tune
            &&& q.use_nnue == s.use_nnue
        }),
{
}

/// In a game that goes on, the judge is told each score as White sees it, the
/// found move is played, and the game is one ply longer.
pub proof fn law_games_go_on_by_the_search(g: Setup, a: Stage, b: Stage)
    requires
        goes_on(g, a, b),
    ensures
        b.ply == a.ply + 1,
        exists|out: Outcome|
            #[trigger] found(g, a, out, b.table, b.heard) && b.p == a.p.after(out.best_move) && (a.p.side == Color::White
                && out.score > i32::MIN ==> b.adjudication == a.adjudication.after(out.score as int)) && (a.p.side
                == Color::Black && out.score > i32::MIN ==> b.adjudication == a.adjudication.after(-out.score)),
{
    reveal(goes_on);
    reveal(played);
    let out = choose|out: Outcome|
        #[trigger] found(g, a, out, b.table, b.heard) && b.adjudication == noted(a, out.score)
            && b.adjudication.verdict() is None && b.p == played(a.p, out.best_move) && records(
            a.entries,
            b.entries,
            a.p,
            believed(out.score),
        ) && b.ply == a.ply + 1;
    assert(found(g, a, out, b.table, b.heard));
}

/// A game that a score ends in the open is won for White only if White sees
/// itself winning, or Black sees itself losing, and the other way round.
pub proof fn law_games_end_by_the_score(g: Setup, a: Stage, table: Table, heard: Seq<Answer>, r: Seq<DataEntry>, i: int)
    requires
        ends(g, a, table, heard, r),
        standing(a.p, a.entries, a.ply) == Standing::Open,
        a.adjudication.verdict() is None,
        0 <= i < a.entries.len(),
    ensures
        r.len() == a.entries.len(),
        exists|out: Outcome|
            #[trigger] found(g, a, out, table, heard) && (out.score > i32::MIN && r[i].half_points == 2 && a.p.side
                == Color::White ==> out.score >= 600) && (out.score > i32::MIN && r[i].half_points == 2 && a.p.side
                == Color::Black ==> out.score <= -600) && (out.score > i32::MIN && r[i].half_points == 0 && a.p.side
                == Color::White ==> out.score <= -600) && (out.score > i32::MIN && r[i].half_points == 0 && a.p.side
                == Color::Black ==> out.score >= 600) && (out.score > i32::MIN && r[i].half_points == 1 ==> -15 < out.score
                < 15),
{
    reveal(ends);
    let out = choose|out: Outcome|
        #[trigger] found(g, a, out, table, heard) && noted(a, out.score).verdict() is Some && r == closed_with(
            a.entries,
            noted(a, out.score).verdict()->Some_0,
        );
    assert(found(g, a, out, table, heard));
    if out.score > i32::MIN {
        law_scores_end_a_game_their_way(
            a.adjudication,
            if a.p.side == Color::White { out.score as int } else { -out.score },
        );
    }
}

/// A game that is discarded leaves no records.
pub proof fn law_discarded_games_leave_nothing(
    g: Setup,
    a: Stage,
    table: Table,
    heard: Seq<Answer>,
    r: Seq<DataEntry>,
)
    requires
        ends(g, a, table, heard, r),
        standing(a.p, a.entries, a.ply) == Standing::Discarded,
    ensures
        r.len() == 0,
        table == a.table,
{
    reveal(ends);
}

/// Whatever was counted, a score that sees one side ahead starts the count of level
/// scores again, and one that sees neither winning that of winning ones.
pub proof fn law_counts_start_again(a: Adjudication, x: int, s: Seq<int>)
    requires
        s.len() == 7,
        forall|i: int| 0 <= i < 7 ==> -600 < #[trigger] s[i] < 600,
        -600 < x < 600,
        x >= 15 || x <= -15,
    ensures
        ({
            let b = a.after(x);
            &&& b.verdict() is None
            &&& b.after(s[0]).after(s[1]).after(s[2]).after(s[3]).after(s[4]).after(s[5]).after(s[6]).verdict() is None
            &&& forall|u: int, v: int, w: int| (#[trigger] b.after(u).after(v).after(w)).verdict() is None
        }),
{
    assert(-600 < s[0] < 600 && -600 < s[1] < 600 && -600 < s[2] < 600 && -600 < s[3] < 600 && -600 < s[4] < 600 && -600
        < s[5] < 600 && -600 < s[6] < 600);
}

/// The result of a game goes to each of its positions, and nothing else of them
/// changes: two half points if White won, none if Black won, one for a draw.
pub proof fn law_results_go_to_every_position(entries: Seq<DataEntry>, ending: Ending, i: int)
    requires
        0 <= i < entries.len(),
    ensures
        closed_with(entries, ending).len() == entries.len(),
        ({
            let e = closed_with(entries, ending)[i];
            &&& ending == Ending::WhiteWins <==> e.half_points == 2
            &&& ending == Ending::Draw <==> e.half_points == 1
            &&& ending == Ending::BlackWins <==> e.half_points == 0
            &&& e.bbs == entries[i].bbs && e.stm == entries[i].stm && e.score_cp == entries[i].score_cp
        }),
{
}

/// White sees a score for White as it is, and one for Black the other way round.
pub proof fn law_scores_are_turned_to_white(score: int)
    ensures
        white_score(Color::White, score) == score,
        white_score(Color::Black, score) + score == 0,
{
}

} // verus!
