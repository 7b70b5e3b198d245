//! How games begin: from a book, by chance, or from a text.

use vstd::prelude::*;
use rand::RngExt;
use crate::board::{Board, Position};
use crate::board_laws::law_make_keeps_consistent;
use crate::fen::{fen_position, start_position};
use crate::fen_laws::law_read_position_is_sound;
use crate::lines::legal_in;
use crate::movegen::{generate_legal_moves, legal_moves};
use crate::movegen_laws::{law_generated_iff_pseudo_legal, law_generated_moves_fit, law_legal_iff};
use crate::moves::{Move, MoveList};
use crate::search::played;
use crate::types::Color;
use crate::validate::position_fault;
use crate::validity_laws::{law_legal_move_keeps_validity, law_start_is_valid, lemma_ep_after};

verus! {

/// Opening plies, from a book and at random.
pub const RANDOM_PLIES: usize = 8;

/// Opening plies from a book.
pub const BOOK_PLIES_MAX: usize = 4;

// Weighted entries.
/// The sum of the first `n` weights.
pub open spec fn weight_sum(w: Seq<u32>, n: int) -> int
    decreases n,
{
    if n <= 0 { 0 } else { weight_sum(w, n - 1) + w[n - 1] }
}

/// Adds up weights, if the sum fits.
pub fn total_weight(entries: &Vec<(Move, u32)>) -> (r: Option<u32>)
    ensures
        match r {
            Some(sum) => sum == weight_sum(weights_of(entries@), entries@.len() as int),
            None => weight_sum(weights_of(entries@), entries@.len() as int) > u32::MAX,
        },
{
    let ghost w = weights_of(entries@);
    let mut sum: u32 = 0;
    let mut i: usize = 0;
    while i < entries.len()
        invariant
            w == weights_of(entries@),
            i <= entries@.len(),
            sum == weight_sum(w, i as int),
        decreases entries@.len() - i,
    {
        let weight: u32 = entries[i].1;
        if weight > u32::MAX - sum {
            proof {
                lemma_weight_sum(w, i + 1, entries@.len() as int);
            }
            return None;
        }
        sum = sum + weight;
        i = i + 1;
    }
    Some(sum)
}

/// The weights of book entries.
pub open spec fn weights_of(entries: Seq<(Move, u32)>) -> Seq<u32> {
    Seq::new(entries.len(), |i: int| entries[i].1)
}

proof fn lemma_weight_sum(w: Seq<u32>, n: int, m: int)
    requires
        0 <= n <= m,
    ensures
        weight_sum(w, n) <= weight_sum(w, m),
    decreases m - n,
{
    if n < m {
        lemma_weight_sum(w, n, m - 1);
    }
}

/// The first entry from the `i`-th on whose weights reach beyond a pick; the
/// first of all if none does.
pub open spec fn pick_index(w: Seq<u32>, pick: int, i: int) -> int
    decreases w.len() - i,
{
    if i >= w.len() {
        0
    } else if pick < weight_sum(w, i + 1) {
        i
    } else {
        pick_index(w, pick, i + 1)
    }
}

/// The entry on which a pick falls, each entry as wide as its weight. A pick
/// beyond all of them falls on the first.
pub fn pick_by_weight(entries: &Vec<(Move, u32)>, pick: u32) -> (r: usize)
    requires
        entries@.len() > 0,
    ensures
        r < entries@.len(),
        r == pick_index(weights_of(entries@), pick as int, 0),
        pick < weight_sum(weights_of(entries@), entries@.len() as int) ==> weight_sum(weights_of(entries@), r as int) <= pick
            < weight_sum(weights_of(entries@), r + 1),
        pick >= weight_sum(weights_of(entries@), entries@.len() as int) ==> r == 0,
{
    let ghost w = weights_of(entries@);
    let mut left: u32 = pick;
    let mut i: usize = 0;
    while i < entries.len()
        invariant
            w == weights_of(entries@),
            i <= entries@.len(),
            entries@.len() > 0,
            left + weight_sum(w, i as int) == pick,
            pick_index(w, pick as int, i as int) == pick_index(w, pick as int, 0),
        decreases entries@.len() - i,
    {
        if left < entries[i].1 {
            proof {
                lemma_weight_sum(w, i + 1, entries@.len() as int);
            }
            return i;
        }
        left = left - entries[i].1;
        i = i + 1;
    }
    0
}

// Chance.
/// `rand::rng` and `RngExt::random_range`: a number below `n`, by chance.
/// Claimed is only that it is below `n`.
#[verifier::external_body]
fn random_below(n: usize) -> (r: usize)
    requires
        n > 0,
    ensures
        r < n,
{
    rand::rng().random_range(0..n)
}

/// An opening book: moves of a position, with weights.
pub trait Openings {
    fn entries(&mut self, board: &Board) -> Vec<(Move, u32)>;
}

/// A book without moves.
#[derive(Clone, Copy, Debug)]
pub struct NoBook;

impl Openings for NoBook {
    fn entries(&mut self, board: &Board) -> (r: Vec<(Move, u32)>)
        ensures
            r@.len() == 0,
    {
        let _ = board;
        Vec::new()
    }
}

/// A position that the rules allow.
#[verifier::opaque]
pub open spec fn valid(p: Position) -> bool {
    p.sound() && position_fault(p) is None
}

/// A position that can be searched: one king a side, and all its parts agree.
#[verifier::opaque]
pub open spec fn whole(p: Position) -> bool {
    p.sound()
}

/// The parts of a position agree; a king may have been taken.
#[verifier::opaque]
pub open spec fn coherent(p: Position) -> bool {
    p.consistent() && p.ep_sound()
}

/// Each side has its king.
pub open spec fn has_kings(p: Position) -> bool {
    p.one_king(Color::White) && p.one_king(Color::Black)
}

/// What a position is known to be carries over.
pub proof fn lemma_kinds_of_position(p: Position)
    ensures
        valid(p) ==> whole(p),
        whole(p) == (coherent(p) && has_kings(p)),
{
    reveal(valid);
    reveal(whole);
    reveal(coherent);
}

/// The initial position.
#[verifier::opaque]
pub open spec fn initial() -> Position {
    start_position()
}

/// There is no legal move.
#[verifier::opaque]
pub open spec fn stuck(p: Position) -> bool {
    legal_moves(p).len() == 0
}

/// A position is reached from another by a number of legal moves.
pub open spec fn reached(p: Position, n: int, q: Position) -> bool
    decreases n,
{
    if n <= 0 {
        p == q
    } else {
        exists|r: Position, m: Move| reached(p, n - 1, r) && #[trigger] legal_in(r, m) && q == played(r, m)
    }
}

/// Plays a legal move. A king can be taken only if it was in check with the
/// other side to move.
pub fn play(board: &mut Board, m: Move)
    requires
        old(board).ok(),
        whole(old(board)@),
        old(board)@.has_room(),
        legal_in(old(board)@, m),
    ensures
        final(board).ok(),
        final(board)@ == played(old(board)@, m),
        coherent(final(board)@),
        valid(old(board)@) ==> valid(final(board)@),
        final(board)@.fullmove <= old(board)@.fullmove + 1,
        final(board)@.halfmove <= old(board)@.halfmove + 1,
        final(board)@.history.len() == old(board)@.history.len() + 1,
{
    let ghost p = board@;
    proof {
        reveal(valid);
        reveal(whole);
        reveal(coherent);
        reveal(legal_in);
        reveal(played);
        if valid(p) {
            law_legal_move_keeps_validity(p, m);
        }
        law_legal_iff(p, m);
        law_generated_iff_pseudo_legal(p, m);
        law_generated_moves_fit(p, m);
        law_make_keeps_consistent(p, m);
        lemma_ep_after(p, m);
    }
    let _ = board.make_move(m);
}

fn seen(hashes: &Vec<u64>, hash: u64) -> (r: bool)
    ensures
        r == hashes@.contains(hash),
{
    let mut i: usize = 0;
    while i < hashes.len()
        invariant
            i <= hashes@.len(),
            forall|j: int| 0 <= j < i ==> #[trigger] hashes@[j] != hash,
        decreases hashes@.len() - i,
    {
        if hashes[i] == hash {
            return true;
        }
        i = i + 1;
    }
    false
}

// The course of an opening.
/// What chance and a book have given so far, and what the book was asked.
pub struct Record {
    pub drawn: Seq<usize>,
    pub told: Seq<Seq<(Move, u32)>>,
    pub asked: Seq<Position>,
}

/// An opening in progress.
pub struct Opening {
    pub p: Position,
    pub plies: int,
    /// Hashes of the positions since the start.
    pub visited: Seq<u64>,
    pub in_book: bool,
    /// The number of draws used.
    pub used: int,
    /// The positions that the book was asked about.
    pub asked: Seq<Position>,
}

/// The position that a game starts from, if it does, the number of draws used,
/// and the positions that the book was asked about.
pub struct Begun {
    pub end: Option<Position>,
    pub used: int,
    pub asked: Seq<Position>,
}

/// A draw among `n`; where there is none, the first of them.
pub open spec fn draw_at(draws: Seq<usize>, i: int, n: int) -> int {
    if 0 <= i < draws.len() { draws[i] as int % n } else { 0 }
}

/// An answer of the book; where there is none, an empty one.
pub open spec fn answer_at(answers: Seq<Seq<(Move, u32)>>, i: int) -> Seq<(Move, u32)> {
    if 0 <= i < answers.len() { answers[i] } else { Seq::empty() }
}

/// The sum of all weights.
pub open spec fn whole_weight(entries: Seq<(Move, u32)>) -> int {
    weight_sum(weights_of(entries), entries.len() as int)
}

/// The move on which a pick falls.
pub open spec fn picked_move(entries: Seq<(Move, u32)>, pick: int) -> Move {
    entries[pick_index(weights_of(entries), pick, 0)].0
}

/// A book move is played. The book is left where the line gets long or comes
/// back to where it was.
pub open spec fn moved_in_book(s: Opening, m: Move) -> Opening {
    let q = played(s.p, m);
    Opening {
        p: q,
        plies: s.plies + 1,
        visited: s.visited.push(q.hash),
        in_book: q.history.len() <= 60 && !s.visited.contains(q.hash),
        ..s
    }
}

/// The book has answered. A move is drawn by weight and played if it is legal;
/// without one the book is left.
pub open spec fn answered(s: Opening, entries: Seq<(Move, u32)>, draws: Seq<usize>) -> Opening {
    let t = Opening { asked: s.asked.push(s.p), ..s };
    if 0 < whole_weight(entries) <= u32::MAX {
        let m = picked_move(entries, draw_at(draws, s.used, whole_weight(entries)));
        let u = Opening { used: s.used + 1, ..t };
        if legal_in(s.p, m) { moved_in_book(u, m) } else { Opening { in_book: false, ..u } }
    } else {
        Opening { in_book: false, ..t }
    }
}

/// The moves to draw from.
#[verifier::opaque]
pub open spec fn choices(p: Position) -> Seq<Move> {
    legal_moves(p)
}

/// The legal move that a draw gives.
pub open spec fn drawn_move(p: Position, draws: Seq<usize>, i: int) -> Move {
    choices(p)[draw_at(draws, i, choices(p).len() as int)]
}

/// A move at random is played.
pub open spec fn rolled(s: Opening, draws: Seq<usize>) -> Opening {
    Opening { p: played(s.p, drawn_move(s.p, draws, s.used)), plies: s.plies + 1, used: s.used + 1, ..s }
}

/// How an opening goes on: book moves as long as there are some, at most four
/// plies, then moves at random, up to eight plies in all. It comes to nothing
/// where there is no legal move.
pub open spec fn opening_from(s: Opening, draws: Seq<usize>, answers: Seq<Seq<(Move, u32)>>) -> Begun
    decreases
            8 - s.plies,
            (if s.in_book {
                1int
            } else {
                0
            }),
{
    if s.in_book && s.plies < 4 {
        opening_from(answered(s, answer_at(answers, s.asked.len() as int), draws), draws, answers)
    } else if s.plies >= 8 {
        Begun { end: Some(s.p), used: s.used, asked: s.asked }
    } else if stuck(s.p) {
        Begun { end: None, used: s.used, asked: s.asked }
    } else {
        opening_from(rolled(s, draws), draws, answers)
    }
}

/// An opening before its first move.
pub open spec fn fresh_opening(used: int, asked: Seq<Position>) -> Opening {
    Opening { p: initial(), plies: 0, visited: seq![initial().hash], in_book: true, used, asked }
}

/// The position after the opening that draws and answers give, if there is one.
pub open spec fn opening_of(draws: Seq<usize>, answers: Seq<Seq<(Move, u32)>>) -> Option<Position> {
    opening_from(fresh_opening(0, Seq::empty()), draws, answers).end
}

/// The text gives a position that a game can start from: readable, with at most
/// 32 pieces, and with room on its counters. These have 16 bits. The move number
/// grows by at most 402 in the longest game and by 129 in the search of its last
/// position; the halfmove clock by one for a random move and one to look ahead.
#[verifier::opaque]
pub open spec fn can_start(text: Seq<char>) -> bool {
    &&& fen_position(text) is Ok
    &&& fen_position(text)->Ok_0.occupied().size() <= 32
    &&& fen_position(text)->Ok_0.halfmove <= 65_535 - 2
    &&& fen_position(text)->Ok_0.fullmove <= 65_535 - 129 - 402
}

/// The position of a text that can be read.
#[verifier::opaque]
pub open spec fn text_position(text: Seq<char>) -> Position {
    fen_position(text)->Ok_0
}

/// How a game from a text starts: with the position of the text, or after one
/// move at random.
pub open spec fn text_start(text: Seq<char>, randomize: bool, used: int, asked: Seq<Position>, draws: Seq<usize>) -> Begun {
    let p = text_position(text);
    if !can_start(text) || (randomize && stuck(p)) {
        Begun { end: None, used, asked }
    } else if randomize {
        Begun { end: Some(played(p, drawn_move(p, draws, used))), used: used + 1, asked }
    } else {
        Begun { end: Some(p), used, asked }
    }
}

/// How a game starts, given what was recorded before and after.
pub open spec fn start_of(start_fen: Option<&str>, randomize: bool, before: Record, after: Record) -> Begun {
    match start_fen {
        Some(fen) => text_start(fen@, randomize, before.drawn.len() as int, before.asked, after.drawn),
        None => opening_from(
            fresh_opening(before.drawn.len() as int, before.asked),
            after.drawn,
            after.told,
        ),
    }
}

/// A record with one question to the book for every answer.
pub open spec fn record_ok(r: Record) -> bool {
    r.told.len() == r.asked.len()
}

/// A record that goes on where another ends.
pub open spec fn continues(after: Record, before: Record) -> bool {
    &&& begins_with(after.drawn, before.drawn)
    &&& begins_with(after.told, before.told)
}

/// A list that begins with another.
pub open spec fn begins_with<T>(l: Seq<T>, s: Seq<T>) -> bool {
    s.len() <= l.len() && forall|i: int| 0 <= i < s.len() ==> #[trigger] l[i] == s[i]
}

/// A book and chance, with a record of what they gave. Nothing is recorded that
/// was not drawn or answered.
pub struct Luck<B: Openings> {
    book: B,
    record: Ghost<Record>,
}

impl<B: Openings> Luck<B> {
    /// Everything that was drawn, asked and answered.
    pub closed spec fn record(&self) -> Record {
        self.record@
    }

    /// Begin a record.
    pub fn new(book: B) -> (r: Self)
        ensures
            r.record() == (Record { drawn: Seq::empty(), told: Seq::empty(), asked: Seq::empty() }),
            record_ok(r.record()),
    {
        Luck { book, record: Ghost(Record { drawn: Seq::empty(), told: Seq::empty(), asked: Seq::empty() }) }
    }

    /// A number below `n`, by chance.
    pub fn draw(&mut self, n: usize) -> (r: usize)
        requires
            n > 0,
        ensures
            r < n,
            final(self).record() == (Record { drawn: old(self).record().drawn.push(r), ..old(self).record() }),
    {
        let r: usize = random_below(n);
        proof {
            self.record@ = Record { drawn: self.record@.drawn.push(r), ..self.record@ };
        }
        r
    }

    /// What the book has for a position.
    pub fn ask(&mut self, board: &Board) -> (r: Vec<(Move, u32)>)
        ensures
            final(self).record() == (Record {
                told: old(self).record().told.push(r@),
                asked: old(self).record().asked.push(board@),
                ..old(self).record()
            }),
    {
        let r = self.book.entries(board);
        proof {
            self.record@ =
            Record { told: self.record@.told.push(r@), asked: self.record@.asked.push(board@), ..self.record@ };
        }
        r
    }
}

fn choices_of(board: &Board) -> (r: MoveList)
    requires
        board.ok(),
        board@.has_room(),
    ensures
        r@ == choices(board@),
        r@.len() == 0 <==> stuck(board@),
        forall|k: int| 0 <= k < r@.len() ==> legal_in(board@, #[trigger] r@[k]),
{
    proof {
        reveal(choices);
        reveal(stuck);
        reveal(legal_in);
    }
    generate_legal_moves(board)
}

fn may_play(board: &Board, m: Move) -> (r: bool)
    requires
        board.ok(),
        board@.has_room(),
    ensures
        r == legal_in(board@, m),
{
    proof {
        reveal(legal_in);
    }
    generate_legal_moves(board).contains(&m)
}

/// An opening in progress, with its board.
struct Way {
    board: Board,
    plies: usize,
    visited: Vec<u64>,
    in_book: bool,
}

impl Way {
    spec fn at(&self, used: int, asked: Seq<Position>) -> Opening {
        Opening {
            p: self.board@,
            plies: self.plies as int,
            visited: self.visited@,
            in_book: self.in_book,
            used,
            asked,
        }
    }

    spec fn ok(&self) -> bool {
        &&& self.board.ok()
        &&& valid(self.board@)
        &&& self.plies <= 8
        &&& reached(initial(), self.plies as int, self.board@)
        &&& self.board@.fullmove <= 1 + self.plies
        &&& self.board@.halfmove <= self.plies
    }

    fn new() -> (r: Self)
        ensures
            r.ok(),
            r.plies == 0,
            forall|used: int, asked: Seq<Position>| #[trigger] r.at(used, asked) == fresh_opening(used, asked),
    {
        let board = Board::starting_position();
        let mut visited: Vec<u64> = Vec::new();
        visited.push(board.hash);
        proof {
            law_start_is_valid();
            reveal(valid);
            reveal(initial);
            assert(visited@ =~= seq![initial().hash]);
        }
        Way { board, plies: 0, visited, in_book: true }
    }

    /// Takes an answer of the book and the draw on it.
    fn take_pick(&mut self, entries: &Vec<(Move, u32)>, pick: u32, Ghost(s): Ghost<Opening>)
        requires
            old(self).ok(),
            old(self).plies < 4,
            old(self).in_book,
            entries@.len() > 0,
            s == old(self).at(s.used, s.asked),
        ensures
            final(self).ok(),
            final(self).at(s.used, s.asked) == (if legal_in(s.p, picked_move(entries@, pick as int)) {
                moved_in_book(s, picked_move(entries@, pick as int))
            } else {
                Opening { in_book: false, ..s }
            }),
            final(self).plies > old(self).plies || (final(self).plies == old(self).plies && !final(self).in_book),
    {
        let m = entries[pick_by_weight(entries, pick)].0;
        if may_play(&self.board, m) {
            let ghost p = self.board@;
            proof {
                lemma_kinds_of_position(p);
            }
            play(&mut self.board, m);
            let known = seen(&self.visited, self.board.hash);
            self.in_book = self.board.position_history.len() <= 60 && !known;
            self.visited.push(self.board.hash);
            self.plies = self.plies + 1;
            proof {
                assert(reached(initial(), self.plies - 1, p) && legal_in(p, m));
            }
        } else {
            self.in_book = false;
        }
    }

    /// Plays one of the legal moves.
    fn take_roll(&mut self, legal: &MoveList, k: usize, Ghost(s): Ghost<Opening>)
        requires
            old(self).ok(),
            old(self).plies < 8,
            legal@ == choices(old(self).board@),
            legal_in(old(self).board@, legal@[k as int]),
            k < legal@.len(),
            s == old(self).at(s.used, s.asked),
        ensures
            final(self).ok(),
            final(self).plies == old(self).plies + 1,
            final(self).at(s.used, s.asked) == (Opening {
                p: played(s.p, choices(s.p)[k as int]),
                plies: s.plies + 1,
                ..s
            }),
    {
        let m = legal.get(k);
        let ghost p = self.board@;
        proof {
            lemma_kinds_of_position(p);
        }
        play(&mut self.board, m);
        self.plies = self.plies + 1;
        proof {
            assert(reached(initial(), self.plies - 1, p) && legal_in(p, m));
        }
    }
}

/// One opening goes on as another, whatever is drawn and answered after a
/// record.
spec fn leads(s: Opening, t: Opening, r: Record) -> bool {
    forall|d: Seq<usize>, a: Seq<Seq<(Move, u32)>>|
        begins_with(d, r.drawn) && begins_with(a, r.told) ==> #[trigger] opening_from(s, d, a) == opening_from(t, d, a)
}

proof fn lemma_begins<T>(l: Seq<T>, s: Seq<T>, t: Seq<T>)
    requires
        begins_with(l, s),
        begins_with(s, t),
    ensures
        begins_with(l, t),
{
    assert forall|i: int| 0 <= i < t.len() implies #[trigger] l[i] == t[i] by {
        assert(l[i] == s[i]);
        assert(s[i] == t[i]);
    }
}

proof fn lemma_leads(s: Opening, t: Opening, u: Opening, r: Record, q: Record)
    requires
        leads(s, t, r),
        leads(t, u, q),
        continues(q, r),
    ensures
        leads(s, u, q),
{
    assert forall|d: Seq<usize>, a: Seq<Seq<(Move, u32)>>| begins_with(d, q.drawn) && begins_with(a, q.told) implies
    #[trigger] opening_from(s, d, a) == opening_from(u, d, a) by {
        lemma_begins(d, q.drawn, r.drawn);
        lemma_begins(a, q.told, r.told);
        assert(opening_from(t, d, a) == opening_from(u, d, a));
    }
}

impl Way {
    spec fn now(&self, r: Record) -> Opening {
        self.at(r.drawn.len() as int, r.asked)
    }

    /// Asks the book and takes its answer.
    fn ask_book<B: Openings>(&mut self, luck: &mut Luck<B>)
        requires
            old(self).ok(),
            old(self).plies < 4,
            old(self).in_book,
            record_ok(old(luck).record()),
        ensures
            final(self).ok(),
            record_ok(final(luck).record()),
            continues(final(luck).record(), old(luck).record()),
            leads(old(self).now(old(luck).record()), final(self).now(final(luck).record()), final(luck).record()),
            final(self).plies > old(self).plies || (final(self).plies == old(self).plies && !final(self).in_book),
    {
        let ghost now = luck.record();
        let ghost s = self.now(now);
        let entries = luck.ask(&self.board);
        let ghost t = Opening { asked: s.asked.push(s.p), ..s };
        let total: u32 = match total_weight(&entries) {
            Some(t) => t,
            None => 0,
        };
        proof {
            lemma_no_weight(entries@);
        }
        let ghost mut drew: usize = 0;
        if total > 0 {
            let pick: usize = luck.draw(total as usize);
            proof {
                drew = pick;
            }
            let ghost u = Opening { used: s.used + 1, ..t };
            self.take_pick(&entries, pick as u32, Ghost(u));
        } else {
            self.in_book = false;
        }
        proof {
            let later = luck.record();
            let next = self.now(later);
            assert forall|d: Seq<usize>, a: Seq<Seq<(Move, u32)>>|
                begins_with(d, later.drawn) && begins_with(a, later.told) implies #[trigger] opening_from(s, d, a)
                == opening_from(next, d, a) by {
                assert(a[now.told.len() as int] == later.told[now.told.len() as int]);
                assert(answer_at(a, s.asked.len() as int) == entries@);
                if total > 0 {
                    assert(d[now.drawn.len() as int] == later.drawn[now.drawn.len() as int]);
                    vstd::arithmetic::div_mod::lemma_small_mod(drew as nat, total as nat);
                    assert(draw_at(d, s.used, whole_weight(entries@)) == drew);
                }
                assert(next == answered(s, entries@, d));
            }
        }
    }

    /// Plays a move at random; false if there is none.
    fn roll<B: Openings>(&mut self, luck: &mut Luck<B>) -> (r: bool)
        requires
            old(self).ok(),
            old(self).plies < 8,
            !(old(self).in_book && old(self).plies < 4),
            record_ok(old(luck).record()),
        ensures
            final(self).ok(),
            record_ok(final(luck).record()),
            continues(final(luck).record(), old(luck).record()),
            r == !stuck(old(self).board@),
            !r ==> final(luck).record() == old(luck).record(),
            r ==> final(self).plies == old(self).plies + 1,
            r ==> leads(old(self).now(old(luck).record()), final(self).now(final(luck).record()), final(luck).record()),
    {
        let ghost now = luck.record();
        let ghost s = self.now(now);
        let legal = choices_of(&self.board);
        if legal.is_empty() {
            return false;
        }
        let k: usize = luck.draw(legal.len());
        let ghost t = Opening { used: s.used + 1, ..s };
        self.take_roll(&legal, k, Ghost(t));
        proof {
            let later = luck.record();
            let next = self.now(later);
            assert forall|d: Seq<usize>, a: Seq<Seq<(Move, u32)>>|
                begins_with(d, later.drawn) && begins_with(a, later.told) implies #[trigger] opening_from(s, d, a)
                == opening_from(next, d, a) by {
                assert(d[now.drawn.len() as int] == later.drawn[now.drawn.len() as int]);
                vstd::arithmetic::div_mod::lemma_small_mod(k as nat, legal@.len());
                assert(next == rolled(s, d));
            }
        }
        true
    }
}

/// Weights of which there are none add up to nothing.
proof fn lemma_no_weight(entries: Seq<(Move, u32)>)
    ensures
        entries.len() == 0 ==> whole_weight(entries) == 0,
        whole_weight(entries) >= 0,
{
    lemma_weight_sum(weights_of(entries), 0, entries.len() as int);
}

/// The lists of book entries.
pub open spec fn lists(v: Seq<Vec<(Move, u32)>>) -> Seq<Seq<(Move, u32)>> {
    Seq::new(v.len(), |i: int| v[i]@)
}

/// The opening of a game, given what is drawn and what the book answers. A draw
/// counts by its remainder; where draws run out the first choice is taken, and
/// where answers run out the book is left.
pub fn opening_with(draws: &Vec<usize>, answers: &Vec<Vec<(Move, u32)>>) -> (r: Option<Board>)
    ensures
        r is Some <==> opening_of(draws@, lists(answers@)) is Some,
        r is Some ==> r->Some_0@ == opening_of(draws@, lists(answers@))->Some_0 && r->Some_0.ok() && valid(r->Some_0@),
{
    let mut way = Way::new();
    let mut used: usize = 0;
    let mut asked: usize = 0;
    let ghost mut boards = Seq::<Position>::empty();
    let ghost a = lists(answers@);
    let ghost start = fresh_opening(0, boards);
    proof {
        assert(way.at(0, boards) == start);
    }
    while way.plies < RANDOM_PLIES
        invariant
            way.ok(),
            a == lists(answers@),
            used <= way.plies + 4,
            asked <= way.plies + (if way.in_book { 0int } else { 1 }),
            used <= way.plies + (if way.in_book { 0int } else { 1 }),
            asked == boards.len(),
            start == fresh_opening(0, Seq::empty()),
            opening_from(start, draws@, a) == opening_from(way.at(used as int, boards), draws@, a),
        decreases 8 - way.plies, (if way.in_book { 1int } else { 0 }),
    {
        let ghost s = way.at(used as int, boards);
        if way.in_book && way.plies < BOOK_PLIES_MAX {
            let ghost entries_seq = answer_at(a, asked as int);
            let total: u32 = if asked < answers.len() {
                match total_weight(&answers[asked]) {
                    Some(t) => t,
                    None => 0,
                }
            } else {
                0
            };
            proof {
                lemma_no_weight(entries_seq);
                if asked < answers.len() {
                    assert(a[asked as int] == answers@[asked as int]@);
                }
                boards = boards.push(way.board@);
            }
            if total > 0 {
                let pick: u32 = if used < draws.len() { (draws[used] % total as usize) as u32 } else { 0 };
                let ghost t = way.at(used + 1, boards);
                way.take_pick(&answers[asked], pick, Ghost(t));
                used = used + 1;
            } else {
                way.in_book = false;
            }
            asked = asked + 1;
            proof {
                assert(way.at(used as int, boards) == answered(s, entries_seq, draws@));
            }
        } else {
            let legal = choices_of(&way.board);
            if legal.is_empty() {
                return None;
            }
            let k: usize = if used < draws.len() { draws[used] % legal.len() } else { 0 };
            let ghost t = way.at(used + 1, boards);
            way.take_roll(&legal, k, Ghost(t));
            used = used + 1;
            proof {
                assert(way.at(used as int, boards) == rolled(s, draws@));
            }
        }
    }
    Some(way.board)
}

/// The opening of a game: book moves, at most four and without a cycle, then
/// random moves, eight plies in all. None if the game ends before.
pub fn play_opening<B: Openings>(luck: &mut Luck<B>) -> (r: Option<Board>)
    requires
        record_ok(old(luck).record()),
    ensures
        record_ok(final(luck).record()),
        continues(final(luck).record(), old(luck).record()),
        ({
            let begun = start_of(None, false, old(luck).record(), final(luck).record());
            &&& begun.used == final(luck).record().drawn.len()
            &&& begun.asked == final(luck).record().asked
            &&& r is Some <==> begun.end is Some
            &&& r is Some ==> r->Some_0@ == begun.end->Some_0
        }),
        r is Some ==> r->Some_0.ok() && valid(r->Some_0@) && r->Some_0@.fullmove <= 9 && r->Some_0@.halfmove <= 8 && reached(
            initial(),
            8,
            r->Some_0@,
        ),
{
    let mut way = Way::new();
    let ghost before = luck.record();
    let ghost start = fresh_opening(before.drawn.len() as int, before.asked);
    proof {
        assert(way.now(before) == start);
    }
    while way.plies < RANDOM_PLIES
        invariant
            way.ok(),
            record_ok(luck.record()),
            before == old(luck).record(),
            continues(luck.record(), before),
            start == fresh_opening(before.drawn.len() as int, before.asked),
            leads(start, way.now(luck.record()), luck.record()),
        decreases 8 - way.plies, (if way.in_book { 1int } else { 0 }),
    {
        let ghost now = luck.record();
        let ghost s = way.now(now);
        if way.in_book && way.plies < BOOK_PLIES_MAX {
            way.ask_book(luck);
        } else if !way.roll(luck) {
            proof {
                let d = luck.record().drawn;
                let a = luck.record().told;
                assert(opening_from(start, d, a) == opening_from(s, d, a));
            }
            return None;
        }
        proof {
            lemma_leads(start, s, way.now(luck.record()), now, luck.record());
        }
    }
    proof {
        let d = luck.record().drawn;
        let a = luck.record().told;
        assert(opening_from(start, d, a) == opening_from(way.now(luck.record()), d, a));
    }
    Some(way.board)
}

/// Starts a game from a text. With `randomize` a random move follows, so that
/// games from the same text differ; without a legal move there is then no game.
pub fn start_from_fen<B: Openings>(fen: &str, randomize: bool, luck: &mut Luck<B>) -> (r: Option<Board>)
    requires
        record_ok(old(luck).record()),
    ensures
        record_ok(final(luck).record()),
        continues(final(luck).record(), old(luck).record()),
        ({
            let begun = start_of(Some(fen), randomize, old(luck).record(), final(luck).record());
            &&& begun.used == final(luck).record().drawn.len()
            &&& begun.asked == final(luck).record().asked
            &&& r is Some <==> begun.end is Some
            &&& r is Some ==> r->Some_0@ == begun.end->Some_0
        }),
        r is Some ==> r->Some_0.ok() && coherent(r->Some_0@) && r->Some_0@.halfmove <= 65_534 && r->Some_0@.fullmove
            <= 65_005,
{
    let mut b = match read_start(fen) {
        Some(b) => b,
        None => {
            return None;
        },
    };
    proof {
        lemma_kinds_of_position(b@);
    }
    if randomize {
        let legal = choices_of(&b);
        if legal.is_empty() {
            return None;
        }
        let k: usize = luck.draw(legal.len());
        proof {
            vstd::arithmetic::div_mod::lemma_small_mod(k as nat, legal@.len());
        }
        play(&mut b, legal.get(k));
    }
    Some(b)
}

fn read_start(fen: &str) -> (r: Option<Board>)
    ensures
        r is Some <==> can_start(fen@),
        r is Some ==> r->Some_0.ok() && whole(r->Some_0@) && r->Some_0@ == text_position(fen@)
            && r->Some_0@.halfmove <= 65_533 && r->Some_0@.fullmove <= 65_004,
{
    proof {
        reveal(can_start);
        reveal(text_position);
    }
    let b = match Board::from_fen(fen) {
        Ok(b) => b,
        Err(_) => {
            return None;
        },
    };
    if b.all_occupancy().count() > 32 || b.halfmove_clock > 65_533 || b.fullmove_number > 65_004 {
        return None;
    }
    proof {
        law_read_position_is_sound(fen@);
        reveal(whole);
    }
    Some(b)
}

proof fn lemma_weights_grow(w: Seq<u32>, i: int, j: int)
    requires
        0 <= i <= j <= w.len(),
    ensures
        weight_sum(w, i) <= weight_sum(w, j),
    decreases j - i,
{
    if i < j {
        lemma_weights_grow(w, i, j - 1);
    }
}

proof fn lemma_pick(w: Seq<u32>, pick: int, i: int, k: int)
    requires
        0 <= i <= k < w.len(),
        weight_sum(w, k) <= pick < weight_sum(w, k + 1),
    ensures
        pick_index(w, pick, i) == k,
    decreases k - i,
{
    if i < k {
        lemma_weights_grow(w, i + 1, k);
        lemma_pick(w, pick, i + 1, k);
    }
}

/// Each book entry has as many picks as its weight: those from the sum of the
/// weights before it up to the sum that includes it.
pub proof fn law_picks_follow_the_weights(w: Seq<u32>, k: int, n: int)
    requires
        0 <= k < w.len(),
        0 <= n < w[k],
    ensures
        pick_index(w, weight_sum(w, k) + n, 0) == k,
        weight_sum(w, k + 1) == weight_sum(w, k) + w[k],
        weight_sum(w, 0) == 0,
{
    lemma_pick(w, weight_sum(w, k) + n, 0, k);
}

} // verus!
