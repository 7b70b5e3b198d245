//! Laws of the game notation.

use vstd::prelude::*;
use crate::fen_laws::{free_of, lemma_decimal_digits, lemma_fields_cons, lemma_words_cons, solid};
use crate::pgn::{first_space, game_of, has_ellipsis, is_number, is_remark, is_tag, move_text, pgn_text, read_line, read_lines, read_tokens, result_of, result_text, tag_line, tag_lines, tag_of, unquoted_end, unquoted_start, Game, Reading};
use crate::text::{decimal, fields, is_space, trimmed, words};
use crate::types::{DrawReason, GameResult};

verus! {

/// A tag pair that a line can hold: a key of one word on one line, and a value
/// on one line without a quote at either end.
pub open spec fn plain_tag(h: (Seq<char>, Seq<char>)) -> bool {
    &&& free_of(h.0, ' ')
    &&& free_of(h.0, '\n')
    &&& free_of(h.1, '\n')
    &&& h.1.len() > 0 ==> h.1[0] != '"' && h.1.last() != '"'
}

/// A token that is read as a move.
pub open spec fn plain_move(t: Seq<char>) -> bool {
    &&& t.len() > 0
    &&& solid(t)
    &&& !is_number(t)
    &&& result_of(t) is None
    &&& !is_remark(t)
}

/// The result that is read back: a game without a result is going on, and a
/// draw is one by agreement.
pub open spec fn written_result(r: Option<GameResult>) -> GameResult {
    match r {
        Some(GameResult::Draw(_)) => GameResult::Draw(DrawReason::Agreement),
        Some(result) => result,
        None => GameResult::Ongoing,
    }
}

/// A tag pair without the end of its line.
spec fn tag_body(h: (Seq<char>, Seq<char>)) -> Seq<char> {
    seq!['['] + h.0 + seq![' ', '"'] + h.1 + seq!['"', ']']
}

/// The lines of the first `n` tag pairs.
spec fn tag_bodies(hs: Seq<(Seq<char>, Seq<char>)>, n: int) -> Seq<Seq<char>> {
    Seq::new(n as nat, |i: int| tag_body(hs[i]))
}

/// Trimming leaves a text without white space at its ends.
pub proof fn lemma_untrimmed(t: Seq<char>)
    requires
        t.len() > 0,
        !is_space(t[0]),
        !is_space(t.last()),
    ensures
        trimmed(t) == t,
{
}

proof fn lemma_first_space(w: Seq<char>, rest: Seq<char>)
    requires
        free_of(w, ' '),
    ensures
        first_space(w + seq![' '] + rest) == w.len(),
    decreases w.len(),
{
    let s = w + seq![' '] + rest;
    if w.len() == 0 {
        assert(s[0] == ' ');
    } else {
        assert(s[0] == w[0]);
        assert(s.drop_first() =~= w.drop_first() + seq![' '] + rest);
        assert forall|i: int| 0 <= i < w.drop_first().len() implies #[trigger] w.drop_first()[i] != ' ' by {
            assert(w.drop_first()[i] == w[i + 1]);
        }
        lemma_first_space(w.drop_first(), rest);
    }
}

proof fn lemma_unquoted(v: Seq<char>)
    requires
        v.len() > 0 ==> v[0] != '"' && v.last() != '"',
    ensures
        unquoted_start(unquoted_end(seq!['"'] + v + seq!['"'])) == v,
{
    let q = seq!['"'] + v + seq!['"'];
    let h = seq!['"'] + v;
    assert(q.last() == '"');
    assert(q.drop_last() =~= h);
    assert(h.drop_first() =~= v);
    if v.len() == 0 {
        assert(h.drop_last() =~= Seq::<char>::empty());
        assert(unquoted_end(h) == unquoted_end(h.drop_last()));
    } else {
        assert(h.last() == v.last());
        assert(unquoted_end(h) == h);
        assert(unquoted_start(h) == unquoted_start(v));
    }
}

/// The line of a tag pair is read as that pair.
proof fn lemma_tag_reads_back(h: (Seq<char>, Seq<char>))
    requires
        plain_tag(h),
    ensures
        trimmed(tag_body(h)) == tag_body(h),
        is_tag(tag_body(h)),
        tag_of(tag_body(h)) == Some(h),
{
    let t = tag_body(h);
    assert(t[0] == '[' && t.last() == ']');
    lemma_untrimmed(t);
    let quoted = seq!['"'] + h.1 + seq!['"'];
    let inner = t.subrange(1, t.len() - 1);
    assert(inner =~= h.0 + seq![' '] + quoted);
    lemma_first_space(h.0, quoted);
    assert(inner.take(h.0.len() as int) =~= h.0);
    assert(inner.skip(h.0.len() as int + 1) =~= quoted);
    lemma_untrimmed(quoted);
    lemma_unquoted(h.1);
}

proof fn lemma_tag_fields(hs: Seq<(Seq<char>, Seq<char>)>, n: int, rest: Seq<char>)
    requires
        0 <= n <= hs.len(),
        forall|i: int| 0 <= i < n ==> plain_tag(#[trigger] hs[i]),
    ensures
        fields(tag_lines(hs, n) + rest, '\n') == tag_bodies(hs, n) + fields(rest, '\n'),
    decreases n,
{
    if n == 0 {
        assert(tag_lines(hs, 0) + rest =~= rest);
        assert(tag_bodies(hs, 0) + fields(rest, '\n') =~= fields(rest, '\n'));
    } else {
        let h = hs[n - 1];
        let body = tag_body(h);
        let tail = tag_line(h) + rest;
        assert(tail =~= body + seq!['\n'] + rest);
        assert(tag_lines(hs, n) + rest =~= tag_lines(hs, n - 1) + tail);
        lemma_tag_fields(hs, n - 1, tail);
        assert(plain_tag(h));
        assert forall|i: int| 0 <= i < body.len() implies #[trigger] body[i] != '\n' by {
            if 1 <= i < 1 + h.0.len() {
                assert(body[i] == h.0[i - 1]);
            } else if h.0.len() + 3 <= i < h.0.len() + 3 + h.1.len() {
                assert(body[i] == h.1[i - h.0.len() - 3]);
            }
        }
        lemma_fields_cons(body, rest, '\n');
        assert(tag_bodies(hs, n - 1) + (seq![body] + fields(rest, '\n')) =~= tag_bodies(hs, n) + fields(rest, '\n'));
    }
}

proof fn lemma_read_tags(hs: Seq<(Seq<char>, Seq<char>)>, lines: Seq<Seq<char>>, n: int)
    requires
        0 <= n <= hs.len() <= lines.len(),
        forall|i: int| 0 <= i < hs.len() ==> plain_tag(#[trigger] hs[i]),
        forall|i: int| 0 <= i < hs.len() ==> #[trigger] lines[i] == tag_body(hs[i]),
    ensures
        read_lines(lines, n) == (Reading { headers: hs.take(n), in_moves: false, text: Seq::empty() }),
    decreases n,
{
    if n == 0 {
        assert(hs.take(0) =~= Seq::<(Seq<char>, Seq<char>)>::empty());
    } else {
        lemma_read_tags(hs, lines, n - 1);
        assert(plain_tag(hs[n - 1]));
        assert(lines[n - 1] == tag_body(hs[n - 1]));
        lemma_tag_reads_back(hs[n - 1]);
        assert(hs.take(n - 1).push(hs[n - 1]) =~= hs.take(n));
    }
}

/// The number before a move of White.
spec fn number_token(n: int) -> Seq<char> {
    decimal(((n - 1) / 2 + 1) as nat) + seq!['.']
}

/// The tokens of the first `n` moves.
spec fn move_tokens(moves: Seq<Seq<char>>, n: int) -> Seq<Seq<char>>
    decreases n,
{
    if n <= 0 {
        Seq::empty()
    } else if (n - 1) % 2 == 0 {
        move_tokens(moves, n - 1).push(number_token(n)).push(moves[n - 1])
    } else {
        move_tokens(moves, n - 1).push(moves[n - 1])
    }
}

proof fn lemma_number_token(n: int)
    requires
        n >= 1,
    ensures
        number_token(n).len() > 0,
        solid(number_token(n)),
        is_number(number_token(n)),
        !is_space(number_token(n)[0]),
        number_token(n)[0] != '[',
{
    let d = decimal(((n - 1) / 2 + 1) as nat);
    let t = number_token(n);
    lemma_decimal_digits(((n - 1) / 2 + 1) as nat);
    assert(t.last() == '.');
    assert(t[0] == d[0]);
    assert forall|i: int| 0 <= i < t.len() implies !is_space(#[trigger] t[i]) by {
        if i < d.len() {
            assert(t[i] == d[i]);
        }
    }
}

proof fn lemma_move_words(moves: Seq<Seq<char>>, n: int, rest: Seq<char>)
    requires
        0 <= n <= moves.len(),
        forall|i: int| 0 <= i < n ==> plain_move(#[trigger] moves[i]),
    ensures
        words(move_text(moves, n) + rest) == move_tokens(moves, n) + words(rest),
    decreases n,
{
    if n == 0 {
        assert(move_text(moves, 0) + rest =~= rest);
        assert(move_tokens(moves, 0) + words(rest) =~= words(rest));
    } else {
        let m = moves[n - 1];
        assert(plain_move(m));
        let after = m + seq![' '] + rest;
        lemma_words_cons(m, rest);
        if (n - 1) % 2 == 0 {
            let tail = number_token(n) + seq![' '] + after;
            lemma_number_token(n);
            lemma_words_cons(number_token(n), after);
            assert(decimal(((n - 1) / 2 + 1) as nat) + seq!['.', ' '] =~= number_token(n) + seq![' ']);
            assert(move_text(moves, n) + rest =~= move_text(moves, n - 1) + tail);
            lemma_move_words(moves, n - 1, tail);
        } else {
            assert(move_text(moves, n) + rest =~= move_text(moves, n - 1) + after);
            lemma_move_words(moves, n - 1, after);
        }
        assert(move_tokens(moves, n) + words(rest) =~= words(move_text(moves, n) + rest));
    }
}

proof fn lemma_read_prefix(a: Seq<Seq<char>>, b: Seq<Seq<char>>, n: int)
    requires
        n <= a.len(),
        n <= b.len(),
        forall|i: int| 0 <= i < n ==> #[trigger] a[i] == b[i],
    ensures
        read_tokens(a, n) == read_tokens(b, n),
    decreases n,
{
    if n > 0 {
        lemma_read_prefix(a, b, n - 1);
        assert(a[n - 1] == b[n - 1]);
    }
}

/// The tokens of moves are read as those moves.
proof fn lemma_read_moves(moves: Seq<Seq<char>>, n: int)
    requires
        0 <= n <= moves.len(),
        forall|i: int| 0 <= i < n ==> plain_move(#[trigger] moves[i]),
    ensures
        read_tokens(move_tokens(moves, n), move_tokens(moves, n).len() as int) == (moves.take(n), None::<GameResult>),
    decreases n,
{
    let ts = move_tokens(moves, n);
    if n == 0 {
        assert(moves.take(0) =~= Seq::<Seq<char>>::empty());
    } else {
        lemma_read_moves(moves, n - 1);
        let before = move_tokens(moves, n - 1);
        let k = before.len() as int;
        assert(plain_move(moves[n - 1]));
        lemma_read_prefix(before, ts, k);
        if (n - 1) % 2 == 0 {
            lemma_number_token(n);
            assert(ts[k] == number_token(n));
            assert(read_tokens(ts, k + 1) == read_tokens(ts, k));
            assert(ts[k + 1] == moves[n - 1]);
        } else {
            assert(ts[k] == moves[n - 1]);
        }
        assert(moves.take(n - 1).push(moves[n - 1]) =~= moves.take(n));
    }
}

/// The token of a result is one word that states it.
proof fn lemma_result_token(r: Option<GameResult>)
    ensures
        result_text(r).len() > 0,
        solid(result_text(r)),
        !is_number(result_text(r)),
        result_text(r)[0] != '[',
        result_of(result_text(r)) == Some(written_result(r)),
{
    reveal_strlit("1-0");
    reveal_strlit("0-1");
    reveal_strlit("1/2-1/2");
    reveal_strlit("*");
    let t = result_text(r);
    assert(t.len() == 1 || t.len() == 3 || t.len() == 7);
    assert(free_of(t, '.'));
    assert(!has_ellipsis(t)) by {
        assert forall|i: int| 0 <= i && i + 2 < t.len() implies #[trigger] t[i] != '.' by {
        }
    }
    assert("0-1"@[0] != "1-0"@[0]);
    assert("1/2-1/2"@.len() != "1-0"@.len());
    assert("*"@.len() != "1-0"@.len());
}

/// The line of the moves and the result is no tag, and trimming leaves it.
proof fn lemma_move_line(moves: Seq<Seq<char>>, n: int, r: Option<GameResult>)
    requires
        0 <= n <= moves.len(),
        forall|i: int| 0 <= i < n ==> plain_move(#[trigger] moves[i]),
    ensures
        free_of(move_text(moves, n) + result_text(r), '\n'),
        trimmed(move_text(moves, n) + result_text(r)) == move_text(moves, n) + result_text(r),
        (move_text(moves, n) + result_text(r)).len() > 0,
        !is_tag(move_text(moves, n) + result_text(r)),
{
    let t = move_text(moves, n) + result_text(r);
    lemma_result_token(r);
    lemma_move_chars(moves, n);
    assert(t.last() == result_text(r).last());
    assert(t[0] == if n == 0 { result_text(r)[0] } else { move_text(moves, n)[0] });
    lemma_untrimmed(t);
    assert forall|i: int| 0 <= i < t.len() implies #[trigger] t[i] != '\n' by {
        if i < move_text(moves, n).len() {
            assert(t[i] == move_text(moves, n)[i]);
        } else {
            assert(t[i] == result_text(r)[i - move_text(moves, n).len()]);
        }
    }
}

proof fn lemma_move_chars(moves: Seq<Seq<char>>, n: int)
    requires
        0 <= n <= moves.len(),
        forall|i: int| 0 <= i < n ==> plain_move(#[trigger] moves[i]),
    ensures
        free_of(move_text(moves, n), '\n'),
        n == 0 ==> move_text(moves, n).len() == 0,
        n > 0 ==> move_text(moves, n).len() > 0 && !is_space(move_text(moves, n)[0]) && move_text(moves, n)[0] != '[',
    decreases n,
{
    if n > 0 {
        lemma_move_chars(moves, n - 1);
        let m = moves[n - 1];
        assert(plain_move(m));
        let before = move_text(moves, n - 1);
        lemma_number_token(n);
        let number = if (n - 1) % 2 == 0 { number_token(n) + seq![' '] } else { Seq::empty() };
        assert(decimal(((n - 1) / 2 + 1) as nat) + seq!['.', ' '] =~= number_token(n) + seq![' ']);
        let t = move_text(moves, n);
        assert(t =~= before + number + m + seq![' ']);
        if n == 1 {
            assert(t[0] == number_token(n)[0]);
        } else {
            assert(t[0] == before[0]);
        }
        assert forall|i: int| 0 <= i < t.len() implies #[trigger] t[i] != '\n' by {
            let k = i - before.len();
            if k < 0 {
                assert(t[i] == before[i]);
            } else if k < number.len() {
                assert(t[i] == number[k]);
                if k < number_token(n).len() {
                    assert(number[k] == number_token(n)[k]);
                }
            } else if k - number.len() < m.len() {
                assert(t[i] == m[k - number.len()]);
            }
        }
    }
}

/// Reading what was written gives the game back: its tags, its moves and its
/// result, where every draw counts as agreed and a game without a result as
/// going on.
pub proof fn law_pgn_round_trip(g: Game)
    requires
        forall|i: int| 0 <= i < g.headers.len() ==> plain_tag(#[trigger] g.headers[i]),
        forall|i: int| 0 <= i < g.moves.len() ==> plain_move(#[trigger] g.moves[i]),
    ensures
        game_of(pgn_text(g)).headers == g.headers,
        game_of(pgn_text(g)).moves == g.moves,
        game_of(pgn_text(g)).result == Some(written_result(g.result)),
{
    let hs = g.headers;
    let n = hs.len() as int;
    let body = move_text(g.moves, g.moves.len() as int) + result_text(g.result);
    let none = Seq::<char>::empty();
    lemma_move_line(g.moves, g.moves.len() as int, g.result);
    lemma_result_token(g.result);

    let rest = seq!['\n'] + body + seq!['\n'];
    assert(pgn_text(g) =~= tag_lines(hs, n) + rest);
    lemma_tag_fields(hs, n, rest);
    assert(rest =~= none + seq!['\n'] + (body + seq!['\n']));
    lemma_fields_cons(none, body + seq!['\n'], '\n');
    assert(body + seq!['\n'] =~= body + seq!['\n'] + none);
    lemma_fields_cons(body, none, '\n');
    lemma_fields_cons(none, none, '\n');
    let lines = fields(pgn_text(g), '\n');
    assert(lines =~= tag_bodies(hs, n) + seq![none, body, none]);

    lemma_read_tags(hs, lines, n);
    assert(hs.take(n) =~= hs);
    assert(lines[n] == none && lines[n + 1] == body && lines[n + 2] == none);
    assert(trimmed(none) == none);
    assert(read_lines(lines, n + 1) == read_line(read_lines(lines, n), none));
    assert(read_lines(lines, n + 2) == read_line(read_lines(lines, n + 1), body));
    assert(read_lines(lines, n + 3) == read_line(read_lines(lines, n + 2), none));
    let r = read_lines(lines, n + 3);
    assert(r.headers == hs);
    assert(r.text =~= seq![' '] + body);

    assert((seq![' '] + body).drop_first() =~= body);
    assert(words(seq![' '] + body) == words(body));
    lemma_move_words(g.moves, g.moves.len() as int, result_text(g.result));
    lemma_words_cons(result_text(g.result), none);
    let told = move_tokens(g.moves, g.moves.len() as int);
    let tokens = words(r.text);
    assert(tokens =~= told + seq![result_text(g.result)]);
    lemma_read_moves(g.moves, g.moves.len() as int);
    lemma_read_prefix(told, tokens, told.len() as int);
    assert(tokens[told.len() as int] == result_text(g.result));
    assert(g.moves.take(g.moves.len() as int) =~= g.moves);
}

} // verus!
