//! Games in portable game notation.

use vstd::prelude::*;
use crate::text::{chars_are, chars_of, decimal, fields, push_decimal, slice_of, split_fields, split_words, string_of, trim, trimmed, views, words};
use crate::types::{DrawReason, GameResult};

verus! {

/// A parsed PGN game.
#[derive(Debug)]
pub struct PgnGame {
    pub headers: Vec<(String, String)>,
    /// SAN move strings.
    pub moves: Vec<String>,
    pub result: Option<GameResult>,
}

/// The content of a [`PgnGame`].
pub struct Game {
    pub headers: Seq<(Seq<char>, Seq<char>)>,
    pub moves: Seq<Seq<char>>,
    pub result: Option<GameResult>,
}

impl View for PgnGame {
    type V = Game;

    open spec fn view(&self) -> Game {
        Game {
            headers: Seq::new(self.headers@.len(), |i: int| (self.headers@[i].0@, self.headers@[i].1@)),
            moves: Seq::new(self.moves@.len(), |i: int| self.moves@[i]@),
            result: self.result,
        }
    }
}

// Reading.
/// The position of the first space, or the length.
pub open spec fn first_space(cs: Seq<char>) -> int
    decreases cs.len(),
{
    if cs.len() == 0 || cs[0] == ' ' { 0 } else { 1 + first_space(cs.drop_first()) }
}

/// The text without quotes at its end.
pub open spec fn unquoted_end(cs: Seq<char>) -> Seq<char>
    decreases cs.len(),
{
    if cs.len() > 0 && cs.last() == '"' { unquoted_end(cs.drop_last()) } else { cs }
}

/// The text without quotes at its start.
pub open spec fn unquoted_start(cs: Seq<char>) -> Seq<char>
    decreases cs.len(),
{
    if cs.len() > 0 && cs[0] == '"' { unquoted_start(cs.drop_first()) } else { cs }
}

/// What has been read of a game's lines.
pub struct Reading {
    pub headers: Seq<(Seq<char>, Seq<char>)>,
    pub in_moves: bool,
    pub text: Seq<char>,
}

/// A line that is a tag pair.
pub open spec fn is_tag(t: Seq<char>) -> bool {
    t.len() > 0 && t[0] == '[' && t.last() == ']'
}

/// Key and value of a tag pair, if its key ends at a space.
pub open spec fn tag_of(t: Seq<char>) -> Option<(Seq<char>, Seq<char>)> {
    let inner = t.subrange(1, t.len() - 1);
    let k = first_space(inner);
    if k < inner.len() {
        Some((inner.take(k), unquoted_start(unquoted_end(trimmed(inner.skip(k + 1))))))
    } else {
        None
    }
}

/// Reads one line. Tag pairs come first; an empty line after them, or any
/// other line, begins the moves.
pub open spec fn read_line(r: Reading, line: Seq<char>) -> Reading {
    let t = trimmed(line);
    if t.len() == 0 {
        Reading { in_moves: r.in_moves || r.headers.len() > 0, ..r }
    } else if is_tag(t) && !r.in_moves {
        match tag_of(t) {
            Some(pair) => Reading { headers: r.headers.push(pair), ..r },
            None => r,
        }
    } else {
        Reading { in_moves: true, text: r.text.push(' ') + t, ..r }
    }
}

/// Reads the first `n` lines.
pub open spec fn read_lines(lines: Seq<Seq<char>>, n: int) -> Reading
    decreases n,
{
    if n <= 0 {
        Reading { headers: Seq::empty(), in_moves: false, text: Seq::empty() }
    } else {
        read_line(read_lines(lines, n - 1), lines[n - 1])
    }
}

/// Three dots in a row.
pub open spec fn has_ellipsis(t: Seq<char>) -> bool {
    exists|i: int| 0 <= i && i + 2 < t.len() && #[trigger] t[i] == '.' && t[i + 1] == '.' && t[i + 2] == '.'
}

/// A move number, which is skipped.
pub open spec fn is_number(t: Seq<char>) -> bool {
    (t.len() > 0 && t.last() == '.') || has_ellipsis(t)
}

/// The result that a token states.
pub open spec fn result_of(t: Seq<char>) -> Option<GameResult> {
    if t == "1-0"@ {
        Some(GameResult::WhiteWins)
    } else if t == "0-1"@ {
        Some(GameResult::BlackWins)
    } else if t == "1/2-1/2"@ {
        Some(GameResult::Draw(DrawReason::Agreement))
    } else if t == "*"@ {
        Some(GameResult::Ongoing)
    } else {
        None
    }
}

/// A comment, variation or glyph, which is skipped.
pub open spec fn is_remark(t: Seq<char>) -> bool {
    t.len() > 0 && (t[0] == '{' || t[0] == '(' || t[0] == '$')
}

/// Moves and result among the first `n` tokens; the last result counts.
pub open spec fn read_tokens(tokens: Seq<Seq<char>>, n: int) -> (Seq<Seq<char>>, Option<GameResult>)
    decreases n,
{
    if n <= 0 {
        (Seq::empty(), None)
    } else {
        let (moves, result) = read_tokens(tokens, n - 1);
        let t = tokens[n - 1];
        if is_number(t) {
            (moves, result)
        } else if result_of(t) is Some {
            (moves, result_of(t))
        } else if is_remark(t) {
            (moves, result)
        } else {
            (moves.push(t), result)
        }
    }
}

/// The game that a text denotes.
pub open spec fn game_of(text: Seq<char>) -> Game {
    let lines = fields(text, '\n');
    let r = read_lines(lines, lines.len() as int);
    let tokens = words(r.text);
    let (moves, result) = read_tokens(tokens, tokens.len() as int);
    Game { headers: r.headers, moves, result }
}

// Writing.
/// One tag pair as a line.
pub open spec fn tag_line(h: (Seq<char>, Seq<char>)) -> Seq<char> {
    seq!['['] + h.0 + seq![' ', '"'] + h.1 + seq!['"', ']', '\n']
}

/// The first `n` tag pairs.
pub open spec fn tag_lines(hs: Seq<(Seq<char>, Seq<char>)>, n: int) -> Seq<char>
    decreases n,
{
    if n <= 0 { Seq::empty() } else { tag_lines(hs, n - 1) + tag_line(hs[n - 1]) }
}

/// The first `n` moves, a number before each of White's.
pub open spec fn move_text(moves: Seq<Seq<char>>, n: int) -> Seq<char>
    decreases n,
{
    if n <= 0 {
        Seq::empty()
    } else {
        let number = if (n - 1) % 2 == 0 { decimal(((n - 1) / 2 + 1) as nat) + seq!['.', ' '] } else { Seq::empty() };
        move_text(moves, n - 1) + number + moves[n - 1] + seq![' ']
    }
}

/// The token of a result; a game without one is still going on.
pub open spec fn result_text(r: Option<GameResult>) -> Seq<char> {
    match r {
        Some(GameResult::WhiteWins) => "1-0"@,
        Some(GameResult::BlackWins) => "0-1"@,
        Some(GameResult::Draw(_)) => "1/2-1/2"@,
        _ => "*"@,
    }
}

/// The notation of a game.
pub open spec fn pgn_text(g: Game) -> Seq<char> {
    tag_lines(g.headers, g.headers.len() as int) + seq!['\n'] + move_text(g.moves, g.moves.len() as int) + result_text(
        g.result,
    ) + seq!['\n']
}

fn find_space(cs: &Vec<char>, start: usize, end: usize) -> (r: usize)
    requires
        start <= end <= cs@.len(),
    ensures
        start <= r <= end,
        r - start == first_space(cs@.subrange(start as int, end as int)),
{
    let mut i: usize = start;
    let ghost all = cs@.subrange(start as int, end as int);
    while i < end && cs[i] != ' '
        invariant
            start <= i <= end <= cs@.len(),
            all == cs@.subrange(start as int, end as int),
            first_space(all) == i - start + first_space(cs@.subrange(i as int, end as int)),
        decreases end - i,
    {
        proof {
            let s = cs@.subrange(i as int, end as int);
            assert(s[0] == cs@[i as int]);
            assert(s.drop_first() =~= cs@.subrange(i + 1, end as int));
        }
        i = i + 1;
    }
    proof {
        let s = cs@.subrange(i as int, end as int);
        if i < end {
            assert(s[0] == cs@[i as int]);
        }
    }
    i
}

fn strip_quotes(cs: &Vec<char>) -> (r: Vec<char>)
    ensures
        r@ == unquoted_start(unquoted_end(cs@)),
{
    let mut end: usize = cs.len();
    proof {
        assert(cs@.take(end as int) =~= cs@);
    }
    while end > 0 && cs[end - 1] == '"'
        invariant
            end <= cs.len(),
            unquoted_end(cs@.take(end as int)) == unquoted_end(cs@),
        decreases end,
    {
        proof {
            assert(cs@.take(end as int).drop_last() =~= cs@.take(end - 1));
        }
        end = end - 1;
    }
    let ghost mid = unquoted_end(cs@);
    proof {
        assert(mid == cs@.take(end as int));
        assert(mid.skip(0) =~= mid);
    }
    let mut start: usize = 0;
    while start < end && cs[start] == '"'
        invariant
            start <= end <= cs.len(),
            mid == cs@.take(end as int),
            unquoted_start(mid.skip(start as int)) == unquoted_start(mid),
        decreases end - start,
    {
        proof {
            assert(mid.skip(start as int).drop_first() =~= mid.skip(start + 1));
            assert(mid.skip(start as int)[0] == cs@[start as int]);
        }
        start = start + 1;
    }
    proof {
        assert(mid.skip(start as int) =~= cs@.subrange(start as int, end as int));
        if start < end {
            assert(mid.skip(start as int)[0] == cs@[start as int]);
        }
    }
    slice_of(cs, start, end)
}

fn ellipsis_in(t: &Vec<char>) -> (r: bool)
    ensures
        r == has_ellipsis(t@),
{
    let mut i: usize = 0;
    while i < t.len() && t.len() - i > 2
        invariant
            i <= t@.len(),
            forall|j: int|
                0 <= j < i && j + 2 < t@.len() ==> !(#[trigger] t@[j] == '.' && t@[j + 1] == '.' && t@[j + 2] == '.'),
        decreases t@.len() - i,
    {
        if t[i] == '.' && t[i + 1] == '.' && t[i + 2] == '.' {
            return true;
        }
        i = i + 1;
    }
    false
}

fn result_token(t: &Vec<char>) -> (r: Option<GameResult>)
    ensures
        r == result_of(t@),
{
    if chars_are(t, "1-0") {
        Some(GameResult::WhiteWins)
    } else if chars_are(t, "0-1") {
        Some(GameResult::BlackWins)
    } else if chars_are(t, "1/2-1/2") {
        Some(GameResult::Draw(DrawReason::Agreement))
    } else if chars_are(t, "*") {
        Some(GameResult::Ongoing)
    } else {
        None
    }
}

impl PgnGame {
    pub fn new() -> (r: Self)
        ensures
            r@.headers.len() == 0,
            r@.moves.len() == 0,
            r@.result is None,
    {
        PgnGame { headers: Vec::new(), moves: Vec::new(), result: None }
    }

    /// Parse a simple PGN string. Every text is read as some game.
    pub fn from_pgn(input: &str) -> (r: Result<Self, String>)
        ensures
            r is Ok,
            r->Ok_0@ == game_of(input@),
    {
        let mut game = PgnGame::new();
        let mut in_moves = false;
        let mut text: Vec<char> = Vec::new();
        let cs = chars_of(input);
        let lines = split_fields(&cs, '\n');
        let ghost ls = fields(input@, '\n');
        proof {
            assert(views(lines@).len() == lines@.len());
            assert(game@.headers =~= Seq::<(Seq<char>, Seq<char>)>::empty());
        }
        let mut i: usize = 0;
        while i < lines.len()
            invariant
                i <= lines@.len(),
                ls == views(lines@),
                game.moves@.len() == 0,
                game.result is None,
                game@.headers == read_lines(ls, i as int).headers,
                in_moves == read_lines(ls, i as int).in_moves,
                text@ == read_lines(ls, i as int).text,
            decreases lines@.len() - i,
        {
            let line = trim(&lines[i]);
            let ghost before = game@.headers;
            proof {
                assert(ls[i as int] == lines@[i as int]@);
            }
            if line.len() == 0 {
                if game.headers.len() > 0 {
                    in_moves = true;
                }
            } else if line[0] == '[' && line[line.len() - 1] == ']' && !in_moves {
                let end: usize = line.len() - 1;
                if end > 1 {
                    let k: usize = find_space(&line, 1, end);
                    if k < end {
                        let key = slice_of(&line, 1, k);
                        let rest = trim(&slice_of(&line, k + 1, end));
                        let value = strip_quotes(&rest);
                        let ghost inner = line@.subrange(1, line@.len() - 1);
                        proof {
                            assert(inner.take(k - 1) =~= line@.subrange(1, k as int));
                            assert(inner.skip(k as int) =~= line@.subrange(k + 1, end as int));
                        }
                        let pair = (string_of(&key), string_of(&value));
                        game.headers.push(pair);
                        proof {
                            assert(game@.headers =~= before.push((key@, value@)));
                        }
                    }
                } else {
                    proof {
                        let inner = line@.subrange(1, line@.len() - 1);
                        assert(inner.len() == 0);
                    }
                }
            } else {
                in_moves = true;
                text.push(' ');
                let ghost t0 = text@;
                append_chars(&mut text, &line);
            }
            i = i + 1;
        }
        let tokens = split_words(&text);
        let ghost ts = words(text@);
        proof {
            assert(views(tokens@).len() == tokens@.len());
            assert(game@.moves =~= Seq::<Seq<char>>::empty());
        }
        let ghost headers = game@.headers;
        let mut j: usize = 0;
        while j < tokens.len()
            invariant
                j <= tokens@.len(),
                ts == views(tokens@),
                game@.headers == headers,
                game@.moves == read_tokens(ts, j as int).0,
                game.result == read_tokens(ts, j as int).1,
            decreases tokens@.len() - j,
        {
            let token = &tokens[j];
            let ghost before = game@.moves;
            proof {
                assert(ts[j as int] == tokens@[j as int]@);
            }
            let number = (token.len() > 0 && token[token.len() - 1] == '.') || ellipsis_in(token);
            if !number {
                let result = result_token(token);
                if result.is_some() {
                    game.result = result;
                    proof {
                        assert(game@.headers =~= headers);
                        assert(game@.moves =~= before);
                    }
                } else {
                    let remark = token.len() > 0 && (token[0] == '{' || token[0] == '(' || token[0] == '$');
                    if !remark {
                        game.moves.push(string_of(token));
                        proof {
                            assert(game@.headers =~= headers);
                            assert(game@.moves =~= before.push(token@));
                        }
                    }
                }
            }
            j = j + 1;
        }
        Ok(game)
    }

    /// Convert a game to PGN format.
    pub fn to_pgn(&self) -> (r: String)
        ensures
            r@ == pgn_text(self@),
    {
        let mut out = String::new();
        let ghost hs = self@.headers;
        let ghost ms = self@.moves;
        let mut i: usize = 0;
        while i < self.headers.len()
            invariant
                i <= self.headers@.len(),
                hs == self@.headers,
                out@ == tag_lines(hs, i as int),
            decreases self.headers@.len() - i,
        {
            let ghost before = out@;
            out.push('[');
            out.append(self.headers[i].0.as_str());
            out.push(' ');
            out.push('"');
            out.append(self.headers[i].1.as_str());
            out.push('"');
            out.push(']');
            out.push('\n');
            proof {
                assert(hs[i as int] == (self.headers@[i as int].0@, self.headers@[i as int].1@));
                assert(out@ =~= before + tag_line(hs[i as int]));
            }
            i = i + 1;
        }
        out.push('\n');
        let ghost base = out@;
        let mut j: usize = 0;
        proof {
            assert(out@ =~= base + move_text(ms, 0));
        }
        while j < self.moves.len()
            invariant
                j <= self.moves@.len(),
                ms == self@.moves,
                out@ == base + move_text(ms, j as int),
            decreases self.moves@.len() - j,
        {
            let ghost before = out@;
            if j % 2 == 0 {
                push_decimal(&mut out, (j / 2 + 1) as u64);
                out.push('.');
                out.push(' ');
            }
            out.append(self.moves[j].as_str());
            out.push(' ');
            proof {
                assert(ms[j as int] == self.moves@[j as int]@);
                assert(out@ =~= base + move_text(ms, j + 1));
            }
            j = j + 1;
        }
        match self.result {
            Some(GameResult::WhiteWins) => out.append("1-0"),
            Some(GameResult::BlackWins) => out.append("0-1"),
            Some(GameResult::Draw(_)) => out.append("1/2-1/2"),
            _ => out.append("*"),
        }
        out.push('\n');
        proof {
            assert(out@ =~= pgn_text(self@));
        }
        out
    }

    /// The value of the first header with a key.
    pub open spec fn header(hs: Seq<(Seq<char>, Seq<char>)>, key: Seq<char>) -> Option<Seq<char>>
        decreases hs.len(),
    {
        if hs.len() == 0 {
            None
        } else if hs[0].0 == key {
            Some(hs[0].1)
        } else {
            Self::header(hs.drop_first(), key)
        }
    }

    pub fn get_header(&self, key: &str) -> (r: Option<&str>)
        ensures
            match PgnGame::header(self@.headers, key@) {
                Some(v) => r is Some && r->Some_0@ == v,
                None => r is None,
            },
    {
        let k = chars_of(key);
        let ghost hs = self@.headers;
        let mut i: usize = 0;
        proof {
            assert(hs.skip(0) =~= hs);
        }
        while i < self.headers.len()
            invariant
                i <= self.headers@.len(),
                hs == self@.headers,
                k@ == key@,
                PgnGame::header(hs.skip(i as int), key@) == PgnGame::header(hs, key@),
            decreases self.headers@.len() - i,
        {
            proof {
                assert(hs.skip(i as int)[0] == hs[i as int]);
                assert(hs[i as int] == (self.headers@[i as int].0@, self.headers@[i as int].1@));
                assert(hs.skip(i as int).drop_first() =~= hs.skip(i + 1));
            }
            if chars_are(&k, self.headers[i].0.as_str()) {
                return Some(self.headers[i].1.as_str());
            }
            i = i + 1;
        }
        None
    }
}

fn append_chars(v: &mut Vec<char>, cs: &Vec<char>)
    ensures
        final(v)@ == old(v)@ + cs@,
{
    let ghost before = v@;
    let mut i: usize = 0;
    while i < cs.len()
        invariant
            i <= cs@.len(),
            v@ == before + cs@.take(i as int),
        decreases cs@.len() - i,
    {
        v.push(cs[i]);
        i = i + 1;
        proof {
            assert(v@ =~= before + cs@.take(i as int));
        }
    }
    proof {
        assert(cs@.take(i as int) =~= cs@);
    }
}

/// What the result tokens mean, read and written: White's points first.
pub proof fn law_result_tokens()
    ensures
        result_of("1-0"@) == Some(GameResult::WhiteWins),
        result_of("0-1"@) == Some(GameResult::BlackWins),
        result_of("1/2-1/2"@) == Some(GameResult::Draw(DrawReason::Agreement)),
        result_of("*"@) == Some(GameResult::Ongoing),
        result_text(Some(GameResult::WhiteWins)) == "1-0"@,
        result_text(Some(GameResult::BlackWins)) == "0-1"@,
        forall|d: DrawReason| #[trigger] result_text(Some(GameResult::Draw(d))) == "1/2-1/2"@,
        result_text(None) == "*"@,
{
    reveal_strlit("1-0");
    reveal_strlit("0-1");
    reveal_strlit("1/2-1/2");
    reveal_strlit("*");
    assert("1-0"@[0] == '1' && "0-1"@[0] == '0');
    assert("1/2-1/2"@.len() == 7 && "*"@.len() == 1 && "1-0"@.len() == 3 && "0-1"@.len() == 3);
}

} // verus!
