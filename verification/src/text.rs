//! Text helpers: characters of a string, decimal numbers, whitespace.

use vstd::prelude::*;

verus! {

/// `String::push` of std: the character is appended at the end.
pub assume_specification[ String::push ](s: &mut String, c: char)
    ensures
        final(s)@ == old(s)@.push(c),
;

/// The characters of a string.
pub fn chars_of(s: &str) -> (r: Vec<char>)
    ensures
        r@ == s@,
{
    let mut v: Vec<char> = Vec::new();
    for c in it: s.chars()
        invariant
            v@ == it.seq().take(it.index() as int),
            it.seq() == s@,
    {
        v.push(c);
    }
    v
}

/// Appends a list of characters to a string.
pub fn push_chars(s: &mut String, cs: &Vec<char>)
    ensures
        final(s)@ == old(s)@ + cs@,
{
    let ghost before = s@;
    let mut i: usize = 0;
    while i < cs.len()
        invariant
            i <= cs.len(),
            s@ == before + cs@.take(i as int),
        decreases cs.len() - i,
    {
        s.push(cs[i]);
        i = i + 1;
        proof {
            assert(cs@.take(i as int) == cs@.take(i - 1).push(cs@[i - 1]));
            assert(s@ =~= before + cs@.take(i as int));
        }
    }
    proof {
        assert(cs@.take(i as int) =~= cs@);
    }
}

/// A string made of the given characters.
pub fn string_of(cs: &Vec<char>) -> (r: String)
    ensures
        r@ == cs@,
{
    let mut s = String::new();
    push_chars(&mut s, cs);
    proof {
        assert(Seq::<char>::empty() + cs@ =~= cs@);
        assert(s@ =~= cs@);
    }
    s
}

/// Whether two lists of characters are the same.
pub fn same_chars(a: &Vec<char>, b: &Vec<char>) -> (r: bool)
    ensures
        r == (a@ == b@),
{
    if a.len() != b.len() {
        return false;
    }
    let mut i: usize = 0;
    while i < a.len()
        invariant
            i <= a.len(),
            a.len() == b.len(),
            forall|j: int| 0 <= j < i ==> a@[j] == b@[j],
        decreases a.len() - i,
    {
        if a[i] != b[i] {
            return false;
        }
        i = i + 1;
    }
    proof {
        assert(a@ =~= b@);
    }
    true
}

/// The decimal digit for a value below ten.
pub open spec fn digit_char(d: nat) -> char {
    if d == 0 { '0' } else if d == 1 { '1' } else if d == 2 { '2' } else if d == 3 { '3' }
    else if d == 4 { '4' } else if d == 5 { '5' } else if d == 6 { '6' } else if d == 7 { '7' }
    else if d == 8 { '8' } else { '9' }
}

/// The value of a decimal digit, if the character is one.
pub open spec fn digit_value(c: char) -> Option<nat> {
    if '0' <= c && c <= '9' { Some((c as u32 - '0' as u32) as nat) } else { None }
}

/// Decimal notation of a natural number, without leading zeros.
pub open spec fn decimal(n: nat) -> Seq<char>
    decreases n,
{
    if n < 10 {
        seq![digit_char(n)]
    } else {
        decimal(n / 10).push(digit_char(n % 10))
    }
}

/// Decimal notation of an integer: a minus sign in front of a negative one.
pub open spec fn decimal_int(n: int) -> Seq<char> {
    if n < 0 { seq!['-'] + decimal((-n) as nat) } else { decimal(n as nat) }
}

fn digit_for(d: u64) -> (c: char)
    requires
        d < 10,
    ensures
        c == digit_char(d as nat),
{
    if d == 0 { '0' } else if d == 1 { '1' } else if d == 2 { '2' } else if d == 3 { '3' }
    else if d == 4 { '4' } else if d == 5 { '5' } else if d == 6 { '6' } else if d == 7 { '7' }
    else if d == 8 { '8' } else { '9' }
}

/// Appends the decimal notation of `n`.
pub fn push_decimal(s: &mut String, n: u64)
    ensures
        final(s)@ == old(s)@ + decimal(n as nat),
    decreases n,
{
    let ghost before = s@;
    if n < 10 {
        s.push(digit_for(n));
        proof {
            assert(s@ =~= before + decimal(n as nat));
        }
    } else {
        push_decimal(s, n / 10);
        s.push(digit_for(n % 10));
        proof {
            assert(s@ =~= before + decimal(n as nat));
        }
    }
}

/// Appends the decimal notation of a signed number.
pub fn push_decimal_int(s: &mut String, n: i64)
    requires
        n > i64::MIN,
    ensures
        final(s)@ == old(s)@ + decimal_int(n as int),
{
    let ghost before = s@;
    if n < 0 {
        s.push('-');
        push_decimal(s, (-n) as u64);
        proof {
            assert(s@ =~= before + decimal_int(n as int));
        }
    } else {
        push_decimal(s, n as u64);
    }
}

/// The number that a run of decimal digits denotes.
pub open spec fn digits_value(cs: Seq<char>) -> Option<nat>
    decreases cs.len(),
{
    if cs.len() == 0 {
        Some(0)
    } else {
        match (digits_value(cs.drop_last()), digit_value(cs.last())) {
            (Some(v), Some(d)) => Some(10 * v + d),
            _ => None,
        }
    }
}

/// The value that std's `parse::<u16>` finds in a text: an optional plus sign
/// and at least one decimal digit, at most `u16::MAX`.
pub open spec fn parsed_u16(cs: Seq<char>) -> Option<u16> {
    let digits = if cs.len() > 0 && cs[0] == '+' { cs.drop_first() } else { cs };
    if digits.len() == 0 {
        None
    } else {
        match digits_value(digits) {
            Some(v) if v <= u16::MAX => Some(v as u16),
            _ => None,
        }
    }
}

proof fn lemma_digits_prefix(cs: Seq<char>, n: int)
    requires
        0 <= n <= cs.len(),
        digits_value(cs) is Some,
    ensures
        digits_value(cs.take(n)) is Some,
        digits_value(cs.take(n))->0 <= digits_value(cs)->0,
    decreases cs.len() - n,
{
    if n == cs.len() {
        assert(cs.take(n) =~= cs);
    } else {
        lemma_digits_prefix(cs, n + 1);
        assert(cs.take(n + 1).drop_last() =~= cs.take(n));
    }
}

/// Parses a `u16` as std's `parse::<u16>` does.
pub fn parse_u16(cs: &Vec<char>) -> (r: Option<u16>)
    ensures
        r == parsed_u16(cs@),
{
    let start: usize = if cs.len() > 0 && cs[0] == '+' { 1 } else { 0 };
    let ghost digits = cs@.skip(start as int);
    proof {
        assert(digits =~= if cs@.len() > 0 && cs@[0] == '+' { cs@.drop_first() } else { cs@ });
    }
    if cs.len() == start {
        return None;
    }
    let mut i: usize = start;
    let mut v: u32 = 0;
    while i < cs.len()
        invariant
            start <= i <= cs.len(),
            digits == cs@.skip(start as int),
            digits == (if cs@.len() > 0 && cs@[0] == '+' { cs@.drop_first() } else { cs@ }),
            digits.len() > 0,
            digits_value(digits.take(i - start)) == Some(v as nat),
            v <= u16::MAX,
        decreases cs.len() - i,
    {
        let c = cs[i];
        proof {
            let t = digits.take(i - start + 1);
            assert(t.drop_last() =~= digits.take(i - start));
            assert(t.last() == c);
            if digits_value(digits) is Some {
                lemma_digits_prefix(digits, i - start + 1);
            }
        }
        if c < '0' || c > '9' {
            return None;
        }
        v = v * 10 + (c as u32 - '0' as u32);
        if v > 65535 {
            return None;
        }
        i = i + 1;
    }
    proof {
        assert(digits.take(i - start) =~= digits);
    }
    Some(v as u16)
}

/// The characters with the Unicode `White_Space` property.
pub open spec fn is_space(c: char) -> bool {
    let n = c as u32;
    ||| 0x9 <= n <= 0xD
    ||| n == 0x20
    ||| n == 0x85
    ||| n == 0xA0
    ||| n == 0x1680
    ||| 0x2000 <= n <= 0x200A
    ||| n == 0x2028
    ||| n == 0x2029
    ||| n == 0x202F
    ||| n == 0x205F
    ||| n == 0x3000
}

/// Whether the character is white space.
pub fn is_whitespace(c: char) -> (r: bool)
    ensures
        r == is_space(c),
{
    let n: u32 = c as u32;
    (0x9 <= n && n <= 0xD) || n == 0x20 || n == 0x85 || n == 0xA0 || n == 0x1680 || (0x2000 <= n && n <= 0x200A)
        || n == 0x2028 || n == 0x2029 || n == 0x202F || n == 0x205F || n == 0x3000
}

/// The maximal runs of non-space characters of `cs`, where `word` is the part
/// of the current run already read.
pub open spec fn words_after(word: Seq<char>, cs: Seq<char>) -> Seq<Seq<char>>
    decreases cs.len(),
{
    if cs.len() == 0 {
        if word.len() == 0 { Seq::empty() } else { seq![word] }
    } else if is_space(cs[0]) {
        if word.len() == 0 {
            words_after(Seq::empty(), cs.drop_first())
        } else {
            seq![word] + words_after(Seq::empty(), cs.drop_first())
        }
    } else {
        words_after(word.push(cs[0]), cs.drop_first())
    }
}

/// The words of a text: its maximal runs of non-space characters.
pub open spec fn words(cs: Seq<char>) -> Seq<Seq<char>> {
    words_after(Seq::empty(), cs)
}

/// The fields of `cs` between separators, where `word` is the part of the
/// current field already read. Fields may be empty.
pub open spec fn fields_after(word: Seq<char>, cs: Seq<char>, sep: char) -> Seq<Seq<char>>
    decreases cs.len(),
{
    if cs.len() == 0 {
        seq![word]
    } else if cs[0] == sep {
        seq![word] + fields_after(Seq::empty(), cs.drop_first(), sep)
    } else {
        fields_after(word.push(cs[0]), cs.drop_first(), sep)
    }
}

/// The fields of a text between separators.
pub open spec fn fields(cs: Seq<char>, sep: char) -> Seq<Seq<char>> {
    fields_after(Seq::empty(), cs, sep)
}

/// Splits a text at a separator; there is always at least one field.
pub fn split_fields(cs: &Vec<char>, sep: char) -> (r: Vec<Vec<char>>)
    ensures
        views(r@) == fields(cs@, sep),
{
    let mut out: Vec<Vec<char>> = Vec::new();
    let mut word: Vec<char> = Vec::new();
    let mut i: usize = 0;
    proof {
        assert(cs@.skip(0) =~= cs@);
        assert(word@ =~= Seq::<char>::empty());
        assert(views(out@) + fields(cs@, sep) =~= fields(cs@, sep));
    }
    while i < cs.len()
        invariant
            i <= cs.len(),
            views(out@) + fields_after(word@, cs@.skip(i as int), sep) == fields(cs@, sep),
        decreases cs.len() - i,
    {
        let c = cs[i];
        let ghost rest = cs@.skip(i as int);
        proof {
            assert(rest.drop_first() =~= cs@.skip(i + 1));
        }
        let ghost before = out@;
        if c == sep {
            let ghost w = word@;
            out.push(word);
            word = Vec::new();
            proof {
                assert(views(out@) =~= views(before).push(w));
                assert(views(out@) + fields_after(Seq::empty(), rest.drop_first(), sep) =~= views(before) + (seq![w]
                    + fields_after(Seq::empty(), rest.drop_first(), sep)));
                assert(word@ =~= Seq::<char>::empty());
            }
        } else {
            word.push(c);
        }
        i = i + 1;
    }
    proof {
        assert(cs@.skip(i as int).len() == 0);
    }
    let ghost before = out@;
    let ghost w = word@;
    out.push(word);
    proof {
        assert(views(out@) =~= views(before) + seq![w]);
    }
    out
}

/// The views of a list of character lists.
pub open spec fn views(v: Seq<Vec<char>>) -> Seq<Seq<char>> {
    Seq::new(v.len(), |i: int| v[i]@)
}

/// Splits a text at white space.
pub fn split_words(cs: &Vec<char>) -> (r: Vec<Vec<char>>)
    ensures
        views(r@) == words(cs@),
{
    let mut out: Vec<Vec<char>> = Vec::new();
    let mut word: Vec<char> = Vec::new();
    let mut i: usize = 0;
    proof {
        assert(cs@.skip(0) =~= cs@);
        assert(views(out@) + words(cs@) =~= words(cs@));
    }
    while i < cs.len()
        invariant
            i <= cs.len(),
            views(out@) + words_after(word@, cs@.skip(i as int)) == words(cs@),
        decreases cs.len() - i,
    {
        let c = cs[i];
        let ghost rest = cs@.skip(i as int);
        proof {
            assert(rest.drop_first() =~= cs@.skip(i + 1));
        }
        let ghost before = out@;
        if is_whitespace(c) {
            if word.len() > 0 {
                let ghost w = word@;
                out.push(word);
                word = Vec::new();
                proof {
                    assert(views(out@) =~= views(before).push(w));
                    assert(views(out@) + words_after(Seq::empty(), rest.drop_first()) =~= views(before) + (seq![w]
                        + words_after(Seq::empty(), rest.drop_first())));
                    assert(word@ =~= Seq::<char>::empty());
                }
            } else {
                proof {
                    assert(word@ =~= Seq::<char>::empty());
                }
            }
        } else {
            word.push(c);
        }
        i = i + 1;
    }
    proof {
        assert(cs@.skip(i as int).len() == 0);
    }
    let ghost before = out@;
    if word.len() > 0 {
        let ghost w = word@;
        out.push(word);
        proof {
            assert(views(out@) =~= views(before) + seq![w]);
        }
    } else {
        proof {
            assert(views(out@) =~= words(cs@));
        }
    }
    out
}

/// The text without white space at its end.
pub open spec fn trimmed_end(cs: Seq<char>) -> Seq<char>
    decreases cs.len(),
{
    if cs.len() > 0 && is_space(cs.last()) { trimmed_end(cs.drop_last()) } else { cs }
}

/// The text without white space at its start.
pub open spec fn trimmed_start(cs: Seq<char>) -> Seq<char>
    decreases cs.len(),
{
    if cs.len() > 0 && is_space(cs[0]) { trimmed_start(cs.drop_first()) } else { cs }
}

/// The text without white space at either end.
pub open spec fn trimmed(cs: Seq<char>) -> Seq<char> {
    trimmed_start(trimmed_end(cs))
}

/// Part of a list of characters.
pub fn slice_of(cs: &Vec<char>, from: usize, to: usize) -> (r: Vec<char>)
    requires
        from <= to <= cs@.len(),
    ensures
        r@ == cs@.subrange(from as int, to as int),
{
    let mut v: Vec<char> = Vec::new();
    let mut i: usize = from;
    while i < to
        invariant
            from <= i <= to <= cs@.len(),
            v@ == cs@.subrange(from as int, i as int),
        decreases to - i,
    {
        v.push(cs[i]);
        i = i + 1;
        proof {
            assert(v@ =~= cs@.subrange(from as int, i as int));
        }
    }
    v
}

/// Removes white space from both ends.
pub fn trim(cs: &Vec<char>) -> (r: Vec<char>)
    ensures
        r@ == trimmed(cs@),
{
    let mut end: usize = cs.len();
    proof {
        assert(cs@.take(end as int) =~= cs@);
    }
    while end > 0 && is_whitespace(cs[end - 1])
        invariant
            end <= cs.len(),
            trimmed_end(cs@.take(end as int)) == trimmed_end(cs@),
        decreases end,
    {
        proof {
            assert(cs@.take(end as int).drop_last() =~= cs@.take(end - 1));
        }
        end = end - 1;
    }
    let ghost mid = trimmed_end(cs@);
    proof {
        assert(mid == cs@.take(end as int));
        assert(mid.skip(0) =~= mid);
    }
    let mut start: usize = 0;
    while start < end && is_whitespace(cs[start])
        invariant
            start <= end <= cs.len(),
            mid == cs@.take(end as int),
            trimmed_start(mid.skip(start as int)) == trimmed_start(mid),
        decreases end - start,
    {
        proof {
            assert(mid.skip(start as int).drop_first() =~= mid.skip(start + 1));
            assert(mid.skip(start as int)[0] == cs@[start as int]);
        }
        start = start + 1;
    }
    proof {
        assert(mid.skip(start as int) =~= cs@.subrange(start as int, end as int));
        if start < end {
            assert(mid.skip(start as int)[0] == cs@[start as int]);
        }
    }
    slice_of(cs, start, end)
}

/// Whether the characters are those of a literal.
pub fn chars_are(cs: &Vec<char>, text: &str) -> (r: bool)
    ensures
        r == (cs@ == text@),
{
    let t = chars_of(text);
    same_chars(cs, &t)
}

proof fn lemma_trimmed_end(cs: Seq<char>)
    ensures
        ({
            let t = trimmed_end(cs);
            &&& t.len() <= cs.len()
            &&& t =~= cs.take(t.len() as int)
            &&& forall|i: int| t.len() <= i < cs.len() ==> is_space(#[trigger] cs[i])
            &&& t.len() > 0 ==> !is_space(t.last())
        }),
    decreases cs.len(),
{
    if cs.len() > 0 && is_space(cs.last()) {
        lemma_trimmed_end(cs.drop_last());
        let t = trimmed_end(cs);
        assert forall|i: int| t.len() <= i < cs.len() implies is_space(#[trigger] cs[i]) by {
            if i < cs.len() - 1 {
                assert(cs.drop_last()[i] == cs[i]);
            }
        }
    }
}

proof fn lemma_trimmed_start(cs: Seq<char>)
    ensures
        ({
            let t = trimmed_start(cs);
            &&& t.len() <= cs.len()
            &&& t =~= cs.skip(cs.len() - t.len())
            &&& forall|i: int| 0 <= i < cs.len() - t.len() ==> is_space(#[trigger] cs[i])
            &&& t.len() > 0 ==> !is_space(t[0])
        }),
    decreases cs.len(),
{
    if cs.len() > 0 && is_space(cs[0]) {
        lemma_trimmed_start(cs.drop_first());
        let t = trimmed_start(cs);
        assert forall|i: int| 0 <= i < cs.len() - t.len() implies is_space(#[trigger] cs[i]) by {
            if i > 0 {
                assert(cs.drop_first()[i - 1] == cs[i]);
            }
        }
    }
}

/// Trimming takes white space from both ends of a text and nothing else, and
/// leaves none there.
pub proof fn law_trimming_takes_the_outer_space(cs: Seq<char>) -> (at: int)
    ensures
        ({
            let t = trimmed(cs);
            &&& 0 <= at <= at + t.len() <= cs.len()
            &&& t =~= cs.subrange(at, at + t.len())
            &&& forall|i: int| (0 <= i < at || at + t.len() <= i < cs.len()) ==> is_space(#[trigger] cs[i])
            &&& t.len() > 0 ==> !is_space(t[0]) && !is_space(t.last())
        }),
{
    let e = trimmed_end(cs);
    lemma_trimmed_end(cs);
    lemma_trimmed_start(e);
    let t = trimmed(cs);
    let at = e.len() - t.len();
    assert forall|i: int| (0 <= i < at || at + t.len() <= i < cs.len()) implies is_space(#[trigger] cs[i]) by {
        if i < at {
            assert(e[i] == cs[i]);
        }
    }
    if t.len() > 0 {
        assert(t.last() == e.last());
    }
    at
}

/// Among the ASCII characters only the blank, the tabs, the line ends and the form
/// feed are white space.
pub proof fn law_ascii_white_space(c: char)
    requires
        (c as u32) < 128,
    ensures
        is_space(c) <==> c == ' ' || c == '\t' || c == '\n' || c == '\r' || c as u32 == 11 || c as u32 == 12,
{
}

} // verus!
