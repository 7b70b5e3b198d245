//! SAN (Standard Algebraic Notation) move parser.

use vstd::prelude::*;
use crate::board::{Board, Position};
use crate::movegen::{generate_legal_moves, legal_moves};
use crate::moves::{Move, MoveFlag};
use crate::text::{chars_are, chars_of, slice_of, trim, trimmed};
use crate::types::{PieceKind, Square};

verus! {

/// Marks that may follow a move: check, mate, and comments.
pub open spec fn is_annotation(c: char) -> bool {
    c == '+' || c == '#' || c == '!' || c == '?'
}

/// The text without trailing annotations.
pub open spec fn unannotated(cs: Seq<char>) -> Seq<char>
    decreases cs.len(),
{
    if cs.len() > 0 && is_annotation(cs.last()) { unannotated(cs.drop_last()) } else { cs }
}

/// The promotion piece of a letter.
pub open spec fn promo_letter(c: char) -> Option<PieceKind> {
    if c == 'Q' {
        Some(PieceKind::Queen)
    } else if c == 'R' {
        Some(PieceKind::Rook)
    } else if c == 'B' {
        Some(PieceKind::Bishop)
    } else if c == 'N' {
        Some(PieceKind::Knight)
    } else {
        None
    }
}

/// The length of the text before the promotion suffix: `=Q`, or a piece letter
/// behind a first or last rank. What follows `=` is an ASCII character.
pub open spec fn body_len(cs: Seq<char>) -> int {
    let n = cs.len() as int;
    if n >= 4 && cs[n - 2] == '=' && (cs[n - 1] as u32) < 128 {
        n - 2
    } else if n >= 3 && (cs[n - 2] == '1' || cs[n - 2] == '8') && promo_letter(cs[n - 1]) is Some {
        n - 1
    } else {
        n
    }
}

/// The promotion piece that the suffix names.
pub open spec fn suffix_promo(cs: Seq<char>) -> Option<PieceKind> {
    if body_len(cs) < cs.len() { promo_letter(cs.last()) } else { None }
}

/// The piece that the first letter names; a pawn has none.
pub open spec fn san_piece(c: char) -> PieceKind {
    if c == 'N' {
        PieceKind::Knight
    } else if c == 'B' {
        PieceKind::Bishop
    } else if c == 'R' {
        PieceKind::Rook
    } else if c == 'Q' {
        PieceKind::Queen
    } else if c == 'K' {
        PieceKind::King
    } else {
        PieceKind::Pawn
    }
}

/// The text without capture marks.
pub open spec fn without_x(cs: Seq<char>) -> Seq<char>
    decreases cs.len(),
{
    if cs.len() == 0 {
        cs
    } else if cs.last() == 'x' {
        without_x(cs.drop_last())
    } else {
        without_x(cs.drop_last()).push(cs.last())
    }
}

/// The file that a disambiguation gives: its last file letter.
pub open spec fn disambig_file(cs: Seq<char>) -> Option<int>
    decreases cs.len(),
{
    if cs.len() == 0 {
        None
    } else if 'a' <= cs.last() <= 'h' {
        Some(cs.last() as u32 - 'a' as u32)
    } else {
        disambig_file(cs.drop_last())
    }
}

/// The rank that a disambiguation gives: its last rank digit.
pub open spec fn disambig_rank(cs: Seq<char>) -> Option<int>
    decreases cs.len(),
{
    if cs.len() == 0 {
        None
    } else if '1' <= cs.last() <= '8' {
        Some(cs.last() as u32 - '1' as u32)
    } else {
        disambig_rank(cs.drop_last())
    }
}

/// What a SAN move asks for.
pub struct SanWish {
    pub piece: PieceKind,
    pub dest: Square,
    pub promo: Option<PieceKind>,
    pub file: Option<int>,
    pub rank: Option<int>,
}

/// The wish in a text that is not castling.
pub open spec fn san_wish(cs: Seq<char>) -> Option<SanWish> {
    let body = cs.take(body_len(cs));
    if body.len() < 2 {
        None
    } else {
        let piece = san_piece(body[0]);
        let rest = without_x(if piece == PieceKind::Pawn { body } else { body.drop_first() });
        let n = rest.len() as int;
        if n < 2 {
            None
        } else {
            match Square::of_name(rest.subrange(n - 2, n)) {
                None => None,
                Some(dest) => Some(
                    SanWish {
                        piece,
                        dest,
                        promo: suffix_promo(cs),
                        file: disambig_file(rest.take(n - 2)),
                        rank: disambig_rank(rest.take(n - 2)),
                    },
                ),
            }
        }
    }
}

/// A legal move grants a wish.
pub open spec fn grants(p: Position, w: SanWish) -> spec_fn(Move) -> bool {
    |m: Move|
        {
            &&& m.dst() == w.dest.0
            &&& p.mailbox[m.src()] is Some
            &&& p.mailbox[m.src()]->Some_0.kind == w.piece
            &&& p.mailbox[m.src()]->Some_0.color == p.side
            &&& m.kind().promoted() == w.promo
            &&& w.file is Some ==> m.src() % 8 == w.file->Some_0
            &&& w.rank is Some ==> m.src() / 8 == w.rank->Some_0
        }
}

/// A move with the given flag.
pub open spec fn has_flag(flag: MoveFlag) -> spec_fn(Move) -> bool {
    |m: Move| m.kind() == flag
}

/// The first move of a list with a property.
pub open spec fn first_where(s: Seq<Move>, f: spec_fn(Move) -> bool) -> Option<Move>
    decreases s.len(),
{
    if s.len() == 0 {
        None
    } else if f(s[0]) {
        Some(s[0])
    } else {
        first_where(s.drop_first(), f)
    }
}

/// The move that a SAN text means: the first legal move that grants it.
pub open spec fn san_meaning(p: Position, text: Seq<char>) -> Option<Move> {
    let cs = trimmed(unannotated(text));
    if cs.len() == 0 {
        None
    } else if cs == "O-O-O"@ || cs == "0-0-0"@ {
        first_where(legal_moves(p), has_flag(MoveFlag::QueensideCastle))
    } else if cs == "O-O"@ || cs == "0-0"@ {
        first_where(legal_moves(p), has_flag(MoveFlag::KingsideCastle))
    } else {
        match san_wish(cs) {
            None => None,
            Some(w) => first_where(legal_moves(p), grants(p, w)),
        }
    }
}

fn promo_from_char(c: char) -> (r: Option<PieceKind>)
    ensures
        r == promo_letter(c),
{
    match c {
        'Q' => Some(PieceKind::Queen),
        'R' => Some(PieceKind::Rook),
        'B' => Some(PieceKind::Bishop),
        'N' => Some(PieceKind::Knight),
        _ => None,
    }
}

/// Body length and promotion piece of a SAN text: "e8=Q" and "e8Q" styles.
fn strip_promo(cs: &Vec<char>) -> (r: (usize, Option<PieceKind>))
    ensures
        r.0 == body_len(cs@),
        r.1 == suffix_promo(cs@),
        r.0 <= cs@.len(),
{
    let n: usize = cs.len();
    if n >= 4 && cs[n - 2] == '=' && (cs[n - 1] as u32) < 128 {
        return (n - 2, promo_from_char(cs[n - 1]));
    }
    if n >= 3 && (cs[n - 2] == '1' || cs[n - 2] == '8') {
        let promo = promo_from_char(cs[n - 1]);
        if promo.is_some() {
            return (n - 1, promo);
        }
    }
    (n, None)
}

/// Disambiguation file and rank, each optional.
fn parse_disambig(cs: &Vec<char>, len: usize) -> (r: (Option<u8>, Option<u8>))
    requires
        len <= cs@.len(),
    ensures
        r.0 is Some <==> disambig_file(cs@.take(len as int)) is Some,
        r.0 is Some ==> r.0->Some_0 as int == disambig_file(cs@.take(len as int))->Some_0,
        r.1 is Some <==> disambig_rank(cs@.take(len as int)) is Some,
        r.1 is Some ==> r.1->Some_0 as int == disambig_rank(cs@.take(len as int))->Some_0,
{
    let mut file: Option<u8> = None;
    let mut rank: Option<u8> = None;
    let mut i: usize = 0;
    while i < len
        invariant
            i <= len <= cs@.len(),
            file is Some <==> disambig_file(cs@.take(i as int)) is Some,
            file is Some ==> file->Some_0 as int == disambig_file(cs@.take(i as int))->Some_0,
            rank is Some <==> disambig_rank(cs@.take(i as int)) is Some,
            rank is Some ==> rank->Some_0 as int == disambig_rank(cs@.take(i as int))->Some_0,
        decreases len - i,
    {
        let c = cs[i];
        proof {
            assert(cs@.take(i + 1).drop_last() =~= cs@.take(i as int));
            assert(cs@.take(i + 1).last() == c);
        }
        if 'a' <= c && c <= 'h' {
            file = Some((c as u32 - 'a' as u32) as u8);
        }
        if '1' <= c && c <= '8' {
            rank = Some((c as u32 - '1' as u32) as u8);
        }
        i = i + 1;
    }
    (file, rank)
}

fn find_castle(board: &Board, flag: MoveFlag) -> (r: Option<Move>)
    requires
        board.ok(),
        board@.has_room(),
    ensures
        r == first_where(legal_moves(board@), has_flag(flag)),
{
    let legal = generate_legal_moves(board);
    let mut i: usize = 0;
    let ghost f = has_flag(flag);
    proof {
        assert(legal@.skip(0) =~= legal@);
    }
    while i < legal.len()
        invariant
            i <= legal@.len(),
            f == has_flag(flag),
            legal@ == legal_moves(board@),
            first_where(legal@.skip(i as int), f) == first_where(legal@, f),
        decreases legal@.len() - i,
    {
        let m = legal.get(i);
        proof {
            assert(legal@.skip(i as int)[0] == m);
            assert(legal@.skip(i as int).drop_first() =~= legal@.skip(i + 1));
        }
        if m.flag() == flag {
            return Some(m);
        }
        i = i + 1;
    }
    None
}

/// Removes trailing annotations and surrounding white space.
fn clean(text: &str) -> (r: Vec<char>)
    ensures
        r@ == trimmed(unannotated(text@)),
{
    let cs = chars_of(text);
    let mut end: usize = cs.len();
    proof {
        assert(cs@.take(end as int) =~= cs@);
    }
    while end > 0 && (cs[end - 1] == '+' || cs[end - 1] == '#' || cs[end - 1] == '!' || cs[end - 1] == '?')
        invariant
            end <= cs@.len(),
            unannotated(cs@.take(end as int)) == unannotated(cs@),
        decreases end,
    {
        proof {
            assert(cs@.take(end as int).drop_last() =~= cs@.take(end - 1));
        }
        end = end - 1;
    }
    proof {
        assert(cs@.subrange(0, end as int) =~= cs@.take(end as int));
    }
    trim(&slice_of(&cs, 0, end))
}

/// The characters from `start` to `end` other than `x`.
fn strip_x(cs: &Vec<char>, start: usize, end: usize) -> (r: Vec<char>)
    requires
        start <= end <= cs@.len(),
    ensures
        r@ == without_x(cs@.subrange(start as int, end as int)),
{
    let mut out: Vec<char> = Vec::new();
    let mut i: usize = start;
    proof {
        assert(cs@.subrange(start as int, start as int) =~= Seq::<char>::empty());
    }
    while i < end
        invariant
            start <= i <= end <= cs@.len(),
            out@ == without_x(cs@.subrange(start as int, i as int)),
        decreases end - i,
    {
        let c = cs[i];
        proof {
            assert(cs@.subrange(start as int, i + 1).drop_last() =~= cs@.subrange(start as int, i as int));
            assert(cs@.subrange(start as int, i + 1).last() == c);
        }
        if c != 'x' {
            out.push(c);
        }
        i = i + 1;
    }
    out
}

/// Parse a SAN move string and return the matching legal move, or `None`.
///
/// Accepts standard SAN including:
/// - Piece moves: `Nf3`, `Bxe5`, `Qd2d4` (disambiguation)
/// - Pawn moves: `e4`, `exd5`, `e8=Q`, `e8Q`
/// - Castling: `O-O`, `O-O-O` (also `0-0`, `0-0-0`)
/// - Trailing annotations stripped: `+`, `#`, `!`, `?`
pub fn san_to_move(board: &Board, san: &str) -> (r: Option<Move>)
    requires
        board.ok(),
        board@.has_room(),
    ensures
        r == san_meaning(board@, san@),
{
    let cs = clean(san);
    if cs.len() == 0 {
        return None;
    }
    if chars_are(&cs, "O-O-O") || chars_are(&cs, "0-0-0") {
        return find_castle(board, MoveFlag::QueensideCastle);
    }
    if chars_are(&cs, "O-O") || chars_are(&cs, "0-0") {
        return find_castle(board, MoveFlag::KingsideCastle);
    }
    let (len, promo) = strip_promo(&cs);
    let ghost body = cs@.take(len as int);
    if len < 2 {
        return None;
    }
    let piece = match cs[0] {
        'N' => PieceKind::Knight,
        'B' => PieceKind::Bishop,
        'R' => PieceKind::Rook,
        'Q' => PieceKind::Queen,
        'K' => PieceKind::King,
        _ => PieceKind::Pawn,
    };
    let start: usize = if piece == PieceKind::Pawn { 0 } else { 1 };
    let rest = strip_x(&cs, start, len);
    proof {
        assert(cs@.subrange(start as int, len as int) =~= if piece == PieceKind::Pawn { body } else { body.drop_first() });
    }
    let n: usize = rest.len();
    if n < 2 {
        return None;
    }
    proof {
        assert(rest@.subrange(n - 2, n as int) =~= seq![rest@[n - 2], rest@[n - 1]]);
    }
    let dest = match Square::from_name(rest[n - 2], rest[n - 1]) {
        Some(sq) => sq,
        None => {
            return None;
        },
    };
    let (from_file, from_rank) = parse_disambig(&rest, n - 2);
    let ghost wish = san_wish(cs@)->Some_0;
    let ghost f = grants(board@, wish);
    let legal = generate_legal_moves(board);
    let mut i: usize = 0;
    proof {
        assert(legal@.skip(0) =~= legal@);
        assert(san_wish(cs@) is Some);
    }
    while i < legal.len()
        invariant
            i <= legal@.len(),
            f == grants(board@, wish),
            wish.dest == dest,
            wish.piece == piece,
            wish.promo == promo,
            wish.file is Some <==> from_file is Some,
            wish.file is Some ==> wish.file->Some_0 == from_file->Some_0 as int,
            wish.rank is Some <==> from_rank is Some,
            wish.rank is Some ==> wish.rank->Some_0 == from_rank->Some_0 as int,
            legal@ == legal_moves(board@),
            first_where(legal@.skip(i as int), f) == first_where(legal@, f),
            san_meaning(board@, san@) == first_where(legal@, f),
        decreases legal@.len() - i,
    {
        let m = legal.get(i);
        proof {
            assert(legal@.skip(i as int)[0] == m);
            assert(legal@.skip(i as int).drop_first() =~= legal@.skip(i + 1));
        }
        let from = m.from_sq();
        let mut good = m.to_sq() == dest && m.flag().promotion_piece() == promo;
        match board.piece_at(from) {
            Some(p) => {
                if p.kind != piece || p.color != board.side_to_move {
                    good = false;
                }
            },
            None => {
                good = false;
            },
        }
        if let Some(file) = from_file {
            if from.file() != file {
                good = false;
            }
        }
        if let Some(rank) = from_rank {
            if from.rank() != rank {
                good = false;
            }
        }
        if good {
            return Some(m);
        }
        i = i + 1;
    }
    None
}

/// The first move with a property is one of the list.
pub proof fn lemma_first_where(s: Seq<Move>, f: spec_fn(Move) -> bool)
    ensures
        first_where(s, f) is Some ==> s.contains(first_where(s, f)->Some_0) && f(first_where(s, f)->Some_0),
    decreases s.len(),
{
    if s.len() > 0 {
        if f(s[0]) {
            assert(s.contains(s[0]));
        } else {
            lemma_first_where(s.drop_first(), f);
            if first_where(s.drop_first(), f) is Some {
                let t = s.drop_first();
                let k = choose|k: int| 0 <= k < t.len() && t[k] == first_where(t, f)->Some_0;
                assert(s[k + 1] == t[k]);
            }
        }
    }
}

/// A first move with a property is found where the list has one.
pub proof fn lemma_first_where_finds(s: Seq<Move>, f: spec_fn(Move) -> bool, m: Move)
    requires
        s.contains(m),
        f(m),
    ensures
        first_where(s, f) is Some,
    decreases s.len(),
{
    if !f(s[0]) {
        let k = choose|k: int| 0 <= k < s.len() && s[k] == m;
        assert(s.drop_first()[k - 1] == m);
        lemma_first_where_finds(s.drop_first(), f, m);
    }
}

/// A SAN text only ever means a legal move.
pub proof fn law_san_move_is_legal(p: Position, text: Seq<char>)
    ensures
        san_meaning(p, text) is Some ==> legal_moves(p).contains(san_meaning(p, text)->Some_0),
{
    let s = legal_moves(p);
    lemma_first_where(s, has_flag(MoveFlag::QueensideCastle));
    lemma_first_where(s, has_flag(MoveFlag::KingsideCastle));
    let cs = trimmed(unannotated(text));
    if san_wish(cs) is Some {
        lemma_first_where(s, grants(p, san_wish(cs)->Some_0));
    }
}

} // verus!
