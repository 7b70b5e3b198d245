//! Laws of the position notation.

use vstd::prelude::*;
use crate::board::{home_rank, rook_index, Position};
use crate::board_laws::lemma_mailbox_determines;
use crate::fen::{case_color, castling_field, castling_text, empty_mailbox, fen_parts, fen_position, fen_text, gap_of, gap_text, held_letter, is_stale, lemma_position_of_consistent, named_right, outermost_rook, placement_field, placement_text, position_of, rank_text, read_rank, read_ranks, read_rights, right_fault, right_text, side_text, standard_rooks, structure_fault, FenFault, NamedRight, RightsRead};
use crate::movegen::right_bit;
use crate::movegen_laws::lemma_set_is_mailbox;
use crate::text::{decimal, digit_char, digit_value, digits_value, fields, fields_after, is_space, parsed_u16, words, words_after};
use crate::types::{law_square_name_round_trip, square_name, CastlingRights, Color, Piece, PieceKind, Square};

verus! {

/// A text without white space.
pub open spec fn solid(s: Seq<char>) -> bool {
    forall|i: int| 0 <= i < s.len() ==> !is_space(#[trigger] s[i])
}

/// A text without a given character.
pub open spec fn free_of(s: Seq<char>, c: char) -> bool {
    forall|i: int| 0 <= i < s.len() ==> #[trigger] s[i] != c
}

proof fn lemma_words_absorb(word: Seq<char>, w: Seq<char>, rest: Seq<char>)
    requires
        solid(w),
    ensures
        words_after(word, w + rest) == words_after(word + w, rest),
    decreases w.len(),
{
    if w.len() == 0 {
        assert(w + rest =~= rest);
        assert(word + w =~= word);
    } else {
        assert((w + rest).drop_first() =~= w.drop_first() + rest);
        assert((w + rest)[0] == w[0]);
        assert(!is_space(w[0]));
        assert forall|i: int| 0 <= i < w.drop_first().len() implies !is_space(#[trigger] w.drop_first()[i]) by {
            assert(w.drop_first()[i] == w[i + 1]);
        }
        lemma_words_absorb(word.push(w[0]), w.drop_first(), rest);
        assert(word.push(w[0]) + w.drop_first() =~= word + w);
    }
}

/// A word and a space in front of a text put the word in front of its words.
pub proof fn lemma_words_cons(w: Seq<char>, rest: Seq<char>)
    requires
        solid(w),
        w.len() > 0,
    ensures
        words(w + seq![' '] + rest) == seq![w] + words(rest),
        words(w) == seq![w],
{
    lemma_words_absorb(Seq::empty(), w, seq![' '] + rest);
    assert(w + seq![' '] + rest =~= w + (seq![' '] + rest));
    assert(Seq::<char>::empty() + w =~= w);
    assert((seq![' '] + rest).drop_first() =~= rest);
    lemma_words_absorb(Seq::empty(), w, Seq::empty());
    assert(w + Seq::<char>::empty() =~= w);
}

proof fn lemma_fields_absorb(word: Seq<char>, w: Seq<char>, rest: Seq<char>, sep: char)
    requires
        free_of(w, sep),
    ensures
        fields_after(word, w + rest, sep) == fields_after(word + w, rest, sep),
    decreases w.len(),
{
    if w.len() == 0 {
        assert(w + rest =~= rest);
        assert(word + w =~= word);
    } else {
        assert((w + rest).drop_first() =~= w.drop_first() + rest);
        assert((w + rest)[0] == w[0]);
        assert(w[0] != sep);
        assert forall|i: int| 0 <= i < w.drop_first().len() implies #[trigger] w.drop_first()[i] != sep by {
            assert(w.drop_first()[i] == w[i + 1]);
        }
        lemma_fields_absorb(word.push(w[0]), w.drop_first(), rest, sep);
        assert(word.push(w[0]) + w.drop_first() =~= word + w);
    }
}

/// A field and a separator in front of a text put the field in front of its
/// fields.
pub proof fn lemma_fields_cons(w: Seq<char>, rest: Seq<char>, sep: char)
    requires
        free_of(w, sep),
    ensures
        fields(w + seq![sep] + rest, sep) == seq![w] + fields(rest, sep),
        fields(w, sep) == seq![w],
{
    lemma_fields_absorb(Seq::empty(), w, seq![sep] + rest, sep);
    assert(w + seq![sep] + rest =~= w + (seq![sep] + rest));
    assert(Seq::<char>::empty() + w =~= w);
    assert((seq![sep] + rest).drop_first() =~= rest);
    lemma_fields_absorb(Seq::empty(), w, Seq::empty(), sep);
    assert(w + Seq::<char>::empty() =~= w);
}

/// Decimal notation is made of digits.
pub proof fn lemma_decimal_digits(n: nat)
    ensures
        decimal(n).len() > 0,
        forall|i: int| 0 <= i < decimal(n).len() ==> '0' <= (#[trigger] decimal(n)[i]) <= '9',
        solid(decimal(n)),
        digits_value(decimal(n)) == Some(n),
    decreases n,
{
    if n < 10 {
        let s = decimal(n);
        assert(s.drop_last() =~= Seq::<char>::empty());
        assert(digits_value(s.drop_last()) == Some(0nat));
        assert(digit_value(s.last()) == Some(n));
    } else {
        lemma_decimal_digits(n / 10);
        let s = decimal(n);
        assert(s.drop_last() =~= decimal(n / 10));
        assert(s.last() == digit_char(n % 10));
        assert(digit_value(s.last()) == Some((n % 10) as nat));
        assert forall|i: int| 0 <= i < s.len() implies '0' <= (#[trigger] s[i]) <= '9' by {
            if i < s.len() - 1 {
                assert(s[i] == decimal(n / 10)[i]);
            }
        }
    }
}

/// Decimal notation reads back as the number.
pub proof fn law_decimal_round_trip(n: u16)
    ensures
        parsed_u16(decimal(n as nat)) == Some(n),
{
    lemma_decimal_digits(n as nat);
    assert('0' <= decimal(n as nat)[0]);
}

/// The characters of a rank text: no spaces and no slashes, at least one.
proof fn lemma_rank_text_chars(mb: Seq<Option<Piece>>, rank: int, file: int, empty: int)
    requires
        0 <= file <= 8,
        0 <= empty <= file,
    ensures
        solid(rank_text(mb, rank, file, empty)),
        free_of(rank_text(mb, rank, file, empty), '/'),
    decreases 8 - file,
{
    if empty > 0 {
        lemma_decimal_digits(empty as nat);
    }
    if file < 8 {
        match mb[rank * 8 + file] {
            Some(piece) => {
                lemma_rank_text_chars(mb, rank, file + 1, 0);
                let g = gap_text(empty);
                let l = seq![piece.kind.letter(piece.color)];
                let r = rank_text(mb, rank, file + 1, 0);
                let t = rank_text(mb, rank, file, empty);
                assert(t == g + l + r);
                assert forall|i: int| 0 <= i < t.len() implies !is_space(#[trigger] t[i]) && t[i] != '/' by {
                    if i < g.len() {
                        assert(t[i] == g[i]);
                    } else if i == g.len() {
                        assert(t[i] == l[0]);
                    } else {
                        assert(t[i] == r[i - g.len() - 1]);
                    }
                }
            },
            None => {
                lemma_rank_text_chars(mb, rank, file + 1, empty + 1);
            },
        }
    }
}

proof fn lemma_placement_solid(mb: Seq<Option<Piece>>, rank: int)
    requires
        0 <= rank <= 7,
    ensures
        solid(placement_text(mb, rank)),
        rank > 0 ==> placement_text(mb, rank).len() > 0,
    decreases rank,
{
    lemma_rank_text_chars(mb, rank, 0, 0);
    if rank > 0 {
        lemma_placement_solid(mb, rank - 1);
        let a = rank_text(mb, rank, 0, 0);
        let b = placement_text(mb, rank - 1);
        let t = placement_text(mb, rank);
        assert(t == a + seq!['/'] + b);
        assert forall|i: int| 0 <= i < t.len() implies !is_space(#[trigger] t[i]) by {
            if i < a.len() {
                assert(t[i] == a[i]);
            } else if i > a.len() {
                assert(t[i] == b[i - a.len() - 1]);
            }
        }
    }
}

/// The rank texts from `rank` down.
spec fn rank_texts(mb: Seq<Option<Piece>>, rank: int) -> Seq<Seq<char>> {
    Seq::new((rank + 1) as nat, |n: int| rank_text(mb, rank - n, 0, 0))
}

proof fn lemma_placement_fields(mb: Seq<Option<Piece>>, rank: int)
    requires
        0 <= rank <= 7,
    ensures
        fields(placement_text(mb, rank), '/') == rank_texts(mb, rank),
    decreases rank,
{
    lemma_rank_text_chars(mb, rank, 0, 0);
    if rank > 0 {
        lemma_placement_fields(mb, rank - 1);
        lemma_fields_cons(rank_text(mb, rank, 0, 0), placement_text(mb, rank - 1), '/');
        assert(rank_texts(mb, rank) =~= seq![rank_text(mb, rank, 0, 0)] + rank_texts(mb, rank - 1));
    } else {
        lemma_fields_cons(rank_text(mb, 0, 0, 0), Seq::empty(), '/');
        assert(rank_texts(mb, 0) =~= seq![rank_text(mb, 0, 0, 0)]);
    }
}

/// `cur` with one rank replaced from a file on.
spec fn fill(cur: Seq<Option<Piece>>, mb: Seq<Option<Piece>>, rank: int, file: int) -> Seq<Option<Piece>> {
    Seq::new(64, |i: int| if i / 8 == rank && i % 8 >= file { mb[i] } else { cur[i] })
}

proof fn lemma_gap_digit(n: int)
    requires
        1 <= n <= 8,
    ensures
        gap_text(n).len() == 1,
        gap_of(gap_text(n)[0]) == Some(n),
{
}

proof fn lemma_letter(piece: Piece)
    ensures
        gap_of(piece.kind.letter(piece.color)) is None,
        PieceKind::of_char(piece.kind.letter(piece.color)) == Some(piece.kind),
        case_color(piece.kind.letter(piece.color)) == piece.color,
{
}

proof fn lemma_read_gap(n: int, rest: Seq<char>, rank: int, file: int, cur: Seq<Option<Piece>>)
    requires
        0 <= n,
        0 <= file,
        file + n <= 8,
    ensures
        read_rank(gap_text(n) + rest, rank, file, cur) == read_rank(rest, rank, file + n, cur),
{
    if n == 0 {
        assert(gap_text(n) + rest =~= rest);
    } else {
        lemma_gap_digit(n);
        let t = gap_text(n) + rest;
        assert(t[0] == gap_text(n)[0]);
        assert(t.drop_first() =~= rest);
    }
}

proof fn lemma_read_rank_text(mb: Seq<Option<Piece>>, cur: Seq<Option<Piece>>, rank: int, file: int, empty: int)
    requires
        mb.len() == 64,
        cur.len() == 64,
        0 <= rank < 8,
        0 <= empty <= file <= 8,
        forall|i: int| 0 <= i < 64 && i / 8 == rank && i % 8 >= file - empty ==> #[trigger] cur[i] is None,
    ensures
        read_rank(rank_text(mb, rank, file, empty), rank, file - empty, cur) == Ok::<Seq<Option<Piece>>, FenFault>(
            fill(cur, mb, rank, file),
        ),
    decreases 8 - file,
{
    if file == 8 {
        lemma_read_gap(empty, Seq::empty(), rank, file - empty, cur);
        assert(gap_text(empty) + Seq::<char>::empty() =~= gap_text(empty));
        assert(fill(cur, mb, rank, file) =~= cur);
    } else {
        let sq = rank * 8 + file;
        assert(sq / 8 == rank && sq % 8 == file);
        match mb[sq] {
            Some(piece) => {
                let rest = rank_text(mb, rank, file + 1, 0);
                let l = piece.kind.letter(piece.color);
                assert(rank_text(mb, rank, file, empty) =~= gap_text(empty) + (seq![l] + rest));
                lemma_read_gap(empty, seq![l] + rest, rank, file - empty, cur);
                lemma_letter(piece);
                assert((seq![l] + rest).drop_first() =~= rest);
                let next = cur.update(sq, Some(piece));
                assert forall|i: int| 0 <= i < 64 && i / 8 == rank && i % 8 >= file + 1 implies #[trigger] next[i] is None by {
                    assert(cur[i] is None);
                }
                lemma_read_rank_text(mb, next, rank, file + 1, 0);
                assert(fill(next, mb, rank, file + 1) =~= fill(cur, mb, rank, file)) by {
                    assert forall|i: int| 0 <= i < 64 implies fill(next, mb, rank, file + 1)[i] == fill(
                        cur,
                        mb,
                        rank,
                        file,
                    )[i] by {
                        if i / 8 == rank && i % 8 == file {
                            assert(i == sq);
                        }
                    }
                }
            },
            None => {
                lemma_read_rank_text(mb, cur, rank, file + 1, empty + 1);
                assert(fill(cur, mb, rank, file + 1) =~= fill(cur, mb, rank, file)) by {
                    assert forall|i: int| 0 <= i < 64 implies fill(cur, mb, rank, file + 1)[i] == fill(
                        cur,
                        mb,
                        rank,
                        file,
                    )[i] by {
                        if i / 8 == rank && i % 8 == file {
                            assert(i == sq);
                            assert(cur[i] is None);
                        }
                    }
                }
            },
        }
    }
}

/// A mailbox that shows the ranks of `mb` from the eighth down to the `n`-th
/// one read.
spec fn top_ranks(mb: Seq<Option<Piece>>, n: int) -> Seq<Option<Piece>> {
    Seq::new(64, |i: int| if i / 8 > 7 - n { mb[i] } else { None })
}

proof fn lemma_read_ranks_text(mb: Seq<Option<Piece>>, n: int)
    requires
        mb.len() == 64,
        0 <= n <= 8,
    ensures
        read_ranks(rank_texts(mb, 7), n, top_ranks(mb, n)) == Ok::<Seq<Option<Piece>>, FenFault>(mb),
    decreases 8 - n,
{
    if n == 8 {
        assert(top_ranks(mb, 8) =~= mb);
    } else {
        let cur = top_ranks(mb, n);
        lemma_read_rank_text(mb, cur, 7 - n, 0, 0);
        assert(fill(cur, mb, 7 - n, 0) =~= top_ranks(mb, n + 1));
        assert(rank_texts(mb, 7)[n] == rank_text(mb, 7 - n, 0, 0));
        lemma_read_ranks_text(mb, n + 1);
    }
}

proof fn lemma_placement_round_trip(mb: Seq<Option<Piece>>)
    requires
        mb.len() == 64,
    ensures
        placement_field(placement_text(mb, 7)) == Ok::<Seq<Option<Piece>>, FenFault>(mb),
{
    lemma_placement_fields(mb, 7);
    lemma_read_ranks_text(mb, 0);
    assert(top_ranks(mb, 0) =~= empty_mailbox());
}

/// Masks below a flag do not hold it, and adding it adds its value.
proof fn lemma_flag_arith(a: u8)
    ensures
        a < 1 ==> a & 1 == 0 && a | 1 == a + 1,
        a < 2 ==> a & 2 == 0 && a | 2 == a + 2,
        a < 4 ==> a & 4 == 0 && a | 4 == a + 4,
        a < 8 ==> a & 8 == 0 && a | 8 == a + 8,
        a < 16 ==> (a & 1 == 0 || a & 1 == 1) && (a & 2 == 0 || a & 2 == 2) && (a & 4 == 0 || a & 4 == 4) && (a & 8
            == 0 || a & 8 == 8) && a == (a & 1) + (a & 2) + (a & 4) + (a & 8),
{
    assert((a < 1 ==> a & 1 == 0 && a | 1 == a + 1) && (a < 2 ==> a & 2 == 0 && a | 2 == a + 2) && (a < 4 ==> a & 4
        == 0 && a | 4 == a + 4) && (a < 8 ==> a & 8 == 0 && a | 8 == a + 8) && (a < 16 ==> (a & 1 == 0 || a & 1 == 1)
        && (a & 2 == 0 || a & 2 == 2) && (a & 4 == 0 || a & 4 == 4) && (a & 8 == 0 || a & 8 == 8) && a == (a & 1) + (a
        & 2) + (a & 4) + (a & 8))) by (bit_vector);
}

/// The letter written for a held right names it again.
proof fn lemma_held_letter(p: Position, c: Color, kingside: bool, field: Seq<char>)
    requires
        p.consistent(),
        right_fault(p, c, kingside) is None,
        p.castling.0 & right_bit(c, kingside) != 0,
    ensures
        named_right(p, held_letter(p, c, kingside), field) == Ok::<NamedRight, FenFault>(
            NamedRight { color: c, kingside, file: p.rooks[rook_index(c, kingside)].0 as int % 8 },
        ),
        p.rooks[rook_index(c, kingside)].0 as int == home_rank(c) * 8 + p.rooks[rook_index(c, kingside)].0 as int % 8,
        !is_space(held_letter(p, c, kingside)),
        !is_stale(p, held_letter(p, c, kingside)),
{
    let rook = p.rooks[rook_index(c, kingside)].0 as int;
    assert(p.rooks[rook_index(c, kingside)].ok());
    let f = rook % 8;
    lemma_set_is_mailbox(p, c, PieceKind::Rook, rook);
    assert(rook == home_rank(c) * 8 + f);
    if f == (if kingside { 7int } else { 0 }) {
        assert(outermost_rook(p, c, kingside, f) == Some(f));
    }
}

/// Rook origins of rights that are not held are the standard ones.
pub open spec fn idle_rooks_standard(p: Position) -> bool {
    &&& p.castling.0 & 1 == 0 ==> p.rooks[0] == standard_rooks()[0]
    &&& p.castling.0 & 2 == 0 ==> p.rooks[1] == standard_rooks()[1]
    &&& p.castling.0 & 4 == 0 ==> p.rooks[2] == standard_rooks()[2]
    &&& p.castling.0 & 8 == 0 ==> p.rooks[3] == standard_rooks()[3]
}

/// Reading one right's text.
proof fn lemma_read_right_text(p: Position, c: Color, kingside: bool, field: Seq<char>, n: int, read: RightsRead)
    requires
        p.consistent(),
        right_fault(p, c, kingside) is None,
        0 <= n,
        n + right_text(p, c, kingside).len() <= field.len(),
        right_text(p, c, kingside).len() > 0 ==> field[n] == right_text(p, c, kingside)[0],
        read.mask < right_bit(c, kingside),
        read.rooks.len() == 4,
    ensures
        read_rights(p, field, n, read) == read_rights(
            p,
            field,
            n + right_text(p, c, kingside).len(),
            if p.castling.0 & right_bit(c, kingside) != 0 {
                RightsRead {
                    mask: (read.mask + right_bit(c, kingside)) as u8,
                    rooks: read.rooks.update(rook_index(c, kingside), p.rooks[rook_index(c, kingside)]),
                }
            } else {
                read
            },
        ),
{
    if p.castling.0 & right_bit(c, kingside) != 0 {
        lemma_held_letter(p, c, kingside, field);
        lemma_flag_arith(read.mask);
    }
}

proof fn lemma_castling_round_trip(p: Position)
    requires
        p.consistent(),
        right_fault(p, Color::White, true) is None,
        right_fault(p, Color::White, false) is None,
        right_fault(p, Color::Black, true) is None,
        right_fault(p, Color::Black, false) is None,
        idle_rooks_standard(p),
    ensures
        castling_field(p, castling_text(p)) == Ok::<RightsRead, FenFault>(
            RightsRead { mask: p.castling.0, rooks: p.rooks },
        ),
        solid(castling_text(p)),
        castling_text(p).len() > 0,
{
    let m = p.castling.0;
    lemma_flag_arith(m);
    if m == 0 {
        assert(p.rooks =~= standard_rooks());
    } else {
        let a = right_text(p, Color::White, true);
        let b = right_text(p, Color::White, false);
        let c = right_text(p, Color::Black, true);
        let d = right_text(p, Color::Black, false);
        let field = castling_text(p);
        assert(field == a + b + c + d);
        if m & 1 != 0 {
            lemma_held_letter(p, Color::White, true, field);
            assert(field[0] == a[0]);
        }
        if m & 2 != 0 {
            lemma_held_letter(p, Color::White, false, field);
            assert(field[a.len() as int] == b[0]);
        }
        if m & 4 != 0 {
            lemma_held_letter(p, Color::Black, true, field);
            assert(field[(a.len() + b.len()) as int] == c[0]);
        }
        if m & 8 != 0 {
            lemma_held_letter(p, Color::Black, false, field);
            assert(field[(a.len() + b.len() + c.len()) as int] == d[0]);
        }
        assert forall|i: int| 0 <= i < field.len() implies !is_space(#[trigger] field[i]) by {
            if i < a.len() {
                assert(field[i] == a[i]);
            } else if i < a.len() + b.len() {
                assert(field[i] == b[i - a.len()]);
            } else if i < a.len() + b.len() + c.len() {
                assert(field[i] == c[i - a.len() - b.len()]);
            } else {
                assert(field[i] == d[i - a.len() - b.len() - c.len()]);
            }
        }
        let r0 = RightsRead { mask: 0, rooks: standard_rooks() };
        lemma_read_right_text(p, Color::White, true, field, 0, r0);
        let r1 = if m & 1 != 0 {
            RightsRead { mask: (0u8 + 1u8) as u8, rooks: r0.rooks.update(0, p.rooks[0]) }
        } else {
            r0
        };
        lemma_read_right_text(p, Color::White, false, field, a.len() as int, r1);
        let r2 = if m & 2 != 0 {
            RightsRead { mask: (r1.mask + 2u8) as u8, rooks: r1.rooks.update(1, p.rooks[1]) }
        } else {
            r1
        };
        lemma_read_right_text(p, Color::Black, true, field, (a.len() + b.len()) as int, r2);
        let r3 = if m & 4 != 0 {
            RightsRead { mask: (r2.mask + 4u8) as u8, rooks: r2.rooks.update(2, p.rooks[2]) }
        } else {
            r2
        };
        lemma_read_right_text(p, Color::Black, false, field, (a.len() + b.len() + c.len()) as int, r3);
        let r4 = if m & 8 != 0 {
            RightsRead { mask: (r3.mask + 8u8) as u8, rooks: r3.rooks.update(3, p.rooks[3]) }
        } else {
            r3
        };
        assert(field.len() == a.len() + b.len() + c.len() + d.len());
        assert(r4.mask == m);
        assert(r4.rooks =~= p.rooks);
        assert(read_rights(p, field, 0, r0) == Ok::<RightsRead, FenFault>(r4));
        // The dash is no right's letter.
        assert(field != seq!['-']) by {
            if field == seq!['-'] {
                assert(field[0] == '-');
                assert(named_right(p, '-', field) is Err);
                assert(read_rights(p, field, 0, r0) is Err);
            }
        }
    }
}

/// Which right a letter names depends on the pieces only.
proof fn lemma_rights_by_pieces(p: Position, q: Position, field: Seq<char>, n: int, read: RightsRead)
    requires
        p.pieces == q.pieces,
        0 <= n <= field.len(),
    ensures
        read_rights(p, field, n, read) == read_rights(q, field, n, read),
    decreases field.len() - n,
{
    if n < field.len() {
        lemma_named_by_pieces(p, q, field[n], field);
        if is_stale(p, field[n]) {
            lemma_rights_by_pieces(p, q, field, n + 1, read);
        }
        match named_right(p, field[n], field) {
            Ok(right) => {
                let flag = right_bit(right.color, right.kingside);
                if read.mask & flag == 0 {
                    lemma_rights_by_pieces(
                        p,
                        q,
                        field,
                        n + 1,
                        RightsRead {
                            mask: read.mask | flag,
                            rooks: read.rooks.update(
                                rook_index(right.color, right.kingside),
                                Square((home_rank(right.color) * 8 + right.file) as u8),
                            ),
                        },
                    );
                }
            },
            Err(_) => {},
        }
    }
}

proof fn lemma_named_by_pieces(p: Position, q: Position, c: char, field: Seq<char>)
    requires
        p.pieces == q.pieces,
    ensures
        named_right(p, c, field) == named_right(q, c, field),
        is_stale(p, c) == is_stale(q, c),
{
    lemma_outermost_by_pieces(p, q, Color::White, true, 7);
    lemma_outermost_by_pieces(p, q, Color::White, false, 0);
    lemma_outermost_by_pieces(p, q, Color::Black, true, 7);
    lemma_outermost_by_pieces(p, q, Color::Black, false, 0);
}

proof fn lemma_outermost_by_pieces(p: Position, q: Position, color: Color, kingside: bool, f: int)
    requires
        p.pieces == q.pieces,
    ensures
        outermost_rook(p, color, kingside, f) == outermost_rook(q, color, kingside, f),
    decreases
            if kingside {
                f + 1
            } else {
                8 - f
            },
{
    let king_file = p.king_at(color) % 8;
    if f < 0 || f > 7 || (if kingside { f <= king_file } else { f >= king_file }) {
    } else if !p.set_of(color, PieceKind::Rook).has(home_rank(color) * 8 + f) {
        lemma_outermost_by_pieces(p, q, color, kingside, if kingside { f - 1 } else { f + 1 });
    }
}

/// The six fields are the words of the notation.
proof fn lemma_fen_words(p: Position)
    requires
        p.consistent(),
        structure_fault(p) is None,
        idle_rooks_standard(p),
    ensures
        words(fen_text(p)) == fen_parts(p),
{
    lemma_placement_solid(p.mailbox, 7);
    lemma_castling_round_trip(p);
    lemma_decimal_digits(p.halfmove as nat);
    lemma_decimal_digits(p.fullmove as nat);
    let w = fen_parts(p);
    assert(solid(w[1]) && solid(w[3]));
    lemma_six_words(w[0], w[1], w[2], w[3], w[4], w[5]);
    assert(words(fen_text(p)) =~= w);
}

proof fn lemma_six_words(a: Seq<char>, b: Seq<char>, c: Seq<char>, d: Seq<char>, e: Seq<char>, f: Seq<char>)
    requires
        solid(a) && a.len() > 0,
        solid(b) && b.len() > 0,
        solid(c) && c.len() > 0,
        solid(d) && d.len() > 0,
        solid(e) && e.len() > 0,
        solid(f) && f.len() > 0,
    ensures
        words(a + seq![' '] + b + seq![' '] + c + seq![' '] + d + seq![' '] + e + seq![' '] + f) == seq![a, b, c, d, e, f],
{
    let sp = seq![' '];
    let t4 = e + sp + f;
    let t3 = d + sp + t4;
    let t2 = c + sp + t3;
    let t1 = b + sp + t2;
    let t0 = a + sp + t1;
    assert(a + sp + b + sp + c + sp + d + sp + e + sp + f =~= t0);
    lemma_words_cons(a, t1);
    lemma_words_cons(b, t2);
    lemma_words_cons(c, t3);
    lemma_words_cons(d, t4);
    lemma_words_cons(e, f);
    lemma_words_cons(f, Seq::empty());
    assert(words(t0) =~= seq![a, b, c, d, e, f]);
}

/// Writing a position and reading the text back gives the position: pieces,
/// side to move, castling rights, en-passant target and both counters. The
/// hash read is the hash from scratch, and the history starts afresh.
pub proof fn law_fen_round_trip(p: Position)
    requires
        p.consistent(),
        structure_fault(p) is None,
        idle_rooks_standard(p),
        p.fullmove >= 1,
    ensures
        fen_position(fen_text(p)) == Ok::<Position, FenFault>(
            Position { hash: p.full_hash(), history: Seq::empty(), ..p },
        ),
{
    lemma_fen_words(p);
    let w = fen_parts(p);
    lemma_placement_round_trip(p.mailbox);
    let base = position_of(p.mailbox, p.side, CastlingRights(0), standard_rooks(), None, 0, 1);
    lemma_position_of_consistent(p.mailbox, p.side, CastlingRights(0), standard_rooks(), None, 0, 1);
    lemma_mailbox_determines(base, p);
    lemma_castling_round_trip(p);
    lemma_rights_by_pieces(base, p, castling_text(p), 0, RightsRead { mask: 0, rooks: standard_rooks() });
    match p.ep {
        Some(sq) => {
            law_square_name_round_trip(sq);
            assert(square_name(sq.0 as int).len() == 2);
        },
        None => {},
    }
    law_decimal_round_trip(p.halfmove);
    law_decimal_round_trip(p.fullmove);
    let q = position_of(p.mailbox, p.side, p.castling, p.rooks, p.ep, p.halfmove, p.fullmove);
    lemma_position_of_consistent(p.mailbox, p.side, p.castling, p.rooks, p.ep, p.halfmove, p.fullmove);
    lemma_mailbox_determines(q, p);
    assert(structure_fault(q) == structure_fault(p));
    assert(q.full_hash() == p.full_hash());
    assert((side_text(p.side) == seq!['w']) == (p.side == Color::White)) by {
        assert(seq!['b'][0] != seq!['w'][0]);
    }
    assert(Position { hash: q.full_hash(), ..q } == Position { hash: p.full_hash(), history: Seq::empty(), ..p });
}

/// A position read from text is sound, carries the hash computed from scratch,
/// and has no structural fault.
pub proof fn law_read_position_is_sound(text: Seq<char>)
    requires
        fen_position(text) is Ok,
    ensures
        fen_position(text)->Ok_0.sound(),
        fen_position(text)->Ok_0.hash == fen_position(text)->Ok_0.full_hash(),
        fen_position(text)->Ok_0.history == Seq::<u64>::empty(),
        fen_position(text)->Ok_0.fullmove >= 1,
        structure_fault(fen_position(text)->Ok_0) is None,
{
    let w = words(text);
    let p = fen_position(text)->Ok_0;
    let mailbox = placement_field(w[0])->Ok_0;
    lemma_mailbox_length(fields(w[0], '/'), 0, empty_mailbox());
    let base = position_of(mailbox, p.side, CastlingRights(0), standard_rooks(), None, 0, 1);
    lemma_rights_ok(base, w[2], 0, RightsRead { mask: 0, rooks: standard_rooks() });
    let q = position_of(mailbox, p.side, p.castling, p.rooks, p.ep, p.halfmove, p.fullmove);
    assert(p.ep is Some ==> p.ep->Some_0.ok());
    lemma_position_of_consistent(mailbox, p.side, p.castling, p.rooks, p.ep, p.halfmove, p.fullmove);
    assert(p.pieces == q.pieces && p.mailbox == q.mailbox && p.occupancy == q.occupancy);
    assert(q.consistent());
    assert(p.consistent()) by {
        assert forall|c: int, k: int, i: int| 0 <= c < 2 && 0 <= k < 6 && 0 <= i < 64 implies (
        #[trigger] p.pieces[c][k].has(i) <==> p.mailbox[i] == Some(
            Piece { kind: crate::types::kind_at(k), color: crate::types::color_at(c) },
        )) by {
            assert(q.pieces[c][k].has(i) <==> q.mailbox[i] == Some(
                Piece { kind: crate::types::kind_at(k), color: crate::types::color_at(c) },
            ));
        }
        assert forall|c: int, i: int| 0 <= c < 2 && 0 <= i < 64 implies (#[trigger] p.occupancy[c].has(i) <==> (
        p.mailbox[i] is Some && p.mailbox[i]->Some_0.color == crate::types::color_at(c))) by {
            assert(q.occupancy[c].has(i) <==> (q.mailbox[i] is Some && q.mailbox[i]->Some_0.color
                == crate::types::color_at(c)));
        }
    }
    assert(structure_fault(q) == structure_fault(p));
    assert(q.full_hash() == p.full_hash());
}

proof fn lemma_rank_length(cs: Seq<char>, rank: int, file: int, mb: Seq<Option<Piece>>)
    requires
        0 <= rank < 8,
        0 <= file,
        mb.len() == 64,
    ensures
        read_rank(cs, rank, file, mb) is Ok ==> read_rank(cs, rank, file, mb)->Ok_0.len() == mb.len(),
    decreases cs.len(),
{
    if cs.len() > 0 {
        match gap_of(cs[0]) {
            Some(n) => lemma_rank_length(cs.drop_first(), rank, file + n, mb),
            None => match PieceKind::of_char(cs[0]) {
                None => {},
                Some(kind) => if file < 8 {
                    lemma_rank_length(
                        cs.drop_first(),
                        rank,
                        file + 1,
                        mb.update(rank * 8 + file, Some(Piece { kind, color: case_color(cs[0]) })),
                    )
                },
            },
        }
    }
}

proof fn lemma_mailbox_length(ranks: Seq<Seq<char>>, n: int, mb: Seq<Option<Piece>>)
    requires
        ranks.len() == 8,
        0 <= n,
        mb.len() == 64,
    ensures
        read_ranks(ranks, n, mb) is Ok ==> read_ranks(ranks, n, mb)->Ok_0.len() == mb.len(),
    decreases ranks.len() - n,
{
    if n < ranks.len() {
        lemma_rank_length(ranks[n], 7 - n, 0, mb);
        match read_rank(ranks[n], 7 - n, 0, mb) {
            Ok(next) => lemma_mailbox_length(ranks, n + 1, next),
            Err(_) => {},
        }
    }
}

proof fn lemma_outermost_range(p: Position, color: Color, kingside: bool, f: int)
    ensures
        outermost_rook(p, color, kingside, f) is Some ==> 0 <= outermost_rook(p, color, kingside, f)->Some_0 < 8,
    decreases
            if kingside {
                f + 1
            } else {
                8 - f
            },
{
    let king_file = p.king_at(color) % 8;
    if f < 0 || f > 7 || (if kingside { f <= king_file } else { f >= king_file }) {
    } else if !p.set_of(color, PieceKind::Rook).has(home_rank(color) * 8 + f) {
        lemma_outermost_range(p, color, kingside, if kingside { f - 1 } else { f + 1 });
    }
}

proof fn lemma_rights_ok(p: Position, field: Seq<char>, n: int, read: RightsRead)
    requires
        read.mask < 16,
        read.rooks.len() == 4,
        forall|i: int| 0 <= i < 4 ==> (#[trigger] read.rooks[i]).ok(),
    ensures
        read_rights(p, field, n, read) is Ok ==> ({
            let r = read_rights(p, field, n, read)->Ok_0;
            &&& r.mask < 16
            &&& r.rooks.len() == 4
            &&& forall|i: int| 0 <= i < 4 ==> (#[trigger] r.rooks[i]).ok()
        }),
    decreases field.len() - n,
{
    if n < field.len() {
        lemma_outermost_range(p, Color::White, true, 7);
        lemma_outermost_range(p, Color::White, false, 0);
        lemma_outermost_range(p, Color::Black, true, 7);
        lemma_outermost_range(p, Color::Black, false, 0);
        if is_stale(p, field[n]) {
            lemma_rights_ok(p, field, n + 1, read);
        }
        match named_right(p, field[n], field) {
            Ok(right) => {
                let flag = right_bit(right.color, right.kingside);
                let m = read.mask;
                assert(m < 16 && flag < 16 ==> m | flag < 16) by (bit_vector);
                lemma_rights_ok(
                    p,
                    field,
                    n + 1,
                    RightsRead {
                        mask: read.mask | flag,
                        rooks: read.rooks.update(
                            rook_index(right.color, right.kingside),
                            Square((home_rank(right.color) * 8 + right.file) as u8),
                        ),
                    },
                );
            },
            Err(_) => {},
        }
    }
}

/// What is read so far leaves the rooks of rights not named at their standard
/// places.
spec fn idle_standard(read: RightsRead) -> bool {
    &&& read.rooks.len() == 4
    &&& read.mask & 1 == 0 ==> read.rooks[0] == standard_rooks()[0]
    &&& read.mask & 2 == 0 ==> read.rooks[1] == standard_rooks()[1]
    &&& read.mask & 4 == 0 ==> read.rooks[2] == standard_rooks()[2]
    &&& read.mask & 8 == 0 ==> read.rooks[3] == standard_rooks()[3]
}

proof fn lemma_flags_apart(m: u8)
    ensures
        (m | 1) & 1 != 0 && (m | 1) & 2 == m & 2 && (m | 1) & 4 == m & 4 && (m | 1) & 8 == m & 8,
        (m | 2) & 2 != 0 && (m | 2) & 1 == m & 1 && (m | 2) & 4 == m & 4 && (m | 2) & 8 == m & 8,
        (m | 4) & 4 != 0 && (m | 4) & 1 == m & 1 && (m | 4) & 2 == m & 2 && (m | 4) & 8 == m & 8,
        (m | 8) & 8 != 0 && (m | 8) & 1 == m & 1 && (m | 8) & 2 == m & 2 && (m | 8) & 4 == m & 4,
{
    assert((m | 1) & 1 != 0 && (m | 1) & 2 == m & 2 && (m | 1) & 4 == m & 4 && (m | 1) & 8 == m & 8 && (m | 2) & 2 != 0
        && (m | 2) & 1 == m & 1 && (m | 2) & 4 == m & 4 && (m | 2) & 8 == m & 8 && (m | 4) & 4 != 0 && (m | 4) & 1 == m
        & 1 && (m | 4) & 2 == m & 2 && (m | 4) & 8 == m & 8 && (m | 8) & 8 != 0 && (m | 8) & 1 == m & 1 && (m | 8) & 2
        == m & 2 && (m | 8) & 4 == m & 4) by (bit_vector);
}

proof fn lemma_idle_standard(p: Position, field: Seq<char>, n: int, read: RightsRead)
    requires
        idle_standard(read),
    ensures
        read_rights(p, field, n, read) is Ok ==> idle_standard(read_rights(p, field, n, read)->Ok_0),
    decreases field.len() - n,
{
    if n < field.len() {
        if is_stale(p, field[n]) {
            lemma_idle_standard(p, field, n + 1, read);
        }
        match named_right(p, field[n], field) {
            Ok(right) => {
                lemma_flags_apart(read.mask);
                let next = RightsRead {
                    mask: read.mask | right_bit(right.color, right.kingside),
                    rooks: read.rooks.update(
                        rook_index(right.color, right.kingside),
                        Square((home_rank(right.color) * 8 + right.file) as u8),
                    ),
                };
                assert(idle_standard(next));
                lemma_idle_standard(p, field, n + 1, next);
            },
            Err(_) => {},
        }
    }
}

/// In a position that is read from text, the rooks of rights that are not held
/// have their standard origins.
pub proof fn law_read_rooks_are_standard(text: Seq<char>)
    requires
        fen_position(text) is Ok,
    ensures
        idle_rooks_standard(fen_position(text)->Ok_0),
{
    let p = fen_position(text)->Ok_0;
    let w = words(text);
    let mailbox = placement_field(w[0])->Ok_0;
    let base = position_of(mailbox, p.side, CastlingRights(0), standard_rooks(), None, 0, 1);
    let none = RightsRead { mask: 0, rooks: standard_rooks() };
    let read = castling_field(base, w[2]);
    assert(read is Ok && p.rooks == read->Ok_0.rooks && p.castling.0 == read->Ok_0.mask);
    assert(idle_standard(none));
    lemma_idle_standard(base, w[2], 0, none);
}

/// A position that is read from text, written and read again is the same in
/// every part, whatever the spelling of the first text. What is written has six
/// fields.
pub proof fn law_read_position_comes_back(text: Seq<char>)
    requires
        fen_position(text) is Ok,
    ensures
        fen_position(fen_text(fen_position(text)->Ok_0)) == fen_position(text),
        words(fen_text(fen_position(text)->Ok_0)) == fen_parts(fen_position(text)->Ok_0),
        fen_parts(fen_position(text)->Ok_0).len() == 6,
{
    let p = fen_position(text)->Ok_0;
    law_read_position_is_sound(text);
    law_read_rooks_are_standard(text);
    lemma_fen_words(p);
    law_fen_round_trip(p);
    assert(Position { hash: p.full_hash(), history: Seq::empty(), ..p } == p);
}

/// A castling right that is held is written K or Q, or k or q, for a rook on the
/// h- or a-file, and as the file of the rook otherwise.
pub proof fn law_castling_letters(p: Position, c: Color, kingside: bool)
    requires
        p.castling.0 & right_bit(c, kingside) != 0,
        0 <= p.rooks[rook_index(c, kingside)].0 < 64,
    ensures
        right_text(p, c, kingside).len() == 1,
        ({
            let file = p.rooks[rook_index(c, kingside)].0 as int % 8;
            let letter = right_text(p, c, kingside)[0];
            if kingside && file == 7 {
                letter == (if c == Color::White { 'K' } else { 'k' })
            } else if !kingside && file == 0 {
                letter == (if c == Color::White { 'Q' } else { 'q' })
            } else {
                letter as u32 == (if c == Color::White { 'A' as u32 } else { 'a' as u32 }) + file
            }
        }),
{
}

} // verus!
