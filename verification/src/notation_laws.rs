//! Laws of the notations of moves: the text of a legal move finds that move.

use vstd::prelude::*;
use crate::board::{home_rank, rook_index, Board, Position};
use crate::fen::{castling_field, fen_position, is_stale, named_right, outermost_rook, placement_field, position_of, read_rights, standard_rooks, RightsRead};
use crate::fen_laws::free_of;
use crate::movegen::{castling_moves, double_pushes, keep_safe, legal_moves, pawn_takes, piece_moves, pseudo_moves, right_bit, single_pushes};
use crate::movegen_laws::{law_generated_iff_pseudo_legal, law_generated_moves_fit, law_legal_iff, lemma_add_contains, lemma_castling_contains, lemma_keep_safe_contains, lemma_king_is_there, lemma_king_square, lemma_occupancies, lemma_set_is_mailbox, lemma_steps_do_not_castle, pseudo_legal};
use crate::moves::{law_move_parts_round_trip, law_uci_round_trip, mk_move, Move, MoveFlag};
use crate::pgn_laws::lemma_untrimmed;
use crate::san::{body_len, disambig_file, disambig_rank, first_where, grants, has_flag, is_annotation, san_meaning, san_wish, suffix_promo, unannotated, without_x, SanWish};
use crate::text::{trimmed, words};
use crate::types::{law_square_name_round_trip, square_name, CastlingRights, Color, PieceKind, Square};
use crate::validate::{by_rook, by_target, castled_rook, last_where, legal_move_for};

verus! {

/// A legal move is pseudo-legal and fits.
proof fn lemma_legal(p: Position, m: Move)
    requires
        p.sound(),
        legal_moves(p).contains(m),
    ensures
        pseudo_legal(p, m),
        pseudo_moves(p).contains(m),
        p.fits(m),
        m.0 != 0,
{
    law_legal_iff(p, m);
    law_generated_iff_pseudo_legal(p, m);
    law_generated_moves_fit(p, m);
}

/// Origin, target and promotion piece determine a move, castling aside.
proof fn lemma_parts_determine(p: Position, m: Move, n: Move)
    requires
        p.sound(),
        pseudo_legal(p, m),
        pseudo_legal(p, n),
        p.fits(m),
        p.fits(n),
        !m.kind().castles(),
        !n.kind().castles(),
        m.src() == n.src(),
        m.dst() == n.dst(),
        m.kind().promoted() == n.kind().promoted(),
    ensures
        m == n,
{
    let from = m.src();
    let us = p.side;
    lemma_occupancies(p);
    lemma_king_is_there(p, us);
    lemma_set_is_mailbox(p, us, PieceKind::Pawn, from);
    lemma_set_is_mailbox(p, us, PieceKind::Knight, from);
    lemma_set_is_mailbox(p, us, PieceKind::Bishop, from);
    lemma_set_is_mailbox(p, us, PieceKind::Rook, from);
    lemma_set_is_mailbox(p, us, PieceKind::Queen, from);
    assert(m.kind() == n.kind());
}

// UCI text.
proof fn lemma_last_where_one(s: Seq<Move>, f: spec_fn(Move) -> bool, m: Move)
    requires
        s.contains(m),
        f(m),
        forall|n: Move| s.contains(n) && #[trigger] f(n) ==> n == m,
    ensures
        last_where(s, f) == Some(m),
    decreases s.len(),
{
    assert(s.contains(s.last()));
    if !f(s.last()) {
        let t = s.drop_last();
        let k = choose|k: int| 0 <= k < s.len() && s[k] == m;
        assert(t[k] == m);
        assert forall|n: Move| t.contains(n) && #[trigger] f(n) implies n == m by {
            let j = choose|j: int| 0 <= j < t.len() && t[j] == n;
            assert(s[j] == n);
        }
        lemma_last_where_one(t, f, m);
    }
}

proof fn lemma_last_where_none(s: Seq<Move>, f: spec_fn(Move) -> bool)
    requires
        forall|n: Move| s.contains(n) ==> !#[trigger] f(n),
    ensures
        last_where(s, f) is None,
    decreases s.len(),
{
    if s.len() > 0 {
        assert(s.contains(s.last()));
        let t = s.drop_last();
        assert forall|n: Move| t.contains(n) implies !#[trigger] f(n) by {
            let j = choose|j: int| 0 <= j < t.len() && t[j] == n;
            assert(s[j] == n);
        }
        lemma_last_where_none(t, f);
    }
}

/// The two rooks that a side castles with are not the same.
pub open spec fn rooks_apart(p: Position, c: Color) -> bool {
    p.rooks[rook_index(c, true)] != p.rooks[rook_index(c, false)]
}

/// A legal castling move leaves from the king's square and takes along a rook of
/// its own side.
proof fn lemma_castle_parts(p: Position, m: Move)
    requires
        p.sound(),
        legal_moves(p).contains(m),
        m.kind().castles(),
    ensures
        m.src() == p.king_at(p.side),
        castled_rook(p, m) == p.rooks[rook_index(p.side, m.kind() == MoveFlag::KingsideCastle)].0,
        0 <= castled_rook(p, m) < 64,
        p.mailbox[castled_rook(p, m)] is Some && p.mailbox[castled_rook(p, m)]->Some_0.color == p.side,
        forall|n: Move| #[trigger] legal_moves(p).contains(n) && n.kind() == m.kind() ==> n == m,
{
    lemma_legal(p, m);
    lemma_king_square(p);
    assert(m.src() / 8 == home_rank(p.side));
    assert forall|n: Move| #[trigger] legal_moves(p).contains(n) && n.kind() == m.kind() implies n == m by {
        lemma_legal(p, n);
    }
}

proof fn lemma_castle_text(p: Position, m: Move)
    requires
        p.sound(),
        rooks_apart(p, p.side),
        legal_moves(p).contains(m),
        m.kind().castles(),
    ensures
        Move::of_uci(Board::uci_text(p, m, true)) == Some(mk_move(m.src(), castled_rook(p, m), MoveFlag::Normal)),
        legal_move_for(p, mk_move(m.src(), castled_rook(p, m), MoveFlag::Normal), true) == Some(m),
{
    let s = legal_moves(p);
    let text = Board::uci_text(p, m, true);
    lemma_castle_parts(p, m);
    let rook = castled_rook(p, m);
    assert(text.subrange(0, 2) =~= square_name(m.src()));
    assert(text.subrange(2, 4) =~= square_name(rook));
    law_square_name_round_trip(Square(m.src() as u8));
    law_square_name_round_trip(Square(rook as u8));
    let x = mk_move(m.src(), rook, MoveFlag::Normal);
    law_move_parts_round_trip(Square(m.src() as u8), Square(rook as u8), MoveFlag::Normal);
    let f = by_rook(p, x);
    assert forall|n: Move| s.contains(n) && #[trigger] f(n) implies n == m by {
        lemma_castle_parts(p, n);
        assert(n.kind() == m.kind());
    }
    lemma_last_where_one(s, f, m);
}

proof fn lemma_no_rook_taken(p: Position, m: Move, x: Move)
    requires
        p.sound(),
        legal_moves(p).contains(m),
        !m.kind().castles(),
        x.dst() == m.dst(),
    ensures
        last_where(legal_moves(p), by_rook(p, x)) is None,
{
    let s = legal_moves(p);
    let f = by_rook(p, x);
    lemma_legal(p, m);
    assert forall|n: Move| s.contains(n) implies !#[trigger] f(n) by {
        if f(n) {
            lemma_castle_parts(p, n);
            assert(p.mailbox[m.dst()] is Some && p.mailbox[m.dst()]->Some_0.color == p.side);
        }
    }
    lemma_last_where_none(s, f);
}

proof fn lemma_target_found(p: Position, m: Move, x: Move)
    requires
        p.sound(),
        legal_moves(p).contains(m),
        !m.kind().castles(),
        x.src() == m.src(),
        x.dst() == m.dst(),
        x.kind().promoted() == m.kind().promoted(),
    ensures
        last_where(legal_moves(p), by_target(x)) == Some(m),
{
    let s = legal_moves(p);
    let g = by_target(x);
    lemma_legal(p, m);
    assert forall|n: Move| s.contains(n) && #[trigger] g(n) implies n == m by {
        lemma_legal(p, n);
        lemma_parts_determine(p, m, n);
    }
    lemma_last_where_one(s, g, m);
}

/// Under Chess960 rules the text of a legal move finds that move again, with
/// its flag.
pub proof fn law_uci_text_finds_its_move(p: Position, m: Move)
    requires
        p.sound(),
        rooks_apart(p, p.side),
        legal_moves(p).contains(m),
    ensures
        Move::of_uci(Board::uci_text(p, m, true)) is Some,
        legal_move_for(p, Move::of_uci(Board::uci_text(p, m, true))->Some_0, true) == Some(m),
{
    if m.kind().castles() {
        lemma_castle_text(p, m);
    } else {
        lemma_legal(p, m);
        law_uci_round_trip(m);
        let flag = match m.kind().promoted() {
            Some(PieceKind::Knight) => MoveFlag::PromoteKnight,
            Some(PieceKind::Bishop) => MoveFlag::PromoteBishop,
            Some(PieceKind::Rook) => MoveFlag::PromoteRook,
            Some(PieceKind::Queen) => MoveFlag::PromoteQueen,
            _ => MoveFlag::Normal,
        };
        let x = mk_move(m.src(), m.dst(), flag);
        law_move_parts_round_trip(Square(m.src() as u8), Square(m.dst() as u8), flag);
        lemma_no_rook_taken(p, m, x);
        lemma_target_found(p, m, x);
    }
}

/// Rooks are on their side of the king, or at their standard places.
spec fn rooks_placed(p: Position, rooks: Seq<Square>, c: Color) -> bool {
    let k = rooks[rook_index(c, true)].0 as int % 8;
    let q = rooks[rook_index(c, false)].0 as int % 8;
    let king = p.king_at(c) % 8;
    (k == 7 || k > king) && (q == 0 || q < king)
}

proof fn lemma_outermost_side(p: Position, color: Color, kingside: bool, f: int)
    ensures
        outermost_rook(p, color, kingside, f) is Some ==> ({
            let r = outermost_rook(p, color, kingside, f)->Some_0;
            0 <= r < 8 && if kingside { r > p.king_at(color) % 8 } else { r < p.king_at(color) % 8 }
        }),
    decreases
            if kingside {
                f + 1
            } else {
                8 - f
            },
{
    let king_file = p.king_at(color) % 8;
    if f < 0 || f > 7 || (if kingside { f <= king_file } else { f >= king_file }) {
    } else if !p.set_of(color, PieceKind::Rook).has(home_rank(color) * 8 + f) {
        lemma_outermost_side(p, color, kingside, if kingside { f - 1 } else { f + 1 });
    }
}

proof fn lemma_rooks_placed(p: Position, field: Seq<char>, n: int, read: RightsRead)
    requires
        read.rooks.len() == 4,
        rooks_placed(p, read.rooks, Color::White),
        rooks_placed(p, read.rooks, Color::Black),
    ensures
        read_rights(p, field, n, read) is Ok ==> ({
            let r = read_rights(p, field, n, read)->Ok_0;
            rooks_placed(p, r.rooks, Color::White) && rooks_placed(p, r.rooks, Color::Black)
        }),
    decreases field.len() - n,
{
    if n < field.len() {
        lemma_outermost_side(p, Color::White, true, 7);
        lemma_outermost_side(p, Color::White, false, 0);
        lemma_outermost_side(p, Color::Black, true, 7);
        lemma_outermost_side(p, Color::Black, false, 0);
        if is_stale(p, field[n]) {
            lemma_rooks_placed(p, field, n + 1, read);
        }
        match named_right(p, field[n], field) {
            Ok(right) => {
                let rook = Square((home_rank(right.color) * 8 + right.file) as u8);
                assert(0 <= right.file < 8);
                assert(rook.0 as int % 8 == right.file);
                let next = RightsRead {
                    mask: read.mask | right_bit(right.color, right.kingside),
                    rooks: read.rooks.update(rook_index(right.color, right.kingside), rook),
                };
                assert(rooks_placed(p, next.rooks, Color::White));
                assert(rooks_placed(p, next.rooks, Color::Black));
                lemma_rooks_placed(p, field, n + 1, next);
            },
            Err(_) => {},
        }
    }
}

/// In a position that is read from text the rooks of either side are apart.
pub proof fn law_read_rooks_are_apart(text: Seq<char>, c: Color)
    requires
        fen_position(text) is Ok,
    ensures
        rooks_apart(fen_position(text)->Ok_0, c),
{
    let p = fen_position(text)->Ok_0;
    let w = words(text);
    let mailbox = placement_field(w[0])->Ok_0;
    let base = position_of(mailbox, p.side, CastlingRights(0), standard_rooks(), None, 0, 1);
    let read = castling_field(base, w[2]);
    assert(read is Ok && p.rooks == read->Ok_0.rooks);
    lemma_field_rooks(base, w[2]);
    assert(rooks_placed(base, p.rooks, c));
    let k = p.rooks[rook_index(c, true)].0 as int % 8;
    let q = p.rooks[rook_index(c, false)].0 as int % 8;
    assert(k != q);
}

proof fn lemma_field_rooks(base: Position, field: Seq<char>)
    requires
        castling_field(base, field) is Ok,
    ensures
        forall|c: Color| #[trigger] rooks_placed(base, castling_field(base, field)->Ok_0.rooks, c),
{
    let none = RightsRead { mask: 0, rooks: standard_rooks() };
    assert(rooks_placed(base, none.rooks, Color::White));
    assert(rooks_placed(base, none.rooks, Color::Black));
    lemma_rooks_placed(base, field, 0, none);
    assert forall|c: Color| #[trigger] rooks_placed(base, castling_field(base, field)->Ok_0.rooks, c) by {
        assert(c == Color::White || c == Color::Black);
    }
}

/// No move changes which rooks a side castles with.
pub proof fn law_moves_keep_the_rooks(p: Position, m: Move)
    ensures
        p.after(m).rooks == p.rooks,
{
}

// SAN text.
/// The letter of a piece; a pawn has none.
pub open spec fn san_letter(kind: PieceKind) -> Seq<char> {
    match kind {
        PieceKind::Pawn => Seq::empty(),
        PieceKind::Knight => seq!['N'],
        PieceKind::Bishop => seq!['B'],
        PieceKind::Rook => seq!['R'],
        PieceKind::Queen => seq!['Q'],
        PieceKind::King => seq!['K'],
    }
}

/// The promotion suffix of a move.
pub open spec fn san_suffix(flag: MoveFlag) -> Seq<char> {
    match flag.promoted() {
        Some(PieceKind::Queen) => seq!['=', 'Q'],
        Some(PieceKind::Rook) => seq!['=', 'R'],
        Some(PieceKind::Bishop) => seq!['=', 'B'],
        Some(PieceKind::Knight) => seq!['=', 'N'],
        _ => Seq::empty(),
    }
}

/// A move in full: piece, origin, target and promotion.
pub open spec fn full_san(p: Position, m: Move) -> Seq<char> {
    san_letter(p.mailbox[m.src()]->Some_0.kind) + square_name(m.src()) + square_name(m.dst()) + san_suffix(m.kind())
}

/// A run of annotations.
pub open spec fn marks(t: Seq<char>) -> bool {
    forall|i: int| 0 <= i < t.len() ==> is_annotation(#[trigger] t[i])
}

proof fn lemma_unannotated(t: Seq<char>, a: Seq<char>)
    requires
        marks(a),
        t.len() > 0,
        !is_annotation(t.last()),
    ensures
        unannotated(t + a) == t,
    decreases a.len(),
{
    if a.len() == 0 {
        assert(t + a =~= t);
    } else {
        assert((t + a).last() == a.last());
        assert((t + a).drop_last() =~= t + a.drop_last());
        assert(is_annotation(a[a.len() - 1]));
        assert forall|i: int| 0 <= i < a.drop_last().len() implies is_annotation(#[trigger] a.drop_last()[i]) by {
            assert(a.drop_last()[i] == a[i]);
        }
        lemma_unannotated(t, a.drop_last());
    }
}

proof fn lemma_without_x(s: Seq<char>)
    requires
        free_of(s, 'x'),
    ensures
        without_x(s) == s,
    decreases s.len(),
{
    if s.len() > 0 {
        assert(s.last() != 'x') by {
            assert(s[s.len() - 1] != 'x');
        }
        assert forall|i: int| 0 <= i < s.drop_last().len() implies #[trigger] s.drop_last()[i] != 'x' by {
            assert(s.drop_last()[i] == s[i]);
        }
        lemma_without_x(s.drop_last());
        assert(s.drop_last().push(s.last()) =~= s);
    }
}

/// What the text of a move in full asks for.
proof fn lemma_full_wish(p: Position, m: Move)
    requires
        p.mailbox[m.src()] is Some,
    ensures
        ({
            let t = full_san(p, m);
            &&& t.len() >= 4
            &&& !is_annotation(t.last())
            &&& trimmed(t) == t
            &&& t[0] != 'O' && t[0] != '0'
            &&& san_wish(t) == Some(
                SanWish {
                    piece: p.mailbox[m.src()]->Some_0.kind,
                    dest: Square(m.dst() as u8),
                    promo: m.kind().promoted(),
                    file: Some(m.src() % 8),
                    rank: Some(m.src() / 8),
                },
            )
        }),
{
    let kind = p.mailbox[m.src()]->Some_0.kind;
    let t = full_san(p, m);
    let letter = san_letter(kind);
    let names = square_name(m.src()) + square_name(m.dst());
    let suffix = san_suffix(m.kind());
    let n = t.len() as int;
    let f = crate::types::file_char(m.src() % 8);
    let r = crate::types::rank_char(m.src() / 8);
    let f2 = crate::types::file_char(m.dst() % 8);
    let r2 = crate::types::rank_char(m.dst() / 8);
    assert('a' <= f <= 'h' && '1' <= r <= '8' && 'a' <= f2 <= 'h' && '1' <= r2 <= '8');
    assert(f as u32 - 'a' as u32 == m.src() % 8);
    assert(r as u32 - '1' as u32 == m.src() / 8);
    assert(names =~= seq![f, r, f2, r2]);
    assert(t =~= letter + names + suffix);
    let body = letter + names;
    if suffix.len() == 0 {
        assert(t =~= body);
        assert(t[n - 2] == f2 && t[n - 1] == r2);
    } else {
        assert(suffix.len() == 2);
        assert(t[n - 2] == '=' && t[n - 1] == suffix[1]);
    }
    assert(body_len(t) == body.len());
    assert(t.take(body_len(t)) =~= body);
    assert(suffix_promo(t) == m.kind().promoted());
    lemma_untrimmed(t);
    assert(free_of(names, 'x'));
    lemma_without_x(names);
    if letter.len() == 0 {
        assert(body =~= names);
    } else {
        assert(body.drop_first() =~= names);
    }
    assert(names.subrange(2, 4) =~= square_name(m.dst()));
    law_square_name_round_trip(Square(m.dst() as u8));
    let part = names.take(2);
    assert(part =~= seq![f, r]);
    assert(part.drop_last() =~= seq![f]);
    assert(part.last() == r);
    assert(part.drop_last().last() == f);
    assert(disambig_rank(part) == Some(m.src() / 8));
    assert(disambig_file(part.drop_last()) == Some(m.src() % 8));
    assert(disambig_file(part) == Some(m.src() % 8));
}

proof fn lemma_first_where_one(s: Seq<Move>, f: spec_fn(Move) -> bool, m: Move)
    requires
        s.contains(m),
        f(m),
        forall|n: Move| s.contains(n) && #[trigger] f(n) ==> n == m,
    ensures
        first_where(s, f) == Some(m),
    decreases s.len(),
{
    assert(s.contains(s[0]));
    if !f(s[0]) {
        let t = s.drop_first();
        let k = choose|k: int| 0 <= k < s.len() && s[k] == m;
        assert(t[k - 1] == m);
        assert forall|n: Move| t.contains(n) && #[trigger] f(n) implies n == m by {
            let j = choose|j: int| 0 <= j < t.len() && t[j] == n;
            assert(s[j + 1] == n);
        }
        lemma_first_where_one(t, f, m);
    }
}

proof fn lemma_first_where_add(a: Seq<Move>, b: Seq<Move>, f: spec_fn(Move) -> bool)
    ensures
        first_where(a, f) is Some ==> first_where(a + b, f) == first_where(a, f),
    decreases a.len(),
{
    if a.len() > 0 {
        assert((a + b)[0] == a[0]);
        assert((a + b).drop_first() =~= a.drop_first() + b);
        lemma_first_where_add(a.drop_first(), b, f);
    }
}

proof fn lemma_keep_safe_add(p: Position, a: Seq<Move>, b: Seq<Move>)
    ensures
        keep_safe(p, a + b) == keep_safe(p, a) + keep_safe(p, b),
    decreases b.len(),
{
    if b.len() == 0 {
        assert(a + b =~= a);
        assert(keep_safe(p, a) + keep_safe(p, b) =~= keep_safe(p, a));
    } else {
        assert((a + b).drop_last() =~= a + b.drop_last());
        assert((a + b).last() == b.last());
        lemma_keep_safe_add(p, a, b.drop_last());
        assert(keep_safe(p, a + b) =~= keep_safe(p, a) + keep_safe(p, b));
    }
}

/// The legal moves before those of castling.
#[verifier::opaque]
spec fn legal_steps(p: Position) -> Seq<Move> {
    keep_safe(p, single_pushes(p, true, true) + double_pushes(p) + pawn_takes(p) + piece_moves(p, !p.ours()))
}

#[verifier::opaque]
spec fn legal_castles(p: Position) -> Seq<Move> {
    keep_safe(p, castling_moves(p))
}

proof fn lemma_castles_last(p: Position)
    ensures
        legal_moves(p) == legal_steps(p) + legal_castles(p),
{
    reveal(legal_steps);
    reveal(legal_castles);
    lemma_keep_safe_add(
        p,
        single_pushes(p, true, true) + double_pushes(p) + pawn_takes(p) + piece_moves(p, !p.ours()),
        castling_moves(p),
    );
}

proof fn lemma_steps_and_castles(p: Position, n: Move)
    requires
        p.sound(),
    ensures
        legal_steps(p).contains(n) <==> legal_moves(p).contains(n) && !n.kind().castles(),
{
    lemma_castles_last(p);
    lemma_add_contains(legal_steps(p), legal_castles(p), n);
    lemma_king_square(p);
    reveal(legal_steps);
    reveal(legal_castles);
    lemma_keep_safe_contains(
        p,
        single_pushes(p, true, true) + double_pushes(p) + pawn_takes(p) + piece_moves(p, !p.ours()),
        n,
    );
    lemma_keep_safe_contains(p, castling_moves(p), n);
    lemma_steps_do_not_castle(p, n);
    lemma_castling_contains(p, n);
}

/// The first move that grants the wish for a move is that move.
proof fn lemma_granted(p: Position, m: Move, w: SanWish)
    requires
        p.sound(),
        legal_moves(p).contains(m),
        !m.kind().castles(),
        p.mailbox[m.src()] is Some,
        w == (SanWish {
            piece: p.mailbox[m.src()]->Some_0.kind,
            dest: Square(m.dst() as u8),
            promo: m.kind().promoted(),
            file: Some(m.src() % 8),
            rank: Some(m.src() / 8),
        }),
    ensures
        first_where(legal_moves(p), grants(p, w)) == Some(m),
{
    let f = grants(p, w);
    let s = legal_steps(p);
    lemma_legal(p, m);
    lemma_castles_last(p);
    lemma_steps_and_castles(p, m);
    assert forall|n: Move| s.contains(n) && #[trigger] f(n) implies n == m by {
        lemma_steps_and_castles(p, n);
        lemma_legal(p, n);
        assert(n.src() == m.src());
        lemma_parts_determine(p, m, n);
    }
    lemma_first_where_one(s, f, m);
    lemma_first_where_add(s, legal_castles(p), f);
}

/// A legal move other than castling, written in full, is found by that text,
/// whatever annotations follow.
pub proof fn law_san_text_finds_its_move(p: Position, m: Move, a: Seq<char>)
    requires
        p.sound(),
        legal_moves(p).contains(m),
        !m.kind().castles(),
        marks(a),
    ensures
        san_meaning(p, full_san(p, m) + a) == Some(m),
{
    let t = full_san(p, m);
    lemma_legal(p, m);
    lemma_full_wish(p, m);
    lemma_unannotated(t, a);
    reveal_strlit("O-O-O");
    reveal_strlit("0-0-0");
    reveal_strlit("O-O");
    reveal_strlit("0-0");
    lemma_granted(p, m, san_wish(t)->Some_0);
    assert(t != "O-O-O"@ && t != "0-0-0"@ && t != "O-O"@ && t != "0-0"@);
}

/// Castling is written with letters or zeros: the text means the legal castling
/// move to that side, and nothing if there is none.
pub proof fn law_castling_text(p: Position, kingside: bool, zeros: bool, a: Seq<char>)
    requires
        marks(a),
    ensures
        ({
            let flag = if kingside { MoveFlag::KingsideCastle } else { MoveFlag::QueensideCastle };
            let text = if kingside {
                if zeros { "0-0"@ } else { "O-O"@ }
            } else {
                if zeros { "0-0-0"@ } else { "O-O-O"@ }
            };
            &&& san_meaning(p, text + a) is Some <==> exists|m: Move| #[trigger]
                legal_moves(p).contains(m) && m.kind() == flag
            &&& san_meaning(p, text + a) is Some ==> san_meaning(p, text + a)->Some_0.kind() == flag && legal_moves(
                p,
            ).contains(san_meaning(p, text + a)->Some_0)
        }),
{
    let flag = if kingside { MoveFlag::KingsideCastle } else { MoveFlag::QueensideCastle };
    let text = if kingside {
        if zeros { "0-0"@ } else { "O-O"@ }
    } else {
        if zeros { "0-0-0"@ } else { "O-O-O"@ }
    };
    reveal_strlit("O-O-O");
    reveal_strlit("0-0-0");
    reveal_strlit("O-O");
    reveal_strlit("0-0");
    lemma_unannotated(text, a);
    lemma_untrimmed(text);
    assert("O-O"@.len() != "O-O-O"@.len());
    assert(kingside ==> text != "O-O-O"@ && text != "0-0-0"@);
    lemma_first_where_flag(legal_moves(p), flag);
}

proof fn lemma_first_where_flag(s: Seq<Move>, flag: MoveFlag)
    ensures
        first_where(s, has_flag(flag)) is Some <==> exists|m: Move| #[trigger] s.contains(m) && m.kind() == flag,
        first_where(s, has_flag(flag)) is Some ==> first_where(s, has_flag(flag))->Some_0.kind() == flag && s.contains(
            first_where(s, has_flag(flag))->Some_0,
        ),
    decreases s.len(),
{
    if s.len() > 0 {
        let t = s.drop_first();
        lemma_first_where_flag(t, flag);
        assert(s.contains(s[0]));
        assert forall|m: Move| #[trigger] t.contains(m) implies s.contains(m) by {
            let j = choose|j: int| 0 <= j < t.len() && t[j] == m;
            assert(s[j + 1] == m);
        }
        if exists|m: Move| #[trigger] s.contains(m) && m.kind() == flag {
            let m = choose|m: Move| #[trigger] s.contains(m) && m.kind() == flag;
            let j = choose|j: int| 0 <= j < s.len() && s[j] == m;
            if j > 0 {
                assert(t[j - 1] == m);
                assert(t.contains(m));
            }
        }
    }
}

/// Every legal move has a SAN text that finds it, whatever annotations follow:
/// castling in letters or zeros, any other move in full.
pub proof fn law_every_move_has_its_san(p: Position, m: Move, zeros: bool, a: Seq<char>)
    requires
        p.sound(),
        legal_moves(p).contains(m),
        marks(a),
    ensures
        !m.kind().castles() ==> san_meaning(p, full_san(p, m) + a) == Some(m),
        m.kind() == MoveFlag::KingsideCastle ==> san_meaning(p, (if zeros { "0-0"@ } else { "O-O"@ }) + a) == Some(m),
        m.kind() == MoveFlag::QueensideCastle ==> san_meaning(p, (if zeros { "0-0-0"@ } else { "O-O-O"@ }) + a) == Some(m),
{
    if m.kind().castles() {
        law_castling_text(p, m.kind() == MoveFlag::KingsideCastle, zeros, a);
        lemma_castle_parts(p, m);
    } else {
        law_san_text_finds_its_move(p, m, a);
    }
}

} // verus!
