//! Reading and writing positions in Forsyth-Edwards Notation.

use vstd::prelude::*;
use crate::bits::{bit, group_bits, lemma_named_masks, lemma_rank_mask, lemma_word_of, word_of};
use crate::board::{home_rank, rook_index, Board, Position};
use crate::board_laws::{lemma_mailbox_determines, lemma_put_consistent};
use crate::movegen::right_bit;
use crate::tables::{empty_pair, empty_sets, empty_squares};
use crate::text::{chars_of, decimal, parse_u16, parsed_u16, push_chars, push_decimal, split_fields, split_words, views, words, fields};
use crate::types::{color_at, file_char, kind_at, magnitude, square_name, Bitboard, CastlingRights, Color, Piece, PieceKind, Square};

verus! {

/// Why a text is not a position.
#[derive(Debug)]
pub enum FenError {
    Invalid(String),
    WrongPartCount(usize),
    BadPiecePlacement,
}

/// The content of a [`FenError`].
pub enum FenFault {
    Invalid(Seq<char>),
    WrongPartCount(nat),
    BadPiecePlacement,
}

impl View for FenError {
    type V = FenFault;

    open spec fn view(&self) -> FenFault {
        match *self {
            FenError::Invalid(s) => FenFault::Invalid(s@),
            FenError::WrongPartCount(n) => FenFault::WrongPartCount(n as nat),
            FenError::BadPiecePlacement => FenFault::BadPiecePlacement,
        }
    }
}

impl FenError {
    /// The error as a sentence.
    pub fn message(&self) -> (r: String)
        ensures
            r@ == (match self@ {
                FenFault::Invalid(s) => "invalid FEN: "@ + s,
                FenFault::WrongPartCount(n) => "invalid FEN: expected 4 to 6 parts, got "@ + decimal(n),
                FenFault::BadPiecePlacement => "invalid piece placement in FEN"@,
            }),
    {
        match self {
            FenError::Invalid(s) => {
                let mut r = "invalid FEN: ".to_string();
                r.append(s.as_str());
                r
            },
            FenError::WrongPartCount(n) => {
                let mut r = "invalid FEN: expected 4 to 6 parts, got ".to_string();
                push_decimal(&mut r, *n as u64);
                r
            },
            FenError::BadPiecePlacement => "invalid piece placement in FEN".to_string(),
        }
    }
}

// Piece placement.
/// The number of empty squares that a character stands for.
pub open spec fn gap_of(c: char) -> Option<int> {
    if '1' <= c <= '8' { Some(c as u32 - '0' as u32) } else { None }
}

/// The color that a piece letter's case stands for.
pub open spec fn case_color(c: char) -> Color {
    if 'A' <= c <= 'Z' { Color::White } else { Color::Black }
}

/// Reads the rest of one rank from a file on.
pub open spec fn read_rank(cs: Seq<char>, rank: int, file: int, mailbox: Seq<Option<Piece>>) -> Result<
    Seq<Option<Piece>>,
    FenFault,
>
    decreases cs.len(),
{
    if cs.len() == 0 {
        if file == 8 { Ok(mailbox) } else { Err(FenFault::BadPiecePlacement) }
    } else {
        match gap_of(cs[0]) {
            Some(n) => if file + n <= 8 {
                read_rank(cs.drop_first(), rank, file + n, mailbox)
            } else {
                Err(FenFault::BadPiecePlacement)
            },
            None => match PieceKind::of_char(cs[0]) {
                None => Err(FenFault::Invalid("unknown piece char: "@.push(cs[0]))),
                Some(kind) => if file < 8 {
                    read_rank(
                        cs.drop_first(),
                        rank,
                        file + 1,
                        mailbox.update(rank * 8 + file, Some(Piece { kind, color: case_color(cs[0]) })),
                    )
                } else {
                    Err(FenFault::BadPiecePlacement)
                },
            },
        }
    }
}

/// Reads the ranks from the `n`-th on; the first is the eighth rank.
pub open spec fn read_ranks(ranks: Seq<Seq<char>>, n: int, mailbox: Seq<Option<Piece>>) -> Result<
    Seq<Option<Piece>>,
    FenFault,
>
    decreases ranks.len() - n,
{
    if n >= ranks.len() {
        Ok(mailbox)
    } else {
        match read_rank(ranks[n], 7 - n, 0, mailbox) {
            Ok(next) => read_ranks(ranks, n + 1, next),
            Err(e) => Err(e),
        }
    }
}

/// A mailbox without pieces.
pub open spec fn empty_mailbox() -> Seq<Option<Piece>> {
    Seq::new(64, |i: int| None::<Piece>)
}

/// The rook origins of standard chess: h1, a1, h8, a8.
pub open spec fn standard_rooks() -> Seq<Square> {
    seq![Square(7), Square(0), Square(63), Square(56)]
}

/// The squares on which a mailbox shows a piece.
pub open spec fn squares_of(mailbox: Seq<Option<Piece>>, c: int, k: int) -> u64 {
    word_of(|i: int| mailbox[i] == Some(Piece { kind: kind_at(k), color: color_at(c) }))
}

/// The squares on which a mailbox shows a color.
pub open spec fn squares_of_color(mailbox: Seq<Option<Piece>>, c: int) -> u64 {
    word_of(|i: int| mailbox[i] is Some && mailbox[i]->Some_0.color == color_at(c))
}

/// The consistent position with the given mailbox and state, without history;
/// the hash is left at zero.
pub open spec fn position_of(
    mailbox: Seq<Option<Piece>>,
    side: Color,
    castling: CastlingRights,
    rooks: Seq<Square>,
    ep: Option<Square>,
    halfmove: u16,
    fullmove: u16,
) -> Position {
    Position {
        pieces: Seq::new(2, |c: int| Seq::new(6, |k: int| Bitboard(squares_of(mailbox, c, k)))),
        mailbox,
        occupancy: Seq::new(2, |c: int| Bitboard(squares_of_color(mailbox, c))),
        side,
        castling,
        rooks,
        ep,
        halfmove,
        fullmove,
        hash: 0,
        history: Seq::empty(),
    }
}

/// `position_of` is consistent.
pub proof fn lemma_position_of_consistent(
    mailbox: Seq<Option<Piece>>,
    side: Color,
    castling: CastlingRights,
    rooks: Seq<Square>,
    ep: Option<Square>,
    halfmove: u16,
    fullmove: u16,
)
    requires
        mailbox.len() == 64,
        castling.ok(),
        rooks.len() == 4,
        forall|i: int| 0 <= i < 4 ==> (#[trigger] rooks[i]).ok(),
        ep is Some ==> ep->Some_0.ok(),
    ensures
        position_of(mailbox, side, castling, rooks, ep, halfmove, fullmove).consistent(),
{
    let p = position_of(mailbox, side, castling, rooks, ep, halfmove, fullmove);
    assert forall|c: int, k: int, i: int| 0 <= c < 2 && 0 <= k < 6 && 0 <= i < 64 implies (
    #[trigger] p.pieces[c][k].has(i) <==> p.mailbox[i] == Some(Piece { kind: kind_at(k), color: color_at(c) })) by {
        lemma_word_of(|i: int| mailbox[i] == Some(Piece { kind: kind_at(k), color: color_at(c) }));
    }
    assert forall|c: int, i: int| 0 <= c < 2 && 0 <= i < 64 implies (#[trigger] p.occupancy[c].has(i) <==> (
    p.mailbox[i] is Some && p.mailbox[i]->Some_0.color == color_at(c))) by {
        lemma_word_of(|i: int| mailbox[i] is Some && mailbox[i]->Some_0.color == color_at(c));
    }
}

// Castling field.
/// A castling right that a character names: color, side, and rook file.
pub struct NamedRight {
    pub color: Color,
    pub kingside: bool,
    pub file: int,
}

/// The outermost own rook on the back rank between file `f` and the king,
/// going inwards.
pub open spec fn outermost_rook(p: Position, color: Color, kingside: bool, f: int) -> Option<int>
    decreases
            if kingside {
                f + 1
            } else {
                8 - f
            },
{
    let king_file = p.king_at(color) % 8;
    if f < 0 || f > 7 || (if kingside { f <= king_file } else { f >= king_file }) {
        None
    } else if p.set_of(color, PieceKind::Rook).has(home_rank(color) * 8 + f) {
        Some(f)
    } else {
        outermost_rook(p, color, kingside, if kingside { f - 1 } else { f + 1 })
    }
}

/// K and Q name the outermost rook on that side of the king.
pub open spec fn right_by_side(p: Position, color: Color, kingside: bool) -> Result<NamedRight, FenFault> {
    if p.king_at(color) / 8 != home_rank(color) {
        Err(FenFault::Invalid("castling king is not on the back rank"@))
    } else {
        match outermost_rook(p, color, kingside, if kingside { 7 } else { 0 }) {
            Some(file) => Ok(NamedRight { color, kingside, file }),
            None => Err(FenFault::Invalid("castling right has no rook on that side of the king"@)),
        }
    }
}

/// A file letter names the rook on that file of the back rank.
pub open spec fn right_by_file(p: Position, color: Color, file: int) -> Result<NamedRight, FenFault> {
    if p.king_at(color) / 8 != home_rank(color) {
        Err(FenFault::Invalid("castling king is not on the back rank"@))
    } else if file == p.king_at(color) % 8 {
        Err(FenFault::Invalid("castling rook file must not be the king's file"@))
    } else {
        Ok(NamedRight { color, kingside: file > p.king_at(color) % 8, file })
    }
}

/// What one character of a castling field names.
pub open spec fn named_right(p: Position, c: char, field: Seq<char>) -> Result<NamedRight, FenFault> {
    if c == 'K' {
        right_by_side(p, Color::White, true)
    } else if c == 'Q' {
        right_by_side(p, Color::White, false)
    } else if c == 'k' {
        right_by_side(p, Color::Black, true)
    } else if c == 'q' {
        right_by_side(p, Color::Black, false)
    } else if 'A' <= c <= 'H' {
        right_by_file(p, Color::White, c as u32 - 'A' as u32)
    } else if 'a' <= c <= 'h' {
        right_by_file(p, Color::Black, c as u32 - 'a' as u32)
    } else {
        Err(FenFault::Invalid("bad castling rights: "@ + field))
    }
}

/// The right that a standard letter names.
pub open spec fn standard_letter(c: char) -> Option<(Color, bool)> {
    if c == 'K' {
        Some((Color::White, true))
    } else if c == 'Q' {
        Some((Color::White, false))
    } else if c == 'k' {
        Some((Color::Black, true))
    } else if c == 'q' {
        Some((Color::Black, false))
    } else {
        None
    }
}

/// The king stands where castling to a side brings it, with the rook beside it.
pub open spec fn has_castled(p: Position, color: Color, kingside: bool) -> bool {
    let home = home_rank(color) * 8;
    &&& p.king_at(color) == home + (if kingside { 6int } else { 2 })
    &&& p.set_of(color, PieceKind::Rook).has(home + (if kingside { 5int } else { 3 }))
}

/// A right left over from before the king castled: there is no rook on that
/// side of it. Such a right is not held any more, and is passed over.
pub open spec fn is_stale(p: Position, c: char) -> bool {
    match standard_letter(c) {
        Some((color, kingside)) => right_by_side(p, color, kingside) is Err && (has_castled(p, color, true)
            || has_castled(p, color, false)),
        None => false,
    }
}

/// Rights and rook origins read so far.
pub struct RightsRead {
    pub mask: u8,
    pub rooks: Seq<Square>,
}

/// Reads the characters of a castling field from the `n`-th on.
pub open spec fn read_rights(p: Position, field: Seq<char>, n: int, read: RightsRead) -> Result<RightsRead, FenFault>
    decreases field.len() - n,
{
    if n >= field.len() {
        Ok(read)
    } else if is_stale(p, field[n]) {
        read_rights(p, field, n + 1, read)
    } else {
        match named_right(p, field[n], field) {
            Err(e) => Err(e),
            Ok(right) => {
                let flag = right_bit(right.color, right.kingside);
                if read.mask & flag != 0 {
                    Err(FenFault::Invalid("duplicate castling right: "@.push(field[n])))
                } else {
                    read_rights(
                        p,
                        field,
                        n + 1,
                        RightsRead {
                            mask: read.mask | flag,
                            rooks: read.rooks.update(
                                rook_index(right.color, right.kingside),
                                Square((home_rank(right.color) * 8 + right.file) as u8),
                            ),
                        },
                    )
                }
            },
        }
    }
}

/// The rights and rook origins that a castling field gives.
pub open spec fn castling_field(p: Position, field: Seq<char>) -> Result<RightsRead, FenFault> {
    let none = RightsRead { mask: 0, rooks: standard_rooks() };
    if field == seq!['-'] { Ok(none) } else { read_rights(p, field, 0, none) }
}

// Structure.
/// The English name of a color.
pub open spec fn color_name(c: Color) -> Seq<char> {
    match c {
        Color::White => "White"@,
        Color::Black => "Black"@,
    }
}

/// The first of two faults.
pub open spec fn first_fault(a: Option<Seq<char>>, b: Option<Seq<char>>) -> Option<Seq<char>> {
    if a is Some { a } else { b }
}

/// A pawn of the color stands on the first or the eighth rank.
pub open spec fn pawn_on_edge(p: Position, c: Color) -> bool {
    exists|i: int| #[trigger] p.set_of(c, PieceKind::Pawn).has(i) && (i / 8 == 0 || i / 8 == 7)
}

/// What is wrong with the pieces of one color.
pub open spec fn army_fault(p: Position, c: Color) -> Option<Seq<char>> {
    let kings = p.set_of(c, PieceKind::King).size();
    if kings != 1 {
        Some("expected exactly one "@ + color_name(c) + " king, got "@ + decimal(kings))
    } else if p.set_of(c, PieceKind::Pawn).size() > 8 {
        Some("too many "@ + color_name(c) + " pawns"@)
    } else if pawn_on_edge(p, c) {
        Some(color_name(c) + " pawn on first or eighth rank"@)
    } else if p.occupancy[c.idx()].size() > 16 {
        Some("too many "@ + color_name(c) + " pieces"@)
    } else {
        None
    }
}

/// The kings stand next to each other.
pub open spec fn kings_touch(p: Position) -> bool {
    let a = p.king_at(Color::White);
    let b = p.king_at(Color::Black);
    magnitude(a % 8 - b % 8) <= 1 && magnitude(a / 8 - b / 8) <= 1
}

/// The letter of a castling right.
pub open spec fn right_letter(c: Color, kingside: bool) -> char {
    match c {
        Color::White => if kingside { 'K' } else { 'Q' },
        Color::Black => if kingside { 'k' } else { 'q' },
    }
}

/// What is wrong with one castling right.
pub open spec fn right_fault(p: Position, c: Color, kingside: bool) -> Option<Seq<char>> {
    let king = p.king_at(c);
    let rook = p.rooks[rook_index(c, kingside)].0 as int;
    let name = right_letter(c, kingside);
    if p.castling.0 & right_bit(c, kingside) == 0 {
        None
    } else if king / 8 != home_rank(c) {
        Some("castling right "@.push(name) + " has no king on the back rank"@)
    } else if rook / 8 != home_rank(c) || p.mailbox[rook] != Some(Piece { kind: PieceKind::Rook, color: c }) {
        Some("castling right "@.push(name) + " has no rook on its home square"@)
    } else if if kingside { rook % 8 <= king % 8 } else { rook % 8 >= king % 8 } {
        Some("castling right "@.push(name) + " rook is on the wrong side of the king"@)
    } else {
        None
    }
}

/// What is wrong with the en-passant target.
pub open spec fn ep_fault(p: Position) -> Option<Seq<char>> {
    match p.ep {
        None => None,
        Some(sq) => {
            let t = sq.0 as int;
            let (rank, pawn_rank, origin_rank) = match p.side {
                Color::White => (5int, 4int, 6int),
                Color::Black => (2int, 3int, 1int),
            };
            if p.mailbox[t] is Some {
                Some("en passant target square is occupied"@)
            } else if t / 8 != rank {
                Some("bad en passant rank for "@ + color_name(p.side) + " to move"@)
            } else if p.mailbox[pawn_rank * 8 + t % 8] != Some(
                Piece { kind: PieceKind::Pawn, color: p.side.other() },
            ) || p.mailbox[origin_rank * 8 + t % 8] is Some {
                Some("en passant target is inconsistent with a double pawn push"@)
            } else {
                None
            }
        },
    }
}

/// The first thing wrong with a position, if any.
pub open spec fn structure_fault(p: Position) -> Option<Seq<char>> {
    let kings = if kings_touch(p) { Some("kings may not be adjacent"@) } else { None };
    first_fault(
        army_fault(p, Color::White),
        first_fault(
            army_fault(p, Color::Black),
            first_fault(
                kings,
                first_fault(
                    right_fault(p, Color::White, true),
                    first_fault(
                        right_fault(p, Color::White, false),
                        first_fault(
                            right_fault(p, Color::Black, true),
                            first_fault(right_fault(p, Color::Black, false), ep_fault(p)),
                        ),
                    ),
                ),
            ),
        ),
    )
}

// The whole notation.
/// The mailbox of a placement field.
pub open spec fn placement_field(cs: Seq<char>) -> Result<Seq<Option<Piece>>, FenFault> {
    let ranks = fields(cs, '/');
    if ranks.len() != 8 { Err(FenFault::BadPiecePlacement) } else { read_ranks(ranks, 0, empty_mailbox()) }
}

/// The side of a side-to-move field.
pub open spec fn side_field(cs: Seq<char>) -> Result<Color, FenFault> {
    if cs == seq!['w'] {
        Ok(Color::White)
    } else if cs == seq!['b'] {
        Ok(Color::Black)
    } else {
        Err(FenFault::Invalid("bad side to move: "@ + cs))
    }
}

/// The target of an en-passant field.
pub open spec fn ep_field(cs: Seq<char>) -> Result<Option<Square>, FenFault> {
    if cs == seq!['-'] {
        Ok(None)
    } else {
        match Square::of_name(cs) {
            Some(sq) => Ok(Some(sq)),
            None => Err(FenFault::Invalid("bad en passant: "@ + cs)),
        }
    }
}

/// The halfmove clock, zero where the field is left out.
pub open spec fn halfmove_field(w: Seq<Seq<char>>) -> Result<u16, FenFault> {
    if w.len() > 4 {
        match parsed_u16(w[4]) {
            Some(n) => Ok(n),
            None => Err(FenFault::Invalid("bad halfmove clock: "@ + w[4])),
        }
    } else {
        Ok(0)
    }
}

/// The fullmove number, one where the field is left out.
pub open spec fn fullmove_field(w: Seq<Seq<char>>) -> Result<u16, FenFault> {
    if w.len() > 5 {
        match parsed_u16(w[5]) {
            Some(n) => if n == 0 { Err(FenFault::Invalid("fullmove number must be at least 1"@)) } else { Ok(n) },
            None => Err(FenFault::Invalid("bad fullmove number: "@ + w[5])),
        }
    } else {
        Ok(1)
    }
}

/// The position of a list of fields, or the first fault.
pub open spec fn fen_fields(w: Seq<Seq<char>>) -> Result<Position, FenFault> {
    if w.len() < 4 || w.len() > 6 {
        Err(FenFault::WrongPartCount(w.len()))
    } else {
        match placement_field(w[0]) {
            Err(e) => Err(e),
            Ok(mailbox) => match side_field(w[1]) {
                Err(e) => Err(e),
                Ok(side) => match castling_field(
                    position_of(mailbox, side, CastlingRights(0), standard_rooks(), None, 0, 1),
                    w[2],
                ) {
                    Err(e) => Err(e),
                    Ok(read) => match ep_field(w[3]) {
                        Err(e) => Err(e),
                        Ok(ep) => match halfmove_field(w) {
                            Err(e) => Err(e),
                            Ok(halfmove) => match fullmove_field(w) {
                                Err(e) => Err(e),
                                Ok(fullmove) => {
                                    let p = position_of(
                                        mailbox,
                                        side,
                                        CastlingRights(read.mask),
                                        read.rooks,
                                        ep,
                                        halfmove,
                                        fullmove,
                                    );
                                    match structure_fault(p) {
                                        Some(text) => Err(FenFault::Invalid(text)),
                                        None => Ok(Position { hash: p.full_hash(), ..p }),
                                    }
                                },
                            },
                        },
                    },
                },
            },
        }
    }
}

/// The position that a text denotes, or the first fault in it.
pub open spec fn fen_position(text: Seq<char>) -> Result<Position, FenFault> {
    fen_fields(words(text))
}

// Writing.
/// The digits for a run of empty squares; nothing for none.
pub open spec fn gap_text(n: int) -> Seq<char> {
    if n > 0 { decimal(n as nat) } else { Seq::empty() }
}

/// One rank from a file on, with `empty` squares of a gap before it.
pub open spec fn rank_text(mailbox: Seq<Option<Piece>>, rank: int, file: int, empty: int) -> Seq<char>
    decreases 8 - file,
{
    if file >= 8 {
        gap_text(empty)
    } else {
        match mailbox[rank * 8 + file] {
            Some(piece) => gap_text(empty) + seq![piece.kind.letter(piece.color)] + rank_text(
                mailbox,
                rank,
                file + 1,
                0,
            ),
            None => rank_text(mailbox, rank, file + 1, empty + 1),
        }
    }
}

/// The ranks from `rank` down, separated by slashes.
pub open spec fn placement_text(mailbox: Seq<Option<Piece>>, rank: int) -> Seq<char>
    decreases rank,
{
    if rank <= 0 {
        rank_text(mailbox, 0, 0, 0)
    } else {
        rank_text(mailbox, rank, 0, 0) + seq!['/'] + placement_text(mailbox, rank - 1)
    }
}

/// The letter of a held castling right: K or Q for a rook on the h- or a-file,
/// otherwise the rook's file.
pub open spec fn held_letter(p: Position, c: Color, kingside: bool) -> char {
    let file = p.rooks[rook_index(c, kingside)].0 as int % 8;
    if file == (if kingside { 7int } else { 0 }) {
        right_letter(c, kingside)
    } else {
        match c {
            Color::White => upper_file_char(file),
            Color::Black => file_char(file),
        }
    }
}

/// The upper-case letter of a file.
pub open spec fn upper_file_char(f: int) -> char {
    if f == 0 { 'A' } else if f == 1 { 'B' } else if f == 2 { 'C' } else if f == 3 { 'D' }
    else if f == 4 { 'E' } else if f == 5 { 'F' } else if f == 6 { 'G' } else { 'H' }
}

/// The letter of a castling right, or nothing where it is not held.
pub open spec fn right_text(p: Position, c: Color, kingside: bool) -> Seq<char> {
    if p.castling.0 & right_bit(c, kingside) != 0 { seq![held_letter(p, c, kingside)] } else { Seq::empty() }
}

/// The castling field of a position.
pub open spec fn castling_text(p: Position) -> Seq<char> {
    if p.castling.0 == 0 {
        seq!['-']
    } else {
        right_text(p, Color::White, true) + right_text(p, Color::White, false) + right_text(p, Color::Black, true)
            + right_text(p, Color::Black, false)
    }
}

/// The en-passant field of a position.
pub open spec fn ep_text(ep: Option<Square>) -> Seq<char> {
    match ep {
        Some(sq) => square_name(sq.0 as int),
        None => seq!['-'],
    }
}

/// The side-to-move field.
pub open spec fn side_text(side: Color) -> Seq<char> {
    match side {
        Color::White => seq!['w'],
        Color::Black => seq!['b'],
    }
}

/// The six fields of a position.
pub open spec fn fen_parts(p: Position) -> Seq<Seq<char>> {
    seq![
        placement_text(p.mailbox, 7),
        side_text(p.side),
        castling_text(p),
        ep_text(p.ep),
        decimal(p.halfmove as nat),
        decimal(p.fullmove as nat),
    ]
}

/// The notation of a position: six fields separated by spaces.
pub open spec fn fen_text(p: Position) -> Seq<char> {
    let w = fen_parts(p);
    w[0] + seq![' '] + w[1] + seq![' '] + w[2] + seq![' '] + w[3] + seq![' '] + w[4] + seq![' '] + w[5]
}

// Reading.
fn invalid(text: &str) -> (r: FenError)
    ensures
        r@ == FenFault::Invalid(text@),
{
    FenError::Invalid(text.to_string())
}

fn invalid_chars(text: &str, cs: &Vec<char>) -> (r: FenError)
    ensures
        r@ == FenFault::Invalid(text@ + cs@),
{
    let mut s = text.to_string();
    push_chars(&mut s, cs);
    FenError::Invalid(s)
}

fn invalid_char(text: &str, c: char) -> (r: FenError)
    ensures
        r@ == FenFault::Invalid(text@.push(c)),
{
    let mut s = text.to_string();
    s.push(c);
    FenError::Invalid(s)
}

fn invalid_named(a: &str, b: &str, c: &str) -> (r: FenError)
    ensures
        r@ == FenFault::Invalid(a@ + b@ + c@),
{
    let mut s = a.to_string();
    s.append(b);
    s.append(c);
    FenError::Invalid(s)
}

fn invalid_right(name: char, c: &str) -> (r: FenError)
    ensures
        r@ == FenFault::Invalid("castling right "@.push(name) + c@),
{
    let mut s = "castling right ".to_string();
    s.push(name);
    s.append(c);
    FenError::Invalid(s)
}

/// A board without pieces.
fn empty_board() -> (r: Board)
    ensures
        r@ == position_of(empty_mailbox(), Color::White, CastlingRights(0), standard_rooks(), None, 0, 1),
        r@.consistent(),
        r.ok(),
{
    let pieces = empty_sets();
    let mailbox = empty_squares();
    let r = Board {
        pieces,
        mailbox,
        occupancy: empty_pair(),
        side_to_move: Color::White,
        castling: CastlingRights(0),
        castle_rooks: [Square(7), Square(0), Square(63), Square(56)],
        en_passant: None,
        halfmove_clock: 0,
        fullmove_number: 1,
        hash: 0,
        position_history: Vec::new(),
    };
    proof {
        broadcast use group_bits;
        let p = position_of(empty_mailbox(), Color::White, CastlingRights(0), standard_rooks(), None, 0, 1);
        lemma_position_of_consistent(empty_mailbox(), Color::White, CastlingRights(0), standard_rooks(), None, 0, 1);
        assert(r@.mailbox =~= empty_mailbox());
        assert(r@.rooks =~= standard_rooks());
        assert(r@.consistent());
        lemma_mailbox_determines(r@, p);
        assert(r@ =~= p);
    }
    r
}

/// No piece stands on the ranks below `rank`, nor on `rank` from `file` on.
spec fn vacant(mailbox: Seq<Option<Piece>>, rank: int, file: int) -> bool {
    forall|i: int|
        0 <= i < 64 && (i / 8 < rank || (i / 8 == rank && i % 8 >= file)) ==> #[trigger] mailbox[i] is None
}

/// Same state, apart from the piece tables.
spec fn same_state(p: Position, q: Position) -> bool {
    &&& p.side == q.side
    &&& p.castling == q.castling
    &&& p.rooks == q.rooks
    &&& p.ep == q.ep
    &&& p.halfmove == q.halfmove
    &&& p.fullmove == q.fullmove
    &&& p.hash == q.hash
    &&& p.history == q.history
}

/// Puts the pieces of one rank of a placement field on the board.
fn place_rank(board: &mut Board, cs: &Vec<char>, rank: u8) -> (r: Result<(), FenError>)
    requires
        rank < 8,
        old(board)@.consistent(),
        old(board).ok(),
        vacant(old(board)@.mailbox, rank as int, 0),
    ensures
        match read_rank(cs@, rank as int, 0, old(board)@.mailbox) {
            Ok(mailbox) => r is Ok && final(board)@.mailbox == mailbox,
            Err(e) => r is Err && r->Err_0@ == e,
        },
        final(board)@.consistent(),
        final(board).ok(),
        same_state(final(board)@, old(board)@),
        vacant(final(board)@.mailbox, rank as int, 8),
{
    let mut file: u8 = 0;
    let mut i: usize = 0;
    let ghost start = board@;
    proof {
        assert(cs@.skip(0) =~= cs@);
    }
    while i < cs.len()
        invariant
            i <= cs.len(),
            rank < 8,
            file <= 8,
            board@.consistent(),
            board.ok(),
            start == old(board)@,
            same_state(board@, start),
            vacant(board@.mailbox, rank as int, file as int),
            read_rank(cs@.skip(i as int), rank as int, file as int, board@.mailbox) == read_rank(
                cs@,
                rank as int,
                0,
                start.mailbox,
            ),
        decreases cs.len() - i,
    {
        let c = cs[i];
        let ghost rest = cs@.skip(i as int);
        proof {
            assert(rest.drop_first() =~= cs@.skip(i + 1));
            assert(rest[0] == c);
        }
        if '1' <= c && c <= '8' {
            let skip: u8 = (c as u32 - '0' as u32) as u8;
            if file + skip > 8 {
                return Err(FenError::BadPiecePlacement);
            }
            file = file + skip;
        } else {
            let color = if 'A' <= c && c <= 'Z' { Color::White } else { Color::Black };
            let kind = match PieceKind::from_char(c) {
                Some(k) => k,
                None => {
                    return Err(invalid_char("unknown piece char: ", c));
                },
            };
            if file >= 8 {
                return Err(FenError::BadPiecePlacement);
            }
            let sq = Square::new(file, rank);
            proof {
                assert(board@.mailbox[sq.0 as int] is None);
                lemma_put_consistent(board@, sq.0 as int, Piece { kind, color });
            }
            board.set_piece(sq, Piece::new(kind, color));
            file = file + 1;
        }
        i = i + 1;
    }
    proof {
        assert(cs@.skip(i as int).len() == 0);
    }
    if file != 8 {
        return Err(FenError::BadPiecePlacement);
    }
    Ok(())
}

/// Puts the pieces of a placement field on the board.
fn place_pieces(board: &mut Board, cs: &Vec<char>) -> (r: Result<(), FenError>)
    requires
        old(board)@.consistent(),
        old(board).ok(),
        old(board)@.mailbox == empty_mailbox(),
    ensures
        match placement_field(cs@) {
            Ok(mailbox) => r is Ok && final(board)@.mailbox == mailbox,
            Err(e) => r is Err && r->Err_0@ == e,
        },
        final(board)@.consistent(),
        final(board).ok(),
        same_state(final(board)@, old(board)@),
{
    let ranks = split_fields(cs, '/');
    let ghost fs = fields(cs@, '/');
    proof {
        assert(views(ranks@).len() == ranks@.len());
    }
    if ranks.len() != 8 {
        return Err(FenError::BadPiecePlacement);
    }
    let mut n: u8 = 0;
    let ghost start = board@;
    while n < 8
        invariant
            n <= 8,
            ranks@.len() == 8,
            fs == views(ranks@),
            board@.consistent(),
            board.ok(),
            start == old(board)@,
            fs == fields(cs@, '/'),
            same_state(board@, start),
            vacant(board@.mailbox, 7 - n, 0) || n == 8,
            read_ranks(fs, n as int, board@.mailbox) == read_ranks(fs, 0, empty_mailbox()),
        decreases 8 - n,
    {
        proof {
            assert(fs[n as int] == ranks@[n as int]@);
        }
        match place_rank(board, &ranks[n as usize], 7 - n) {
            Ok(_) => {},
            Err(e) => {
                return Err(e);
            },
        }
        n = n + 1;
        proof {
            assert forall|i: int|
                0 <= i < 64 && (i / 8 < 7 - n || (i / 8 == 7 - n && i % 8 >= 0)) implies #[trigger] board@.mailbox[i] is None by {
                assert(i / 8 < 7 - (n - 1));
            }
        }
    }
    Ok(())
}

/// The file of the outermost own rook on one side of the king.
fn outer_rook_file(board: &Board, color: Color, kingside: bool) -> (r: Result<u8, FenError>)
    ensures
        match right_by_side(board@, color, kingside) {
            Ok(right) => r is Ok && r->Ok_0 == right.file && right.color == color && right.kingside == kingside
                && r->Ok_0 < 8,
            Err(e) => r is Err && r->Err_0@ == e,
        },
{
    let king = board.king_square(color);
    let rank = back_rank(color);
    if king.rank() != rank {
        return Err(invalid("castling king is not on the back rank"));
    }
    let rooks = board.set_of(color, PieceKind::Rook);
    let kf: u8 = king.file();
    if kingside {
        let mut f: u8 = 7;
        while f > kf
            invariant
                f <= 7,
                kf == board@.king_at(color) % 8,
                rank == home_rank(color),
                rank < 8,
                rooks == board@.set_of(color, PieceKind::Rook),
                kingside,
                board@.king_at(color) / 8 == home_rank(color),
                outermost_rook(board@, color, kingside, f as int) == outermost_rook(board@, color, kingside, 7),
            decreases f,
        {
            if rooks.is_set(Square::new(f, rank)) {
                return Ok(f);
            }
            f = f - 1;
        }
    } else {
        let mut f: u8 = 0;
        while f < kf
            invariant
                f <= 7,
                kf < 8,
                kf == board@.king_at(color) % 8,
                rank == home_rank(color),
                rank < 8,
                rooks == board@.set_of(color, PieceKind::Rook),
                !kingside,
                board@.king_at(color) / 8 == home_rank(color),
                outermost_rook(board@, color, kingside, f as int) == outermost_rook(board@, color, kingside, 0),
            decreases 8 - f,
        {
            if rooks.is_set(Square::new(f, rank)) {
                return Ok(f);
            }
            f = f + 1;
        }
    }
    Err(invalid("castling right has no rook on that side of the king"))
}

fn back_rank(color: Color) -> (r: u8)
    ensures
        r == home_rank(color),
        r < 8,
{
    match color {
        Color::White => 0,
        Color::Black => 7,
    }
}

fn castle_flag(color: Color, kingside: bool) -> (r: u8)
    ensures
        r == right_bit(color, kingside),
        r < 16,
{
    match (color, kingside) {
        (Color::White, true) => CastlingRights::WHITE_KINGSIDE,
        (Color::White, false) => CastlingRights::WHITE_QUEENSIDE,
        (Color::Black, true) => CastlingRights::BLACK_KINGSIDE,
        (Color::Black, false) => CastlingRights::BLACK_QUEENSIDE,
    }
}

/// The side of the king on which a rook file lies.
fn rook_file_castle(board: &Board, color: Color, file: u8) -> (r: Result<bool, FenError>)
    requires
        file < 8,
    ensures
        match right_by_file(board@, color, file as int) {
            Ok(right) => r is Ok && r->Ok_0 == right.kingside && right.color == color && right.file == file,
            Err(e) => r is Err && r->Err_0@ == e,
        },
{
    let king = board.king_square(color);
    if king.rank() != back_rank(color) {
        return Err(invalid("castling king is not on the back rank"));
    }
    if file == king.file() {
        return Err(invalid("castling rook file must not be the king's file"));
    }
    Ok(file > king.file())
}

/// Color, side and rook file that one character of a castling field names.
fn read_right(board: &Board, c: char, field: &Vec<char>) -> (r: Result<(Color, bool, u8), FenError>)
    ensures
        match named_right(board@, c, field@) {
            Ok(right) => r is Ok && r->Ok_0.0 == right.color && r->Ok_0.1 == right.kingside && r->Ok_0.2 == right.file
                && r->Ok_0.2 < 8,
            Err(e) => r is Err && r->Err_0@ == e,
        },
{
    if c == 'K' || c == 'Q' || c == 'k' || c == 'q' {
        let color = if c == 'K' || c == 'Q' { Color::White } else { Color::Black };
        let kingside = c == 'K' || c == 'k';
        match outer_rook_file(board, color, kingside) {
            Ok(f) => Ok((color, kingside, f)),
            Err(e) => Err(e),
        }
    } else if 'A' <= c && c <= 'H' {
        let f: u8 = (c as u32 - 'A' as u32) as u8;
        match rook_file_castle(board, Color::White, f) {
            Ok(kingside) => Ok((Color::White, kingside, f)),
            Err(e) => Err(e),
        }
    } else if 'a' <= c && c <= 'h' {
        let f: u8 = (c as u32 - 'a' as u32) as u8;
        match rook_file_castle(board, Color::Black, f) {
            Ok(kingside) => Ok((Color::Black, kingside, f)),
            Err(e) => Err(e),
        }
    } else {
        Err(invalid_chars("bad castling rights: ", field))
    }
}

/// Whether the king stands where castling brings it, with the rook beside it.
fn castled(board: &Board, color: Color, kingside: bool) -> (r: bool)
    ensures
        r == has_castled(board@, color, kingside),
{
    let home: u8 = back_rank(color) * 8;
    let king: u8 = home + if kingside { 6 } else { 2 };
    let rook: u8 = home + if kingside { 5 } else { 3 };
    board.king_square(color).0 == king && board.set_of(color, PieceKind::Rook).is_set(Square(rook))
}

/// Whether a letter names a right left over from before the king castled.
fn stale_right(board: &Board, c: char) -> (r: bool)
    ensures
        r == is_stale(board@, c),
{
    if c == 'K' || c == 'Q' || c == 'k' || c == 'q' {
        let color = if c == 'K' || c == 'Q' { Color::White } else { Color::Black };
        let kingside = c == 'K' || c == 'k';
        outer_rook_file(board, color, kingside).is_err() && (castled(board, color, true) || castled(board, color, false))
    } else {
        false
    }
}

/// Reads a castling field: standard letters, or files of the rooks.
fn parse_castling_field(board: &Board, field: &Vec<char>) -> (r: Result<(CastlingRights, [Square; 4]), FenError>)
    ensures
        match castling_field(board@, field@) {
            Ok(read) => r is Ok && r->Ok_0.0.0 == read.mask && r->Ok_0.1@ == read.rooks && r->Ok_0.0.ok() && (forall|
                i: int,
            |
                0 <= i < 4 ==> (#[trigger] r->Ok_0.1@[i]).ok()),
            Err(e) => r is Err && r->Err_0@ == e,
        },
{
    let mut rooks: [Square; 4] = [Square(7), Square(0), Square(63), Square(56)];
    let mut rights = CastlingRights(0);
    proof {
        assert(rooks@ =~= standard_rooks());
    }
    if field.len() == 1 && field[0] == '-' {
        proof {
            assert(field@ =~= seq!['-']);
        }
        return Ok((rights, rooks));
    }
    let mut n: usize = 0;
    while n < field.len()
        invariant
            n <= field.len(),
            field@ != seq!['-'],
            rights.ok(),
            forall|i: int| 0 <= i < 4 ==> (#[trigger] rooks@[i]).ok(),
            read_rights(board@, field@, n as int, RightsRead { mask: rights.0, rooks: rooks@ }) == castling_field(
                board@,
                field@,
            ),
        decreases field.len() - n,
    {
        let c = field[n];
        if stale_right(board, c) {
            n = n + 1;
            continue;
        }
        let (color, kingside, file) = match read_right(board, c, field) {
            Ok(x) => x,
            Err(e) => {
                return Err(e);
            },
        };
        let flag: u8 = castle_flag(color, kingside);
        if rights.has(flag) {
            return Err(invalid_char("duplicate castling right: ", c));
        }
        rights = rights.add(flag);
        rooks[Board::castle_rook_index(color, kingside)] = Square::new(file, back_rank(color));
        n = n + 1;
    }
    Ok((rights, rooks))
}

proof fn lemma_edge_ranks()
    ensures
        forall|i: int| #[trigger] bit(0xFF00_0000_0000_00FFu64, i) == (0 <= i < 64 && (i / 8 == 0 || i / 8 == 7)),
{
    broadcast use group_bits;
    lemma_named_masks();
    assert(0xFFu64 | 0xFF00_0000_0000_0000u64 == 0xFF00_0000_0000_00FFu64) by (bit_vector);
    assert forall|i: int| #[trigger] bit(0xFF00_0000_0000_00FFu64, i) == (0 <= i < 64 && (i / 8 == 0 || i / 8 == 7)) by {
        lemma_rank_mask(0, i);
        lemma_rank_mask(7, i);
        assert(bit(0xFFu64 | 0xFF00_0000_0000_0000u64, i) == (bit(0xFFu64, i) || bit(0xFF00_0000_0000_0000u64, i)));
    }
}

fn check_army(board: &Board, color: Color) -> (r: Result<(), FenError>)
    ensures
        match army_fault(board@, color) {
            None => r is Ok,
            Some(text) => r is Err && r->Err_0@ == FenFault::Invalid(text),
        },
{
    let kings: u32 = board.set_of(color, PieceKind::King).count();
    if kings != 1 {
        let mut s = "expected exactly one ".to_string();
        s.append(color.name());
        s.append(" king, got ");
        push_decimal(&mut s, kings as u64);
        return Err(FenError::Invalid(s));
    }
    let pawns = board.set_of(color, PieceKind::Pawn);
    if pawns.count() > 8 {
        return Err(invalid_named("too many ", color.name(), " pawns"));
    }
    let edge = pawns & Bitboard(0xFF00_0000_0000_00FF);
    proof {
        broadcast use group_bits;
        lemma_edge_ranks();
        if edge.0 != 0 {
            crate::bits::lemma_lowest(edge.0);
            let i = vstd::std_specs::bits::u64_trailing_zeros(edge.0) as int;
            assert(bit(edge.0, i));
            assert(board@.set_of(color, PieceKind::Pawn).has(i));
        } else if pawn_on_edge(board@, color) {
            let i = choose|i: int| #[trigger]
                board@.set_of(color, PieceKind::Pawn).has(i) && (i / 8 == 0 || i / 8 == 7);
            assert(bit(edge.0, i));
        }
    }
    if !edge.is_empty() {
        let mut s = color.name().to_string();
        s.append(" pawn on first or eighth rank");
        return Err(FenError::Invalid(s));
    }
    if board.occupancy[color.index()].count() > 16 {
        return Err(invalid_named("too many ", color.name(), " pieces"));
    }
    Ok(())
}

fn check_right(board: &Board, color: Color, kingside: bool) -> (r: Result<(), FenError>)
    requires
        board.ok(),
    ensures
        match right_fault(board@, color, kingside) {
            None => r is Ok,
            Some(text) => r is Err && r->Err_0@ == FenFault::Invalid(text),
        },
{
    if !board.castling.has(castle_flag(color, kingside)) {
        return Ok(());
    }
    let name = right_name(color, kingside);
    let king = board.king_square(color);
    let rank = back_rank(color);
    if king.rank() != rank {
        return Err(invalid_right(name, " has no king on the back rank"));
    }
    let rook = board.castle_rook(color, kingside);
    proof {
        assert(board.castle_rooks@[rook_index(color, kingside)].ok());
    }
    if rook.rank() != rank || board.piece_at(rook) != Some(Piece::new(PieceKind::Rook, color)) {
        return Err(invalid_right(name, " has no rook on its home square"));
    }
    if (kingside && rook.file() <= king.file()) || (!kingside && rook.file() >= king.file()) {
        return Err(invalid_right(name, " rook is on the wrong side of the king"));
    }
    Ok(())
}

fn right_name(color: Color, kingside: bool) -> (r: char)
    ensures
        r == right_letter(color, kingside),
{
    match (color, kingside) {
        (Color::White, true) => 'K',
        (Color::White, false) => 'Q',
        (Color::Black, true) => 'k',
        (Color::Black, false) => 'q',
    }
}

fn validate_en_passant(board: &Board) -> (r: Result<(), FenError>)
    requires
        board.ok(),
    ensures
        match ep_fault(board@) {
            None => r is Ok,
            Some(text) => r is Err && r->Err_0@ == FenFault::Invalid(text),
        },
{
    let target = match board.en_passant {
        Some(sq) => sq,
        None => {
            return Ok(());
        },
    };
    if board.piece_at(target).is_some() {
        return Err(invalid("en passant target square is occupied"));
    }
    let expected_rank: u8 = match board.side_to_move {
        Color::White => 5,
        Color::Black => 2,
    };
    let pawn_rank: u8 = match board.side_to_move {
        Color::White => 4,
        Color::Black => 3,
    };
    let origin_rank: u8 = match board.side_to_move {
        Color::White => 6,
        Color::Black => 1,
    };
    if target.rank() != expected_rank {
        return Err(invalid_named("bad en passant rank for ", board.side_to_move.name(), " to move"));
    }
    let pawn = Piece::new(PieceKind::Pawn, board.side_to_move.opposite());
    let pawn_sq = Square::new(target.file(), pawn_rank);
    let origin_sq = Square::new(target.file(), origin_rank);
    if board.piece_at(pawn_sq) != Some(pawn) || board.piece_at(origin_sq).is_some() {
        return Err(invalid("en passant target is inconsistent with a double pawn push"));
    }
    Ok(())
}

/// Validate what move generation and search assume of every position.
fn validate_structure(board: &Board) -> (r: Result<(), FenError>)
    requires
        board.ok(),
    ensures
        match structure_fault(board@) {
            None => r is Ok,
            Some(text) => r is Err && r->Err_0@ == FenFault::Invalid(text),
        },
{
    match check_army(board, Color::White) {
        Ok(_) => {},
        Err(e) => return Err(e),
    }
    match check_army(board, Color::Black) {
        Ok(_) => {},
        Err(e) => return Err(e),
    }
    let wk = board.king_square(Color::White);
    let bk = board.king_square(Color::Black);
    let wf: i8 = wk.file() as i8;
    let bf: i8 = bk.file() as i8;
    let wr: i8 = wk.rank() as i8;
    let br: i8 = bk.rank() as i8;
    if -1 <= wf - bf && wf - bf <= 1 && -1 <= wr - br && wr - br <= 1 {
        return Err(invalid("kings may not be adjacent"));
    }
    match check_right(board, Color::White, true) {
        Ok(_) => {},
        Err(e) => return Err(e),
    }
    match check_right(board, Color::White, false) {
        Ok(_) => {},
        Err(e) => return Err(e),
    }
    match check_right(board, Color::Black, true) {
        Ok(_) => {},
        Err(e) => return Err(e),
    }
    match check_right(board, Color::Black, false) {
        Ok(_) => {},
        Err(e) => return Err(e),
    }
    validate_en_passant(board)
}

impl Board {
    /// Parse a FEN string into a Board.
    pub fn from_fen(fen: &str) -> (r: Result<Self, FenError>)
        ensures
            match fen_position(fen@) {
                Ok(p) => r is Ok && r->Ok_0@ == p && r->Ok_0.ok(),
                Err(e) => r is Err && r->Err_0@ == e,
            },
    {
        let cs = chars_of(fen);
        let parts = split_words(&cs);
        let ghost w = words(fen@);
        proof {
            assert(views(parts@).len() == parts@.len());
            assert forall|i: int| 0 <= i < parts@.len() implies #[trigger] w[i] == parts@[i]@ by {}
        }
        if parts.len() < 4 || parts.len() > 6 {
            return Err(FenError::WrongPartCount(parts.len()));
        }
        let mut board = empty_board();
        match place_pieces(&mut board, &parts[0]) {
            Ok(_) => {},
            Err(e) => {
                return Err(e);
            },
        }
        let ghost mailbox = board@.mailbox;
        if parts[1].len() == 1 && parts[1][0] == 'w' {
            proof {
                assert(w[1] =~= seq!['w']);
            }
            board.side_to_move = Color::White;
        } else if parts[1].len() == 1 && parts[1][0] == 'b' {
            proof {
                assert(w[1] =~= seq!['b']);
                assert(w[1] != seq!['w']) by {
                    assert(w[1][0] != seq!['w'][0]);
                }
            }
            board.side_to_move = Color::Black;
        } else {
            return Err(invalid_chars("bad side to move: ", &parts[1]));
        }
        proof {
            lemma_board_is(board, mailbox);
        }
        let (castling, rooks) = match parse_castling_field(&board, &parts[2]) {
            Ok(x) => x,
            Err(e) => {
                return Err(e);
            },
        };
        board.castling = castling;
        board.castle_rooks = rooks;
        if parts[3].len() == 1 && parts[3][0] == '-' {
            proof {
                assert(w[3] =~= seq!['-']);
            }
            board.en_passant = None;
        } else {
            let sq = if parts[3].len() == 2 {
                proof {
                    assert(w[3] =~= seq![parts@[3]@[0], parts@[3]@[1]]);
                }
                Square::from_name(parts[3][0], parts[3][1])
            } else {
                None
            };
            match sq {
                Some(sq) => {
                    board.en_passant = Some(sq);
                },
                None => {
                    return Err(invalid_chars("bad en passant: ", &parts[3]));
                },
            }
        }
        if parts.len() > 4 {
            match parse_u16(&parts[4]) {
                Some(n) => {
                    board.halfmove_clock = n;
                },
                None => {
                    return Err(invalid_chars("bad halfmove clock: ", &parts[4]));
                },
            }
        }
        if parts.len() > 5 {
            match parse_u16(&parts[5]) {
                Some(n) => {
                    if n == 0 {
                        return Err(invalid("fullmove number must be at least 1"));
                    }
                    board.fullmove_number = n;
                },
                None => {
                    return Err(invalid_chars("bad fullmove number: ", &parts[5]));
                },
            }
        }
        proof {
            lemma_board_is(board, mailbox);
        }
        match validate_structure(&board) {
            Ok(_) => {},
            Err(e) => {
                return Err(e);
            },
        }
        let ghost p = board@;
        board.hash = board.compute_hash();
        proof {
            assert(board@.pieces =~= p.pieces);
            assert(board@ =~= (Position { hash: p.full_hash(), ..p }));
        }
        Ok(board)
    }
}

/// A consistent board without hash and history is `position_of` its parts.
proof fn lemma_board_is(board: Board, mailbox: Seq<Option<Piece>>)
    requires
        board@.shaped(),
        board@.mailbox == mailbox,
        board@.hash == 0,
        board@.history == Seq::<u64>::empty(),
        exists|q: Position| #[trigger] q.consistent() && q.pieces == board@.pieces && q.occupancy == board@.occupancy && q.mailbox
            == mailbox,
    ensures
        board@ == position_of(
            mailbox,
            board@.side,
            board@.castling,
            board@.rooks,
            board@.ep,
            board@.halfmove,
            board@.fullmove,
        ),
{
    let p = board@;
    let t = position_of(mailbox, p.side, p.castling, p.rooks, p.ep, p.halfmove, p.fullmove);
    lemma_position_of_consistent(mailbox, p.side, p.castling, p.rooks, p.ep, p.halfmove, p.fullmove);
    let q = choose|q: Position| #[trigger] q.consistent() && q.pieces == p.pieces && q.occupancy == p.occupancy && q.mailbox
        == mailbox;
    lemma_mailbox_determines(q, t);
    assert(p =~= t);
}

// Writing.
fn push_gap(s: &mut String, empty: u8)
    ensures
        final(s)@ == old(s)@ + gap_text(empty as int),
{
    let ghost before = s@;
    if empty > 0 {
        push_decimal(s, empty as u64);
    }
    proof {
        assert(s@ =~= before + gap_text(empty as int));
    }
}

fn push_rank(board: &Board, rank: u8, s: &mut String)
    requires
        rank < 8,
    ensures
        final(s)@ == old(s)@ + rank_text(board@.mailbox, rank as int, 0, 0),
{
    let ghost base = s@;
    let ghost mb = board@.mailbox;
    let mut file: u8 = 0;
    let mut empty: u8 = 0;
    while file < 8
        invariant
            file <= 8,
            rank < 8,
            empty <= file,
            mb == board@.mailbox,
            s@ + rank_text(mb, rank as int, file as int, empty as int) == base + rank_text(mb, rank as int, 0, 0),
        decreases 8 - file,
    {
        let ghost before = s@;
        match board.piece_at(Square::new(file, rank)) {
            Some(piece) => {
                push_gap(s, empty);
                let letter = piece.kind.to_char(piece.color);
                s.push(letter);
                proof {
                    let rest = rank_text(mb, rank as int, file + 1, 0);
                    assert(s@ + rest =~= before + (gap_text(empty as int) + seq![letter] + rest));
                }
                empty = 0;
            },
            None => {
                empty = empty + 1;
            },
        }
        file = file + 1;
    }
    push_gap(s, empty);
}

fn push_right(board: &Board, color: Color, kingside: bool, s: &mut String)
    ensures
        final(s)@ == old(s)@ + right_text(board@, color, kingside),
{
    let ghost before = s@;
    if board.castling.has(castle_flag(color, kingside)) {
        let rook = board.castle_rook(color, kingside);
        let standard: u8 = if kingside { 7 } else { 0 };
        if rook.file() == standard {
            s.push(right_name(color, kingside));
        } else {
            match color {
                Color::White => {
                    s.push(upper_letter(rook.file()));
                },
                Color::Black => {
                    s.push(rook.file_letter());
                },
            }
        }
    }
    proof {
        assert(s@ =~= before + right_text(board@, color, kingside));
    }
}

fn upper_letter(file: u8) -> (c: char)
    ensures
        c == upper_file_char(file as int),
{
    match file {
        0 => 'A',
        1 => 'B',
        2 => 'C',
        3 => 'D',
        4 => 'E',
        5 => 'F',
        6 => 'G',
        _ => 'H',
    }
}

/// Appends the castling field: K/Q when the rook is on h/a, otherwise the file
/// letter.
fn push_castling(board: &Board, s: &mut String)
    ensures
        final(s)@ == old(s)@ + castling_text(board@),
{
    let ghost before = s@;
    if board.castling.0 == 0 {
        s.push('-');
    } else {
        push_right(board, Color::White, true, s);
        push_right(board, Color::White, false, s);
        push_right(board, Color::Black, true, s);
        push_right(board, Color::Black, false, s);
    }
    proof {
        assert(s@ =~= before + castling_text(board@));
    }
}

fn push_placement(board: &Board, s: &mut String)
    ensures
        final(s)@ == old(s)@ + placement_text(board@.mailbox, 7),
{
    let ghost base = s@;
    let ghost mb = board@.mailbox;
    let mut rank: u8 = 7;
    while rank > 0
        invariant
            rank <= 7,
            mb == board@.mailbox,
            s@ + placement_text(mb, rank as int) == base + placement_text(mb, 7),
        decreases rank,
    {
        let ghost before = s@;
        push_rank(board, rank, s);
        s.push('/');
        proof {
            let rest = placement_text(mb, rank - 1);
            assert(s@ + rest =~= before + (rank_text(mb, rank as int, 0, 0) + seq!['/'] + rest));
        }
        rank = rank - 1;
    }
    push_rank(board, 0, s);
}

impl Board {
    /// Convert this board to a FEN string.
    pub fn to_fen(&self) -> (r: String)
        requires
            self.ok(),
        ensures
            r@ == fen_text(self@),
    {
        let mut fen = String::new();
        push_placement(self, &mut fen);
        fen.push(' ');
        fen.push(
            match self.side_to_move {
                Color::White => 'w',
                Color::Black => 'b',
            },
        );
        fen.push(' ');
        push_castling(self, &mut fen);
        fen.push(' ');
        match self.en_passant {
            Some(sq) => {
                fen.push(sq.file_letter());
                fen.push(sq.rank_digit());
            },
            None => fen.push('-'),
        }
        fen.push(' ');
        push_decimal(&mut fen, self.halfmove_clock as u64);
        fen.push(' ');
        push_decimal(&mut fen, self.fullmove_number as u64);
        proof {
            assert(fen@ =~= fen_text(self@));
        }
        fen
    }
}

// The initial position.
/// The piece kind of a file in the initial array.
pub open spec fn array_kind(f: int) -> PieceKind {
    if f == 0 || f == 7 {
        PieceKind::Rook
    } else if f == 1 || f == 6 {
        PieceKind::Knight
    } else if f == 2 || f == 5 {
        PieceKind::Bishop
    } else if f == 3 {
        PieceKind::Queen
    } else {
        PieceKind::King
    }
}

/// What stands on a square at the start of a game.
pub open spec fn start_piece(i: int) -> Option<Piece> {
    if i / 8 == 0 {
        Some(Piece { kind: array_kind(i % 8), color: Color::White })
    } else if i / 8 == 1 {
        Some(Piece { kind: PieceKind::Pawn, color: Color::White })
    } else if i / 8 == 6 {
        Some(Piece { kind: PieceKind::Pawn, color: Color::Black })
    } else if i / 8 == 7 {
        Some(Piece { kind: array_kind(i % 8), color: Color::Black })
    } else {
        None
    }
}

/// The initial position: White to move, all castling rights.
pub open spec fn start_position() -> Position {
    let p = position_of(
        Seq::new(64, |i: int| start_piece(i)),
        Color::White,
        CastlingRights(15),
        standard_rooks(),
        None,
        0,
        1,
    );
    Position { hash: p.full_hash(), ..p }
}

impl Board {
    /// Create a new board from the standard starting position.
    pub fn starting_position() -> (r: Self)
        ensures
            r@ == start_position(),
            r.ok(),
    {
        let mut board = empty_board();
        let mut sq: u8 = 0;
        let ghost start = board@;
        while sq < 64
            invariant
                sq <= 64,
                board@.consistent(),
                board.ok(),
                same_state(board@, start),
                forall|i: int| 0 <= i < sq ==> #[trigger] board@.mailbox[i] == start_piece(i),
                forall|i: int| sq <= i < 64 ==> #[trigger] board@.mailbox[i] is None,
            decreases 64 - sq,
        {
            let s = Square(sq);
            let rank = s.rank();
            if rank <= 1 || rank >= 6 {
                let kind = if rank == 1 || rank == 6 {
                    PieceKind::Pawn
                } else {
                    match s.file() {
                        0 | 7 => PieceKind::Rook,
                        1 | 6 => PieceKind::Knight,
                        2 | 5 => PieceKind::Bishop,
                        3 => PieceKind::Queen,
                        _ => PieceKind::King,
                    }
                };
                let color = if rank <= 1 { Color::White } else { Color::Black };
                proof {
                    lemma_put_consistent(board@, sq as int, Piece { kind, color });
                }
                board.set_piece(s, Piece::new(kind, color));
            }
            sq = sq + 1;
        }
        let ghost mb = board@.mailbox;
        board.castling = CastlingRights(15);
        proof {
            assert(mb =~= Seq::new(64, |i: int| start_piece(i)));
            lemma_board_is(board, mb);
        }
        let ghost p = board@;
        board.hash = board.compute_hash();
        proof {
            assert(board@.pieces =~= p.pieces);
            assert(board@ =~= start_position());
        }
        board
    }
}

} // verus!
