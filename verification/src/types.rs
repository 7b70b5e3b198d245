//! Colours, pieces, squares, bitboards, castling rights and scores.

use vstd::prelude::*;
use crate::arith::{div_i32, quot};
use crate::bits::{bit, group_bits, lemma_bits_extensional, lemma_file_mask, lemma_lowest, lemma_named_masks, lemma_pop, lemma_squares_zero, popcount, squares};
use crate::text::{chars_of, decimal_int, push_decimal_int};

verus! {

/// A player color.
#[derive(Debug, Clone, Copy, PartialEq, Eq, Hash, Structural)]
pub enum Color {
    White,
    Black,
}

impl Color {
    /// 0 for White, 1 for Black.
    pub open spec fn idx(self) -> int {
        match self {
            Color::White => 0,
            Color::Black => 1,
        }
    }

    /// The other color.
    pub open spec fn other(self) -> Color {
        match self {
            Color::White => Color::Black,
            Color::Black => Color::White,
        }
    }

    pub fn opposite(self) -> (r: Self)
        ensures
            r == self.other(),
    {
        match self {
            Color::White => Color::Black,
            Color::Black => Color::White,
        }
    }

    pub fn index(self) -> (r: usize)
        ensures
            r == self.idx(),
            r < 2,
    {
        match self {
            Color::White => 0,
            Color::Black => 1,
        }
    }

    /// The color's English name.
    pub fn name(self) -> (r: &'static str)
        ensures
            r@ == (match self {
                Color::White => "White"@,
                Color::Black => "Black"@,
            }),
    {
        match self {
            Color::White => "White",
            Color::Black => "Black",
        }
    }
}

/// A piece type (without color).
#[derive(Debug, Clone, Copy, PartialEq, Eq, Hash, Structural)]
pub enum PieceKind {
    Pawn,
    Knight,
    Bishop,
    Rook,
    Queen,
    King,
}

impl PieceKind {
    pub const COUNT: usize = 6;

    pub const ALL: [PieceKind; 6] = [
        PieceKind::Pawn,
        PieceKind::Knight,
        PieceKind::Bishop,
        PieceKind::Rook,
        PieceKind::Queen,
        PieceKind::King,
    ];

    /// Position in the order pawn, knight, bishop, rook, queen, king.
    pub open spec fn idx(self) -> int {
        match self {
            PieceKind::Pawn => 0,
            PieceKind::Knight => 1,
            PieceKind::Bishop => 2,
            PieceKind::Rook => 3,
            PieceKind::Queen => 4,
            PieceKind::King => 5,
        }
    }

    pub fn index(self) -> (r: usize)
        ensures
            r == self.idx(),
            r < 6,
    {
        match self {
            PieceKind::Pawn => 0,
            PieceKind::Knight => 1,
            PieceKind::Bishop => 2,
            PieceKind::Rook => 3,
            PieceKind::Queen => 4,
            PieceKind::King => 5,
        }
    }

    /// Material value in centipawns; the king has none.
    pub open spec fn worth(self) -> i32 {
        match self {
            PieceKind::Pawn => 100,
            PieceKind::Knight => 320,
            PieceKind::Bishop => 330,
            PieceKind::Rook => 500,
            PieceKind::Queen => 900,
            PieceKind::King => 0,
        }
    }

    /// Material value in centipawns.
    pub fn value(self) -> (r: i32)
        ensures
            r == self.worth(),
    {
        match self {
            PieceKind::Pawn => 100,
            PieceKind::Knight => 320,
            PieceKind::Bishop => 330,
            PieceKind::Rook => 500,
            PieceKind::Queen => 900,
            PieceKind::King => 0,
        }
    }

    /// The piece that a letter stands for, in either case.
    pub open spec fn of_char(c: char) -> Option<PieceKind> {
        if c == 'p' || c == 'P' {
            Some(PieceKind::Pawn)
        } else if c == 'n' || c == 'N' {
            Some(PieceKind::Knight)
        } else if c == 'b' || c == 'B' {
            Some(PieceKind::Bishop)
        } else if c == 'r' || c == 'R' {
            Some(PieceKind::Rook)
        } else if c == 'q' || c == 'Q' {
            Some(PieceKind::Queen)
        } else if c == 'k' || c == 'K' {
            Some(PieceKind::King)
        } else {
            None
        }
    }

    pub fn from_char(c: char) -> (r: Option<Self>)
        ensures
            r == PieceKind::of_char(c),
    {
        match c {
            'p' | 'P' => Some(PieceKind::Pawn),
            'n' | 'N' => Some(PieceKind::Knight),
            'b' | 'B' => Some(PieceKind::Bishop),
            'r' | 'R' => Some(PieceKind::Rook),
            'q' | 'Q' => Some(PieceKind::Queen),
            'k' | 'K' => Some(PieceKind::King),
            _ => None,
        }
    }

    /// The letter for a piece: upper case for White, lower case for Black.
    pub open spec fn letter(self, color: Color) -> char {
        match (self, color) {
            (PieceKind::Pawn, Color::White) => 'P',
            (PieceKind::Knight, Color::White) => 'N',
            (PieceKind::Bishop, Color::White) => 'B',
            (PieceKind::Rook, Color::White) => 'R',
            (PieceKind::Queen, Color::White) => 'Q',
            (PieceKind::King, Color::White) => 'K',
            (PieceKind::Pawn, Color::Black) => 'p',
            (PieceKind::Knight, Color::Black) => 'n',
            (PieceKind::Bishop, Color::Black) => 'b',
            (PieceKind::Rook, Color::Black) => 'r',
            (PieceKind::Queen, Color::Black) => 'q',
            (PieceKind::King, Color::Black) => 'k',
        }
    }

    pub fn to_char(self, color: Color) -> (r: char)
        ensures
            r == self.letter(color),
    {
        match (self, color) {
            (PieceKind::Pawn, Color::White) => 'P',
            (PieceKind::Knight, Color::White) => 'N',
            (PieceKind::Bishop, Color::White) => 'B',
            (PieceKind::Rook, Color::White) => 'R',
            (PieceKind::Queen, Color::White) => 'Q',
            (PieceKind::King, Color::White) => 'K',
            (PieceKind::Pawn, Color::Black) => 'p',
            (PieceKind::Knight, Color::Black) => 'n',
            (PieceKind::Bishop, Color::Black) => 'b',
            (PieceKind::Rook, Color::Black) => 'r',
            (PieceKind::Queen, Color::Black) => 'q',
            (PieceKind::King, Color::Black) => 'k',
        }
    }
}

/// The letter of a piece names its kind again.
pub proof fn law_piece_letter_round_trip(kind: PieceKind, color: Color)
    ensures
        PieceKind::of_char(kind.letter(color)) == Some(kind),
{
}

/// The piece kind at a position of the usual order.
pub open spec fn kind_at(k: int) -> PieceKind {
    if k == 0 {
        PieceKind::Pawn
    } else if k == 1 {
        PieceKind::Knight
    } else if k == 2 {
        PieceKind::Bishop
    } else if k == 3 {
        PieceKind::Rook
    } else if k == 4 {
        PieceKind::Queen
    } else {
        PieceKind::King
    }
}

/// The color at an index.
pub open spec fn color_at(c: int) -> Color {
    if c == 0 {
        Color::White
    } else {
        Color::Black
    }
}

/// A piece with its color.
#[derive(Debug, Clone, Copy, PartialEq, Eq, Hash, Structural)]
pub struct Piece {
    pub kind: PieceKind,
    pub color: Color,
}

impl Piece {
    pub fn new(kind: PieceKind, color: Color) -> (r: Self)
        ensures
            r == (Piece { kind, color }),
    {
        Self { kind, color }
    }
}

/// A square on the board, represented as 0..63: a1 = 0, b1 = 1, ..., h8 = 63.
#[derive(Debug, Clone, Copy, PartialEq, Eq, Hash, Structural)]
pub struct Square(pub u8);

/// The letter of a file, a to h.
pub open spec fn file_char(f: int) -> char {
    if f == 0 { 'a' } else if f == 1 { 'b' } else if f == 2 { 'c' } else if f == 3 { 'd' }
    else if f == 4 { 'e' } else if f == 5 { 'f' } else if f == 6 { 'g' } else { 'h' }
}

/// The digit of a rank, 1 to 8.
pub open spec fn rank_char(r: int) -> char {
    if r == 0 { '1' } else if r == 1 { '2' } else if r == 2 { '3' } else if r == 3 { '4' }
    else if r == 4 { '5' } else if r == 5 { '6' } else if r == 6 { '7' } else { '8' }
}

/// The algebraic name of a square: file letter, then rank digit.
pub open spec fn square_name(i: int) -> Seq<char> {
    seq![file_char(i % 8), rank_char(i / 8)]
}

impl Square {
    /// Whether this is one of the 64 squares of the board.
    pub open spec fn ok(self) -> bool {
        self.0 < 64
    }

    pub fn new(file: u8, rank: u8) -> (r: Self)
        requires
            file < 8,
            rank < 8,
        ensures
            r.0 == rank * 8 + file,
            r.ok(),
    {
        Square(rank * 8 + file)
    }

    pub fn file(self) -> (r: u8)
        ensures
            r == self.0 % 8,
            r < 8,
    {
        self.0 % 8
    }

    pub fn rank(self) -> (r: u8)
        ensures
            r == self.0 / 8,
            self.ok() ==> r < 8,
    {
        self.0 / 8
    }

    pub fn index(self) -> (r: usize)
        ensures
            r == self.0,
    {
        self.0 as usize
    }

    /// The square that two characters name.
    pub open spec fn of_name(cs: Seq<char>) -> Option<Square> {
        if cs.len() == 2 && 'a' <= cs[0] <= 'h' && '1' <= cs[1] <= '8' {
            Some(Square(((cs[1] as u32 - '1' as u32) * 8 + (cs[0] as u32 - 'a' as u32)) as u8))
        } else {
            None
        }
    }

    /// Parse a square from the two characters of its algebraic name.
    pub fn from_name(a: char, b: char) -> (r: Option<Self>)
        ensures
            r == Square::of_name(seq![a, b]),
            r is Some ==> r->Some_0.ok(),
    {
        if 'a' <= a && a <= 'h' && '1' <= b && b <= '8' {
            let f: u32 = a as u32 - 'a' as u32;
            let k: u32 = b as u32 - '1' as u32;
            Some(Square((k * 8 + f) as u8))
        } else {
            None
        }
    }

    /// Parse a square from algebraic notation (e.g., "e4").
    pub fn from_algebraic(s: &str) -> (r: Option<Self>)
        ensures
            r == Square::of_name(s@),
            r is Some ==> r->Some_0.ok(),
    {
        let cs = chars_of(s);
        if cs.len() != 2 {
            return None;
        }
        proof {
            assert(s@ =~= seq![cs@[0], cs@[1]]);
        }
        Square::from_name(cs[0], cs[1])
    }

    /// The file letter of this square.
    pub fn file_letter(self) -> (c: char)
        ensures
            c == file_char(self.0 as int % 8),
    {
        match self.0 % 8 {
            0 => 'a',
            1 => 'b',
            2 => 'c',
            3 => 'd',
            4 => 'e',
            5 => 'f',
            6 => 'g',
            _ => 'h',
        }
    }

    /// The rank digit of this square.
    pub fn rank_digit(self) -> (c: char)
        ensures
            c == rank_char(self.0 as int / 8),
    {
        match self.0 / 8 {
            0 => '1',
            1 => '2',
            2 => '3',
            3 => '4',
            4 => '5',
            5 => '6',
            6 => '7',
            _ => '8',
        }
    }

    /// Convert to algebraic notation (e.g., "e4").
    pub fn to_algebraic(self) -> (r: String)
        requires
            self.ok(),
        ensures
            r@ == square_name(self.0 as int),
    {
        let mut s = String::new();
        s.push(self.file_letter());
        s.push(self.rank_digit());
        proof {
            assert(s@ =~= square_name(self.0 as int));
        }
        s
    }

    /// The bitboard with only this square set.
    pub fn bitboard(self) -> (r: Bitboard)
        requires
            self.ok(),
        ensures
            r.0 == 1u64 << (self.0 as u64),
            forall|i: int| #[trigger] r.has(i) == (i == self.0),
    {
        broadcast use group_bits;
        Bitboard(1u64 << (self.0 as u64))
    }
}

/// Every square is read back from its algebraic name.
pub proof fn law_square_name_round_trip(sq: Square)
    requires
        sq.ok(),
    ensures
        Square::of_name(square_name(sq.0 as int)) == Some(sq),
{
    let i = sq.0 as int;
    let f = i % 8;
    let r = i / 8;
    assert(file_char(f) as u32 - 'a' as u32 == f);
    assert(rank_char(r) as u32 - '1' as u32 == r);
}

/// A 64-bit bitboard: a set of squares.
#[derive(Debug, Clone, Copy, PartialEq, Eq, Hash, Structural)]
pub struct Bitboard(pub u64);

impl Default for Bitboard {
    fn default() -> (r: Self)
        ensures
            r.0 == 0,
    {
        Bitboard(0)
    }
}

/// `u64::count_ones` of std: the number of ones in the binary representation.
pub assume_specification[ u64::count_ones ](x: u64) -> (r: u32)
    ensures
        r == popcount(x),
;

impl Bitboard {
    pub const FILE_A: u64 = 0x0101_0101_0101_0101;

    pub const FILE_B: u64 = 0x0202_0202_0202_0202;

    pub const FILE_C: u64 = 0x0404_0404_0404_0404;

    pub const FILE_D: u64 = 0x0808_0808_0808_0808;

    pub const FILE_E: u64 = 0x1010_1010_1010_1010;

    pub const FILE_F: u64 = 0x2020_2020_2020_2020;

    pub const FILE_G: u64 = 0x4040_4040_4040_4040;

    pub const FILE_H: u64 = 0x8080_8080_8080_8080;

    /// Whether square `i` is in the set.
    #[verifier::inline]
    pub open spec fn has(self, i: int) -> bool {
        bit(self.0, i)
    }

    /// The squares of the set in ascending order.
    pub open spec fn members(self) -> Seq<int> {
        squares(self.0)
    }

    /// How many squares the set holds.
    pub open spec fn size(self) -> nat {
        popcount(self.0)
    }

    pub fn is_empty(self) -> (r: bool)
        ensures
            r == (self.0 == 0),
            r == (forall|i: int| !#[trigger] self.has(i)),
    {
        broadcast use group_bits;
        proof {
            if self.0 != 0 {
                lemma_lowest(self.0);
                assert(self.has(vstd::std_specs::bits::u64_trailing_zeros(self.0) as int));
            }
        }
        self.0 == 0
    }

    pub fn is_set(self, sq: Square) -> (r: bool)
        requires
            sq.ok(),
        ensures
            r == self.has(sq.0 as int),
    {
        broadcast use group_bits;
        let m: u64 = self.0 & (1u64 << (sq.0 as u64));
        proof {
            if self.has(sq.0 as int) {
                assert(bit(m, sq.0 as int));
            } else {
                assert forall|i: int| !#[trigger] bit(m, i) by {}
                crate::bits::lemma_no_bits(m);
            }
        }
        m != 0
    }

    pub fn set(self, sq: Square) -> (r: Self)
        requires
            sq.ok(),
        ensures
            r.0 == self.0 | (1u64 << (sq.0 as u64)),
            forall|i: int| #[trigger] r.has(i) == (self.has(i) || i == sq.0),
    {
        broadcast use group_bits;
        Bitboard(self.0 | (1u64 << (sq.0 as u64)))
    }

    pub fn clear(self, sq: Square) -> (r: Self)
        requires
            sq.ok(),
        ensures
            r.0 == self.0 & !(1u64 << (sq.0 as u64)),
            forall|i: int| #[trigger] r.has(i) == (self.has(i) && i != sq.0),
    {
        broadcast use group_bits;
        Bitboard(self.0 & !(1u64 << (sq.0 as u64)))
    }

    /// All squares that are not in the set.
    pub fn complement(self) -> (r: Self)
        ensures
            r == Bitboard(!self.0),
    {
        Bitboard(!self.0)
    }

    pub fn count(self) -> (r: u32)
        ensures
            r == self.size(),
            r <= 64,
    {
        proof {
            crate::bits::lemma_squares_members(self.0);
        }
        self.0.count_ones()
    }

    /// The lowest square of a non-empty set.
    pub fn lowest(self) -> (r: Square)
        requires
            self.0 != 0,
        ensures
            r.ok(),
            self.has(r.0 as int),
            self.members().len() > 0,
            r.0 == self.members()[0],
            forall|j: int| #[trigger] self.has(j) ==> r.0 <= j,
    {
        proof {
            lemma_pop(self.0);
            lemma_lowest(self.0);
        }
        Square(self.0.trailing_zeros() as u8)
    }

    /// The set without its lowest square.
    pub fn without_lowest(self) -> (r: Self)
        requires
            self.0 != 0,
        ensures
            r.0 < self.0,
            self.members().len() > 0,
            r.members() == self.members().drop_first(),
            forall|j: int| #[trigger] r.has(j) == (self.has(j) && j != self.members()[0]),
    {
        proof {
            lemma_pop(self.0);
            lemma_lowest(self.0);
        }
        Bitboard(self.0 & (self.0 - 1))
    }

    pub fn lsb(self) -> (r: Option<Square>)
        ensures
            self.0 == 0 ==> r is None,
            self.0 != 0 ==> r is Some && r->Some_0.ok() && self.members().len() > 0 && r->Some_0.0 == self.members()[0]
                && self.has(r->Some_0.0 as int),
    {
        if self.0 == 0 {
            None
        } else {
            Some(self.lowest())
        }
    }

    pub fn pop_lsb(self) -> (r: (Option<Square>, Bitboard))
        ensures
            self.0 == 0 ==> r.0 is None && r.1 == self,
            self.0 != 0 ==> r.0 is Some && r.0->Some_0.ok() && self.members().len() > 0 && r.0->Some_0.0
                == self.members()[0] && r.1.members() == self.members().drop_first() && r.1.0 < self.0,
    {
        if self.0 == 0 {
            (None, self)
        } else {
            (Some(self.lowest()), self.without_lowest())
        }
    }

    /// A cursor over the set squares, in ascending order.
    pub fn iter(self) -> (r: BitboardIter)
        ensures
            r.remaining() == self.members(),
    {
        BitboardIter { rest: self }
    }

    // One-square shifts; squares that would leave the board are dropped.
    pub fn north(self) -> (r: Self)
        ensures
            r.0 == self.0 << 8,
            forall|i: int| #[trigger] r.has(i) == (i < 64 && self.has(i - 8)),
    {
        broadcast use group_bits;
        Bitboard(self.0 << 8)
    }

    pub fn south(self) -> (r: Self)
        ensures
            r.0 == self.0 >> 8,
            forall|i: int| #[trigger] r.has(i) == (0 <= i && self.has(i + 8)),
    {
        broadcast use group_bits;
        Bitboard(self.0 >> 8)
    }

    pub fn east(self) -> (r: Self)
        ensures
            forall|i: int| #[trigger] r.has(i) == (i % 8 != 0 && i < 64 && self.has(i - 1)),
    {
        broadcast use group_bits;
        proof {
            lemma_not_a_file();
        }
        Bitboard((self.0 << 1) & !Bitboard::FILE_A)
    }

    pub fn west(self) -> (r: Self)
        ensures
            forall|i: int| #[trigger] r.has(i) == (i % 8 != 7 && 0 <= i && self.has(i + 1)),
    {
        broadcast use group_bits;
        proof {
            lemma_not_a_file();
        }
        Bitboard((self.0 >> 1) & !Bitboard::FILE_H)
    }

    pub fn north_east(self) -> (r: Self)
        ensures
            forall|i: int| #[trigger] r.has(i) == (i % 8 != 0 && i < 64 && self.has(i - 9)),
    {
        broadcast use group_bits;
        proof {
            lemma_not_a_file();
        }
        Bitboard((self.0 << 9) & !Bitboard::FILE_A)
    }

    pub fn north_west(self) -> (r: Self)
        ensures
            forall|i: int| #[trigger] r.has(i) == (i % 8 != 7 && i < 64 && self.has(i - 7)),
    {
        broadcast use group_bits;
        proof {
            lemma_not_a_file();
        }
        Bitboard((self.0 << 7) & !Bitboard::FILE_H)
    }

    pub fn south_east(self) -> (r: Self)
        ensures
            forall|i: int| #[trigger] r.has(i) == (i % 8 != 0 && 0 <= i && self.has(i + 7)),
    {
        broadcast use group_bits;
        proof {
            lemma_not_a_file();
        }
        Bitboard((self.0 >> 7) & !Bitboard::FILE_A)
    }

    pub fn south_west(self) -> (r: Self)
        ensures
            forall|i: int| #[trigger] r.has(i) == (i % 8 != 7 && 0 <= i && self.has(i + 9)),
    {
        broadcast use group_bits;
        proof {
            lemma_not_a_file();
        }
        Bitboard((self.0 >> 9) & !Bitboard::FILE_H)
    }
}

proof fn lemma_not_a_file()
    ensures
        forall|i: int| #[trigger] bit(!Bitboard::FILE_A, i) == (0 <= i < 64 && i % 8 != 0),
        forall|i: int| #[trigger] bit(!Bitboard::FILE_H, i) == (0 <= i < 64 && i % 8 != 7),
{
    broadcast use group_bits;
    lemma_named_masks();
    assert forall|i: int| #[trigger] bit(!Bitboard::FILE_A, i) == (0 <= i < 64 && i % 8 != 0) by {
        lemma_file_mask(0, i);
    }
    assert forall|i: int| #[trigger] bit(!Bitboard::FILE_H, i) == (0 <= i < 64 && i % 8 != 7) by {
        lemma_file_mask(7, i);
    }
}

/// Two bitboards with the same squares are equal.
pub proof fn law_bitboard_extensional(a: Bitboard, b: Bitboard)
    requires
        forall|i: int| 0 <= i < 64 ==> a.has(i) == b.has(i),
    ensures
        a == b,
{
    assert forall|i: int| 0 <= i < 64 implies bit(a.0, i) == bit(b.0, i) by {
        assert(a.has(i) == b.has(i));
    }
    lemma_bits_extensional(a.0, b.0);
}

impl std::ops::BitAnd for Bitboard {
    type Output = Self;

    fn bitand(self, rhs: Self) -> (r: Self) {
        Bitboard(self.0 & rhs.0)
    }
}

impl vstd::std_specs::ops::BitAndSpecImpl for Bitboard {
    open spec fn obeys_bitand_spec() -> bool {
        true
    }

    open spec fn bitand_req(self, rhs: Self) -> bool {
        true
    }

    open spec fn bitand_spec(self, rhs: Self) -> Self {
        Bitboard(self.0 & rhs.0)
    }
}

impl std::ops::BitOr for Bitboard {
    type Output = Self;

    fn bitor(self, rhs: Self) -> (r: Self) {
        Bitboard(self.0 | rhs.0)
    }
}

impl vstd::std_specs::ops::BitOrSpecImpl for Bitboard {
    open spec fn obeys_bitor_spec() -> bool {
        true
    }

    open spec fn bitor_req(self, rhs: Self) -> bool {
        true
    }

    open spec fn bitor_spec(self, rhs: Self) -> Self {
        Bitboard(self.0 | rhs.0)
    }
}

impl std::ops::BitXor for Bitboard {
    type Output = Self;

    fn bitxor(self, rhs: Self) -> (r: Self) {
        Bitboard(self.0 ^ rhs.0)
    }
}

impl vstd::std_specs::ops::BitXorSpecImpl for Bitboard {
    open spec fn obeys_bitxor_spec() -> bool {
        true
    }

    open spec fn bitxor_req(self, rhs: Self) -> bool {
        true
    }

    open spec fn bitxor_spec(self, rhs: Self) -> Self {
        Bitboard(self.0 ^ rhs.0)
    }
}

impl std::ops::Not for Bitboard {
    type Output = Self;

    fn not(self) -> (r: Self) {
        Bitboard(!self.0)
    }
}

impl vstd::std_specs::ops::NotSpecImpl for Bitboard {
    open spec fn obeys_not_spec() -> bool {
        true
    }

    open spec fn not_req(self) -> bool {
        true
    }

    open spec fn not_spec(self) -> Self {
        Bitboard(!self.0)
    }
}

/// A cursor over the set bits of a bitboard.
#[derive(Debug, Clone, Copy)]
pub struct BitboardIter {
    rest: Bitboard,
}

impl BitboardIter {
    /// The squares still to come.
    pub closed spec fn remaining(self) -> Seq<int> {
        self.rest.members()
    }

    /// The next square, if any is left.
    pub fn next(&mut self) -> (r: Option<Square>)
        ensures
            old(self).remaining().len() == 0 ==> r is None && final(self).remaining() == old(self).remaining(),
            old(self).remaining().len() > 0 ==> r is Some && r->Some_0.ok() && r->Some_0.0 == old(self).remaining()[0]
                && final(self).remaining() == old(self).remaining().drop_first(),
    {
        let (sq, rest) = self.rest.pop_lsb();
        proof {
            if self.rest.0 == 0 {
                lemma_squares_zero();
            }
        }
        self.rest = rest;
        sq
    }

    /// How many squares are left.
    pub fn len(&self) -> (r: usize)
        ensures
            r == self.remaining().len(),
    {
        self.rest.count() as usize
    }

    /// Whether no square is left.
    pub fn is_empty(&self) -> (r: bool)
        ensures
            r == (self.remaining().len() == 0),
    {
        self.len() == 0
    }
}

/// Castling rights packed into a u8 bitmask.
#[derive(Debug, Clone, Copy, PartialEq, Eq, Hash, Structural)]
pub struct CastlingRights(pub u8);

/// The text of a set of castling rights: one letter per right in the order
/// `KQkq`, or a dash when the mask is zero.
pub open spec fn rights_text(mask: u8) -> Seq<char> {
    if mask == 0 {
        seq!['-']
    } else {
        (if mask & 1 != 0 { seq!['K'] } else { seq![] })
            + (if mask & 2 != 0 { seq!['Q'] } else { seq![] })
            + (if mask & 4 != 0 { seq!['k'] } else { seq![] })
            + (if mask & 8 != 0 { seq!['q'] } else { seq![] })
    }
}

/// The rights that a text grants: one per letter of `KQkq` that occurs in it.
pub open spec fn rights_of(cs: Seq<char>) -> u8 {
    ((if cs.contains('K') { 1int } else { 0 }) + (if cs.contains('Q') { 2int } else { 0 })
        + (if cs.contains('k') { 4int } else { 0 }) + (if cs.contains('q') { 8int } else { 0 })) as u8
}

impl CastlingRights {
    pub const WHITE_KINGSIDE: u8 = 0b0001;

    pub const WHITE_QUEENSIDE: u8 = 0b0010;

    pub const BLACK_KINGSIDE: u8 = 0b0100;

    pub const BLACK_QUEENSIDE: u8 = 0b1000;

    /// Whether only the four rights' bits are used.
    pub open spec fn ok(self) -> bool {
        self.0 < 16
    }

    /// No rights.
    pub fn none() -> (r: Self)
        ensures
            r.0 == 0,
    {
        CastlingRights(0)
    }

    /// All four rights.
    pub fn all() -> (r: Self)
        ensures
            r.0 == 15,
    {
        CastlingRights(15)
    }

    pub fn has(self, flag: u8) -> (r: bool)
        ensures
            r == (self.0 & flag != 0),
    {
        self.0 & flag != 0
    }

    pub fn remove(self, flag: u8) -> (r: Self)
        ensures
            r.0 == self.0 & !flag,
            r.0 <= self.0,
            r.0 & flag == 0,
            forall|g: u8| g & flag == 0 ==> #[trigger] (r.0 & g) == self.0 & g,
    {
        let x: u8 = self.0;
        proof {
            assert(x & !flag <= x && (x & !flag) & flag == 0) by (bit_vector);
            assert forall|g: u8| g & flag == 0 implies #[trigger] ((x & !flag) & g) == x & g by {
                assert(g & flag == 0 ==> (x & !flag) & g == x & g) by (bit_vector);
            }
        }
        Self(self.0 & !flag)
    }

    pub fn add(self, flag: u8) -> (r: Self)
        ensures
            r.0 == self.0 | flag,
            r.0 & flag == flag,
            self.0 < 16 && flag < 16 ==> r.0 < 16,
    {
        let x: u8 = self.0;
        proof {
            assert((x | flag) & flag == flag && (x < 16 && flag < 16 ==> (x | flag) < 16)) by (bit_vector);
        }
        Self(self.0 | flag)
    }

    pub fn from_fen(s: &str) -> (r: Self)
        ensures
            r.0 == rights_of(s@),
            r.ok(),
    {
        let cs = chars_of(s);
        let mut k = false;
        let mut q = false;
        let mut bk = false;
        let mut bq = false;
        let mut i: usize = 0;
        while i < cs.len()
            invariant
                i <= cs.len(),
                k == cs@.take(i as int).contains('K'),
                q == cs@.take(i as int).contains('Q'),
                bk == cs@.take(i as int).contains('k'),
                bq == cs@.take(i as int).contains('q'),
            decreases cs.len() - i,
        {
            let c = cs[i];
            let ghost before = cs@.take(i as int);
            match c {
                'K' => { k = true; }
                'Q' => { q = true; }
                'k' => { bk = true; }
                'q' => { bq = true; }
                _ => {}
            }
            i = i + 1;
            proof {
                assert(cs@.take(i as int) =~= before.push(c));
                lemma_push_contains(before, c);
            }
        }
        proof {
            assert(cs@.take(i as int) =~= s@);
        }
        let a: u8 = if k { 1 } else { 0 };
        let b: u8 = if q { 2 } else { 0 };
        let c: u8 = if bk { 4 } else { 0 };
        let d: u8 = if bq { 8 } else { 0 };
        Self(a + b + c + d)
    }

    pub fn to_fen(self) -> (r: String)
        ensures
            r@ == rights_text(self.0),
    {
        let mut s = String::new();
        if self.0 == 0 {
            s.push('-');
            proof {
                assert(s@ =~= rights_text(self.0));
            }
            return s;
        }
        if self.has(Self::WHITE_KINGSIDE) {
            s.push('K');
        }
        if self.has(Self::WHITE_QUEENSIDE) {
            s.push('Q');
        }
        if self.has(Self::BLACK_KINGSIDE) {
            s.push('k');
        }
        if self.has(Self::BLACK_QUEENSIDE) {
            s.push('q');
        }
        proof {
            assert(s@ =~= rights_text(self.0));
        }
        s
    }
}

proof fn lemma_push_contains(s: Seq<char>, c: char)
    ensures
        forall|d: char| #[trigger] s.push(c).contains(d) == (s.contains(d) || c == d),
{
    assert forall|d: char| #[trigger] s.push(c).contains(d) == (s.contains(d) || c == d) by {
        if s.contains(d) {
            let k = choose|k: int| 0 <= k < s.len() && s[k] == d;
            assert(s.push(c)[k] == d);
        }
        if c == d {
            assert(s.push(c)[s.len() as int] == d);
        }
        if s.push(c).contains(d) && c != d {
            let k = choose|k: int| 0 <= k < s.push(c).len() && s.push(c)[k] == d;
            assert(s[k] == d);
        }
    }
}

/// The four masks of a rights value are read back from its text.
pub proof fn law_rights_text_round_trip(r: CastlingRights)
    requires
        r.ok(),
    ensures
        rights_of(rights_text(r.0)) == r.0,
{
    let m = r.0;
    let t = rights_text(m);
    assert(m < 16 ==> ((m & 1 == 0 || m & 1 == 1) && (m & 2 == 0 || m & 2 == 2) && (m & 4 == 0 || m & 4 == 4)
        && (m & 8 == 0 || m & 8 == 8) && m == (m & 1) + (m & 2) + (m & 4) + (m & 8))) by (bit_vector);
    if m != 0 {
        let a: Seq<char> = if m & 1 != 0 { seq!['K'] } else { seq![] };
        let b: Seq<char> = if m & 2 != 0 { seq!['Q'] } else { seq![] };
        let c: Seq<char> = if m & 4 != 0 { seq!['k'] } else { seq![] };
        let d: Seq<char> = if m & 8 != 0 { seq!['q'] } else { seq![] };
        assert(t == a + b + c + d);
        if m & 1 != 0 {
            assert(t[0] == 'K');
        }
        if m & 2 != 0 {
            assert(t[a.len() as int] == 'Q');
        }
        if m & 4 != 0 {
            assert(t[(a + b).len() as int] == 'k');
        }
        if m & 8 != 0 {
            assert(t[(a + b + c).len() as int] == 'q');
        }
    }
}

/// Evaluation score in centipawns. Positive favors White.
#[derive(Debug, Clone, Copy, PartialEq, Eq, PartialOrd, Ord, Hash, Structural)]
pub struct Score(pub i32);

/// Magnitude of an integer.
pub open spec fn magnitude(x: int) -> int {
    if x < 0 {
        -x
    } else {
        x
    }
}

/// Magnitude of a number other than `i32::MIN`.
pub fn abs_i32(x: i32) -> (r: i32)
    requires
        x > i32::MIN,
    ensures
        r == magnitude(x as int),
{
    if x < 0 {
        -x
    } else {
        x
    }
}

/// The text of a score: the distance to mate in moves, or centipawns.
pub open spec fn score_text(x: int) -> Seq<char> {
    if magnitude(x) >= 29000 {
        if x > 0 {
            "mate "@ + decimal_int(quot(30001 - magnitude(x), 2))
        } else {
            "mate -"@ + decimal_int(quot(30001 - magnitude(x), 2))
        }
    } else {
        "cp "@ + decimal_int(x)
    }
}

impl Score {
    pub const MATE: i32 = 30000;

    pub const NEG_MATE: i32 = -30000;

    pub const DRAW: i32 = 0;

    pub const INF: i32 = 2147483647;

    pub const NEG_INF: i32 = -2147483647;

    pub fn is_mate(self) -> (r: bool)
        requires
            self.0 > i32::MIN,
        ensures
            r == (magnitude(self.0 as int) >= 29000),
    {
        abs_i32(self.0) >= 29000
    }

    pub fn centipawns(self) -> (r: i32)
        ensures
            r == self.0,
    {
        self.0
    }

    /// The score as a short text: `mate n`, `mate -n` or `cp n`.
    pub fn to_text(self) -> (r: String)
        requires
            self.0 > i32::MIN,
        ensures
            r@ == score_text(self.0 as int),
    {
        if self.is_mate() {
            let moves: i32 = div_i32(Score::MATE - abs_i32(self.0) + 1, 2);
            let mut s = if self.0 > 0 { "mate ".to_string() } else { "mate -".to_string() };
            push_decimal_int(&mut s, moves as i64);
            s
        } else {
            let mut s = "cp ".to_string();
            push_decimal_int(&mut s, self.0 as i64);
            s
        }
    }
}

/// Game result.
#[derive(Debug, Clone, Copy, PartialEq, Eq, Structural)]
pub enum GameResult {
    Ongoing,
    WhiteWins,
    BlackWins,
    Draw(DrawReason),
}

/// Reason for a draw.
#[derive(Debug, Clone, Copy, PartialEq, Eq, Structural)]
pub enum DrawReason {
    Stalemate,
    FiftyMoveRule,
    ThreefoldRepetition,
    InsufficientMaterial,
    Agreement,
}

/// A mate is told in moves: the side that mates with its `n`-th move has a mate in
/// `n`, and a side that is mated by the opponent's `n`-th move has one in `n`
/// against it. Other scores are told in centipawns.
pub proof fn law_mates_are_told_in_moves(n: int, cp: int)
    requires
        1 <= n <= 400,
        -29000 < cp < 29000,
    ensures
        score_text(30000 - (2 * n - 1)) == "mate "@ + decimal_int(n),
        score_text(-(30000 - 2 * n)) == "mate -"@ + decimal_int(n),
        score_text(cp) == "cp "@ + decimal_int(cp),
{
}

} // verus!
