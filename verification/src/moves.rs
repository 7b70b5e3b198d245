//! Moves and move lists.

use vstd::prelude::*;
use crate::text::chars_of;
use crate::types::{square_name, PieceKind, Square};

verus! {

/// Flags for special move types.
#[derive(Debug, Clone, Copy, PartialEq, Eq, Hash, Structural)]
pub enum MoveFlag {
    Normal,
    DoublePawnPush,
    KingsideCastle,
    QueensideCastle,
    Capture,
    EnPassant,
    /// Promotion (possibly with capture, indicated by captured piece).
    PromoteKnight,
    PromoteBishop,
    PromoteRook,
    PromoteQueen,
    PromoteCaptureKnight,
    PromoteCaptureBishop,
    PromoteCaptureRook,
    PromoteCaptureQueen,
}

impl MoveFlag {
    /// The four-bit code of a flag.
    pub open spec fn code(self) -> int {
        match self {
            MoveFlag::Normal => 0,
            MoveFlag::DoublePawnPush => 1,
            MoveFlag::KingsideCastle => 2,
            MoveFlag::QueensideCastle => 3,
            MoveFlag::Capture => 4,
            MoveFlag::EnPassant => 5,
            MoveFlag::PromoteKnight => 8,
            MoveFlag::PromoteBishop => 9,
            MoveFlag::PromoteRook => 10,
            MoveFlag::PromoteQueen => 11,
            MoveFlag::PromoteCaptureKnight => 12,
            MoveFlag::PromoteCaptureBishop => 13,
            MoveFlag::PromoteCaptureRook => 14,
            MoveFlag::PromoteCaptureQueen => 15,
        }
    }

    /// The flag of a four-bit code; the unused codes read as a normal move.
    pub open spec fn of_code(code: int) -> MoveFlag {
        if code == 1 {
            MoveFlag::DoublePawnPush
        } else if code == 2 {
            MoveFlag::KingsideCastle
        } else if code == 3 {
            MoveFlag::QueensideCastle
        } else if code == 4 {
            MoveFlag::Capture
        } else if code == 5 {
            MoveFlag::EnPassant
        } else if code == 8 {
            MoveFlag::PromoteKnight
        } else if code == 9 {
            MoveFlag::PromoteBishop
        } else if code == 10 {
            MoveFlag::PromoteRook
        } else if code == 11 {
            MoveFlag::PromoteQueen
        } else if code == 12 {
            MoveFlag::PromoteCaptureKnight
        } else if code == 13 {
            MoveFlag::PromoteCaptureBishop
        } else if code == 14 {
            MoveFlag::PromoteCaptureRook
        } else if code == 15 {
            MoveFlag::PromoteCaptureQueen
        } else {
            MoveFlag::Normal
        }
    }

    /// The four-bit code of a flag.
    pub fn bits(self) -> (r: u16)
        ensures
            r == self.code(),
            r < 16,
    {
        match self {
            MoveFlag::Normal => 0,
            MoveFlag::DoublePawnPush => 1,
            MoveFlag::KingsideCastle => 2,
            MoveFlag::QueensideCastle => 3,
            MoveFlag::Capture => 4,
            MoveFlag::EnPassant => 5,
            MoveFlag::PromoteKnight => 8,
            MoveFlag::PromoteBishop => 9,
            MoveFlag::PromoteRook => 10,
            MoveFlag::PromoteQueen => 11,
            MoveFlag::PromoteCaptureKnight => 12,
            MoveFlag::PromoteCaptureBishop => 13,
            MoveFlag::PromoteCaptureRook => 14,
            MoveFlag::PromoteCaptureQueen => 15,
        }
    }

    /// Whether the flag marks a capture, en passant included.
    pub open spec fn captures(self) -> bool {
        ||| self == MoveFlag::Capture
        ||| self == MoveFlag::EnPassant
        ||| self == MoveFlag::PromoteCaptureKnight
        ||| self == MoveFlag::PromoteCaptureBishop
        ||| self == MoveFlag::PromoteCaptureRook
        ||| self == MoveFlag::PromoteCaptureQueen
    }

    pub fn is_capture(self) -> (r: bool)
        ensures
            r == self.captures(),
    {
        match self {
            MoveFlag::Capture
            | MoveFlag::EnPassant
            | MoveFlag::PromoteCaptureKnight
            | MoveFlag::PromoteCaptureBishop
            | MoveFlag::PromoteCaptureRook
            | MoveFlag::PromoteCaptureQueen => true,
            _ => false,
        }
    }

    /// Whether the flag marks a promotion.
    pub open spec fn promotes(self) -> bool {
        self.code() >= 8
    }

    pub fn is_promotion(self) -> (r: bool)
        ensures
            r == self.promotes(),
    {
        self.bits() >= 8
    }

    /// The piece that a promotion makes.
    pub open spec fn promoted(self) -> Option<PieceKind> {
        match self {
            MoveFlag::PromoteKnight | MoveFlag::PromoteCaptureKnight => Some(PieceKind::Knight),
            MoveFlag::PromoteBishop | MoveFlag::PromoteCaptureBishop => Some(PieceKind::Bishop),
            MoveFlag::PromoteRook | MoveFlag::PromoteCaptureRook => Some(PieceKind::Rook),
            MoveFlag::PromoteQueen | MoveFlag::PromoteCaptureQueen => Some(PieceKind::Queen),
            _ => None,
        }
    }

    /// Whether the flag marks a castling move.
    pub open spec fn castles(self) -> bool {
        self == MoveFlag::KingsideCastle || self == MoveFlag::QueensideCastle
    }

    pub fn promotion_piece(self) -> (r: Option<PieceKind>)
        ensures
            r == self.promoted(),
            r is Some <==> self.promotes(),
    {
        match self {
            MoveFlag::PromoteKnight | MoveFlag::PromoteCaptureKnight => Some(PieceKind::Knight),
            MoveFlag::PromoteBishop | MoveFlag::PromoteCaptureBishop => Some(PieceKind::Bishop),
            MoveFlag::PromoteRook | MoveFlag::PromoteCaptureRook => Some(PieceKind::Rook),
            MoveFlag::PromoteQueen | MoveFlag::PromoteCaptureQueen => Some(PieceKind::Queen),
            _ => None,
        }
    }
}

/// A chess move encoded compactly.
///
/// Encoding: from (6 bits) | to (6 bits) | flag (4 bits) = 16 bits.
#[derive(Debug, Clone, Copy, PartialEq, Eq, Hash, Structural)]
pub struct Move(pub u16);

/// The lower-case letter that marks a promotion in UCI notation.
pub open spec fn promotion_letter(flag: MoveFlag) -> Seq<char> {
    match flag.promoted() {
        Some(PieceKind::Knight) => seq!['n'],
        Some(PieceKind::Bishop) => seq!['b'],
        Some(PieceKind::Rook) => seq!['r'],
        Some(PieceKind::Queen) => seq!['q'],
        _ => seq![],
    }
}

/// The flag for the fifth character of a UCI move.
pub open spec fn uci_promotion(c: char) -> Option<MoveFlag> {
    if c == 'n' || c == 'N' {
        Some(MoveFlag::PromoteKnight)
    } else if c == 'b' || c == 'B' {
        Some(MoveFlag::PromoteBishop)
    } else if c == 'r' || c == 'R' {
        Some(MoveFlag::PromoteRook)
    } else if c == 'q' || c == 'Q' {
        Some(MoveFlag::PromoteQueen)
    } else {
        None
    }
}

/// The move with the given parts.
pub open spec fn mk_move(from: int, to: int, flag: MoveFlag) -> Move {
    Move((from + 64 * to + 4096 * flag.code()) as u16)
}

impl Move {
    /// Origin square.
    pub open spec fn src(self) -> int {
        self.0 as int % 64
    }

    /// Destination square.
    pub open spec fn dst(self) -> int {
        (self.0 as int / 64) % 64
    }

    /// Kind of move.
    pub open spec fn kind(self) -> MoveFlag {
        MoveFlag::of_code(self.0 as int / 4096)
    }

    /// The null move.
    pub fn null() -> (r: Move)
        ensures
            r.0 == 0,
    {
        Move(0)
    }

    pub fn new(from: Square, to: Square, flag: MoveFlag) -> (r: Self)
        requires
            from.ok(),
            to.ok(),
        ensures
            r == mk_move(from.0 as int, to.0 as int, flag),
            r.src() == from.0,
            r.dst() == to.0,
            r.kind() == flag,
    {
        let f: u16 = from.0 as u16;
        let t: u16 = to.0 as u16;
        let k: u16 = flag.bits();
        proof {
            assert(f < 64 && t < 64 && k < 16 ==> f | (t << 6) | (k << 12) == f + 64 * t + 4096 * k) by (bit_vector);
        }
        Move(f | (t << 6) | (k << 12))
    }

    pub fn from_sq(self) -> (r: Square)
        ensures
            r.0 == self.src(),
            r.ok(),
    {
        let n: u16 = self.0;
        proof {
            lemma_parts(n);
        }
        Square((n & 0x3F) as u8)
    }

    pub fn to_sq(self) -> (r: Square)
        ensures
            r.0 == self.dst(),
            r.ok(),
    {
        let n: u16 = self.0;
        proof {
            lemma_parts(n);
        }
        Square(((n >> 6) & 0x3F) as u8)
    }

    pub fn flag_bits(self) -> (r: u8)
        ensures
            r == self.0 as int / 4096,
            r < 16,
    {
        let n: u16 = self.0;
        proof {
            lemma_parts(n);
        }
        ((n >> 12) & 0xF) as u8
    }

    pub fn flag(self) -> (r: MoveFlag)
        ensures
            r == self.kind(),
    {
        match self.flag_bits() {
            0 => MoveFlag::Normal,
            1 => MoveFlag::DoublePawnPush,
            2 => MoveFlag::KingsideCastle,
            3 => MoveFlag::QueensideCastle,
            4 => MoveFlag::Capture,
            5 => MoveFlag::EnPassant,
            8 => MoveFlag::PromoteKnight,
            9 => MoveFlag::PromoteBishop,
            10 => MoveFlag::PromoteRook,
            11 => MoveFlag::PromoteQueen,
            12 => MoveFlag::PromoteCaptureKnight,
            13 => MoveFlag::PromoteCaptureBishop,
            14 => MoveFlag::PromoteCaptureRook,
            15 => MoveFlag::PromoteCaptureQueen,
            _ => MoveFlag::Normal,
        }
    }

    pub fn is_capture(self) -> (r: bool)
        ensures
            r == self.kind().captures(),
    {
        self.flag().is_capture()
    }

    pub fn is_promotion(self) -> (r: bool)
        ensures
            r == self.kind().promotes(),
    {
        self.flag().is_promotion()
    }

    pub fn is_null(self) -> (r: bool)
        ensures
            r == (self.0 == 0),
    {
        self.0 == 0
    }

    /// The move that a UCI text denotes: two square names, and for a promotion
    /// the letter of the new piece.
    pub open spec fn of_uci(cs: Seq<char>) -> Option<Move> {
        if cs.len() != 4 && cs.len() != 5 {
            None
        } else {
            match (Square::of_name(cs.subrange(0, 2)), Square::of_name(cs.subrange(2, 4))) {
                (Some(from), Some(to)) => {
                    if cs.len() == 4 {
                        Some(mk_move(from.0 as int, to.0 as int, MoveFlag::Normal))
                    } else {
                        match uci_promotion(cs[4]) {
                            Some(flag) => Some(mk_move(from.0 as int, to.0 as int, flag)),
                            None => None,
                        }
                    }
                },
                _ => None,
            }
        }
    }

    /// Parse a UCI move string (e.g., "e2e4", "e7e8q").
    pub fn from_uci(s: &str) -> (r: Option<Self>)
        ensures
            r == Move::of_uci(s@),
    {
        let cs = chars_of(s);
        if cs.len() != 4 && cs.len() != 5 {
            return None;
        }
        proof {
            assert(s@.subrange(0, 2) =~= seq![cs@[0], cs@[1]]);
            assert(s@.subrange(2, 4) =~= seq![cs@[2], cs@[3]]);
        }
        let from = match Square::from_name(cs[0], cs[1]) {
            Some(sq) => sq,
            None => return None,
        };
        let to = match Square::from_name(cs[2], cs[3]) {
            Some(sq) => sq,
            None => return None,
        };
        let flag = if cs.len() == 5 {
            match cs[4] {
                'n' | 'N' => MoveFlag::PromoteKnight,
                'b' | 'B' => MoveFlag::PromoteBishop,
                'r' | 'R' => MoveFlag::PromoteRook,
                'q' | 'Q' => MoveFlag::PromoteQueen,
                _ => return None,
            }
        } else {
            MoveFlag::Normal
        };
        Some(Move::new(from, to, flag))
    }

    /// The UCI text of a move; the null move is written as four zeros.
    pub open spec fn uci(self) -> Seq<char> {
        if self.0 == 0 {
            seq!['0', '0', '0', '0']
        } else {
            square_name(self.src()) + square_name(self.dst()) + promotion_letter(self.kind())
        }
    }

    /// Convert to UCI string (e.g., "e2e4", "e7e8q", "0000" for null).
    pub fn to_uci(self) -> (r: String)
        ensures
            r@ == self.uci(),
    {
        let mut s = String::new();
        if self.is_null() {
            s.push('0');
            s.push('0');
            s.push('0');
            s.push('0');
            proof {
                assert(s@ =~= self.uci());
            }
            return s;
        }
        let from = self.from_sq();
        let to = self.to_sq();
        s.push(from.file_letter());
        s.push(from.rank_digit());
        s.push(to.file_letter());
        s.push(to.rank_digit());
        match self.flag().promotion_piece() {
            Some(PieceKind::Knight) => s.push('n'),
            Some(PieceKind::Bishop) => s.push('b'),
            Some(PieceKind::Rook) => s.push('r'),
            Some(PieceKind::Queen) => s.push('q'),
            _ => {}
        }
        proof {
            assert(s@ =~= self.uci());
        }
        s
    }
}

/// The bit fields of a move word, as arithmetic.
proof fn lemma_parts(n: u16)
    ensures
        n & 0x3F == n % 64,
        (n >> 6) & 0x3F == (n / 64) % 64,
        (n >> 12) & 0xF == n / 4096,
        n & 0x3F < 64,
        (n >> 6) & 0x3F < 64,
        (n >> 12) & 0xF < 16,
{
    assert(n & 0x3F == n % 64 && (n >> 6) & 0x3F == (n / 64) % 64 && (n >> 12) & 0xF == n / 4096 && n & 0x3F < 64 && (n
        >> 6) & 0x3F < 64 && (n >> 12) & 0xF < 16) by (bit_vector);
}

/// A move is determined by its three parts, for every flag in use.
pub proof fn law_move_parts_round_trip(from: Square, to: Square, flag: MoveFlag)
    requires
        from.ok(),
        to.ok(),
    ensures
        mk_move(from.0 as int, to.0 as int, flag).src() == from.0,
        mk_move(from.0 as int, to.0 as int, flag).dst() == to.0,
        mk_move(from.0 as int, to.0 as int, flag).kind() == flag,
{
}

/// A move's flag code in use is kept: the move is its parts put together.
pub proof fn law_move_from_parts(m: Move)
    requires
        m.0 as int / 4096 != 6,
        m.0 as int / 4096 != 7,
    ensures
        mk_move(m.src(), m.dst(), m.kind()) == m,
{
}

/// Reading back the UCI text of a move gives its squares and its promotion
/// piece; other flags are not written, so they come back as a normal move.
pub proof fn law_uci_round_trip(m: Move)
    requires
        m.0 != 0,
    ensures
        Move::of_uci(m.uci()) == Some(
            mk_move(
                m.src(),
                m.dst(),
                match m.kind().promoted() {
                    Some(PieceKind::Knight) => MoveFlag::PromoteKnight,
                    Some(PieceKind::Bishop) => MoveFlag::PromoteBishop,
                    Some(PieceKind::Rook) => MoveFlag::PromoteRook,
                    Some(PieceKind::Queen) => MoveFlag::PromoteQueen,
                    _ => MoveFlag::Normal,
                },
            ),
        ),
{
    let u = m.uci();
    assert(u.subrange(0, 2) =~= square_name(m.src()));
    assert(u.subrange(2, 4) =~= square_name(m.dst()));
    crate::types::law_square_name_round_trip(Square(m.src() as u8));
    crate::types::law_square_name_round_trip(Square(m.dst() as u8));
}

/// A list of moves.
#[derive(Debug)]
pub struct MoveList {
    moves: Vec<Move>,
}

impl View for MoveList {
    type V = Seq<Move>;

    closed spec fn view(&self) -> Seq<Move> {
        self.moves@
    }
}

impl Default for MoveList {
    fn default() -> (r: Self)
        ensures
            r@ == Seq::<Move>::empty(),
    {
        Self::new()
    }
}

impl MoveList {
    pub fn new() -> (r: Self)
        ensures
            r@ == Seq::<Move>::empty(),
    {
        Self { moves: Vec::new() }
    }

    pub fn push(&mut self, m: Move)
        ensures
            final(self)@ == old(self)@.push(m),
    {
        self.moves.push(m);
    }

    pub fn len(&self) -> (r: usize)
        ensures
            r == self@.len(),
    {
        self.moves.len()
    }

    pub fn is_empty(&self) -> (r: bool)
        ensures
            r == (self@.len() == 0),
    {
        self.moves.len() == 0
    }

    /// The move at a position of the list.
    pub fn get(&self, i: usize) -> (r: Move)
        requires
            i < self@.len(),
        ensures
            r == self@[i as int],
    {
        self.moves[i]
    }

    pub fn as_slice(&self) -> (r: &[Move])
        ensures
            r@ == self@,
    {
        self.moves.as_slice()
    }

    pub fn iter(&self) -> (r: std::slice::Iter<'_, Move>)
        ensures
            vstd::std_specs::iter::IteratorSpec::remaining(&r) == self@.as_ref(),
    {
        self.moves.as_slice().iter()
    }

    pub fn contains(&self, m: &Move) -> (r: bool)
        ensures
            r == self@.contains(*m),
    {
        let mut i: usize = 0;
        while i < self.moves.len()
            invariant
                i <= self.moves.len(),
                forall|j: int| 0 <= j < i ==> self@[j] != *m,
            decreases self.moves.len() - i,
        {
            if self.moves[i] == *m {
                proof {
                    assert(self@[i as int] == *m);
                }
                return true;
            }
            i = i + 1;
        }
        false
    }
}

/// The letters of promotions, read in either case and written in lower case: n, b,
/// r and q for knight, bishop, rook and queen. No other move has one.
pub proof fn law_promotion_letters(flag: MoveFlag)
    ensures
        flag == MoveFlag::PromoteKnight || flag == MoveFlag::PromoteCaptureKnight ==> promotion_letter(flag) == seq!['n']
            && flag.promoted() == Some(PieceKind::Knight),
        flag == MoveFlag::PromoteBishop || flag == MoveFlag::PromoteCaptureBishop ==> promotion_letter(flag) == seq!['b']
            && flag.promoted() == Some(PieceKind::Bishop),
        flag == MoveFlag::PromoteRook || flag == MoveFlag::PromoteCaptureRook ==> promotion_letter(flag) == seq!['r']
            && flag.promoted() == Some(PieceKind::Rook),
        flag == MoveFlag::PromoteQueen || flag == MoveFlag::PromoteCaptureQueen ==> promotion_letter(flag) == seq!['q']
            && flag.promoted() == Some(PieceKind::Queen),
        !flag.promotes() ==> promotion_letter(flag).len() == 0 && flag.promoted() is None,
        uci_promotion('n') == Some(MoveFlag::PromoteKnight) && uci_promotion('N') == Some(MoveFlag::PromoteKnight),
        uci_promotion('b') == Some(MoveFlag::PromoteBishop) && uci_promotion('B') == Some(MoveFlag::PromoteBishop),
        uci_promotion('r') == Some(MoveFlag::PromoteRook) && uci_promotion('R') == Some(MoveFlag::PromoteRook),
        uci_promotion('q') == Some(MoveFlag::PromoteQueen) && uci_promotion('Q') == Some(MoveFlag::PromoteQueen),
{
}

} // verus!
