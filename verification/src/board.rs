//! The state of a chess position, and making and unmaking moves on it.

use vstd::prelude::*;
use crate::moves::{Move, MoveFlag};
use crate::types::{color_at, kind_at, square_name, Bitboard, CastlingRights, Color, Piece, PieceKind, Square};
use crate::zobrist::{castling_key, ep_key, piece_key, side_key, xor_keys, zobrist_castling, zobrist_ep, zobrist_piece, zobrist_set, zobrist_side};

verus! {

/// The full state of a chess position.
pub struct Board {
    /// Bitboards for each piece type per color: pieces[color][piece_kind]
    pub pieces: [[Bitboard; 6]; 2],
    /// Mailbox board for O(1) piece lookup by square.
    pub mailbox: [Option<Piece>; 64],
    /// Occupancy bitboard per color.
    pub occupancy: [Bitboard; 2],
    /// Side to move.
    pub side_to_move: Color,
    /// Castling rights.
    pub castling: CastlingRights,
    /// Starting squares of the castling rooks: [WK, WQ, BK, BQ].
    /// Standard chess uses H1/A1/H8/A8. Chess960 stores the actual rook files.
    pub castle_rooks: [Square; 4],
    /// En passant target square (the square a pawn can capture to).
    pub en_passant: Option<Square>,
    /// Halfmove clock for the 50-move rule.
    pub halfmove_clock: u16,
    /// Fullmove number (starts at 1, incremented after Black moves).
    pub fullmove_number: u16,
    /// Zobrist hash for position identification.
    pub hash: u64,
    /// History of position hashes for repetition detection.
    pub position_history: Vec<u64>,
}

/// The mathematical content of a [`Board`].
pub struct Position {
    pub pieces: Seq<Seq<Bitboard>>,
    pub mailbox: Seq<Option<Piece>>,
    pub occupancy: Seq<Bitboard>,
    pub side: Color,
    pub castling: CastlingRights,
    pub rooks: Seq<Square>,
    pub ep: Option<Square>,
    pub halfmove: u16,
    pub fullmove: u16,
    pub hash: u64,
    pub history: Seq<u64>,
}

impl View for Board {
    type V = Position;

    open spec fn view(&self) -> Position {
        Position {
            pieces: Seq::new(2, |c: int| self.pieces@[c]@),
            mailbox: self.mailbox@,
            occupancy: self.occupancy@,
            side: self.side_to_move,
            castling: self.castling,
            rooks: self.castle_rooks@,
            ep: self.en_passant,
            halfmove: self.halfmove_clock,
            fullmove: self.fullmove_number,
            hash: self.hash,
            history: self.position_history@,
        }
    }
}

/// Index of a castling rook: [WK, WQ, BK, BQ].
pub open spec fn rook_index(color: Color, kingside: bool) -> int {
    color.idx() * 2 + if kingside { 0int } else { 1 }
}

/// The rank on which a side castles.
pub open spec fn home_rank(color: Color) -> int {
    match color {
        Color::White => 0,
        Color::Black => 7,
    }
}

/// Where the king lands when castling.
pub open spec fn king_target(color: Color, kingside: bool) -> int {
    home_rank(color) * 8 + if kingside { 6int } else { 2 }
}

/// Where the rook lands when castling.
pub open spec fn rook_target(color: Color, kingside: bool) -> int {
    home_rank(color) * 8 + if kingside { 5int } else { 3 }
}

/// A set with one more square.
pub open spec fn with_square(b: Bitboard, sq: int) -> Bitboard {
    Bitboard(b.0 | (1u64 << (sq as u64)))
}

/// A set with one square less.
pub open spec fn without_square(b: Bitboard, sq: int) -> Bitboard {
    Bitboard(b.0 & !(1u64 << (sq as u64)))
}

/// The square behind an en-passant target, where the captured pawn stands:
/// one rank towards the mover. None where the board ends.
pub open spec fn ep_victim(us: Color, to: int) -> Option<int> {
    match us {
        Color::White => if to / 8 > 0 { Some(to - 8) } else { None },
        Color::Black => if to / 8 < 7 { Some(to + 8) } else { None },
    }
}

/// The square passed over by a double pawn push. None where the board ends.
pub open spec fn push_target(us: Color, from: int) -> Option<Square> {
    match us {
        Color::White => if from / 8 < 7 { Some(Square((from + 8) as u8)) } else { None },
        Color::Black => if from / 8 > 0 { Some(Square((from - 8) as u8)) } else { None },
    }
}

/// Exclusive or of the keys of the first `n` of the twelve piece sets.
pub open spec fn placement_hash(pieces: Seq<Seq<Bitboard>>, n: int) -> u64
    decreases n,
{
    if n <= 0 {
        0
    } else {
        placement_hash(pieces, n - 1) ^ xor_keys(
            (n - 1) / 6,
            (n - 1) % 6,
            pieces[(n - 1) / 6][(n - 1) % 6].0,
            64,
        )
    }
}

/// The castling rights left after a move: a king move loses both of its
/// side's rights, and a move from or to a rook's origin loses that rook's.
pub open spec fn rights_after(p: Position, from: int, to: int, king_moved: bool, us: Color) -> CastlingRights {
    let r0 = if king_moved {
        match us {
            Color::White => CastlingRights(p.castling.0 & !3u8),
            Color::Black => CastlingRights(p.castling.0 & !12u8),
        }
    } else {
        p.castling
    };
    let r1 = if from == p.rooks[1].0 || to == p.rooks[1].0 { CastlingRights(r0.0 & !2u8) } else { r0 };
    let r2 = if from == p.rooks[0].0 || to == p.rooks[0].0 { CastlingRights(r1.0 & !1u8) } else { r1 };
    let r3 = if from == p.rooks[3].0 || to == p.rooks[3].0 { CastlingRights(r2.0 & !8u8) } else { r2 };
    if from == p.rooks[2].0 || to == p.rooks[2].0 { CastlingRights(r3.0 & !4u8) } else { r3 }
}

impl Position {
    /// The shapes of the tables, and values that index other tables.
    pub open spec fn shaped(self) -> bool {
        &&& self.pieces.len() == 2
        &&& self.pieces[0].len() == 6
        &&& self.pieces[1].len() == 6
        &&& self.mailbox.len() == 64
        &&& self.occupancy.len() == 2
        &&& self.rooks.len() == 4
        &&& self.castling.ok()
        &&& self.ep is Some ==> self.ep->Some_0.ok()
        &&& forall|i: int| 0 <= i < 4 ==> (#[trigger] self.rooks[i]).ok()
    }

    /// The three piece tables agree: a bit is set in a piece set exactly when
    /// the mailbox holds that piece, and in an occupancy exactly when it holds
    /// a piece of that color.
    pub open spec fn consistent(self) -> bool {
        &&& self.shaped()
        &&& forall|c: int, k: int, i: int|
            0 <= c < 2 && 0 <= k < 6 && 0 <= i < 64 ==> (#[trigger] self.pieces[c][k].has(i) <==> self.mailbox[i]
                == Some(Piece { kind: kind_at(k), color: color_at(c) }))
        &&& forall|c: int, i: int|
            0 <= c < 2 && 0 <= i < 64 ==> (#[trigger] self.occupancy[c].has(i) <==> (self.mailbox[i] is Some
                && self.mailbox[i]->Some_0.color == color_at(c)))
    }

    /// One set of pieces.
    pub open spec fn set_of(self, c: Color, k: PieceKind) -> Bitboard {
        self.pieces[c.idx()][k.idx()]
    }

    /// The position with a piece put on a square.
    pub open spec fn put(self, sq: int, piece: Piece) -> Position {
        let c = piece.color.idx();
        let k = piece.kind.idx();
        Position {
            pieces: self.pieces.update(c, self.pieces[c].update(k, with_square(self.pieces[c][k], sq))),
            occupancy: self.occupancy.update(c, with_square(self.occupancy[c], sq)),
            mailbox: self.mailbox.update(sq, Some(piece)),
            ..self
        }
    }

    /// The position with a piece taken off a square.
    pub open spec fn take(self, sq: int, piece: Piece) -> Position {
        let c = piece.color.idx();
        let k = piece.kind.idx();
        Position {
            pieces: self.pieces.update(c, self.pieces[c].update(k, without_square(self.pieces[c][k], sq))),
            occupancy: self.occupancy.update(c, without_square(self.occupancy[c], sq)),
            mailbox: self.mailbox.update(sq, None),
            ..self
        }
    }

    /// The Zobrist hash of the position, from scratch.
    pub open spec fn full_hash(self) -> u64 {
        let h = placement_hash(self.pieces, 12) ^ castling_key(self.castling.0 as int);
        let h2 = match self.ep {
            Some(sq) => h ^ ep_key(sq.0 as int % 8),
            None => h,
        };
        if self.side == Color::Black { h2 ^ side_key() } else { h2 }
    }

    /// The piece that a move captures, found before the move is made.
    pub open spec fn captured_by(self, m: Move) -> Option<Piece> {
        if m.kind() == MoveFlag::EnPassant {
            if ep_victim(self.side, m.dst()) is Some {
                Some(Piece { kind: PieceKind::Pawn, color: self.side.other() })
            } else {
                None
            }
        } else if m.kind().captures() {
            self.mailbox[m.dst()]
        } else {
            None
        }
    }

    /// The tables once captured pieces are off the board. Castling leaves its
    /// target alone; any other move clears it.
    pub open spec fn cleared_for(self, m: Move) -> Position {
        let p1 = if m.kind() == MoveFlag::EnPassant {
            match ep_victim(self.side, m.dst()) {
                Some(sq) => self.take(sq, Piece { kind: PieceKind::Pawn, color: self.side.other() }),
                None => self,
            }
        } else {
            self
        };
        if m.kind().castles() {
            p1
        } else {
            match p1.mailbox[m.dst()] {
                Some(piece) => p1.take(m.dst(), piece),
                None => p1,
            }
        }
    }

    /// The tables once the moving piece, or king and rook, have moved.
    pub open spec fn relocated(self, m: Move, mover: Piece) -> Position {
        let us = self.side;
        let from = m.src();
        let to = m.dst();
        if m.kind().castles() {
            let kingside = m.kind() == MoveFlag::KingsideCastle;
            let rook_from = self.rooks[rook_index(us, kingside)].0 as int;
            let rook_to = rook_target(us, kingside);
            let rook = Piece { kind: PieceKind::Rook, color: us };
            let p1 = self.take(from, mover);
            let p2 = if rook_from != from { p1.take(rook_from, rook) } else { p1 };
            let p3 = p2.put(to, mover);
            if rook_to != to { p3.put(rook_to, rook) } else { p3 }
        } else {
            match m.kind().promoted() {
                Some(kind) => self.take(from, mover).put(to, Piece { kind, color: us }),
                None => self.take(from, mover).put(to, mover),
            }
        }
    }

    /// The hash after a move: the keys of everything that changed.
    pub open spec fn hash_after(self, m: Move, mover: Piece, ep: Option<Square>, castling: CastlingRights) -> u64 {
        let us = self.side.idx();
        let them = self.side.other().idx();
        let placed = match m.kind().promoted() {
            Some(kind) => kind,
            None => mover.kind,
        };
        let h1 = self.hash ^ piece_key(us, mover.kind.idx(), m.src());
        let h2 = h1 ^ piece_key(us, placed.idx(), m.dst());
        let h3 = match self.captured_by(m) {
            Some(cap) => if m.kind() == MoveFlag::EnPassant {
                h2 ^ piece_key(them, 0, ep_victim(self.side, m.dst())->Some_0)
            } else {
                h2 ^ piece_key(them, cap.kind.idx(), m.dst())
            },
            None => h2,
        };
        let h4 = if m.kind().castles() {
            let kingside = m.kind() == MoveFlag::KingsideCastle;
            let rook_from = self.rooks[rook_index(self.side, kingside)].0 as int;
            let rook_to = rook_target(self.side, kingside);
            if rook_from != rook_to { (h3 ^ piece_key(us, 3, rook_from)) ^ piece_key(us, 3, rook_to) } else { h3 }
        } else {
            h3
        };
        let h5 = match self.ep {
            Some(sq) => h4 ^ ep_key(sq.0 as int % 8),
            None => h4,
        };
        let h6 = match ep {
            Some(sq) => h5 ^ ep_key(sq.0 as int % 8),
            None => h5,
        };
        ((h6 ^ castling_key(self.castling.0 as int)) ^ castling_key(castling.0 as int)) ^ side_key()
    }

    /// The position after a move. Without a piece on the origin square nothing
    /// happens.
    pub open spec fn after(self, m: Move) -> Position {
        match self.mailbox[m.src()] {
            None => self,
            Some(mover) => {
                let us = self.side;
                let moved = self.cleared_for(m).relocated(m, mover);
                let ep = if m.kind() == MoveFlag::DoublePawnPush { push_target(us, m.src()) } else { None };
                let castling = rights_after(self, m.src(), m.dst(), mover.kind == PieceKind::King, us);
                Position {
                    ep,
                    castling,
                    halfmove: if mover.kind == PieceKind::Pawn || self.captured_by(m) is Some {
                        0
                    } else {
                        (self.halfmove + 1) as u16
                    },
                    fullmove: if us == Color::Black { (self.fullmove + 1) as u16 } else { self.fullmove },
                    side: us.other(),
                    hash: self.hash_after(m, mover, ep, castling),
                    history: self.history.push(self.hash),
                    ..moved
                }
            },
        }
    }

    /// Whether the move counters have room for the move.
    pub open spec fn has_clock_room(self, m: Move) -> bool {
        match self.mailbox[m.src()] {
            None => true,
            Some(mover) => {
                &&& mover.kind != PieceKind::Pawn && self.captured_by(m) is None ==> self.halfmove < u16::MAX
                &&& self.side == Color::Black ==> self.fullmove < u16::MAX
            },
        }
    }

    /// The position after a move is taken back.
    pub open spec fn before(
        self,
        m: Move,
        captured: Option<Piece>,
        castling: CastlingRights,
        ep: Option<Square>,
        halfmove: u16,
    ) -> Position {
        let us = self.side.other();
        let from = m.src();
        let to = m.dst();
        let back = Position { side: us, castling, ep, halfmove, ..self };
        let fullmove = if us == Color::Black { (self.fullmove - 1) as u16 } else { self.fullmove };
        let hash = if self.history.len() > 0 { self.history.last() } else { 0 };
        let history = if self.history.len() > 0 { self.history.drop_last() } else { self.history };
        if m.kind().castles() {
            let kingside = m.kind() == MoveFlag::KingsideCastle;
            let rook_from = self.rooks[rook_index(us, kingside)].0 as int;
            let rook_to = rook_target(us, kingside);
            let rook = Piece { kind: PieceKind::Rook, color: us };
            let king = Piece { kind: PieceKind::King, color: us };
            let p1 = back.take(to, king);
            let p2 = if rook_to != to { p1.take(rook_to, rook) } else { p1 };
            let p3 = p2.put(from, king);
            let p4 = if rook_from != from { p3.put(rook_from, rook) } else { p3 };
            Position { fullmove, hash, history, ..p4 }
        } else if !m.kind().promotes() && self.mailbox[to] is None {
            Position { hash, history, ..back }
        } else {
            let kind = if m.kind().promotes() { PieceKind::Pawn } else { self.mailbox[to]->Some_0.kind };
            let on_board = match m.kind().promoted() {
                Some(k) => k,
                None => kind,
            };
            let p1 = back.take(to, Piece { kind: on_board, color: us });
            let p2 = p1.put(from, Piece { kind, color: us });
            let p3 = if m.kind() == MoveFlag::EnPassant {
                match ep_victim(us, to) {
                    Some(sq) => p2.put(sq, Piece { kind: PieceKind::Pawn, color: us.other() }),
                    None => p2,
                }
            } else {
                match captured {
                    Some(cap) => p2.put(to, cap),
                    None => p2,
                }
            };
            Position { fullmove, hash, history, ..p3 }
        }
    }

    /// Moving pieces about changes the piece tables only.
    pub proof fn lemma_moving_keeps(self, m: Move, mover: Piece)
        ensures
            self.cleared_for(m).relocated(m, mover) == (Position {
                pieces: self.cleared_for(m).relocated(m, mover).pieces,
                mailbox: self.cleared_for(m).relocated(m, mover).mailbox,
                occupancy: self.cleared_for(m).relocated(m, mover).occupancy,
                ..self
            }),
            self.cleared_for(m).side == self.side,
            self.cleared_for(m).rooks == self.rooks,
    {
    }

    /// Where the king of a color stands; the corner a1 stands in for a king
    /// that is missing.
    pub open spec fn king_at(self, c: Color) -> int {
        if self.set_of(c, PieceKind::King).0 == 0 {
            0
        } else {
            self.set_of(c, PieceKind::King).members()[0]
        }
    }

    /// Occupied squares.
    pub open spec fn occupied(self) -> Bitboard {
        Bitboard(self.occupancy[0].0 | self.occupancy[1].0)
    }
}

impl Clone for Board {
    fn clone(&self) -> (r: Self)
        ensures
            r@ == self@,
    {
        let r = Board {
            pieces: self.pieces,
            mailbox: self.mailbox,
            occupancy: self.occupancy,
            side_to_move: self.side_to_move,
            castling: self.castling,
            castle_rooks: self.castle_rooks,
            en_passant: self.en_passant,
            halfmove_clock: self.halfmove_clock,
            fullmove_number: self.fullmove_number,
            hash: self.hash,
            position_history: self.position_history.clone(),
        };
        proof {
            assert(r.position_history@ =~= self.position_history@);
            assert(r@.pieces =~= self@.pieces);
        }
        r
    }
}

impl Board {
    /// The shapes that the types give, and values that index other tables.
    pub open spec fn ok(&self) -> bool {
        &&& self.castling.ok()
        &&& self.en_passant is Some ==> self.en_passant->Some_0.ok()
        &&& forall|i: int| 0 <= i < 4 ==> (#[trigger] self.castle_rooks@[i]).ok()
    }

    pub fn castle_rook_index(color: Color, kingside: bool) -> (r: usize)
        ensures
            r == rook_index(color, kingside),
            r < 4,
    {
        color.index() * 2 + if kingside { 0 } else { 1 }
    }

    pub fn castle_rook(&self, color: Color, kingside: bool) -> (r: Square)
        ensures
            r == self@.rooks[rook_index(color, kingside)],
    {
        self.castle_rooks[Self::castle_rook_index(color, kingside)]
    }

    pub fn king_castle_to(color: Color, kingside: bool) -> (r: Square)
        ensures
            r.0 == king_target(color, kingside),
            r.ok(),
    {
        let rank: u8 = match color {
            Color::White => 0,
            Color::Black => 7,
        };
        Square::new(if kingside { 6 } else { 2 }, rank)
    }

    pub fn rook_castle_to(color: Color, kingside: bool) -> (r: Square)
        ensures
            r.0 == rook_target(color, kingside),
            r.ok(),
    {
        let rank: u8 = match color {
            Color::White => 0,
            Color::Black => 7,
        };
        Square::new(if kingside { 5 } else { 3 }, rank)
    }

    /// Get the piece at a given square.
    pub fn piece_at(&self, sq: Square) -> (r: Option<Piece>)
        requires
            sq.ok(),
        ensures
            r == self@.mailbox[sq.0 as int],
    {
        self.mailbox[sq.index()]
    }

    /// Combined occupancy of both sides.
    pub fn all_occupancy(&self) -> (r: Bitboard)
        ensures
            r == self@.occupied(),
    {
        self.occupancy[0] | self.occupancy[1]
    }

    /// One set of pieces.
    pub fn set_of(&self, color: Color, kind: PieceKind) -> (r: Bitboard)
        ensures
            r == self@.set_of(color, kind),
    {
        self.pieces[color.index()][kind.index()]
    }

    /// Set a piece on the board.
    pub fn set_piece(&mut self, sq: Square, piece: Piece)
        requires
            sq.ok(),
        ensures
            final(self)@ == old(self)@.put(sq.0 as int, piece),
            final(self).ok() == old(self).ok(),
    {
        let ci = piece.color.index();
        let ki = piece.kind.index();
        let ghost before = self@;
        self.pieces[ci][ki] = self.pieces[ci][ki].set(sq);
        self.occupancy[ci] = self.occupancy[ci].set(sq);
        self.mailbox[sq.index()] = Some(piece);
        proof {
            assert(self@.pieces =~= before.put(sq.0 as int, piece).pieces);
            assert(self@.occupancy =~= before.put(sq.0 as int, piece).occupancy);
            assert(self@.mailbox =~= before.put(sq.0 as int, piece).mailbox);
        }
    }

    /// Remove a piece from the board.
    pub fn remove_piece(&mut self, sq: Square, piece: Piece)
        requires
            sq.ok(),
        ensures
            final(self)@ == old(self)@.take(sq.0 as int, piece),
            final(self).ok() == old(self).ok(),
    {
        let ci = piece.color.index();
        let ki = piece.kind.index();
        let ghost before = self@;
        self.pieces[ci][ki] = self.pieces[ci][ki].clear(sq);
        self.occupancy[ci] = self.occupancy[ci].clear(sq);
        self.mailbox[sq.index()] = None;
        proof {
            assert(self@.pieces =~= before.take(sq.0 as int, piece).pieces);
            assert(self@.occupancy =~= before.take(sq.0 as int, piece).occupancy);
            assert(self@.mailbox =~= before.take(sq.0 as int, piece).mailbox);
        }
    }

    /// The castling rights left after a move.
    fn update_castling_rights(&self, from: Square, to: Square, moved_king: bool, us: Color) -> (r: CastlingRights)
        requires
            self.ok(),
        ensures
            r == rights_after(self@, from.0 as int, to.0 as int, moved_king, us),
            r.ok(),
    {
        let mut castling = self.castling;
        if moved_king {
            let flags: u8 = match us {
                Color::White => 3,
                Color::Black => 12,
            };
            castling = castling.remove(flags);
        }
        let wk = self.castle_rook(Color::White, true);
        let wq = self.castle_rook(Color::White, false);
        let bk = self.castle_rook(Color::Black, true);
        let bq = self.castle_rook(Color::Black, false);
        if from == wq || to == wq {
            castling = castling.remove(CastlingRights::WHITE_QUEENSIDE);
        }
        if from == wk || to == wk {
            castling = castling.remove(CastlingRights::WHITE_KINGSIDE);
        }
        if from == bq || to == bq {
            castling = castling.remove(CastlingRights::BLACK_QUEENSIDE);
        }
        if from == bk || to == bk {
            castling = castling.remove(CastlingRights::BLACK_KINGSIDE);
        }
        castling
    }

    /// The piece that a move captures.
    fn capture_of(&self, m: Move) -> (r: Option<Piece>)
        ensures
            r == self@.captured_by(m),
    {
        let flag = m.flag();
        let us = self.side_to_move;
        if flag == MoveFlag::EnPassant {
            // A stray move word may name a target on the mover's first rank,
            // behind which there is no square.
            match Self::ep_victim_square(us, m.to_sq()) {
                Some(_) => Some(Piece::new(PieceKind::Pawn, us.opposite())),
                None => None,
            }
        } else if flag.is_capture() {
            self.piece_at(m.to_sq())
        } else {
            None
        }
    }

    /// Takes captured pieces off the board.
    fn clear_for(&mut self, m: Move)
        requires
            old(self).ok(),
        ensures
            final(self)@ == old(self)@.cleared_for(m),
            final(self).ok(),
    {
        let to = m.to_sq();
        let flag = m.flag();
        let us = self.side_to_move;
        if flag == MoveFlag::EnPassant {
            if let Some(sq) = Self::ep_victim_square(us, to) {
                self.remove_piece(sq, Piece::new(PieceKind::Pawn, us.opposite()));
            }
        }
        // A stray move word may be quiet and still name an occupied target.
        // Castling is left alone: its target may hold the castling rook.
        if flag != MoveFlag::KingsideCastle && flag != MoveFlag::QueensideCastle {
            if let Some(piece) = self.piece_at(to) {
                self.remove_piece(to, piece);
            }
        }
    }

    /// Moves the piece, or king and rook.
    fn relocate(&mut self, m: Move, mover: Piece)
        requires
            old(self).ok(),
        ensures
            final(self)@ == old(self)@.relocated(m, mover),
            final(self).ok(),
    {
        let from = m.from_sq();
        let to = m.to_sq();
        let flag = m.flag();
        let us = self.side_to_move;
        // Castling moves king and rook as a unit, so that they can occupy each
        // other's squares.
        if flag == MoveFlag::KingsideCastle || flag == MoveFlag::QueensideCastle {
            let kingside = flag == MoveFlag::KingsideCastle;
            let rook_from = self.castle_rook(us, kingside);
            let rook_to = Self::rook_castle_to(us, kingside);
            let rook = Piece::new(PieceKind::Rook, us);
            self.remove_piece(from, mover);
            if rook_from != from {
                self.remove_piece(rook_from, rook);
            }
            self.set_piece(to, mover);
            if rook_to != to {
                self.set_piece(rook_to, rook);
            }
        } else {
            self.remove_piece(from, mover);
            match flag.promotion_piece() {
                Some(kind) => self.set_piece(to, Piece::new(kind, us)),
                None => self.set_piece(to, mover),
            }
        }
    }

    /// The hash after a move, from the keys of everything that changes.
    fn hash_after_move(
        &self,
        m: Move,
        mover: Piece,
        captured: Option<Piece>,
        ep: Option<Square>,
        castling: CastlingRights,
    ) -> (r: u64)
        requires
            self.ok(),
            castling.ok(),
            captured == self@.captured_by(m),
        ensures
            r == self@.hash_after(m, mover, ep, castling),
    {
        let from = m.from_sq();
        let to = m.to_sq();
        let flag = m.flag();
        let us = self.side_to_move;
        let them = us.opposite();
        let placed_kind = match flag.promotion_piece() {
            Some(kind) => kind,
            None => mover.kind,
        };
        let mut hash: u64 = self.hash;
        // The moving piece leaves its square and arrives at the other.
        hash = hash ^ zobrist_piece(us, mover.kind, from);
        hash = hash ^ zobrist_piece(us, placed_kind, to);
        if let Some(cap) = captured {
            if flag == MoveFlag::EnPassant {
                if let Some(sq) = Self::ep_victim_square(us, to) {
                    hash = hash ^ zobrist_piece(them, PieceKind::Pawn, sq);
                }
            } else {
                hash = hash ^ zobrist_piece(them, cap.kind, to);
            }
        }
        if flag == MoveFlag::KingsideCastle || flag == MoveFlag::QueensideCastle {
            let kingside = flag == MoveFlag::KingsideCastle;
            let rook_from = self.castle_rook(us, kingside);
            let rook_to = Self::rook_castle_to(us, kingside);
            if rook_from != rook_to {
                hash = hash ^ zobrist_piece(us, PieceKind::Rook, rook_from);
                hash = hash ^ zobrist_piece(us, PieceKind::Rook, rook_to);
            }
        }
        if let Some(sq) = self.en_passant {
            hash = hash ^ zobrist_ep(sq.file());
        }
        if let Some(sq) = ep {
            hash = hash ^ zobrist_ep(sq.file());
        }
        hash = hash ^ zobrist_castling(self.castling.0);
        hash = hash ^ zobrist_castling(castling.0);
        hash ^ zobrist_side()
    }

    /// Make a move on the board, returning the captured piece (if any).
    pub fn make_move(&mut self, m: Move) -> (r: Option<Piece>)
        requires
            old(self).ok(),
            old(self)@.has_clock_room(m),
        ensures
            final(self)@ == old(self)@.after(m),
            final(self).ok(),
            r == (if old(self)@.mailbox[m.src()] is Some { old(self)@.captured_by(m) } else { None }),
    {
        let ghost p0 = self@;
        let from = m.from_sq();
        let us = self.side_to_move;
        let mover = match self.piece_at(from) {
            Some(p) => p,
            None => {
                return None;
            },
        };
        let captured = self.capture_of(m);
        let en_passant = if m.flag() == MoveFlag::DoublePawnPush {
            Self::passed_square(us, from)
        } else {
            None
        };
        let castling = self.update_castling_rights(from, m.to_sq(), mover.kind == PieceKind::King, us);
        let hash: u64 = self.hash_after_move(m, mover, captured, en_passant, castling);
        // Saved for repetition detection.
        let old_hash: u64 = self.hash;
        proof {
            p0.lemma_moving_keeps(m, mover);
        }
        self.clear_for(m);
        self.relocate(m, mover);
        let ghost p1 = self@;
        self.position_history.push(old_hash);
        self.en_passant = en_passant;
        self.castling = castling;
        if mover.kind == PieceKind::Pawn || captured.is_some() {
            self.halfmove_clock = 0;
        } else {
            self.halfmove_clock = self.halfmove_clock + 1;
        }
        if us == Color::Black {
            self.fullmove_number = self.fullmove_number + 1;
        }
        self.side_to_move = us.opposite();
        self.hash = hash;
        proof {
            assert(self@.pieces =~= p1.pieces);
        }
        captured
    }

    pub fn ep_victim_square(us: Color, to: Square) -> (r: Option<Square>)
        requires
            to.ok(),
        ensures
            r is Some <==> ep_victim(us, to.0 as int) is Some,
            r is Some ==> r->Some_0.ok() && r->Some_0.0 == ep_victim(us, to.0 as int)->Some_0,
    {
        match us {
            Color::White => if to.rank() > 0 {
                Some(Square::new(to.file(), to.rank() - 1))
            } else {
                None
            },
            Color::Black => if to.rank() < 7 {
                Some(Square::new(to.file(), to.rank() + 1))
            } else {
                None
            },
        }
    }

    fn passed_square(us: Color, from: Square) -> (r: Option<Square>)
        requires
            from.ok(),
        ensures
            r == push_target(us, from.0 as int),
            r is Some ==> r->Some_0.ok(),
    {
        match us {
            Color::White => if from.rank() < 7 {
                Some(Square::new(from.file(), from.rank() + 1))
            } else {
                None
            },
            Color::Black => if from.rank() > 0 {
                Some(Square::new(from.file(), from.rank() - 1))
            } else {
                None
            },
        }
    }

    /// Unmake a move (requires the captured piece info).
    pub fn unmake_move(
        &mut self,
        m: Move,
        captured: Option<Piece>,
        prev_castling: CastlingRights,
        prev_en_passant: Option<Square>,
        prev_halfmove: u16,
    )
        requires
            old(self).ok(),
            prev_castling.ok(),
            prev_en_passant is Some ==> prev_en_passant->Some_0.ok(),
            old(self)@.side == Color::White ==> old(self)@.fullmove > 0,
        ensures
            final(self)@ == old(self)@.before(m, captured, prev_castling, prev_en_passant, prev_halfmove),
            final(self).ok(),
    {
        let ghost p0 = self@;
        let from = m.from_sq();
        let to = m.to_sq();
        let flag = m.flag();

        self.side_to_move = self.side_to_move.opposite();
        let us = self.side_to_move;
        let them = us.opposite();

        self.castling = prev_castling;
        self.en_passant = prev_en_passant;
        self.halfmove_clock = prev_halfmove;
        if us == Color::Black {
            self.fullmove_number = self.fullmove_number - 1;
        }
        proof {
            assert(self@.pieces =~= p0.pieces);
        }
        let is_castle = flag == MoveFlag::KingsideCastle || flag == MoveFlag::QueensideCastle;

        if is_castle {
            let kingside = flag == MoveFlag::KingsideCastle;
            let rook_from = self.castle_rook(us, kingside);
            let rook_to = Self::rook_castle_to(us, kingside);
            let rook = Piece::new(PieceKind::Rook, us);
            let king = Piece::new(PieceKind::King, us);
            self.remove_piece(to, king);
            if rook_to != to {
                self.remove_piece(rook_to, rook);
            }
            self.set_piece(from, king);
            if rook_from != from {
                self.set_piece(rook_from, rook);
            }
        } else {
            let moved_piece_kind = if flag.is_promotion() {
                // The promoted piece was a pawn.
                PieceKind::Pawn
            } else {
                match self.piece_at(to) {
                    Some(p) => p.kind,
                    None => {
                        // Nothing to take back: restore the state only.
                        if us == Color::Black {
                            self.fullmove_number = self.fullmove_number + 1;
                        }
                        let ghost p1 = self@;
                        self.hash = self.position_history.pop().unwrap_or(0);
                        proof {
                            assert(self@.pieces =~= p0.pieces);
                            assert(self@ =~= p0.before(m, captured, prev_castling, prev_en_passant, prev_halfmove));
                        }
                        return ;
                    },
                }
            };
            match flag.promotion_piece() {
                Some(promo_kind) => {
                    self.remove_piece(to, Piece::new(promo_kind, us));
                },
                None => {
                    self.remove_piece(to, Piece::new(moved_piece_kind, us));
                },
            }
            self.set_piece(from, Piece::new(moved_piece_kind, us));
            if flag == MoveFlag::EnPassant {
                if let Some(sq) = Self::ep_victim_square(us, to) {
                    self.set_piece(sq, Piece::new(PieceKind::Pawn, them));
                }
            } else if let Some(cap) = captured {
                self.set_piece(to, cap);
            }
        }
        let ghost p1 = self@;
        // The snapshot saved when the move was made.
        self.hash = self.position_history.pop().unwrap_or(0);
        proof {
            assert(self@.pieces =~= p1.pieces);
            assert(self@ =~= p0.before(m, captured, prev_castling, prev_en_passant, prev_halfmove));
        }
    }

    /// Compute the Zobrist hash from scratch for this position.
    pub fn compute_hash(&self) -> (r: u64)
        requires
            self.ok(),
        ensures
            r == self@.full_hash(),
    {
        let mut h: u64 = 0;
        let mut n: usize = 0;
        while n < 12
            invariant
                n <= 12,
                h == placement_hash(self@.pieces, n as int),
            decreases 12 - n,
        {
            let color = if n < 6 { Color::White } else { Color::Black };
            let kind = PieceKind::ALL[n % 6];
            proof {
                assert(kind == kind_at(n as int % 6));
                assert(color == color_at(n as int / 6));
            }
            h = h ^ zobrist_set(color, kind, self.pieces[n / 6][n % 6]);
            n = n + 1;
        }
        h = h ^ zobrist_castling(self.castling.0);
        if let Some(ep) = self.en_passant {
            h = h ^ zobrist_ep(ep.file());
        }
        if self.side_to_move == Color::Black {
            h = h ^ zobrist_side();
        }
        h
    }

    /// Apply the incremental Zobrist update for a null move: the current
    /// en-passant file leaves the hash and the side to move flips.
    pub fn update_hash_for_null_move(&mut self)
        ensures
            final(self)@ == (Position {
                hash: (match old(self)@.ep {
                    Some(sq) => old(self)@.hash ^ ep_key(sq.0 as int % 8),
                    None => old(self)@.hash,
                }) ^ side_key(),
                ..old(self)@
            }),
            final(self).ok() == old(self).ok(),
    {
        let ghost p0 = self@;
        if let Some(ep) = self.en_passant {
            self.hash = self.hash ^ zobrist_ep(ep.file());
        }
        self.hash = self.hash ^ zobrist_side();
        proof {
            assert(self@.pieces =~= p0.pieces);
        }
    }

    /// Whether the position has occurred at least twice before.
    pub fn is_repetition(&self) -> (r: bool)
        ensures
            r == (exists|i: int, j: int|
                0 <= i < j < self@.history.len() && #[trigger] self@.history[i] == self@.hash && #[trigger] self@.history[j]
                    == self@.hash),
    {
        let target: u64 = self.hash;
        let mut found = false;
        let mut i: usize = self.position_history.len();
        let ghost mut at: int = 0;
        while i > 0
            invariant
                i <= self.position_history.len(),
                target == self@.hash,
                found ==> i <= at < self@.history.len() && self@.history[at] == target,
                !found ==> forall|j: int| i <= j < self@.history.len() ==> self@.history[j] != target,
                found ==> forall|j: int| i <= j < self@.history.len() && j != at ==> self@.history[j] != target,
            decreases i,
        {
            i = i - 1;
            if self.position_history[i] == target {
                if found {
                    proof {
                        assert(self@.history[i as int] == target && self@.history[at] == target);
                    }
                    return true;
                }
                found = true;
                proof {
                    at = i as int;
                }
            }
        }
        false
    }

    /// Whether one of the last `limit` history entries is the current hash.
    fn seen_in_last(&self, limit: usize) -> (r: bool)
        requires
            limit <= self@.history.len(),
        ensures
            r == (exists|i: int|
                self@.history.len() - limit <= i < self@.history.len() && #[trigger] self@.history[i] == self@.hash),
    {
        let len = self.position_history.len();
        let target: u64 = self.hash;
        let mut i: usize = 0;
        while i < limit
            invariant
                i <= limit <= len,
                len == self@.history.len(),
                target == self@.hash,
                forall|j: int| len - i <= j < len ==> self@.history[j] != target,
            decreases limit - i,
        {
            if self.position_history[len - 1 - i] == target {
                proof {
                    assert(self@.history[len - 1 - i] == target);
                }
                return true;
            }
            i = i + 1;
        }
        false
    }

    /// Whether the current position has occurred at least once before in the
    /// current search path, that is, at an index of at least `game_ply` in the
    /// history. Only entries since the last irreversible move can match.
    pub fn is_twofold_in_search(&self, game_ply: usize) -> (r: bool)
        ensures
            r == (exists|i: int|
                game_ply <= i < self@.history.len() && self@.history.len() - i <= self@.halfmove
                    && #[trigger] self@.history[i] == self@.hash),
    {
        let len = self.position_history.len();
        if len <= game_ply {
            return false;
        }
        let search_len: usize = len - game_ply;
        let half: usize = self.halfmove_clock as usize;
        let limit: usize = if half < search_len { half } else { search_len };
        self.seen_in_last(limit)
    }

    /// Whether the position has occurred at least once before, among the last
    /// `halfmove_clock` history entries and the last `game_ply` ones.
    pub fn has_repeated(&self, game_ply: usize) -> (r: bool)
        ensures
            r == (exists|i: int|
                0 <= i < self@.history.len() && self@.history.len() - i <= self@.halfmove && self@.history.len() - i
                    <= game_ply && #[trigger] self@.history[i] == self@.hash),
    {
        let len = self.position_history.len();
        let half: usize = self.halfmove_clock as usize;
        let a: usize = if half < len { half } else { len };
        let limit: usize = if a < game_ply { a } else { game_ply };
        self.seen_in_last(limit)
    }

    /// Returns the king square for the given color; a1 where there is no king.
    pub fn king_square(&self, color: Color) -> (r: Square)
        ensures
            r.ok(),
            r.0 == self@.king_at(color),
    {
        match self.set_of(color, PieceKind::King).lsb() {
            Some(sq) => sq,
            None => Square(0),
        }
    }

    /// The UCI text of a move. In Chess960, castling is king-takes-own-rook.
    pub open spec fn uci_text(p: Position, m: Move, chess960: bool) -> Seq<char> {
        if chess960 && m.kind().castles() {
            let color = if m.src() / 8 == 0 { Color::White } else { Color::Black };
            let rook = p.rooks[rook_index(color, m.kind() == MoveFlag::KingsideCastle)];
            square_name(m.src()) + square_name(rook.0 as int)
        } else {
            m.uci()
        }
    }

    /// Convert a move to UCI. In Chess960, castling is king-takes-own-rook.
    pub fn move_to_uci(&self, m: Move, chess960: bool) -> (r: String)
        requires
            self.ok(),
        ensures
            r@ == Board::uci_text(self@, m, chess960),
    {
        if chess960 {
            let flag = m.flag();
            if flag == MoveFlag::KingsideCastle || flag == MoveFlag::QueensideCastle {
                let color = if m.from_sq().rank() == 0 { Color::White } else { Color::Black };
                let rook = self.castle_rook(color, flag == MoveFlag::KingsideCastle);
                let from = m.from_sq();
                let mut s = String::new();
                s.push(from.file_letter());
                s.push(from.rank_digit());
                s.push(rook.file_letter());
                s.push(rook.rank_digit());
                proof {
                    assert(s@ =~= Board::uci_text(self@, m, chess960));
                }
                return s;
            }
        }
        m.to_uci()
    }
}

} // verus!
