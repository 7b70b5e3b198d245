//! A position as a diagram.

use vstd::prelude::*;
use crate::board::{Board, Position};
use crate::fen::color_name;
use crate::text::{decimal, push_decimal};
use crate::types::{rights_text, square_name, Color, Piece, PieceKind, Square};

verus! {

/// The character of a square: the piece's letter, or a dot.
pub open spec fn square_char(sq: Option<Piece>) -> char {
    match sq {
        Some(piece) => piece.kind.letter(piece.color),
        None => '.',
    }
}

/// The first `n` squares of a rank, each with a space behind it.
pub open spec fn rank_squares(p: Position, rank: int, n: int) -> Seq<char>
    decreases n,
{
    if n <= 0 {
        Seq::empty()
    } else {
        rank_squares(p, rank, n - 1) + seq![square_char(p.mailbox[rank * 8 + n - 1]), ' ']
    }
}

/// One rank with its number.
pub open spec fn rank_line(p: Position, rank: int) -> Seq<char> {
    seq![' ', ' '] + decimal((rank + 1) as nat) + seq![' '] + rank_squares(p, rank, 8) + seq!['\n']
}

/// The ranks from the eighth down, `n` of them.
pub open spec fn rank_lines(p: Position, n: int) -> Seq<char>
    decreases n,
{
    if n <= 0 { Seq::empty() } else { rank_lines(p, n - 1) + rank_line(p, 8 - n) }
}

/// The en-passant target, or a dash.
pub open spec fn target_text(ep: Option<Square>) -> Seq<char> {
    match ep {
        Some(sq) => square_name(sq.0 as int),
        None => "-"@,
    }
}

/// The diagram of a position.
pub open spec fn diagram(p: Position) -> Seq<char> {
    seq!['\n'] + rank_lines(p, 8) + "    a b c d e f g h\n"@ + "  Side to move: "@ + color_name(p.side) + "\n  Castling: "@
        + rights_text(p.castling.0) + "\n  En passant: "@ + target_text(p.ep) + "\n  Halfmove clock: "@ + decimal(
        p.halfmove as nat,
    ) + "\n  Fullmove: "@ + decimal(p.fullmove as nat) + seq!['\n']
}

impl Board {
    /// The standard starting position.
    pub fn default() -> (r: Self)
        ensures
            r@ == crate::fen::start_position(),
            r.ok(),
    {
        Self::starting_position()
    }

    /// The position as a diagram, with its state below.
    pub fn to_text(&self) -> (r: String)
        requires
            self.ok(),
        ensures
            r@ == diagram(self@),
    {
        let ghost p = self@;
        let mut out = String::new();
        out.push('\n');
        let ghost start = out@;
        let mut n: u8 = 0;
        proof {
            assert(out@ =~= start + rank_lines(p, 0));
        }
        while n < 8
            invariant
                n <= 8,
                p == self@,
                out@ == start + rank_lines(p, n as int),
            decreases 8 - n,
        {
            let rank: u8 = 7 - n;
            let ghost before = out@;
            out.push(' ');
            out.push(' ');
            push_decimal(&mut out, rank as u64 + 1);
            out.push(' ');
            let ghost head = out@;
            let mut file: u8 = 0;
            proof {
                assert(out@ =~= head + rank_squares(p, rank as int, 0));
            }
            while file < 8
                invariant
                    file <= 8,
                    rank < 8,
                    p == self@,
                    out@ == head + rank_squares(p, rank as int, file as int),
                decreases 8 - file,
            {
                let c: char = match self.piece_at(Square(rank * 8 + file)) {
                    Some(piece) => piece.kind.to_char(piece.color),
                    None => '.',
                };
                out.push(c);
                out.push(' ');
                file = file + 1;
                proof {
                    assert(out@ =~= head + rank_squares(p, rank as int, file as int));
                }
            }
            out.push('\n');
            n = n + 1;
            proof {
                assert(out@ =~= start + rank_lines(p, n as int));
            }
        }
        let ghost board_text = out@;
        out.append("    a b c d e f g h\n");
        out.append("  Side to move: ");
        out.append(self.side_to_move.name());
        out.append("\n  Castling: ");
        out.append(self.castling.to_fen().as_str());
        out.append("\n  En passant: ");
        match self.en_passant {
            Some(sq) => out.append(sq.to_algebraic().as_str()),
            None => out.append("-"),
        }
        out.append("\n  Halfmove clock: ");
        push_decimal(&mut out, self.halfmove_clock as u64);
        out.append("\n  Fullmove: ");
        push_decimal(&mut out, self.fullmove_number as u64);
        out.push('\n');
        proof {
            assert(out@ =~= diagram(p));
        }
        out
    }
}

proof fn lemma_rank_squares(p: Position, rank: int, n: int)
    requires
        0 <= n <= 8,
    ensures
        rank_squares(p, rank, n).len() == 2 * n,
        forall|f: int| 0 <= f < n ==> rank_squares(p, rank, n)[2 * f] == #[trigger] square_char(p.mailbox[rank * 8 + f]),
    decreases n,
{
    if n > 0 {
        lemma_rank_squares(p, rank, n - 1);
    }
}

proof fn lemma_rank_lines(p: Position, n: int, k: int, f: int)
    requires
        0 <= n <= 8,
        0 <= f < 8,
    ensures
        rank_lines(p, n).len() == 21 * n,
        0 <= k < n ==> rank_lines(p, n)[21 * k + 4 + 2 * f] == square_char(p.mailbox[(7 - k) * 8 + f]),
    decreases n,
{
    if n > 0 {
        lemma_rank_lines(p, n - 1, k, f);
        lemma_rank_squares(p, 8 - n, 8);
        let d = decimal((9 - n) as nat);
        assert(d.len() == 1);
        let head = seq![' ', ' '] + d + seq![' '];
        assert(head.len() == 4);
        assert(rank_line(p, 8 - n) == head + rank_squares(p, 8 - n, 8) + seq!['\n']);
        assert(rank_line(p, 8 - n)[4 + 2 * f] == rank_squares(p, 8 - n, 8)[2 * f]);
        assert(square_char(p.mailbox[(8 - n) * 8 + f]) == rank_squares(p, 8 - n, 8)[2 * f]);
    }
}

/// The diagram shows the board from White's side: the eighth rank on top, the
/// a-file to the left, White's pieces in capitals, and a dot for an empty square.
pub proof fn law_the_diagram_shows_the_board(p: Position, rank: int, file: int)
    requires
        0 <= rank < 8,
        0 <= file < 8,
    ensures
        ({
            let c = diagram(p)[1 + 21 * (7 - rank) + 4 + 2 * file];
            match p.mailbox[rank * 8 + file] {
                None => c == '.',
                Some(Piece { kind: PieceKind::Pawn, color: Color::White }) => c == 'P',
                Some(Piece { kind: PieceKind::Knight, color: Color::White }) => c == 'N',
                Some(Piece { kind: PieceKind::Bishop, color: Color::White }) => c == 'B',
                Some(Piece { kind: PieceKind::Rook, color: Color::White }) => c == 'R',
                Some(Piece { kind: PieceKind::Queen, color: Color::White }) => c == 'Q',
                Some(Piece { kind: PieceKind::King, color: Color::White }) => c == 'K',
                Some(Piece { kind: PieceKind::Pawn, color: Color::Black }) => c == 'p',
                Some(Piece { kind: PieceKind::Knight, color: Color::Black }) => c == 'n',
                Some(Piece { kind: PieceKind::Bishop, color: Color::Black }) => c == 'b',
                Some(Piece { kind: PieceKind::Rook, color: Color::Black }) => c == 'r',
                Some(Piece { kind: PieceKind::Queen, color: Color::Black }) => c == 'q',
                Some(Piece { kind: PieceKind::King, color: Color::Black }) => c == 'k',
            }
        }),
{
    lemma_rank_lines(p, 8, 7 - rank, file);
    assert(diagram(p)[1 + 21 * (7 - rank) + 4 + 2 * file] == rank_lines(p, 8)[21 * (7 - rank) + 4 + 2 * file]);
}

} // verus!
