//! Endgame tablebases: which positions may be probed and with what, and what
//! the answers mean. The probe itself reads files and is made by the caller.

use vstd::prelude::*;
use crate::attacks::{bishop_attacks, bishop_hits, is_square, king_attacks, king_hits, knight_attacks, knight_hits, pawn_attacks, pawn_hits, queen_attacks, queen_hits, rook_attacks, rook_hits};
use crate::bits::{bit, group_bits};
use crate::board::{Board, Position};
use crate::movegen::{generate_legal_moves, legal_moves};
use crate::movegen_laws::lemma_set_is_mailbox;
use crate::moves::Move;
use crate::san::{first_where, lemma_first_where, lemma_first_where_finds};
use crate::types::{Bitboard, Color, PieceKind, Score, Square};

verus! {

/// Outcome of a position with best play, for the side to move. A cursed win
/// and a blessed loss are drawn by the fifty-move rule.
#[derive(Clone, Copy, PartialEq, Eq, Debug, Structural)]
pub enum Wdl {
    Loss,
    BlessedLoss,
    Draw,
    CursedWin,
    Win,
}

/// Score for a tablebase-proven win (below the mate scores, but well above
/// normal material values).
pub const TB_WIN_SCORE: i32 = 28_000;

/// Score for a tablebase-proven loss.
pub const TB_LOSS_SCORE: i32 = -28_000;

/// The attack functions that a prober needs. Squares off the board attack
/// nothing.
#[derive(Clone, Copy, Debug)]
pub struct ChessAdapter;

impl ChessAdapter {
    pub fn pawn_attacks(white: bool, square: u64) -> (r: u64)
        ensures
            forall|t: int| #[trigger]
                bit(r, t) == (square < 64 && is_square(t) && pawn_hits(
                    if white { Color::White } else { Color::Black },
                    square as int,
                    t,
                )),
    {
        broadcast use group_bits;
        if square >= 64 {
            return 0;
        }
        let color = if white { Color::White } else { Color::Black };
        pawn_attacks(Square(square as u8), color).0
    }

    pub fn knight_attacks(square: u64) -> (r: u64)
        ensures
            forall|t: int| #[trigger] bit(r, t) == (square < 64 && is_square(t) && knight_hits(square as int, t)),
    {
        broadcast use group_bits;
        if square >= 64 {
            return 0;
        }
        knight_attacks(Square(square as u8)).0
    }

    pub fn bishop_attacks(square: u64, occupied: u64) -> (r: u64)
        ensures
            forall|t: int| #[trigger] bit(r, t) == (square < 64 && bishop_hits(occupied, square as int, t)),
    {
        broadcast use group_bits;
        if square >= 64 {
            return 0;
        }
        bishop_attacks(Square(square as u8), Bitboard(occupied)).0
    }

    pub fn rook_attacks(square: u64, occupied: u64) -> (r: u64)
        ensures
            forall|t: int| #[trigger] bit(r, t) == (square < 64 && rook_hits(occupied, square as int, t)),
    {
        broadcast use group_bits;
        if square >= 64 {
            return 0;
        }
        rook_attacks(Square(square as u8), Bitboard(occupied)).0
    }

    pub fn queen_attacks(square: u64, occupied: u64) -> (r: u64)
        ensures
            forall|t: int| #[trigger] bit(r, t) == (square < 64 && queen_hits(occupied, square as int, t)),
    {
        broadcast use group_bits;
        if square >= 64 {
            return 0;
        }
        queen_attacks(Square(square as u8), Bitboard(occupied)).0
    }

    pub fn king_attacks(square: u64) -> (r: u64)
        ensures
            forall|t: int| #[trigger] bit(r, t) == (square < 64 && is_square(t) && king_hits(square as int, t)),
    {
        broadcast use group_bits;
        if square >= 64 {
            return 0;
        }
        king_attacks(Square(square as u8)).0
    }
}

/// The score of an outcome, for the side to move.
pub open spec fn wdl_score(wdl: Wdl) -> int {
    match wdl {
        Wdl::Win => 28_000,
        Wdl::CursedWin => 2,
        Wdl::Draw => 0,
        Wdl::BlessedLoss => -2,
        Wdl::Loss => -28_000,
    }
}

/// Convert a probe result to a centipawn score from the side-to-move's
/// perspective.
pub fn wdl_to_score(wdl: Wdl) -> (r: i32)
    ensures
        r == wdl_score(wdl),
{
    match wdl {
        Wdl::Win => TB_WIN_SCORE,
        Wdl::CursedWin => 2,
        Wdl::Draw => 0,
        Wdl::BlessedLoss => -2,
        Wdl::Loss => TB_LOSS_SCORE,
    }
}

/// Return whether a score is one of the discrete scores of an outcome.
pub fn is_wdl_score(score: i32) -> (r: bool)
    ensures
        r == (exists|w: Wdl| score == #[trigger] wdl_score(w)),
{
    let r = score == TB_LOSS_SCORE || score == -2 || score == 0 || score == 2 || score == TB_WIN_SCORE;
    proof {
        assert(wdl_score(Wdl::Win) == 28_000 && wdl_score(Wdl::CursedWin) == 2 && wdl_score(Wdl::Draw) == 0
            && wdl_score(Wdl::BlessedLoss) == -2 && wdl_score(Wdl::Loss) == -28_000);
    }
    r
}

/// Map the scores of outcomes to scores fit for display.
pub fn wdl_display_score(score: i32) -> (r: Option<i32>)
    ensures
        r == (if score == 28_000 {
            Some(3_000i32)
        } else if score == -28_000 {
            Some((-3_000) as i32)
        } else if score == 2 {
            Some(20i32)
        } else if score == -2 {
            Some((-20) as i32)
        } else if score == 0 {
            Some(0i32)
        } else {
            None
        }),
        r is Some <==> exists|w: Wdl| score == #[trigger] wdl_score(w),
{
    proof {
        assert(wdl_score(Wdl::Win) == 28_000 && wdl_score(Wdl::CursedWin) == 2 && wdl_score(Wdl::Draw) == 0
            && wdl_score(Wdl::BlessedLoss) == -2 && wdl_score(Wdl::Loss) == -28_000);
    }
    if score == TB_WIN_SCORE {
        Some(3_000)
    } else if score == TB_LOSS_SCORE {
        Some(-3_000)
    } else if score == 2 {
        Some(20)
    } else if score == -2 {
        Some(-20)
    } else if score == 0 {
        Some(0)
    } else {
        None
    }
}

/// What a prober is told of a position.
#[derive(Clone, Copy, PartialEq, Eq, Debug, Structural)]
pub struct ProbeInputs {
    pub white: u64,
    pub black: u64,
    pub kings: u64,
    pub queens: u64,
    pub rooks: u64,
    pub bishops: u64,
    pub knights: u64,
    pub pawns: u64,
    /// En-passant target; 0 for none.
    pub ep: u32,
    /// Whether White is to move.
    pub turn: bool,
}

/// Pieces of a kind, of both colors.
pub open spec fn of_kind(p: Position, k: PieceKind) -> u64 {
    p.set_of(Color::White, k).0 | p.set_of(Color::Black, k).0
}

/// The number of pieces of a color, kind by kind.
pub open spec fn piece_total(p: Position, c: Color, n: int) -> int
    decreases n,
{
    if n <= 0 { 0 } else { piece_total(p, c, n - 1) + p.pieces[c.idx()][n - 1].size() }
}

/// The position can be probed: no castling rights, both kings there, no more
/// pieces than the tables cover, and consistent sets.
pub open spec fn can_probe(p: Position, max_pieces: u32) -> bool {
    &&& p.castling.0 == 0
    &&& p.set_of(Color::White, PieceKind::King).0 != 0
    &&& p.set_of(Color::Black, PieceKind::King).0 != 0
    &&& p.occupied().size() <= max_pieces
    &&& piece_total(p, Color::White, 6) == p.occupancy[0].size()
    &&& piece_total(p, Color::Black, 6) == p.occupancy[1].size()
    &&& p.occupancy[0].0 & p.occupancy[1].0 == 0
}

/// The en-passant target, if a pawn stands where one pushed twice.
pub open spec fn probe_ep(p: Position) -> u32 {
    match p.ep {
        None => 0,
        Some(sq) => {
            let i = sq.0 as int;
            if (i / 8 == 2 && p.set_of(Color::White, PieceKind::Pawn).has(i + 8)) || (i / 8 == 5 && p.set_of(
                Color::Black,
                PieceKind::Pawn,
            ).has(i - 8)) { sq.0 as u32 } else { 0 }
        },
    }
}

/// What a prober is told of a position.
pub open spec fn probe_view(p: Position) -> ProbeInputs {
    ProbeInputs {
        white: p.occupancy[0].0,
        black: p.occupancy[1].0,
        kings: of_kind(p, PieceKind::King),
        queens: of_kind(p, PieceKind::Queen),
        rooks: of_kind(p, PieceKind::Rook),
        bishops: of_kind(p, PieceKind::Bishop),
        knights: of_kind(p, PieceKind::Knight),
        pawns: of_kind(p, PieceKind::Pawn),
        ep: probe_ep(p),
        turn: p.side == Color::White,
    }
}

fn count_pieces(board: &Board, color: Color) -> (r: u32)
    ensures
        r == piece_total(board@, color, 6),
{
    let mut sum: u32 = 0;
    let mut k: usize = 0;
    while k < 6
        invariant
            k <= 6,
            sum == piece_total(board@, color, k as int),
            sum <= 64 * k,
        decreases 6 - k,
    {
        sum = sum + board.pieces[color.index()][k].count();
        k = k + 1;
    }
    sum
}

fn both_colors(board: &Board, kind: PieceKind) -> (r: u64)
    ensures
        r == of_kind(board@, kind),
{
    board.set_of(Color::White, kind).0 | board.set_of(Color::Black, kind).0
}

/// What to probe for a position, or `None` where it cannot be probed: castling
/// rights remain, a king is missing, there are too many pieces for the loaded
/// tables, or the piece sets disagree. A prober indexes its tables by these
/// sets, so that nothing inconsistent may reach it.
pub fn validated_probe_inputs(board: &Board, max_pieces: u32) -> (r: Option<ProbeInputs>)
    requires
        board.ok(),
    ensures
        r == (if can_probe(board@, max_pieces) { Some(probe_view(board@)) } else { None }),
{
    if board.castling.0 != 0 {
        return None;
    }
    let wk = board.set_of(Color::White, PieceKind::King);
    let bk = board.set_of(Color::Black, PieceKind::King);
    if wk.0 == 0 || bk.0 == 0 {
        return None;
    }
    let white = board.occupancy[0];
    let black = board.occupancy[1];
    if board.all_occupancy().count() > max_pieces {
        return None;
    }
    if count_pieces(board, Color::White) != white.count() || count_pieces(board, Color::Black) != black.count() {
        return None;
    }
    if white.0 & black.0 != 0 {
        return None;
    }
    let ep: u32 = match board.en_passant {
        Some(sq) => {
            let wp = board.set_of(Color::White, PieceKind::Pawn);
            let bp = board.set_of(Color::Black, PieceKind::Pawn);
            let rank: u8 = sq.rank();
            let valid = if rank == 2 {
                wp.is_set(Square(sq.0 + 8))
            } else if rank == 5 {
                bp.is_set(Square(sq.0 - 8))
            } else {
                false
            };
            if valid {
                sq.0 as u32
            } else {
                0
            }
        },
        None => 0,
    };
    Some(
        ProbeInputs {
            white: white.0,
            black: black.0,
            kings: both_colors(board, PieceKind::King),
            queens: both_colors(board, PieceKind::Queen),
            rooks: both_colors(board, PieceKind::Rook),
            bishops: both_colors(board, PieceKind::Bishop),
            knights: both_colors(board, PieceKind::Knight),
            pawns: both_colors(board, PieceKind::Pawn),
            ep,
            turn: board.side_to_move == Color::White,
        },
    )
}

// Ranking root moves.
/// A move and its distance to the next capture or pawn move, from a probe.
#[derive(Clone, Copy, PartialEq, Eq, Debug, Structural)]
pub struct DtzMove {
    pub wdl: Wdl,
    pub from: u8,
    pub to: u8,
    pub promotion: Option<PieceKind>,
    pub dtz: u16,
}

/// Ranked root-move guidance derived from a root probe.
///
/// Distance to zeroing is no distance to mate, so the score is in the
/// tablebase band and never a mate score.
pub struct RootTbRanking {
    /// Root-relative value, graded by distance so faster conversions rank higher.
    pub score: Score,
    /// Outcome of the root position for the side to move.
    pub best_wdl: Wdl,
    /// For a win, the win-preserving legal moves, best first. Empty otherwise.
    pub winning_moves: Vec<Move>,
}

/// The legal move that a probed move stands for.
pub open spec fn probed_fn(d: DtzMove) -> spec_fn(Move) -> bool {
    |m: Move| m.src() == d.from && m.dst() == d.to && m.kind().promoted() == d.promotion
}

/// The legal move that a probed move stands for.
pub open spec fn decoded(p: Position, d: DtzMove) -> Option<Move> {
    first_where(legal_moves(p), probed_fn(d))
}

/// Find the legal move that a probed move stands for.
pub fn decode_root_move(board: &Board, d: DtzMove) -> (r: Option<Move>)
    requires
        board.ok(),
        board@.has_room(),
    ensures
        r == decoded(board@, d),
{
    let legal = generate_legal_moves(board);
    let ghost f = probed_fn(d);
    let mut i: usize = 0;
    proof {
        assert(legal@.skip(0) =~= legal@);
    }
    while i < legal.len()
        invariant
            i <= legal@.len(),
            f == probed_fn(d),
            legal@ == legal_moves(board@),
            first_where(legal@.skip(i as int), f) == first_where(legal@, f),
        decreases legal@.len() - i,
    {
        let m = legal.get(i);
        proof {
            assert(legal@.skip(i as int)[0] == m);
            assert(legal@.skip(i as int).drop_first() =~= legal@.skip(i + 1));
        }
        if m.from_sq().0 == d.from && m.to_sq().0 == d.to && m.flag().promotion_piece() == d.promotion {
            return Some(m);
        }
        i = i + 1;
    }
    None
}

/// The score of a root: in the tablebase band, graded by distance.
pub open spec fn root_score(root: DtzMove) -> int {
    match root.wdl {
        Wdl::Win => 28_000 - root.dtz,
        Wdl::CursedWin => 2,
        Wdl::Draw => 0,
        Wdl::BlessedLoss => -2,
        Wdl::Loss => -28_000 + root.dtz,
    }
}

/// Rank of a winning move: the recommended move first, then by distance.
pub open spec fn rank_of(recommended: Option<Move>, m: Move, dtz: u16) -> int {
    (if recommended == Some(m) { 0int } else { 100_000 }) + dtz
}

/// A candidate and its rank.
#[derive(Clone, Copy, PartialEq, Eq, Debug, Structural)]
pub struct Ranked {
    pub m: Move,
    pub rank: u32,
}

/// The candidates among the first `n` probed moves: winning ones that are
/// legal.
pub open spec fn candidates(p: Position, recommended: Option<Move>, moves: Seq<DtzMove>, n: int) -> Seq<Ranked>
    decreases n,
{
    if n <= 0 {
        Seq::empty()
    } else {
        let rest = candidates(p, recommended, moves, n - 1);
        let d = moves[n - 1];
        match decoded(p, d) {
            Some(m) => if d.wdl == Wdl::Win {
                rest.push(Ranked { m, rank: rank_of(recommended, m, d.dtz) as u32 })
            } else {
                rest
            },
            None => rest,
        }
    }
}

/// Puts a candidate behind all that do not rank after it.
pub open spec fn place(s: Seq<Ranked>, x: Ranked) -> Seq<Ranked>
    decreases s.len(),
{
    if s.len() == 0 || s.last().rank <= x.rank {
        s.push(x)
    } else {
        place(s.drop_last(), x).push(s.last())
    }
}

/// The candidates in ascending order of rank, equal ones in their old order.
pub open spec fn ranked(s: Seq<Ranked>) -> Seq<Ranked>
    decreases s.len(),
{
    if s.len() == 0 { Seq::empty() } else { place(ranked(s.drop_last()), s.last()) }
}

/// Rank the legal root moves by a root probe: the root's own result, and one
/// per move. `None` for the root stands for a root that is mate or stalemate,
/// or a failed probe.
pub fn rank_root_moves(board: &Board, root: Option<DtzMove>, moves: &Vec<DtzMove>) -> (r: Option<RootTbRanking>)
    requires
        board.ok(),
        board@.has_room(),
    ensures
        r is Some <==> root is Some,
        root is Some ==> ({
            let d = root->Some_0;
            let s = ranked(candidates(board@, decoded(board@, d), moves@, moves@.len() as int));
            &&& r->Some_0.score.0 == root_score(d)
            &&& r->Some_0.best_wdl == d.wdl
            &&& r->Some_0.winning_moves@ == (if d.wdl == Wdl::Win { s.map_values(|x: Ranked| x.m) } else { Seq::empty() })
        }),
{
    let d = match root {
        Some(d) => d,
        None => {
            return None;
        },
    };
    let recommended = decode_root_move(board, d);
    let score: i32 = match d.wdl {
        Wdl::Win => TB_WIN_SCORE - d.dtz as i32,
        Wdl::CursedWin => 2,
        Wdl::Draw => 0,
        Wdl::BlessedLoss => -2,
        Wdl::Loss => TB_LOSS_SCORE + d.dtz as i32,
    };
    let mut winning_moves: Vec<Move> = Vec::new();
    if d.wdl == Wdl::Win {
        let mut list: Vec<Ranked> = Vec::new();
        let mut i: usize = 0;
        while i < moves.len()
            invariant
                i <= moves@.len(),
                board.ok(),
                board@.has_room(),
                recommended == decoded(board@, d),
                list@ == ranked(candidates(board@, recommended, moves@, i as int)),
            decreases moves@.len() - i,
        {
            let x = moves[i];
            if let Some(m) = decode_root_move(board, x) {
                if x.wdl == Wdl::Win {
                    let first = recommended == Some(m);
                    let rank: u32 = (if first { 0 } else { 100_000 }) + x.dtz as u32;
                    let ghost before = candidates(board@, recommended, moves@, i as int);
                    insert_ranked(&mut list, Ranked { m, rank });
                    proof {
                        let after = before.push(Ranked { m, rank });
                        assert(after.drop_last() =~= before);
                        assert(candidates(board@, recommended, moves@, i + 1) == after);
                    }
                }
            }
            i = i + 1;
        }
        let mut k: usize = 0;
        while k < list.len()
            invariant
                k <= list@.len(),
                winning_moves@ == list@.take(k as int).map_values(|x: Ranked| x.m),
            decreases list@.len() - k,
        {
            winning_moves.push(list[k].m);
            k = k + 1;
            proof {
                assert(winning_moves@ =~= list@.take(k as int).map_values(|x: Ranked| x.m));
            }
        }
        proof {
            assert(list@.take(k as int) =~= list@);
        }
    }
    Some(RootTbRanking { score: Score(score), best_wdl: d.wdl, winning_moves })
}

fn insert_ranked(list: &mut Vec<Ranked>, x: Ranked)
    ensures
        final(list)@ == place(old(list)@, x),
{
    let ghost s = list@;
    let mut k: usize = list.len();
    proof {
        assert(s.take(k as int) =~= s);
        assert(place(s, x) =~= place(s.take(k as int), x) + s.skip(k as int));
    }
    while k > 0 && list[k - 1].rank > x.rank
        invariant
            k <= list@.len(),
            list@ == s,
            place(s, x) == place(s.take(k as int), x) + s.skip(k as int),
        decreases k,
    {
        proof {
            let t = s.take(k as int);
            assert(t.drop_last() =~= s.take(k - 1));
            assert(t.last() == s[k - 1]);
            assert(place(t, x) + s.skip(k as int) =~= place(s.take(k - 1), x) + s.skip(k - 1));
        }
        k = k - 1;
    }
    list.insert(k, x);
    proof {
        assert(place(s.take(k as int), x) == s.take(k as int).push(x)) by {
            if k > 0 {
                assert(s.take(k as int).last() == s[k - 1]);
            }
        }
        assert(list@ =~= s.take(k as int).push(x) + s.skip(k as int));
    }
}

/// A ranking never claims a mate: with the distances that fit a probe's twelve
/// bits, its score stays within the tablebase band, a win above any cursed win
/// and a loss below any blessed loss.
pub proof fn law_root_score_is_no_mate(root: DtzMove)
    requires
        root.dtz < 4096,
    ensures
        -28_000 <= root_score(root) <= 28_000,
        root.wdl == Wdl::Win ==> root_score(root) > 2,
        root.wdl == Wdl::Loss ==> root_score(root) < -2,
{
}

/// Outcomes are worth the more the better they are, and each is worth as much to
/// one side as its opposite costs the other.
pub proof fn law_outcomes_are_ordered()
    ensures
        wdl_score(Wdl::Win) > wdl_score(Wdl::CursedWin) > wdl_score(Wdl::Draw) > wdl_score(Wdl::BlessedLoss) > wdl_score(
            Wdl::Loss,
        ),
        wdl_score(Wdl::Win) == -wdl_score(Wdl::Loss),
        wdl_score(Wdl::CursedWin) == -wdl_score(Wdl::BlessedLoss),
        wdl_score(Wdl::Draw) == 0,
        900 < wdl_score(Wdl::Win) < 29_000,
{
}

/// A win is worth the more the sooner it makes progress, a loss the more the
/// longer it can be put off.
pub proof fn law_progress_is_rewarded(a: DtzMove, b: DtzMove)
    requires
        a.wdl == b.wdl,
        a.dtz < b.dtz < 4096,
    ensures
        a.wdl == Wdl::Win ==> root_score(a) > root_score(b),
        a.wdl == Wdl::Loss ==> root_score(a) < root_score(b),
        a.wdl != Wdl::Win && a.wdl != Wdl::Loss ==> root_score(a) == root_score(b),
{
}

/// The recommended move ranks before every other, and of the others those rank
/// first that make progress sooner.
pub proof fn law_ranks_put_the_recommended_move_first(best: Move, m: Move, n: Move, x: u16, y: u16)
    requires
        m != n,
        x <= 4096,
        y <= 4096,
    ensures
        m == best ==> rank_of(Some(best), m, x) < rank_of(Some(best), n, y),
        m != best && n != best && x < y ==> rank_of(Some(best), m, x) < rank_of(Some(best), n, y),
{
}

/// A prober is told who stands where and whose move it is.
pub proof fn law_probes_show_the_board(p: Position, i: int)
    requires
        p.consistent(),
        0 <= i < 64,
    ensures
        ({
            let v = probe_view(p);
            &&& bit(v.white, i) <==> p.mailbox[i] is Some && p.mailbox[i]->Some_0.color == Color::White
            &&& bit(v.black, i) <==> p.mailbox[i] is Some && p.mailbox[i]->Some_0.color == Color::Black
            &&& bit(v.kings, i) <==> p.mailbox[i] is Some && p.mailbox[i]->Some_0.kind == PieceKind::King
            &&& bit(v.queens, i) <==> p.mailbox[i] is Some && p.mailbox[i]->Some_0.kind == PieceKind::Queen
            &&& bit(v.rooks, i) <==> p.mailbox[i] is Some && p.mailbox[i]->Some_0.kind == PieceKind::Rook
            &&& bit(v.bishops, i) <==> p.mailbox[i] is Some && p.mailbox[i]->Some_0.kind == PieceKind::Bishop
            &&& bit(v.knights, i) <==> p.mailbox[i] is Some && p.mailbox[i]->Some_0.kind == PieceKind::Knight
            &&& bit(v.pawns, i) <==> p.mailbox[i] is Some && p.mailbox[i]->Some_0.kind == PieceKind::Pawn
            &&& v.turn <==> p.side == Color::White
            &&& p.ep is None ==> v.ep == 0
            &&& v.ep == 0 || p.ep == Some(Square(v.ep as u8))
        }),
{
    broadcast use group_bits;
    assert(p.occupancy[0].has(i) || !p.occupancy[0].has(i));
    assert(p.occupancy[1].has(i) || !p.occupancy[1].has(i));
    lemma_kind_shown(p, PieceKind::Pawn, i);
    lemma_kind_shown(p, PieceKind::Knight, i);
    lemma_kind_shown(p, PieceKind::Bishop, i);
    lemma_kind_shown(p, PieceKind::Rook, i);
    lemma_kind_shown(p, PieceKind::Queen, i);
    lemma_kind_shown(p, PieceKind::King, i);
}

/// The set of a kind holds the squares on which the mailbox has that kind.
pub proof fn lemma_kind_shown(p: Position, kind: PieceKind, i: int)
    requires
        p.consistent(),
        0 <= i < 64,
    ensures
        bit(of_kind(p, kind), i) <==> p.mailbox[i] is Some && p.mailbox[i]->Some_0.kind == kind,
{
    broadcast use group_bits;
    lemma_set_is_mailbox(p, Color::White, kind, i);
    lemma_set_is_mailbox(p, Color::Black, kind, i);
}

/// The tables are asked only about positions that they can hold: no right to
/// castle is left, both kings are there, and there are not too many pieces.
pub proof fn law_only_covered_positions_are_probed(p: Position, max_pieces: u32)
    requires
        can_probe(p, max_pieces),
    ensures
        p.castling.0 == 0,
        p.set_of(Color::White, PieceKind::King).0 != 0,
        p.set_of(Color::Black, PieceKind::King).0 != 0,
        p.occupied().size() <= max_pieces,
{
}

proof fn lemma_placed(s: Seq<Ranked>, x: Ranked)
    requires
        forall|i: int, j: int| 0 <= i <= j < s.len() ==> (#[trigger] s[i]).rank <= (#[trigger] s[j]).rank,
    ensures
        place(s, x).len() == s.len() + 1,
        forall|i: int, j: int|
            0 <= i <= j < place(s, x).len() ==> (#[trigger] place(s, x)[i]).rank <= (#[trigger] place(s, x)[j]).rank,
        forall|i: int| 0 <= i < place(s, x).len() ==> #[trigger] place(s, x)[i] == x || s.contains(place(s, x)[i]),
        s.len() > 0 ==> place(s, x)[s.len() as int].rank <= (if s.last().rank > x.rank { s.last().rank } else { x.rank }),
    decreases s.len(),
{
    if s.len() > 0 && s.last().rank > x.rank {
        let t = s.drop_last();
        assert forall|i: int, j: int| 0 <= i <= j < t.len() implies (#[trigger] t[i]).rank <= (#[trigger] t[j]).rank by {
            assert(s[i].rank <= s[j].rank);
        }
        lemma_placed(t, x);
        let u = place(t, x);
        let all = place(s, x);
        assert(all == u.push(s.last()));
        assert forall|i: int| 0 <= i < u.len() implies (#[trigger] u[i]).rank <= s.last().rank by {
            if u[i] != x {
                let k = choose|k: int| 0 <= k < t.len() && t[k] == u[i];
                assert(s[k].rank <= s[s.len() - 1].rank);
            }
        }
        assert forall|i: int| 0 <= i < all.len() implies #[trigger] all[i] == x || s.contains(all[i]) by {
            if i < u.len() {
                if u[i] != x {
                    let k = choose|k: int| 0 <= k < t.len() && t[k] == u[i];
                    assert(s[k] == all[i]);
                }
            } else {
                assert(s[s.len() - 1] == all[i]);
            }
        }
    } else {
        let all = place(s, x);
        assert(all == s.push(x));
        assert forall|i: int| 0 <= i < all.len() implies #[trigger] all[i] == x || s.contains(all[i]) by {
            if i < s.len() {
                assert(s[i] == all[i]);
            }
        }
        assert forall|i: int| 0 <= i < s.len() implies (#[trigger] s[i]).rank <= x.rank by {
            assert(s[i].rank <= s[s.len() - 1].rank);
        }
    }
}

/// The candidates come out in order of rank, all of them and no others.
pub proof fn law_candidates_are_ranked(s: Seq<Ranked>)
    ensures
        ranked(s).len() == s.len(),
        forall|i: int, j: int| 0 <= i <= j < ranked(s).len() ==> (#[trigger] ranked(s)[i]).rank <= (#[trigger] ranked(s)[j]).rank,
        forall|i: int| 0 <= i < ranked(s).len() ==> s.contains(#[trigger] ranked(s)[i]),
    decreases s.len(),
{
    if s.len() > 0 {
        let t = s.drop_last();
        law_candidates_are_ranked(t);
        lemma_placed(ranked(t), s.last());
        let all = ranked(s);
        assert forall|i: int| 0 <= i < all.len() implies s.contains(#[trigger] all[i]) by {
            if all[i] == s.last() {
                assert(s[s.len() - 1] == all[i]);
            } else {
                assert(ranked(t).contains(all[i]));
                let k = choose|k: int| 0 <= k < ranked(t).len() && ranked(t)[k] == all[i];
                assert(t.contains(ranked(t)[k]));
                let j = choose|j: int| 0 <= j < t.len() && t[j] == all[i];
                assert(s[j] == all[i]);
            }
        }
    }
}

/// Only winning moves that are legal are candidates.
pub proof fn law_candidates_win(p: Position, recommended: Option<Move>, moves: Seq<DtzMove>, n: int, i: int)
    requires
        0 <= n <= moves.len(),
        0 <= i < candidates(p, recommended, moves, n).len(),
    ensures
        legal_moves(p).contains(candidates(p, recommended, moves, n)[i].m),
        exists|j: int|
            0 <= j < n && (#[trigger] moves[j]).wdl == Wdl::Win && moves[j].from == candidates(
                p,
                recommended,
                moves,
                n,
            )[i].m.src() && moves[j].to == candidates(p, recommended, moves, n)[i].m.dst(),
    decreases n,
{
    let rest = candidates(p, recommended, moves, n - 1);
    let d = moves[n - 1];
    if i < rest.len() {
        law_candidates_win(p, recommended, moves, n - 1, i);
    } else {
        lemma_first_where(legal_moves(p), probed_fn(d));
        assert(moves[n - 1].wdl == Wdl::Win);
    }
}

/// A probed move stands for a legal move with its squares and its promotion,
/// whenever there is one.
pub proof fn law_probed_moves_are_found(p: Position, d: DtzMove, m: Move)
    requires
        legal_moves(p).contains(m),
        m.src() == d.from && m.dst() == d.to && m.kind().promoted() == d.promotion,
    ensures
        decoded(p, d) is Some,
        ({
            let r = decoded(p, d)->Some_0;
            &&& legal_moves(p).contains(r)
            &&& r.src() == m.src() && r.dst() == m.dst() && r.kind().promoted() == m.kind().promoted()
        }),
{
    lemma_first_where(legal_moves(p), probed_fn(d));
    lemma_first_where_finds(legal_moves(p), probed_fn(d), m);
}

} // verus!
