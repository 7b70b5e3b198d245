//! Building blocks of the evaluation: bounded arithmetic, regions of the board,
//! game phase, material and placement.

use vstd::prelude::*;
use crate::arith::{clamp, div_i64, lemma_quot_bounds, max_of, quot};
use crate::attacks::{bishop_attacks, bishop_hits, is_square, knight_attacks, knight_hits, law_attack_symmetry, lemma_pawn_offsets, pawn_hits, queen_attacks, queen_hits, rook_attacks, rook_hits};
use crate::bits::{bit, group_bits, lemma_file_mask, lemma_is_word, lemma_rank_mask, lemma_squares_members, lemma_squares_zero, sum_over, word_of};
use crate::board::{Board, Position};
use crate::eval_params::EvalParams;
use crate::types::{Bitboard, Color, PieceKind, Square, magnitude};

verus! {

// Arithmetic.
/// A product of bounded factors.
pub(crate) fn prod(a: i64, b: i64, Ghost(x): Ghost<int>, Ghost(y): Ghost<int>) -> (r: i64)
    requires
        0 <= x,
        0 <= y,
        -x <= a <= x,
        -y <= b <= y,
        x * y <= 0x1000_0000_0000_0000,
    ensures
        r == a * b,
        -(x * y) <= r <= x * y,
{
    proof {
        assert(-(x * y) <= a * b <= x * y) by (nonlinear_arith)
            requires
                -x <= a <= x,
                -y <= b <= y,
                0 <= x,
                0 <= y,
        ;
    }
    a * b
}

/// Quotient towards zero with the dividend's bound.
pub(crate) fn quotient(a: i64, b: i64) -> (r: i64)
    requires
        a > i64::MIN,
        b > 0,
    ensures
        r == quot(a as int, b as int),
        a >= 0 ==> 0 <= r <= a,
        a <= 0 ==> a <= r <= 0,
{
    proof {
        lemma_quot_bounds(a as int, b as int);
    }
    div_i64(a, b)
}

/// Smooth saturation: linear near zero, approaching the cap.
pub open spec fn soft_cap(value: int, cap: int) -> int {
    quot(value * cap, magnitude(value) + cap)
}

pub(crate) proof fn lemma_soft_cap(v: int, cap: int)
    requires
        cap > 0,
    ensures
        -cap <= soft_cap(v, cap) <= cap,
        soft_cap(0, cap) == 0,
{
    let a = magnitude(v);
    assert(0 <= a * cap) by (nonlinear_arith)
        requires
            a >= 0,
            cap > 0,
    ;
    assert((a * cap) / (a + cap) <= cap) by (nonlinear_arith)
        requires
            a >= 0,
            cap > 0,
    ;
    assert(0 <= (a * cap) / (a + cap)) by (nonlinear_arith)
        requires
            a >= 0,
            cap > 0,
            0 <= a * cap,
    ;
    if v >= 0 {
        assert(v * cap >= 0) by (nonlinear_arith)
            requires
                v >= 0,
                cap > 0,
        ;
    } else {
        assert(v * cap < 0 && -(v * cap) == a * cap) by (nonlinear_arith)
            requires
                v < 0,
                cap > 0,
                a == -v,
        ;
    }
}

pub fn soft_cap_signed(value: i64, cap: i64) -> (r: i64)
    requires
        -10_000_000_000_000 <= value <= 10_000_000_000_000,
        0 < cap <= 1000,
    ensures
        r == soft_cap(value as int, cap as int),
        -cap <= r <= cap,
{
    proof {
        lemma_soft_cap(value as int, cap as int);
    }
    let magnitude: i64 = if value < 0 { -value } else { value };
    quotient(prod(value, cap, Ghost(10_000_000_000_000), Ghost(1000)), magnitude + cap)
}

pub(crate) fn count(b: Bitboard) -> (r: i64)
    ensures
        r == b.size(),
        0 <= r <= 64,
{
    b.count() as i64
}

// Regions of the board.
/// The squares of a file.
pub open spec fn file_word(f: int) -> u64 {
    word_of(|i: int| i % 8 == f)
}

/// The squares of a rank.
pub open spec fn rank_word(r: int) -> u64 {
    word_of(|i: int| i / 8 == r)
}

/// The squares of the files next to a file.
pub open spec fn beside_word(f: int) -> u64 {
    word_of(|i: int| i % 8 == f - 1 || i % 8 == f + 1)
}

/// The squares of all ranks in front of a square, seen from a side.
pub open spec fn front_word(sq: int, color: Color) -> u64 {
    word_of(
        |i: int|
            match color {
                Color::White => i / 8 > sq / 8,
                Color::Black => i / 8 < sq / 8,
            },
    )
}

/// The squares that pawns attack.
pub open spec fn pawn_span(pawns: u64, color: Color) -> u64 {
    word_of(|t: int| exists|f: int| #[trigger] bit(pawns, f) && pawn_hits(color, f, t))
}

/// The squares of the ranks from `lo` up, counted from a side.
pub open spec fn upper_word(color: Color, lo: int) -> u64 {
    word_of(|i: int| rel_rank(color, i) >= lo)
}

/// The rank of a square counted from a side's own first rank.
pub open spec fn rel_rank(color: Color, sq: int) -> int {
    match color {
        Color::White => sq / 8,
        Color::Black => 7 - sq / 8,
    }
}

pub(crate) fn relative_rank(color: Color, sq: Square) -> (r: i64)
    requires
        sq.ok(),
    ensures
        r == rel_rank(color, sq.0 as int),
        0 <= r <= 7,
{
    match color {
        Color::White => sq.rank() as i64,
        Color::Black => 7 - sq.rank() as i64,
    }
}

pub(crate) fn file_bitboard(file: u8) -> (r: Bitboard)
    requires
        file < 8,
    ensures
        r.0 == file_word(file as int),
        forall|i: int| #[trigger] r.has(i) == (is_square(i) && i % 8 == file),
{
    let r = Bitboard(0x0101_0101_0101_0101u64 << (file as u64));
    proof {
        assert forall|i: int| #[trigger] r.has(i) == (is_square(i) && i % 8 == file) by {
            lemma_file_mask(file as u64, i);
        }
        lemma_is_word(r.0, |i: int| i % 8 == file as int);
    }
    r
}

pub(crate) fn rank_bitboard(rank: u8) -> (r: Bitboard)
    requires
        rank < 8,
    ensures
        r.0 == rank_word(rank as int),
        forall|i: int| #[trigger] r.has(i) == (is_square(i) && i / 8 == rank),
{
    let r = Bitboard(0xFFu64 << (rank as u64 * 8));
    proof {
        assert forall|i: int| #[trigger] r.has(i) == (is_square(i) && i / 8 == rank) by {
            lemma_rank_mask(rank as u64, i);
        }
        lemma_is_word(r.0, |i: int| i / 8 == rank as int);
    }
    r
}

pub(crate) fn adjacent_files(file: u8) -> (r: Bitboard)
    requires
        file < 8,
    ensures
        r.0 == beside_word(file as int),
        forall|i: int| #[trigger] r.has(i) == (is_square(i) && (i % 8 == file - 1 || i % 8 == file + 1)),
{
    broadcast use group_bits;
    let mut bb = Bitboard(0);
    if file > 0 {
        bb = bb | file_bitboard(file - 1);
    }
    if file < 7 {
        bb = bb | file_bitboard(file + 1);
    }
    proof {
        lemma_is_word(bb.0, |i: int| i % 8 == file as int - 1 || i % 8 == file as int + 1);
    }
    bb
}

pub(crate) fn front_span_mask(sq: Square, color: Color) -> (r: Bitboard)
    requires
        sq.ok(),
    ensures
        r.0 == front_word(sq.0 as int, color),
        forall|i: int| #[trigger]
            r.has(i) == (is_square(i) && (match color {
                Color::White => i / 8 > sq.0 as int / 8,
                Color::Black => i / 8 < sq.0 as int / 8,
            })),
{
    broadcast use group_bits;
    let rank: u8 = sq.rank();
    let mut bb = Bitboard(0);
    let mut k: u8 = 0;
    while k < 8
        invariant
            k <= 8,
            sq.ok(),
            rank == sq.0 / 8,
            forall|i: int| #[trigger]
                bb.has(i) == (is_square(i) && i / 8 < k && (match color {
                    Color::White => i / 8 > sq.0 as int / 8,
                    Color::Black => i / 8 < sq.0 as int / 8,
                })),
        decreases 8 - k,
    {
        broadcast use group_bits;
        let ahead = match color {
            Color::White => k > rank,
            Color::Black => k < rank,
        };
        if ahead {
            bb = bb | rank_bitboard(k);
        }
        k = k + 1;
    }
    proof {
        lemma_is_word(
            bb.0,
            |i: int|
                match color {
                    Color::White => i / 8 > sq.0 as int / 8,
                    Color::Black => i / 8 < sq.0 as int / 8,
                },
        );
    }
    bb
}

pub(crate) fn pawn_attack_span(pawns: Bitboard, color: Color) -> (r: Bitboard)
    ensures
        r.0 == pawn_span(pawns.0, color),
{
    let r = match color {
        Color::White => pawns.north_east() | pawns.north_west(),
        Color::Black => pawns.south_east() | pawns.south_west(),
    };
    proof {
        broadcast use group_bits;
        let f = |t: int| exists|f: int| #[trigger] bit(pawns.0, f) && pawn_hits(color, f, t);
        assert forall|t: int| 0 <= t < 64 implies #[trigger] bit(r.0, t) == f(t) by {
            let (a, b) = match color {
                Color::White => (t - 9, t - 7),
                Color::Black => (t + 7, t + 9),
            };
            if bit(r.0, t) {
                if bit(pawns.0, a) {
                    lemma_pawn_offsets(a, t);
                }
                if bit(pawns.0, b) {
                    lemma_pawn_offsets(b, t);
                }
                assert(bit(pawns.0, a) && pawn_hits(color, a, t) || bit(pawns.0, b) && pawn_hits(color, b, t));
            }
            if f(t) {
                let s = choose|s: int| #[trigger] bit(pawns.0, s) && pawn_hits(color, s, t);
                lemma_pawn_offsets(s, t);
            }
        }
        lemma_is_word(r.0, f);
    }
    r
}

pub(crate) fn upper_half(color: Color, lo: u8) -> (r: Bitboard)
    requires
        lo < 8,
    ensures
        r.0 == upper_word(color, lo as int),
{
    broadcast use group_bits;
    let mut bb = Bitboard(0);
    let mut k: u8 = 0;
    while k < 8
        invariant
            k <= 8,
            forall|i: int| #[trigger] bb.has(i) == (is_square(i) && i / 8 < k && rel_rank(color, i) >= lo),
        decreases 8 - k,
    {
        broadcast use group_bits;
        let inside = match color {
            Color::White => k >= lo,
            Color::Black => 7 - k >= lo,
        };
        if inside {
            bb = bb | rank_bitboard(k);
        }
        k = k + 1;
    }
    proof {
        lemma_is_word(bb.0, |i: int| rel_rank(color, i) >= lo as int);
    }
    bb
}

/// A pawn, knight, bishop, rook or queen of `color` attacks the square.
pub open spec fn hit_by_piece(p: Position, sq: int, color: Color) -> bool {
    ||| bit(pawn_span(p.set_of(color, PieceKind::Pawn).0, color), sq)
    ||| exists|s: int| #[trigger] p.set_of(color, PieceKind::Knight).has(s) && knight_hits(s, sq)
    ||| exists|s: int| #[trigger] p.set_of(color, PieceKind::Bishop).has(s) && bishop_hits(p.occupied().0, s, sq)
    ||| exists|s: int| #[trigger] p.set_of(color, PieceKind::Rook).has(s) && rook_hits(p.occupied().0, s, sq)
    ||| exists|s: int| #[trigger] p.set_of(color, PieceKind::Queen).has(s) && queen_hits(p.occupied().0, s, sq)
}

pub(crate) fn meets(a: Bitboard, b: Bitboard) -> (r: bool)
    ensures
        r == (exists|i: int| #[trigger] b.has(i) && a.has(i)),
        r == (a.0 & b.0 != 0),
{
    let c = a & b;
    proof {
        broadcast use group_bits;
        if c.0 != 0 {
            crate::bits::lemma_lowest(c.0);
            let i = vstd::std_specs::bits::u64_trailing_zeros(c.0) as int;
            assert(bit(c.0, i));
            assert(b.has(i) && a.has(i));
        } else if exists|i: int| #[trigger] b.has(i) && a.has(i) {
            let i = choose|i: int| #[trigger] b.has(i) && a.has(i);
            assert(bit(c.0, i));
        }
    }
    c.0 != 0
}

pub(crate) fn square_attacked_by(board: &Board, sq: Square, color: Color) -> (r: bool)
    requires
        sq.ok(),
    ensures
        r == hit_by_piece(board@, sq.0 as int, color),
{
    let occ = board.all_occupancy();
    let span = pawn_attack_span(board.set_of(color, PieceKind::Pawn), color);
    let by_pawn = span.is_set(sq);
    // From the square outwards: these attacks go both ways.
    let a = knight_attacks(sq);
    let b = bishop_attacks(sq, occ);
    let c = rook_attacks(sq, occ);
    let d = queen_attacks(sq, occ);
    let by_knight = meets(a, board.set_of(color, PieceKind::Knight));
    let by_bishop = meets(b, board.set_of(color, PieceKind::Bishop));
    let by_rook = meets(c, board.set_of(color, PieceKind::Rook));
    let by_queen = meets(d, board.set_of(color, PieceKind::Queen));
    proof {
        broadcast use group_bits;
        let p = board@;
        let s = sq.0 as int;
        let o = occ.0;
        assert forall|i: int| is_square(i) implies #[trigger] a.has(i) == knight_hits(i, s) by {
            law_attack_symmetry(PieceKind::Knight, color, o, i, s);
        }
        assert forall|i: int| is_square(i) implies #[trigger] b.has(i) == bishop_hits(o, i, s) by {
            law_attack_symmetry(PieceKind::Bishop, color, o, i, s);
        }
        assert forall|i: int| is_square(i) implies #[trigger] c.has(i) == rook_hits(o, i, s) by {
            law_attack_symmetry(PieceKind::Rook, color, o, i, s);
        }
        assert forall|i: int| is_square(i) implies #[trigger] d.has(i) == queen_hits(o, i, s) by {
            law_attack_symmetry(PieceKind::Queen, color, o, i, s);
        }
        assert(by_knight == (exists|i: int| #[trigger] p.set_of(color, PieceKind::Knight).has(i) && knight_hits(i, s)));
        assert(by_bishop == (exists|i: int| #[trigger] p.set_of(color, PieceKind::Bishop).has(i) && bishop_hits(o, i, s)));
        assert(by_rook == (exists|i: int| #[trigger] p.set_of(color, PieceKind::Rook).has(i) && rook_hits(o, i, s)));
        assert(by_queen == (exists|i: int| #[trigger] p.set_of(color, PieceKind::Queen).has(i) && queen_hits(o, i, s)));
    }
    by_pawn || by_knight || by_bishop || by_rook || by_queen
}

/// Number of king steps between two squares on an empty board.
pub open spec fn king_distance(a: int, b: int) -> int {
    max_of(magnitude(a % 8 - b % 8), magnitude(a / 8 - b / 8))
}

pub(crate) fn chebyshev_distance(a: Square, b: Square) -> (r: i64)
    requires
        a.ok(),
        b.ok(),
    ensures
        r == king_distance(a.0 as int, b.0 as int),
        0 <= r <= 7,
{
    let df: i64 = a.file() as i64 - b.file() as i64;
    let dr: i64 = a.rank() as i64 - b.rank() as i64;
    let f: i64 = if df < 0 { -df } else { df };
    let k: i64 = if dr < 0 { -dr } else { dr };
    if f > k {
        f
    } else {
        k
    }
}

// Phase.
/// How many pieces of a kind both sides have.
pub open spec fn both(p: Position, kind: PieceKind) -> int {
    p.set_of(Color::White, kind).size() as int + p.set_of(Color::Black, kind).size()
}

/// Game phase: 0 with all pieces, 256 without knights, bishops, rooks and
/// queens.
pub open spec fn game_phase(p: Position) -> int {
    let left = 28 - both(p, PieceKind::Knight) - both(p, PieceKind::Bishop) - 2 * both(p, PieceKind::Rook) - 6 * both(
        p,
        PieceKind::Queen,
    );
    quot(left * 256 + 14, 28)
}

pub(crate) fn count_both(board: &Board, kind: PieceKind) -> (r: i64)
    ensures
        r == both(board@, kind),
        0 <= r <= 128,
{
    count(board.set_of(Color::White, kind)) + count(board.set_of(Color::Black, kind))
}

pub(crate) fn phase_of(board: &Board) -> (r: i64)
    ensures
        r == game_phase(board@),
        -11_447 <= r <= 256,
{
    let left: i64 = 28 - count_both(board, PieceKind::Knight) - count_both(board, PieceKind::Bishop) - 2 * count_both(
        board,
        PieceKind::Rook,
    ) - 6 * count_both(board, PieceKind::Queen);
    div_i64(left * 256 + 14, 28)
}

/// Mix of a middlegame and an endgame value.
pub open spec fn tapered(mg: int, eg: int, phase: int) -> int {
    quot(mg * (256 - phase) + eg * phase, 256)
}

// Material and placement.
/// A square as a side's tables see it.
pub open spec fn table_square(color: Color, i: int) -> int {
    match color {
        Color::White => i,
        Color::Black => (7 - i / 8) * 8 + i % 8,
    }
}

/// Value of one piece: material and table entry.
pub open spec fn placed_fn(table: Seq<i32>, color: Color, material: int) -> spec_fn(int) -> int {
    |i: int| material + table[table_square(color, i)]
}

/// Material of a kind; the king has none.
pub open spec fn material_of(m: Seq<i32>, k: int) -> int {
    if k < 5 { m[k] as int } else { 0 }
}

/// Material and placement of the first `n` kinds, White's less Black's.
pub open spec fn placement_sum(p: Position, material: Seq<i32>, tables: Seq<[i32; 64]>, n: int) -> int
    decreases n,
{
    if n <= 0 {
        0
    } else {
        let k = n - 1;
        placement_sum(p, material, tables, k) + sum_over(
            p.pieces[0][k].members(),
            placed_fn(tables[k]@, Color::White, material_of(material, k)),
        ) - sum_over(p.pieces[1][k].members(), placed_fn(tables[k]@, Color::Black, material_of(material, k)))
    }
}

/// King placement by one table, White's less Black's.
pub open spec fn king_placement(p: Position, table: Seq<i32>) -> int {
    sum_over(p.pieces[0][5].members(), placed_fn(table, Color::White, 0)) - sum_over(
        p.pieces[1][5].members(),
        placed_fn(table, Color::Black, 0),
    )
}

/// The material and placement term. Without queens, the king's middlegame
/// table gives way to its endgame table.
pub open spec fn material_term(p: Position, params: EvalParams) -> (int, int) {
    let mg = placement_sum(p, params.material_mg@, params.pst_mg@, 6);
    let eg = placement_sum(p, params.material_eg@, params.pst_eg@, 6);
    let adjust = if both(p, PieceKind::Queen) == 0 {
        king_placement(p, params.pst_eg@[5]@) - king_placement(p, params.pst_mg@[5]@)
    } else {
        0
    };
    (mg + adjust, eg)
}

pub(crate) fn table_index(color: Color, sq: Square) -> (r: usize)
    requires
        sq.ok(),
    ensures
        r == table_square(color, sq.0 as int),
        r < 64,
{
    match color {
        Color::White => sq.index(),
        Color::Black => (7 - sq.index() / 8) * 8 + sq.index() % 8,
    }
}

pub(crate) fn placed_sum(set: Bitboard, table: &[i32; 64], color: Color, material: i32) -> (r: i64)
    requires
        -3000 <= material <= 3000,
        forall|s: int| 0 <= s < 64 ==> -3000 <= #[trigger] table@[s] <= 3000,
    ensures
        r == sum_over(set.members(), placed_fn(table@, color, material as int)),
        -384_000 <= r <= 384_000,
{
    let ghost f = placed_fn(table@, color, material as int);
    let mut acc: i64 = 0;
    let mut rem = set;
    proof {
        lemma_squares_members(set.0);
    }
    while rem.0 != 0
        invariant
            -3000 <= material <= 3000,
            forall|s: int| 0 <= s < 64 ==> -3000 <= #[trigger] table@[s] <= 3000,
            f == placed_fn(table@, color, material as int),
            rem.members().len() <= 64,
            acc + sum_over(rem.members(), f) == sum_over(set.members(), f),
            -6000 * (64 - rem.members().len()) <= acc <= 6000 * (64 - rem.members().len()),
        decreases rem.0,
    {
        let sq = rem.lowest();
        acc = acc + material as i64 + table[table_index(color, sq)] as i64;
        rem = rem.without_lowest();
    }
    proof {
        lemma_squares_zero();
    }
    acc
}

pub(crate) fn placement_total(board: &Board, material: &[i32; 5], tables: &[[i32; 64]; 6]) -> (r: i64)
    requires
        forall|k: int| 0 <= k < 5 ==> -3000 <= #[trigger] material@[k] <= 3000,
        forall|k: int, s: int| 0 <= k < 6 && 0 <= s < 64 ==> -3000 <= #[trigger] tables@[k]@[s] <= 3000,
    ensures
        r == placement_sum(board@, material@, tables@, 6),
        -4_608_000 <= r <= 4_608_000,
{
    let mut acc: i64 = 0;
    let mut k: usize = 0;
    while k < 6
        invariant
            k <= 6,
            forall|k: int| 0 <= k < 5 ==> -3000 <= #[trigger] material@[k] <= 3000,
            forall|k: int, s: int| 0 <= k < 6 && 0 <= s < 64 ==> -3000 <= #[trigger] tables@[k]@[s] <= 3000,
            acc == placement_sum(board@, material@, tables@, k as int),
            -768_000 * k <= acc <= 768_000 * k,
        decreases 6 - k,
    {
        let m: i32 = if k < 5 { material[k] } else { 0 };
        let w: i64 = placed_sum(board.pieces[0][k], &tables[k], Color::White, m);
        let b: i64 = placed_sum(board.pieces[1][k], &tables[k], Color::Black, m);
        acc = acc + w - b;
        k = k + 1;
    }
    acc
}

pub(crate) fn material_and_pst(board: &Board, params: &EvalParams) -> (r: (i64, i64))
    requires
        params.tame(),
    ensures
        r.0 == material_term(board@, *params).0,
        r.1 == material_term(board@, *params).1,
        -6_144_000 <= r.0 <= 6_144_000,
        -4_608_000 <= r.1 <= 4_608_000,
{
    let mut mg: i64 = placement_total(board, &params.material_mg, &params.pst_mg);
    let eg: i64 = placement_total(board, &params.material_eg, &params.pst_eg);
    if count_both(board, PieceKind::Queen) == 0 {
        proof {
            assert(forall|s: int| 0 <= s < 64 ==> -3000 <= #[trigger] params.pst_eg@[5]@[s] <= 3000);
            assert(forall|s: int| 0 <= s < 64 ==> -3000 <= #[trigger] params.pst_mg@[5]@[s] <= 3000);
        }
        let king_eg: i64 = placed_sum(board.pieces[0][5], &params.pst_eg[5], Color::White, 0) - placed_sum(
            board.pieces[1][5],
            &params.pst_eg[5],
            Color::Black,
            0,
        );
        let king_mg: i64 = placed_sum(board.pieces[0][5], &params.pst_mg[5], Color::White, 0) - placed_sum(
            board.pieces[1][5],
            &params.pst_mg[5],
            Color::Black,
            0,
        );
        mg = mg + (king_eg - king_mg);
    }
    (mg, eg)
}

/// Middlegame material other than pawns.
pub open spec fn npm(p: Position, c: Color, params: EvalParams) -> int {
    p.set_of(c, PieceKind::Knight).size() * params.material_mg@[1] + p.set_of(c, PieceKind::Bishop).size()
        * params.material_mg@[2] + p.set_of(c, PieceKind::Rook).size() * params.material_mg@[3] + p.set_of(
        c,
        PieceKind::Queen,
    ).size() * params.material_mg@[4]
}

pub(crate) fn non_pawn_material_mg(board: &Board, color: Color, params: &EvalParams) -> (r: i64)
    requires
        params.tame(),
    ensures
        r == npm(board@, color, *params),
        -768_000 <= r <= 768_000,
{
    let n: i64 = count(board.set_of(color, PieceKind::Knight));
    let b: i64 = count(board.set_of(color, PieceKind::Bishop));
    let k: i64 = count(board.set_of(color, PieceKind::Rook));
    let q: i64 = count(board.set_of(color, PieceKind::Queen));
    prod(n, params.material_mg[1] as i64, Ghost(64), Ghost(3000)) + prod(
        b,
        params.material_mg[2] as i64,
        Ghost(64),
        Ghost(3000),
    ) + prod(k, params.material_mg[3] as i64, Ghost(64), Ghost(3000)) + prod(
        q,
        params.material_mg[4] as i64,
        Ghost(64),
        Ghost(3000),
    )
}

/// How much an attack counts, given the attacker's material lead.
pub open spec fn attack_scale(delta: int) -> int {
    clamp(256 + quot(delta * 64, 300), 160, 300)
}

pub(crate) fn attack_scale_from_material_delta(delta: i64) -> (r: i64)
    requires
        -2_000_000 <= delta <= 2_000_000,
    ensures
        r == attack_scale(delta as int),
        160 <= r <= 300,
{
    let x: i64 = 256 + quotient(delta * 64, 300);
    if x < 160 {
        160
    } else if x > 300 {
        300
    } else {
        x
    }
}

} // verus!
