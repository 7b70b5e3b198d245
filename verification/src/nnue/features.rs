//! Input features: where each piece stands as seen from a king, and castling
//! and en-passant state.

use vstd::prelude::*;
use super::{FEATURES_PER_BUCKET, INPUT_SIZE, PIECE_FEATURES};
use crate::board::{Board, Position};
use crate::types::{CastlingRights, Color, PieceKind, Square};

verus! {

/// A square with the ranks in opposite order.
pub open spec fn flip_rank(i: int) -> int {
    (7 - i / 8) * 8 + i % 8
}

/// A square with the files in opposite order.
pub open spec fn flip_file(i: int) -> int {
    i / 8 * 8 + (7 - i % 8)
}

/// A square seen from a side: Black looks at the board from the other end.
pub open spec fn seen_from(side: Color, i: int) -> int {
    match side {
        Color::White => i,
        Color::Black => flip_rank(i),
    }
}

/// The square of a side's own king, seen from that side.
pub open spec fn own_king(side: Color, white_king: int, black_king: int) -> int {
    match side {
        Color::White => white_king,
        Color::Black => flip_rank(black_king),
    }
}

/// The king bucket: one per rank and half-file, files e to h folded onto d to a.
pub open spec fn king_bucket(k: int) -> int {
    k / 8 * 4 + if k % 8 > 3 { 7 - k % 8 } else { k % 8 }
}

/// Where the features of a piece start: friendly pieces, then the friendly
/// king, then the enemy king, then the other enemy pieces.
pub open spec fn piece_plane(friendly: bool, kind: PieceKind) -> int {
    kind.idx() * 64 + if friendly {
        0int
    } else if kind == PieceKind::King {
        64
    } else {
        448
    }
}

/// The feature of a piece on a square, seen from a side. A king on the
/// kingside mirrors the board.
pub open spec fn feature_of(
    perspective: Color,
    white_king: int,
    black_king: int,
    piece_color: Color,
    piece_kind: PieceKind,
    sq: int,
) -> int {
    let k = own_king(perspective, white_king, black_king);
    let s = seen_from(perspective, sq);
    king_bucket(k) * 785 + piece_plane(perspective == piece_color, piece_kind) + if k % 8 > 3 { flip_file(s) } else { s }
}

fn rank_flipped(i: usize) -> (r: usize)
    requires
        i < 64,
    ensures
        r == flip_rank(i as int),
        r < 64,
{
    (7 - i / 8) * 8 + i % 8
}

fn file_flipped(i: usize) -> (r: usize)
    requires
        i < 64,
    ensures
        r == flip_file(i as int),
        r < 64,
{
    i / 8 * 8 + (7 - i % 8)
}

fn bucket_of(k: usize) -> (r: usize)
    requires
        k < 64,
    ensures
        r == king_bucket(k as int),
        r < 32,
{
    k / 8 * 4 + if k % 8 > 3 { 7 - k % 8 } else { k % 8 }
}

fn own_king_square(perspective: Color, white_king: Square, black_king: Square) -> (r: usize)
    requires
        white_king.ok(),
        black_king.ok(),
    ensures
        r == own_king(perspective, white_king.0 as int, black_king.0 as int),
        r < 64,
{
    match perspective {
        Color::White => white_king.index(),
        Color::Black => rank_flipped(black_king.index()),
    }
}

/// Compute the feature index for a piece using king-relative encoding.
///
/// Each of the 32 king buckets has 768 piece features:
///
///   [0,   320) — friendly non-king pieces  (5 types × 64 sq)
///   [320, 384) — friendly king              (64 sq)
///   [384, 448) — enemy king                 (64 sq)
///   [448, 768) — enemy non-king pieces     (5 types × 64 sq)
pub fn feature_index(
    perspective: Color,
    white_king: Square,
    black_king: Square,
    piece_color: Color,
    piece_kind: PieceKind,
    sq: Square,
) -> (r: usize)
    requires
        white_king.ok(),
        black_king.ok(),
        sq.ok(),
    ensures
        r == feature_of(
            perspective,
            white_king.0 as int,
            black_king.0 as int,
            piece_color,
            piece_kind,
            sq.0 as int,
        ),
        r < INPUT_SIZE,
{
    let king_idx: usize = own_king_square(perspective, white_king, black_king);
    let bucket: usize = bucket_of(king_idx);
    let sq_idx: usize = match perspective {
        Color::White => sq.index(),
        Color::Black => rank_flipped(sq.index()),
    };
    let placed: usize = if king_idx % 8 > 3 { file_flipped(sq_idx) } else { sq_idx };
    let color_offset: usize = if perspective == piece_color {
        0
    } else if piece_kind == PieceKind::King {
        64
    } else {
        448
    };
    let base: usize = color_offset + piece_kind.index() * 64 + placed;
    bucket * FEATURES_PER_BUCKET + base
}

/// Rights of a side as a two-bit mask, kingside first.
pub open spec fn side_rights(castling: u8, side: Color) -> int {
    match side {
        Color::White => castling as int % 4,
        Color::Black => castling as int / 4 % 4,
    }
}

/// A two-bit mask with its bits exchanged.
pub open spec fn swapped_rights(r: int) -> int {
    if r == 1 {
        2
    } else if r == 2 {
        1
    } else {
        r
    }
}

/// The three state features of a side: its own castling rights, the other
/// side's, and the en-passant file.
pub open spec fn state_features(
    perspective: Color,
    white_king: int,
    black_king: int,
    castling: CastlingRights,
    en_passant: Option<Square>,
) -> Seq<int> {
    let k = own_king(perspective, white_king, black_king);
    let mirrored = k % 8 > 3;
    let base = king_bucket(k) * 785 + 768;
    let own = side_rights(castling.0, perspective);
    let enemy = side_rights(castling.0, perspective.other());
    let file = match en_passant {
        None => 0,
        Some(sq) => (if mirrored { 7 - sq.0 as int % 8 } else { sq.0 as int % 8 }) + 1,
    };
    seq![
        base + if mirrored { swapped_rights(own) } else { own },
        base + 4 + if mirrored { swapped_rights(enemy) } else { enemy },
        base + 8 + file,
    ]
}

fn rights_of_side(castling: CastlingRights, side: Color) -> (r: usize)
    ensures
        r == side_rights(castling.0, side),
        r < 4,
{
    match side {
        Color::White => (castling.0 % 4) as usize,
        Color::Black => (castling.0 / 4 % 4) as usize,
    }
}

fn swap_rights(r: usize) -> (s: usize)
    requires
        r < 4,
    ensures
        s == swapped_rights(r as int),
        s < 4,
{
    if r == 1 {
        2
    } else if r == 2 {
        1
    } else {
        r
    }
}

/// Three categorical state features for one accumulator perspective: friendly
/// castling rights, enemy castling rights, and the current en-passant file.
pub fn state_feature_indices(
    perspective: Color,
    white_king: Square,
    black_king: Square,
    castling: CastlingRights,
    en_passant: Option<Square>,
) -> (r: [usize; 3])
    requires
        white_king.ok(),
        black_king.ok(),
    ensures
        forall|i: int|
            0 <= i < 3 ==> #[trigger] r@[i] == state_features(
                perspective,
                white_king.0 as int,
                black_king.0 as int,
                castling,
                en_passant,
            )[i],
        forall|i: int| 0 <= i < 3 ==> #[trigger] r@[i] < INPUT_SIZE,
{
    let king_idx: usize = own_king_square(perspective, white_king, black_king);
    let mirrored = king_idx % 8 > 3;
    let base: usize = bucket_of(king_idx) * FEATURES_PER_BUCKET + PIECE_FEATURES;
    let friendly: usize = rights_of_side(castling, perspective);
    let enemy: usize = rights_of_side(castling, perspective.opposite());
    let ep_category: usize = match en_passant {
        None => 0,
        Some(sq) => {
            let f: usize = sq.file() as usize;
            (if mirrored { 7 - f } else { f }) + 1
        },
    };
    let first: usize = base + if mirrored { swap_rights(friendly) } else { friendly };
    let second: usize = base + 4 + if mirrored { swap_rights(enemy) } else { enemy };
    let third: usize = base + 8 + ep_category;
    [first, second, third]
}

/// The state features of a position.
pub open spec fn position_state_features(p: Position, perspective: Color) -> Seq<int> {
    state_features(perspective, p.king_at(Color::White), p.king_at(Color::Black), p.castling, p.ep)
}

pub fn board_state_feature_indices(board: &Board, perspective: Color) -> (r: [usize; 3])
    ensures
        forall|i: int| 0 <= i < 3 ==> #[trigger] r@[i] == position_state_features(board@, perspective)[i],
        forall|i: int| 0 <= i < 3 ==> #[trigger] r@[i] < INPUT_SIZE,
{
    state_feature_indices(
        perspective,
        board.king_square(Color::White),
        board.king_square(Color::Black),
        board.castling,
        board.en_passant,
    )
}

/// Seen from one side with the kings where they are, no two pieces on squares
/// share a feature.
pub proof fn law_features_are_distinct(
    perspective: Color,
    white_king: int,
    black_king: int,
    c1: Color,
    k1: PieceKind,
    s1: int,
    c2: Color,
    k2: PieceKind,
    s2: int,
)
    requires
        0 <= white_king < 64,
        0 <= black_king < 64,
        0 <= s1 < 64,
        0 <= s2 < 64,
        feature_of(perspective, white_king, black_king, c1, k1, s1) == feature_of(
            perspective,
            white_king,
            black_king,
            c2,
            k2,
            s2,
        ),
    ensures
        c1 == c2,
        k1 == k2,
        s1 == s2,
{
    let k = own_king(perspective, white_king, black_king);
    let a = seen_from(perspective, s1);
    let b = seen_from(perspective, s2);
    lemma_flips(s1);
    lemma_flips(s2);
    lemma_flips(a);
    lemma_flips(b);
    let x = if k % 8 > 3 { flip_file(a) } else { a };
    let y = if k % 8 > 3 { flip_file(b) } else { b };
    lemma_planes(perspective == c1, k1, x, perspective == c2, k2, y);
}

/// Plane and square can be told from their sum.
proof fn lemma_planes(f1: bool, k1: PieceKind, x: int, f2: bool, k2: PieceKind, y: int)
    requires
        0 <= x < 64,
        0 <= y < 64,
        piece_plane(f1, k1) + x == piece_plane(f2, k2) + y,
    ensures
        x == y,
        f1 == f2,
        k1 == k2,
{
}

/// A king and its mirror image on the other wing share a bucket, and mirroring
/// a whole position from left to right keeps every piece feature.
pub proof fn law_mirrored_features_agree(
    perspective: Color,
    white_king: int,
    black_king: int,
    piece_color: Color,
    kind: PieceKind,
    sq: int,
)
    requires
        0 <= white_king < 64,
        0 <= black_king < 64,
        0 <= sq < 64,
    ensures
        king_bucket(own_king(perspective, white_king, black_king)) == king_bucket(
            own_king(perspective, flip_file(white_king), flip_file(black_king)),
        ),
        feature_of(perspective, white_king, black_king, piece_color, kind, sq) == feature_of(
            perspective,
            flip_file(white_king),
            flip_file(black_king),
            piece_color,
            kind,
            flip_file(sq),
        ),
{
    lemma_flips(white_king);
    lemma_flips(black_king);
    lemma_flips(sq);
    let k = own_king(perspective, white_king, black_king);
    let k2 = own_king(perspective, flip_file(white_king), flip_file(black_king));
    lemma_flips(k);
    assert(k2 == flip_file(k));
    assert(king_bucket(k) == king_bucket(k2));
    let s = seen_from(perspective, sq);
    lemma_flips(s);
    assert(seen_from(perspective, flip_file(sq)) == flip_file(s));
}

proof fn lemma_flips(i: int)
    requires
        0 <= i < 64,
    ensures
        0 <= flip_file(i) < 64,
        0 <= flip_rank(i) < 64,
        flip_file(i) % 8 == 7 - i % 8,
        flip_file(i) / 8 == i / 8,
        flip_rank(i) % 8 == i % 8,
        flip_rank(i) / 8 == 7 - i / 8,
        flip_file(flip_file(i)) == i,
        flip_rank(flip_rank(i)) == i,
        flip_rank(flip_file(i)) == flip_file(flip_rank(i)),
{
}

/// State features never collide with piece features.
pub proof fn law_state_features_apart(
    perspective: Color,
    white_king: int,
    black_king: int,
    castling: CastlingRights,
    ep: Option<Square>,
    piece_color: Color,
    kind: PieceKind,
    sq: int,
    i: int,
)
    requires
        0 <= white_king < 64,
        0 <= black_king < 64,
        0 <= sq < 64,
        0 <= i < 3,
    ensures
        state_features(perspective, white_king, black_king, castling, ep)[i] != feature_of(
            perspective,
            white_king,
            black_king,
            piece_color,
            kind,
            sq,
        ),
{
}

/// The features of a side depend on its own king, not on the other one.
pub proof fn law_features_follow_the_own_king(
    wk: int,
    bk: int,
    other: int,
    color: Color,
    kind: PieceKind,
    sq: int,
)
    ensures
        feature_of(Color::White, wk, bk, color, kind, sq) == feature_of(Color::White, wk, other, color, kind, sq),
        feature_of(Color::Black, wk, bk, color, kind, sq) == feature_of(Color::Black, other, bk, color, kind, sq),
{
}

/// Within the features of a king's place come the own pieces, the own king, the
/// enemy king and the enemy pieces; in each, pawns, knights, bishops, rooks and
/// queens by square. White with its king on the a- to d-files sees the squares as
/// they are, Black with the ranks reversed; a king on the other side of the board
/// reverses the files.
pub proof fn law_feature_layout(perspective: Color, wk: int, bk: int, color: Color, kind: PieceKind, sq: int)
    requires
        0 <= wk < 64,
        0 <= bk < 64,
        0 <= sq < 64,
    ensures
        ({
            let f = feature_of(perspective, wk, bk, color, kind, sq);
            let king = if perspective == Color::White { wk } else { bk };
            let rank = if perspective == Color::White { sq / 8 } else { 7 - sq / 8 };
            let file = if king % 8 >= 4 { 7 - sq % 8 } else { sq % 8 };
            let king_rank = if perspective == Color::White { king / 8 } else { 7 - king / 8 };
            let king_file = if king % 8 >= 4 { 7 - king % 8 } else { king % 8 };
            let own = perspective == color;
            let plane = match kind {
                PieceKind::Pawn => if own { 0int } else { 448 },
                PieceKind::Knight => if own { 64 } else { 512 },
                PieceKind::Bishop => if own { 128 } else { 576 },
                PieceKind::Rook => if own { 192 } else { 640 },
                PieceKind::Queen => if own { 256 } else { 704 },
                PieceKind::King => if own { 320 } else { 384 },
            };
            f == (king_rank * 4 + king_file) * 785 + plane + rank * 8 + file
        }),
{
}

/// The state features of a side are its own castling rights, the other side's, and
/// the file of an en-passant square, in this order. With the king on the e- to
/// h-files kingside and queenside, and the files, change places.
pub proof fn law_state_feature_layout(wk: int, bk: int, castling: CastlingRights, ep: Option<Square>)
    requires
        0 <= wk < 64,
        0 <= bk < 64,
        castling.0 < 16,
        ep is Some ==> ep->Some_0.0 < 64,
    ensures
        ({
            let w = state_features(Color::White, wk, bk, castling, ep);
            let b = state_features(Color::Black, wk, bk, castling, ep);
            let wb = (wk / 8 * 4 + (if wk % 8 >= 4 { 7 - wk % 8 } else { wk % 8 })) * 785;
            let bb = ((7 - bk / 8) * 4 + (if bk % 8 >= 4 { 7 - bk % 8 } else { bk % 8 })) * 785;
            let file = if ep is Some { ep->Some_0.0 as int % 8 } else { 0 };
            &&& w.len() == 3 && b.len() == 3
            &&& wk % 8 < 4 ==> w[0] == wb + 768 + castling.0 % 4
            &&& wk % 8 < 4 ==> w[1] == wb + 772 + castling.0 / 4
            &&& bk % 8 < 4 ==> b[0] == bb + 768 + castling.0 / 4
            &&& bk % 8 < 4 ==> b[1] == bb + 772 + castling.0 % 4
            &&& ep is None ==> w[2] == wb + 776 && b[2] == bb + 776
            &&& ep is Some && wk % 8 < 4 ==> w[2] == wb + 777 + file
            &&& ep is Some && wk % 8 >= 4 ==> w[2] == wb + 777 + 7 - file
            &&& ep is Some && bk % 8 < 4 ==> b[2] == bb + 777 + file
            &&& ep is Some && bk % 8 >= 4 ==> b[2] == bb + 777 + 7 - file
            &&& wk % 8 >= 4 && castling.0 % 4 == 1 ==> w[0] == wb + 770
            &&& wk % 8 >= 4 && castling.0 % 4 == 2 ==> w[0] == wb + 769
            &&& bk % 8 >= 4 && castling.0 / 4 == 1 ==> b[0] == bb + 770
            &&& bk % 8 >= 4 && castling.0 / 4 == 2 ==> b[0] == bb + 769
        }),
{
}

} // verus!
