//! The accumulator: the feature-transformer output for both perspectives, kept
//! up to date as pieces move.

use vstd::prelude::*;
use super::features::{board_state_feature_indices, feature_index, feature_of, position_state_features, state_feature_indices, state_features};
use super::network::NnueNetwork;
use super::HIDDEN_SIZE;
use crate::bits::{bit, group_bits};
use crate::board::{with_square, without_square, Board, Position};
use crate::types::{color_at, kind_at, Bitboard, CastlingRights, Color, Piece, PieceKind, Square};

verus! {

/// The 16-bit number that an integer wraps around to.
pub open spec fn wrap16(x: int) -> int {
    (x + 32768) % 65536 - 32768
}

proof fn lemma_wrap16(a: int, b: int)
    ensures
        wrap16(wrap16(a) + b) == wrap16(a + b),
        -32768 <= wrap16(a) < 32768,
        -32768 <= a < 32768 ==> wrap16(a) == a,
{
}

/// The accumulator for both perspectives.
///
/// A perspective is marked as needing a refresh when it is stale, as after a
/// king move changes the king bucket. The refresh is deferred until the
/// position is evaluated.
pub struct Accumulator {
    pub white: [i16; HIDDEN_SIZE],
    pub black: [i16; HIDDEN_SIZE],
    pub needs_refresh: [bool; 2],
}

impl Clone for Accumulator {
    fn clone(&self) -> (r: Self)
        ensures
            r == *self,
    {
        Accumulator { white: self.white, black: self.black, needs_refresh: self.needs_refresh }
    }
}

/// One weight of the feature transformer.
pub open spec fn weight(w: Seq<[i16; HIDDEN_SIZE]>, feature: int, j: int) -> int {
    w[feature]@[j] as int
}

/// Sum of the weights of one kind of piece on the squares of `x` below `n`.
pub open spec fn set_sum(
    w: Seq<[i16; HIDDEN_SIZE]>,
    perspective: Color,
    wk: int,
    bk: int,
    color: Color,
    kind: PieceKind,
    x: u64,
    j: int,
    n: int,
) -> int
    decreases n,
{
    if n <= 0 {
        0
    } else {
        set_sum(w, perspective, wk, bk, color, kind, x, j, n - 1) + if bit(x, n - 1) {
            weight(w, feature_of(perspective, wk, bk, color, kind, n - 1), j)
        } else {
            0
        }
    }
}

/// Sum of the weights of the first `n` of the twelve piece sets.
pub open spec fn pieces_sum(
    w: Seq<[i16; HIDDEN_SIZE]>,
    perspective: Color,
    wk: int,
    bk: int,
    pieces: Seq<Seq<Bitboard>>,
    j: int,
    n: int,
) -> int
    decreases n,
{
    if n <= 0 {
        0
    } else {
        pieces_sum(w, perspective, wk, bk, pieces, j, n - 1) + set_sum(
            w,
            perspective,
            wk,
            bk,
            color_at((n - 1) / 6),
            kind_at((n - 1) % 6),
            pieces[(n - 1) / 6][(n - 1) % 6].0,
            j,
            64,
        )
    }
}

/// Sum of the weights of the three state features.
pub open spec fn state_sum(w: Seq<[i16; HIDDEN_SIZE]>, f: Seq<int>, j: int) -> int {
    weight(w, f[0], j) + weight(w, f[1], j) + weight(w, f[2], j)
}

/// The value of one accumulator cell for a position: bias and the weights of
/// all active features, in 16-bit arithmetic.
pub open spec fn cell(net: NnueNetwork, p: Position, perspective: Color, j: int) -> int {
    wrap16(
        net.ft_biases@[j] + pieces_sum(
            net.ft_weights@,
            perspective,
            p.king_at(Color::White),
            p.king_at(Color::Black),
            p.pieces,
            j,
            12,
        ) + state_sum(net.ft_weights@, position_state_features(p, perspective), j),
    )
}

impl Accumulator {
    /// The values of one perspective.
    pub open spec fn half(&self, perspective: Color) -> Seq<i16> {
        match perspective {
            Color::White => self.white@,
            Color::Black => self.black@,
        }
    }

    /// Whether a perspective is stale.
    pub open spec fn stale(&self, perspective: Color) -> bool {
        self.needs_refresh@[perspective.idx()]
    }

    /// The values of a perspective are those of a position.
    pub open spec fn shows(&self, net: NnueNetwork, p: Position, perspective: Color) -> bool {
        forall|j: int| 0 <= j < 1024 ==> #[trigger] self.half(perspective)[j] == cell(net, p, perspective, j)
    }

    /// Create a zeroed accumulator (marked as needing a refresh).
    pub fn new() -> (r: Self)
        ensures
            forall|j: int| 0 <= j < 1024 ==> #[trigger] r.white@[j] == 0,
            forall|j: int| 0 <= j < 1024 ==> #[trigger] r.black@[j] == 0,
            r.stale(Color::White),
            r.stale(Color::Black),
    {
        Accumulator { white: [0; HIDDEN_SIZE], black: [0; HIDDEN_SIZE], needs_refresh: [true, true] }
    }

    /// A copy.
    pub fn copied(&self) -> (r: Self)
        ensures
            r == *self,
    {
        Accumulator { white: self.white, black: self.black, needs_refresh: self.needs_refresh }
    }

    pub fn needs_refresh(&self, perspective: Color) -> (r: bool)
        ensures
            r == self.stale(perspective),
    {
        self.needs_refresh[perspective.index()]
    }

    pub fn mark_refresh(&mut self, perspective: Color)
        ensures
            final(self).white == old(self).white,
            final(self).black == old(self).black,
            final(self).needs_refresh@ == old(self).needs_refresh@.update(perspective.idx(), true),
    {
        self.needs_refresh[perspective.index()] = true;
    }

    /// Inherit only usable parent values. Dirty perspectives will be rebuilt
    /// before evaluation, so their destination storage can remain untouched.
    pub fn copy_clean_from(&mut self, parent: &Self, invalidate: Option<Color>)
        ensures
            forall|c: Color|
                (#[trigger] final(self).stale(c)) == (parent.stale(c) || invalidate == Some(c)),
            forall|c: Color|
                !final(self).stale(c) ==> #[trigger] final(self).half(c) == parent.half(c),
            forall|c: Color|
                final(self).stale(c) ==> #[trigger] final(self).half(c) == old(self).half(c),
    {
        self.needs_refresh = parent.needs_refresh;
        if let Some(color) = invalidate {
            self.mark_refresh(color);
        }
        if !self.needs_refresh(Color::White) {
            self.white = parent.white;
        }
        if !self.needs_refresh(Color::Black) {
            self.black = parent.black;
        }
    }
}

/// Adds a row to the values, in 16-bit arithmetic.
pub fn add_row(values: &mut [i16; HIDDEN_SIZE], row: &[i16; HIDDEN_SIZE])
    ensures
        forall|j: int| 0 <= j < 1024 ==> #[trigger] final(values)@[j] == wrap16(old(values)@[j] + row@[j]),
{
    let mut i: usize = 0;
    let ghost before = values@;
    while i < 1024
        invariant
            i <= 1024,
            before == old(values)@,
            forall|j: int| 0 <= j < i ==> #[trigger] values@[j] == wrap16(before[j] + row@[j]),
            forall|j: int| i <= j < 1024 ==> #[trigger] values@[j] == before[j],
        decreases 1024 - i,
    {
        values[i] = values[i].wrapping_add(row[i]);
        i = i + 1;
    }
}

/// Subtracts a row from the values, in 16-bit arithmetic.
pub fn sub_row(values: &mut [i16; HIDDEN_SIZE], row: &[i16; HIDDEN_SIZE])
    ensures
        forall|j: int| 0 <= j < 1024 ==> #[trigger] final(values)@[j] == wrap16(old(values)@[j] - row@[j]),
{
    let mut i: usize = 0;
    let ghost before = values@;
    while i < 1024
        invariant
            i <= 1024,
            before == old(values)@,
            forall|j: int| 0 <= j < i ==> #[trigger] values@[j] == wrap16(before[j] - row@[j]),
            forall|j: int| i <= j < 1024 ==> #[trigger] values@[j] == before[j],
        decreases 1024 - i,
    {
        values[i] = values[i].wrapping_sub(row[i]);
        i = i + 1;
    }
}

/// Exchanges one row for another in the values, in 16-bit arithmetic.
pub fn replace_row(values: &mut [i16; HIDDEN_SIZE], old_row: &[i16; HIDDEN_SIZE], new_row: &[i16; HIDDEN_SIZE])
    ensures
        forall|j: int|
            0 <= j < 1024 ==> #[trigger] final(values)@[j] == wrap16(old(values)@[j] + new_row@[j] - old_row@[j]),
{
    let mut i: usize = 0;
    let ghost before = values@;
    while i < 1024
        invariant
            i <= 1024,
            before == old(values)@,
            forall|j: int| 0 <= j < i ==> #[trigger] values@[j] == wrap16(before[j] + new_row@[j] - old_row@[j]),
            forall|j: int| i <= j < 1024 ==> #[trigger] values@[j] == before[j],
        decreases 1024 - i,
    {
        values[i] = values[i].wrapping_add(new_row[i].wrapping_sub(old_row[i]));
        i = i + 1;
    }
}

proof fn lemma_set_sum_same(
    w: Seq<[i16; HIDDEN_SIZE]>,
    perspective: Color,
    wk: int,
    bk: int,
    color: Color,
    kind: PieceKind,
    x: u64,
    y: u64,
    j: int,
    n: int,
)
    requires
        forall|i: int| 0 <= i < n ==> bit(x, i) == #[trigger] bit(y, i),
    ensures
        set_sum(w, perspective, wk, bk, color, kind, x, j, n) == set_sum(w, perspective, wk, bk, color, kind, y, j, n),
    decreases n,
{
    if n > 0 {
        assert(bit(x, n - 1) == bit(y, n - 1));
        lemma_set_sum_same(w, perspective, wk, bk, color, kind, x, y, j, n - 1);
    }
}

/// Adding one square adds the weight of its feature.
proof fn lemma_set_sum_add(
    w: Seq<[i16; HIDDEN_SIZE]>,
    perspective: Color,
    wk: int,
    bk: int,
    color: Color,
    kind: PieceKind,
    x: u64,
    y: u64,
    s: int,
    j: int,
    n: int,
)
    requires
        0 <= s < n,
        !bit(x, s),
        bit(y, s),
        forall|i: int| i != s ==> bit(x, i) == #[trigger] bit(y, i),
    ensures
        set_sum(w, perspective, wk, bk, color, kind, y, j, n) == set_sum(
            w,
            perspective,
            wk,
            bk,
            color,
            kind,
            x,
            j,
            n,
        ) + weight(w, feature_of(perspective, wk, bk, color, kind, s), j),
    decreases n,
{
    if n - 1 == s {
        lemma_set_sum_same(w, perspective, wk, bk, color, kind, x, y, j, n - 1);
    } else {
        lemma_set_sum_add(w, perspective, wk, bk, color, kind, x, y, s, j, n - 1);
        assert(bit(x, n - 1) == bit(y, n - 1));
    }
}

proof fn lemma_set_sum_empty(
    w: Seq<[i16; HIDDEN_SIZE]>,
    perspective: Color,
    wk: int,
    bk: int,
    color: Color,
    kind: PieceKind,
    j: int,
    n: int,
)
    ensures
        set_sum(w, perspective, wk, bk, color, kind, 0, j, n) == 0,
    decreases n,
{
    broadcast use group_bits;
    if n > 0 {
        lemma_set_sum_empty(w, perspective, wk, bk, color, kind, j, n - 1);
    }
}

/// Adds the weights of one kind of piece on all squares of a set.
fn add_set(
    values: &mut [i16; HIDDEN_SIZE],
    net: &NnueNetwork,
    perspective: Color,
    white_king: Square,
    black_king: Square,
    color: Color,
    kind: PieceKind,
    set: Bitboard,
)
    requires
        net.ok(),
        white_king.ok(),
        black_king.ok(),
    ensures
        forall|j: int|
            0 <= j < 1024 ==> #[trigger] final(values)@[j] == wrap16(
                old(values)@[j] + set_sum(
                    net.ft_weights@,
                    perspective,
                    white_king.0 as int,
                    black_king.0 as int,
                    color,
                    kind,
                    set.0,
                    j,
                    64,
                ),
            ),
{
    let ghost before = values@;
    let ghost w = net.ft_weights@;
    let ghost wk = white_king.0 as int;
    let ghost bk = black_king.0 as int;
    let mut rem = set;
    proof {
        assert forall|j: int| 0 <= j < 1024 implies #[trigger] values@[j] == wrap16(
            before[j] + set_sum(w, perspective, wk, bk, color, kind, set.0, j, 64) - set_sum(
                w,
                perspective,
                wk,
                bk,
                color,
                kind,
                rem.0,
                j,
                64,
            ),
        ) by {
            lemma_wrap16(before[j] as int, 0);
        }
    }
    while rem.0 != 0
        invariant
            net.ok(),
            white_king.ok(),
            black_king.ok(),
            w == net.ft_weights@,
            wk == white_king.0,
            bk == black_king.0,
            before == old(values)@,
            forall|j: int|
                0 <= j < 1024 ==> #[trigger] values@[j] == wrap16(
                    before[j] + set_sum(w, perspective, wk, bk, color, kind, set.0, j, 64) - set_sum(
                        w,
                        perspective,
                        wk,
                        bk,
                        color,
                        kind,
                        rem.0,
                        j,
                        64,
                    ),
                ),
        decreases rem.0,
    {
        let sq = rem.lowest();
        let rest = rem.without_lowest();
        let ghost mid = values@;
        let idx: usize = feature_index(perspective, white_king, black_king, color, kind, sq);
        add_row(values, &net.ft_weights[idx]);
        proof {
            assert forall|j: int| 0 <= j < 1024 implies #[trigger] values@[j] == wrap16(
                before[j] + set_sum(w, perspective, wk, bk, color, kind, set.0, j, 64) - set_sum(
                    w,
                    perspective,
                    wk,
                    bk,
                    color,
                    kind,
                    rest.0,
                    j,
                    64,
                ),
            ) by {
                assert forall|i: int| i != sq.0 implies bit(rest.0, i) == #[trigger] bit(rem.0, i) by {
                    assert(rest.has(i) == (rem.has(i) && i != rem.members()[0]));
                }
                assert(!rest.has(sq.0 as int));
                lemma_set_sum_add(w, perspective, wk, bk, color, kind, rest.0, rem.0, sq.0 as int, j, 64);
                assert(mid[j] == wrap16(
                    before[j] + set_sum(w, perspective, wk, bk, color, kind, set.0, j, 64) - set_sum(
                        w,
                        perspective,
                        wk,
                        bk,
                        color,
                        kind,
                        rem.0,
                        j,
                        64,
                    ),
                ));
                lemma_wrap16(
                    before[j] + set_sum(w, perspective, wk, bk, color, kind, set.0, j, 64) - set_sum(
                        w,
                        perspective,
                        wk,
                        bk,
                        color,
                        kind,
                        rem.0,
                        j,
                        64,
                    ),
                    weight(w, idx as int, j),
                );
            }
        }
        rem = rest;
    }
    proof {
        assert forall|j: int| 0 <= j < 1024 implies #[trigger] values@[j] == wrap16(
            before[j] + set_sum(w, perspective, wk, bk, color, kind, set.0, j, 64),
        ) by {
            lemma_set_sum_empty(w, perspective, wk, bk, color, kind, j, 64);
        }
    }
}

impl Accumulator {
    /// Full recompute from scratch using the board state.
    pub fn refresh(&mut self, board: &Board, net: &NnueNetwork)
        requires
            net.ok(),
        ensures
            final(self).shows(*net, board@, Color::White),
            final(self).shows(*net, board@, Color::Black),
            !final(self).stale(Color::White),
            !final(self).stale(Color::Black),
    {
        self.refresh_perspective(board, net, Color::White);
        self.refresh_perspective(board, net, Color::Black);
    }

    /// Recompute only one perspective. A king move changes the moving side's
    /// feature bucket, but the opponent's bucket remains stable and can stay
    /// incrementally updated.
    pub fn refresh_perspective(&mut self, board: &Board, net: &NnueNetwork, perspective: Color)
        requires
            net.ok(),
        ensures
            final(self).shows(*net, board@, perspective),
            !final(self).stale(perspective),
            final(self).half(perspective.other()) == old(self).half(perspective.other()),
            final(self).stale(perspective.other()) == old(self).stale(perspective.other()),
    {
        let mut values: [i16; HIDDEN_SIZE] = net.ft_biases;
        let white_king = board.king_square(Color::White);
        let black_king = board.king_square(Color::Black);
        let ghost w = net.ft_weights@;
        let ghost wk = white_king.0 as int;
        let ghost bk = black_king.0 as int;
        let ghost pieces = board@.pieces;
        let mut n: usize = 0;
        proof {
            assert forall|j: int| 0 <= j < 1024 implies #[trigger] values@[j] == wrap16(
                net.ft_biases@[j] + pieces_sum(w, perspective, wk, bk, pieces, j, 0),
            ) by {
                lemma_wrap16(net.ft_biases@[j] as int, 0);
            }
        }
        while n < 12
            invariant
                n <= 12,
                net.ok(),
                white_king.ok(),
                black_king.ok(),
                w == net.ft_weights@,
                wk == white_king.0,
                bk == black_king.0,
                pieces == board@.pieces,
                forall|j: int|
                    0 <= j < 1024 ==> #[trigger] values@[j] == wrap16(
                        net.ft_biases@[j] + pieces_sum(w, perspective, wk, bk, pieces, j, n as int),
                    ),
            decreases 12 - n,
        {
            let color = if n < 6 { Color::White } else { Color::Black };
            let kind = PieceKind::ALL[n % 6];
            proof {
                assert(kind == kind_at(n as int % 6));
                assert(color == color_at(n as int / 6));
            }
            let ghost mid = values@;
            add_set(&mut values, net, perspective, white_king, black_king, color, kind, board.pieces[n / 6][n % 6]);
            n = n + 1;
            proof {
                assert forall|j: int| 0 <= j < 1024 implies #[trigger] values@[j] == wrap16(
                    net.ft_biases@[j] + pieces_sum(w, perspective, wk, bk, pieces, j, n as int),
                ) by {
                    assert(mid[j] == wrap16(
                        net.ft_biases@[j] + pieces_sum(w, perspective, wk, bk, pieces, j, n - 1),
                    ));
                    let x = pieces[(n - 1) / 6][(n - 1) % 6].0;
                    assert(board.pieces@[(n - 1) / 6]@[(n - 1) % 6].0 == x);
                    lemma_wrap16(
                        net.ft_biases@[j] + pieces_sum(w, perspective, wk, bk, pieces, j, n - 1),
                        set_sum(w, perspective, wk, bk, color, kind, x, j, 64),
                    );
                }
            }
        }
        let state = board_state_feature_indices(board, perspective);
        let ghost v0 = values@;
        add_row(&mut values, &net.ft_weights[state[0]]);
        let ghost v1 = values@;
        add_row(&mut values, &net.ft_weights[state[1]]);
        let ghost v2 = values@;
        add_row(&mut values, &net.ft_weights[state[2]]);
        proof {
            let f = position_state_features(board@, perspective);
            assert(state@[0] == f[0] && state@[1] == f[1] && state@[2] == f[2]);
            assert forall|j: int| 0 <= j < 1024 implies #[trigger] values@[j] == cell(*net, board@, perspective, j) by {
                let a = net.ft_biases@[j] + pieces_sum(w, perspective, wk, bk, pieces, j, 12);
                assert(v0[j] == wrap16(a));
                assert(v1[j] == wrap16(v0[j] + weight(w, f[0], j)));
                assert(v2[j] == wrap16(v1[j] + weight(w, f[1], j)));
                assert(values@[j] == wrap16(v2[j] + weight(w, f[2], j)));
                lemma_wrap16(a, weight(w, f[0], j));
                lemma_wrap16(a + weight(w, f[0], j), weight(w, f[1], j));
                lemma_wrap16(a + weight(w, f[0], j) + weight(w, f[1], j), weight(w, f[2], j));
            }
        }
        match perspective {
            Color::White => {
                self.white = values;
            },
            Color::Black => {
                self.black = values;
            },
        }
        self.needs_refresh[perspective.index()] = false;
    }

    /// Apply castling/en-passant state changes to both clean perspectives.
    pub fn update_state(
        &mut self,
        net: &NnueNetwork,
        white_king: Square,
        black_king: Square,
        old_castling: CastlingRights,
        old_en_passant: Option<Square>,
        new_castling: CastlingRights,
        new_en_passant: Option<Square>,
    )
        requires
            net.ok(),
            white_king.ok(),
            black_king.ok(),
        ensures
            final(self).needs_refresh == old(self).needs_refresh,
            forall|c: Color|
                old(self).stale(c) ==> #[trigger] final(self).half(c) == old(self).half(c),
            forall|c: Color, j: int|
                !old(self).stale(c) && 0 <= j < 1024 ==> #[trigger] final(self).half(c)[j] == wrap16(
                    old(self).half(c)[j] + state_sum(
                        net.ft_weights@,
                        state_features(c, white_king.0 as int, black_king.0 as int, new_castling, new_en_passant),
                        j,
                    ) - state_sum(
                        net.ft_weights@,
                        state_features(c, white_king.0 as int, black_king.0 as int, old_castling, old_en_passant),
                        j,
                    ),
                ),
    {
        let ghost start = *self;
        if !self.needs_refresh(Color::White) {
            let old_f = state_feature_indices(Color::White, white_king, black_king, old_castling, old_en_passant);
            let new_f = state_feature_indices(Color::White, white_king, black_king, new_castling, new_en_passant);
            replace_state(&mut self.white, net, &old_f, &new_f);
        }
        if !self.needs_refresh(Color::Black) {
            let old_f = state_feature_indices(Color::Black, white_king, black_king, old_castling, old_en_passant);
            let new_f = state_feature_indices(Color::Black, white_king, black_king, new_castling, new_en_passant);
            replace_state(&mut self.black, net, &old_f, &new_f);
        }
    }

    /// Add a piece's feature weights to both clean perspectives.
    pub fn add_piece(
        &mut self,
        net: &NnueNetwork,
        white_king: Square,
        black_king: Square,
        color: Color,
        kind: PieceKind,
        sq: Square,
    )
        requires
            net.ok(),
            white_king.ok(),
            black_king.ok(),
            sq.ok(),
        ensures
            final(self).needs_refresh == old(self).needs_refresh,
            forall|c: Color|
                old(self).stale(c) ==> #[trigger] final(self).half(c) == old(self).half(c),
            forall|c: Color, j: int|
                !old(self).stale(c) && 0 <= j < 1024 ==> #[trigger] final(self).half(c)[j] == wrap16(
                    old(self).half(c)[j] + weight(
                        net.ft_weights@,
                        feature_of(c, white_king.0 as int, black_king.0 as int, color, kind, sq.0 as int),
                        j,
                    ),
                ),
    {
        if !self.needs_refresh(Color::White) {
            let idx: usize = feature_index(Color::White, white_king, black_king, color, kind, sq);
            add_row(&mut self.white, &net.ft_weights[idx]);
        }
        if !self.needs_refresh(Color::Black) {
            let idx: usize = feature_index(Color::Black, white_king, black_king, color, kind, sq);
            add_row(&mut self.black, &net.ft_weights[idx]);
        }
    }

    /// Subtract a piece's feature weights from both clean perspectives.
    pub fn sub_piece(
        &mut self,
        net: &NnueNetwork,
        white_king: Square,
        black_king: Square,
        color: Color,
        kind: PieceKind,
        sq: Square,
    )
        requires
            net.ok(),
            white_king.ok(),
            black_king.ok(),
            sq.ok(),
        ensures
            final(self).needs_refresh == old(self).needs_refresh,
            forall|c: Color|
                old(self).stale(c) ==> #[trigger] final(self).half(c) == old(self).half(c),
            forall|c: Color, j: int|
                !old(self).stale(c) && 0 <= j < 1024 ==> #[trigger] final(self).half(c)[j] == wrap16(
                    old(self).half(c)[j] - weight(
                        net.ft_weights@,
                        feature_of(c, white_king.0 as int, black_king.0 as int, color, kind, sq.0 as int),
                        j,
                    ),
                ),
    {
        if !self.needs_refresh(Color::White) {
            let idx: usize = feature_index(Color::White, white_king, black_king, color, kind, sq);
            sub_row(&mut self.white, &net.ft_weights[idx]);
        }
        if !self.needs_refresh(Color::Black) {
            let idx: usize = feature_index(Color::Black, white_king, black_king, color, kind, sq);
            sub_row(&mut self.black, &net.ft_weights[idx]);
        }
    }
}

fn replace_state(values: &mut [i16; HIDDEN_SIZE], net: &NnueNetwork, old_f: &[usize; 3], new_f: &[usize; 3])
    requires
        net.ok(),
        forall|i: int| 0 <= i < 3 ==> #[trigger] old_f@[i] < 25120,
        forall|i: int| 0 <= i < 3 ==> #[trigger] new_f@[i] < 25120,
    ensures
        forall|j: int|
            0 <= j < 1024 ==> #[trigger] final(values)@[j] == wrap16(
                old(values)@[j] + weight(net.ft_weights@, new_f@[0] as int, j) + weight(
                    net.ft_weights@,
                    new_f@[1] as int,
                    j,
                ) + weight(net.ft_weights@, new_f@[2] as int, j) - weight(net.ft_weights@, old_f@[0] as int, j)
                    - weight(net.ft_weights@, old_f@[1] as int, j) - weight(net.ft_weights@, old_f@[2] as int, j),
            ),
{
    let ghost w = net.ft_weights@;
    let ghost v0 = values@;
    proof {
        assert(old_f@[0] < 25120 && old_f@[1] < 25120 && old_f@[2] < 25120);
        assert(new_f@[0] < 25120 && new_f@[1] < 25120 && new_f@[2] < 25120);
    }
    replace_feature(values, net, old_f[0], new_f[0]);
    let ghost v1 = values@;
    replace_feature(values, net, old_f[1], new_f[1]);
    let ghost v2 = values@;
    replace_feature(values, net, old_f[2], new_f[2]);
    proof {
        assert forall|j: int| 0 <= j < 1024 implies #[trigger] values@[j] == wrap16(
            v0[j] + weight(w, new_f@[0] as int, j) + weight(w, new_f@[1] as int, j) + weight(w, new_f@[2] as int, j)
                - weight(w, old_f@[0] as int, j) - weight(w, old_f@[1] as int, j) - weight(w, old_f@[2] as int, j),
        ) by {
            let d0 = weight(w, new_f@[0] as int, j) - weight(w, old_f@[0] as int, j);
            let d1 = weight(w, new_f@[1] as int, j) - weight(w, old_f@[1] as int, j);
            let d2 = weight(w, new_f@[2] as int, j) - weight(w, old_f@[2] as int, j);
            assert(v1[j] == wrap16(v0[j] + d0));
            assert(v2[j] == wrap16(v1[j] + d1));
            assert(values@[j] == wrap16(v2[j] + d2));
            lemma_wrap16(v0[j] + d0, d1);
            lemma_wrap16(v0[j] + d0 + d1, d2);
        }
    }
}

fn replace_feature(values: &mut [i16; HIDDEN_SIZE], net: &NnueNetwork, old_f: usize, new_f: usize)
    requires
        net.ok(),
        old_f < 25120,
        new_f < 25120,
    ensures
        forall|j: int|
            0 <= j < 1024 ==> #[trigger] final(values)@[j] == wrap16(
                old(values)@[j] + weight(net.ft_weights@, new_f as int, j) - weight(net.ft_weights@, old_f as int, j),
            ),
{
    if old_f != new_f {
        replace_row(values, &net.ft_weights[old_f], &net.ft_weights[new_f]);
    } else {
        proof {
            assert forall|j: int| 0 <= j < 1024 implies #[trigger] values@[j] == wrap16(
                old(values)@[j] + weight(net.ft_weights@, new_f as int, j) - weight(
                    net.ft_weights@,
                    old_f as int,
                    j,
                ),
            ) by {
                lemma_wrap16(old(values)@[j] as int, 0);
            }
        }
    }
}

proof fn lemma_pieces_sum_update(
    w: Seq<[i16; HIDDEN_SIZE]>,
    perspective: Color,
    wk: int,
    bk: int,
    pieces: Seq<Seq<Bitboard>>,
    c: int,
    k: int,
    v: Bitboard,
    d: int,
    j: int,
    n: int,
)
    requires
        0 <= c < 2,
        0 <= k < 6,
        0 <= n <= 12,
        pieces.len() == 2,
        pieces[0].len() == 6,
        pieces[1].len() == 6,
        set_sum(w, perspective, wk, bk, color_at(c), kind_at(k), v.0, j, 64) == set_sum(
            w,
            perspective,
            wk,
            bk,
            color_at(c),
            kind_at(k),
            pieces[c][k].0,
            j,
            64,
        ) + d,
    ensures
        n <= c * 6 + k ==> pieces_sum(w, perspective, wk, bk, pieces.update(c, pieces[c].update(k, v)), j, n)
            == pieces_sum(w, perspective, wk, bk, pieces, j, n),
        n > c * 6 + k ==> pieces_sum(w, perspective, wk, bk, pieces.update(c, pieces[c].update(k, v)), j, n)
            == pieces_sum(w, perspective, wk, bk, pieces, j, n) + d,
    decreases n,
{
    if n > 0 {
        lemma_pieces_sum_update(w, perspective, wk, bk, pieces, c, k, v, d, j, n - 1);
        let new = pieces.update(c, pieces[c].update(k, v));
        let cc = (n - 1) / 6;
        let kk = (n - 1) % 6;
        if n - 1 == c * 6 + k {
            assert(cc == c && kk == k);
        } else {
            assert(!(cc == c && kk == k));
            assert(new[cc][kk] == pieces[cc][kk]);
        }
    }
}

/// Putting a piece other than a king on an empty square changes a cell of the
/// refreshed accumulator by the weight that `add_piece` adds.
pub proof fn law_put_matches_add(net: NnueNetwork, p: Position, sq: int, piece: Piece, perspective: Color, j: int)
    requires
        p.consistent(),
        0 <= sq < 64,
        p.mailbox[sq] is None,
        piece.kind != PieceKind::King,
        0 <= j < 1024,
    ensures
        cell(net, p.put(sq, piece), perspective, j) == wrap16(
            cell(net, p, perspective, j) + weight(
                net.ft_weights@,
                feature_of(
                    perspective,
                    p.king_at(Color::White),
                    p.king_at(Color::Black),
                    piece.color,
                    piece.kind,
                    sq,
                ),
                j,
            ),
        ),
{
    broadcast use group_bits;
    let w = net.ft_weights@;
    let q = p.put(sq, piece);
    let wk = p.king_at(Color::White);
    let bk = p.king_at(Color::Black);
    let c = piece.color.idx();
    let k = piece.kind.idx();
    assert(color_at(c) == piece.color && kind_at(k) == piece.kind);
    assert(q.king_at(Color::White) == wk && q.king_at(Color::Black) == bk);
    let x = p.pieces[c][k];
    let y = with_square(x, sq);
    assert(!x.has(sq)) by {
        assert(p.pieces[c][k].has(sq) <==> p.mailbox[sq] == Some(Piece { kind: kind_at(k), color: color_at(c) }));
    }
    let d = weight(w, feature_of(perspective, wk, bk, piece.color, piece.kind, sq), j);
    lemma_set_sum_add(w, perspective, wk, bk, piece.color, piece.kind, x.0, y.0, sq, j, 64);
    lemma_pieces_sum_update(w, perspective, wk, bk, p.pieces, c, k, y, d, j, 12);
    let s = state_sum(w, position_state_features(p, perspective), j);
    let a = net.ft_biases@[j] + pieces_sum(w, perspective, wk, bk, p.pieces, j, 12) + s;
    lemma_wrap16(a, d);
}

/// Taking a piece other than a king off the board changes a cell of the
/// refreshed accumulator by the weight that `sub_piece` subtracts.
pub proof fn law_take_matches_sub(net: NnueNetwork, p: Position, sq: int, piece: Piece, perspective: Color, j: int)
    requires
        p.consistent(),
        0 <= sq < 64,
        p.mailbox[sq] == Some(piece),
        piece.kind != PieceKind::King,
        0 <= j < 1024,
    ensures
        cell(net, p.take(sq, piece), perspective, j) == wrap16(
            cell(net, p, perspective, j) - weight(
                net.ft_weights@,
                feature_of(
                    perspective,
                    p.king_at(Color::White),
                    p.king_at(Color::Black),
                    piece.color,
                    piece.kind,
                    sq,
                ),
                j,
            ),
        ),
{
    broadcast use group_bits;
    let w = net.ft_weights@;
    let q = p.take(sq, piece);
    let wk = p.king_at(Color::White);
    let bk = p.king_at(Color::Black);
    let c = piece.color.idx();
    let k = piece.kind.idx();
    assert(color_at(c) == piece.color && kind_at(k) == piece.kind);
    assert(q.king_at(Color::White) == wk && q.king_at(Color::Black) == bk);
    let x = p.pieces[c][k];
    let y = without_square(x, sq);
    assert(x.has(sq)) by {
        assert(p.pieces[c][k].has(sq) <==> p.mailbox[sq] == Some(Piece { kind: kind_at(k), color: color_at(c) }));
    }
    let d = weight(w, feature_of(perspective, wk, bk, piece.color, piece.kind, sq), j);
    lemma_set_sum_add(w, perspective, wk, bk, piece.color, piece.kind, y.0, x.0, sq, j, 64);
    lemma_pieces_sum_update(w, perspective, wk, bk, p.pieces, c, k, y, -d, j, 12);
    let s = state_sum(w, position_state_features(p, perspective), j);
    let a = net.ft_biases@[j] + pieces_sum(w, perspective, wk, bk, p.pieces, j, 12) + s;
    lemma_wrap16(a, -d);
}

/// Changing castling rights and en-passant target changes a cell of the
/// refreshed accumulator by what `update_state` applies.
pub proof fn law_state_change_matches_update(
    net: NnueNetwork,
    p: Position,
    castling: CastlingRights,
    ep: Option<Square>,
    perspective: Color,
    j: int,
)
    requires
        0 <= j < 1024,
    ensures
        cell(net, Position { castling, ep, ..p }, perspective, j) == wrap16(
            cell(net, p, perspective, j) + state_sum(
                net.ft_weights@,
                state_features(perspective, p.king_at(Color::White), p.king_at(Color::Black), castling, ep),
                j,
            ) - state_sum(net.ft_weights@, position_state_features(p, perspective), j),
        ),
{
    let w = net.ft_weights@;
    let q = Position { castling, ep, ..p };
    let wk = p.king_at(Color::White);
    let bk = p.king_at(Color::Black);
    assert(q.king_at(Color::White) == wk && q.king_at(Color::Black) == bk);
    let s1 = state_sum(w, position_state_features(p, perspective), j);
    let s2 = state_sum(w, position_state_features(q, perspective), j);
    let a = net.ft_biases@[j] + pieces_sum(w, perspective, wk, bk, p.pieces, j, 12);
    lemma_wrap16(a + s1, s2 - s1);
}

/// Adding a row and subtracting it again gives the old value.
pub proof fn law_add_then_subtract(v: i16, delta: int)
    ensures
        wrap16(wrap16(v + delta) - delta) == v,
{
    lemma_wrap16(v + delta, -delta);
    lemma_wrap16(v as int, 0);
}

} // verus!
