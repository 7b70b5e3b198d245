//! Magic bitboard attack tables for sliding pieces.
//!
//! A table maps the occupancy of the squares that matter for a slider, hashed
//! by a multiplication, to the squares that it attacks. The multipliers are
//! found by trial with a fixed-seed generator: the first that serves is taken,
//! however late it comes.

use vstd::prelude::*;
use crate::attacks::{bishop_hits, is_square, lemma_ray_convex, ray_hits, ray_on_board, ray_open, ray_square, rook_hits};
use crate::bits::{bit, group_bits, lemma_bits_extensional, lemma_lowest, lemma_squares_members, lemma_word_of, popcount, squares, word_of};
use crate::types::{Bitboard, Square};

verus! {

/// What a bishop or rook on a square attacks.
pub open spec fn slider_hits(is_bishop: bool, occ: u64, sq: int, t: int) -> bool {
    if is_bishop { bishop_hits(occ, sq, t) } else { rook_hits(occ, sq, t) }
}

/// A square that is not the last on its ray: what stands there matters.
pub open spec fn ray_inner(sq: int, df: int, dr: int, t: int) -> bool {
    exists|n: int| 1 <= n < 8 && #[trigger] ray_on_board(sq, df, dr, n + 1) && t == ray_square(sq, df, dr, n)
}

/// A square whose occupancy matters for a slider.
pub open spec fn matters(is_bishop: bool, sq: int, t: int) -> bool {
    if is_bishop {
        ||| ray_inner(sq, 1, 1, t)
        ||| ray_inner(sq, 1, -1, t)
        ||| ray_inner(sq, -1, 1, t)
        ||| ray_inner(sq, -1, -1, t)
    } else {
        ||| ray_inner(sq, 0, 1, t)
        ||| ray_inner(sq, 0, -1, t)
        ||| ray_inner(sq, 1, 0, t)
        ||| ray_inner(sq, -1, 0, t)
    }
}

/// All squares whose occupancy matters for a slider.
pub open spec fn relevant(is_bishop: bool, sq: int) -> u64 {
    word_of(|t: int| matters(is_bishop, sq, t))
}

/// Bishop attacks from `sq` given `occupancy` (all pieces).
pub fn bishop_attacks(sq: Square, occupancy: Bitboard) -> (r: Bitboard)
    requires
        sq.ok(),
    ensures
        forall|t: int| #[trigger] r.has(t) == bishop_hits(occupancy.0, sq.0 as int, t),
{
    crate::attacks::bishop_attacks(sq, occupancy)
}

/// Rook attacks from `sq` given `occupancy` (all pieces).
pub fn rook_attacks(sq: Square, occupancy: Bitboard) -> (r: Bitboard)
    requires
        sq.ok(),
    ensures
        forall|t: int| #[trigger] r.has(t) == rook_hits(occupancy.0, sq.0 as int, t),
{
    crate::attacks::rook_attacks(sq, occupancy)
}

/// Compute sliding piece attacks by walking along the rays.
pub fn sliding_attacks_reference(sq: usize, occupancy: u64, is_bishop: bool) -> (r: u64)
    requires
        sq < 64,
    ensures
        forall|t: int| #[trigger] bit(r, t) == slider_hits(is_bishop, occupancy, sq as int, t),
{
    let s = Square(sq as u8);
    let occ = Bitboard(occupancy);
    if is_bishop {
        crate::attacks::bishop_attacks(s, occ).0
    } else {
        crate::attacks::rook_attacks(s, occ).0
    }
}

/// The squares of one ray without its last.
fn inner_ray(sq: usize, df: i8, dr: i8) -> (r: Bitboard)
    requires
        sq < 64,
        -1 <= df <= 1,
        -1 <= dr <= 1,
        df != 0 || dr != 0,
    ensures
        forall|t: int| #[trigger] r.has(t) == ray_inner(sq as int, df as int, dr as int, t),
{
    let mut mask = Bitboard(0);
    let mut f: i8 = (sq % 8) as i8 + df;
    let mut k: i8 = (sq / 8) as i8 + dr;
    let ghost s = sq as int;
    let ghost d = df as int;
    let ghost e = dr as int;
    let ghost mut n: int = 1;
    proof {
        broadcast use group_bits;
        assert(1 * d == d && 1 * e == e);
    }
    while 0 <= f + df && f + df < 8 && 0 <= k + dr && k + dr < 8
        invariant
            sq < 64,
            s == sq,
            d == df,
            e == dr,
            -1 <= df <= 1,
            -1 <= dr <= 1,
            df != 0 || dr != 0,
            1 <= n <= 8,
            f == s % 8 + n * d,
            k == s / 8 + n * e,
            -1 <= f <= 8,
            -1 <= k <= 8,
            forall|j: int| 1 <= j < n ==> #[trigger] ray_on_board(s, d, e, j + 1),
            forall|t: int| #[trigger]
                mask.has(t) == (exists|j: int| 1 <= j < n && t == #[trigger] ray_square(s, d, e, j)),
        decreases 9 - n,
    {
        proof {
            assert((n + 1) * d == n * d + d) by (nonlinear_arith);
            assert((n + 1) * e == n * e + e) by (nonlinear_arith);
            assert(ray_on_board(s, d, e, n + 1));
            lemma_ray_convex(s, d, e, n, n + 1);
            lemma_step_bound(s, d, e, n + 1);
        }
        let target = Square::new(f as u8, k as u8);
        let ghost before = mask;
        mask = mask.set(target);
        proof {
            assert(target.0 == ray_square(s, d, e, n));
            assert forall|t: int| #[trigger] mask.has(t) == (exists|j: int|
                1 <= j < n + 1 && t == #[trigger] ray_square(s, d, e, j)) by {
                if mask.has(t) {
                    if t == target.0 {
                        assert(t == ray_square(s, d, e, n));
                    } else {
                        assert(before.has(t));
                        let j = choose|j: int| 1 <= j < n && t == #[trigger] ray_square(s, d, e, j);
                        assert(1 <= j < n + 1);
                    }
                }
                if exists|j: int| 1 <= j < n + 1 && t == #[trigger] ray_square(s, d, e, j) {
                    let j = choose|j: int| 1 <= j < n + 1 && t == #[trigger] ray_square(s, d, e, j);
                    if j < n {
                        assert(before.has(t));
                    }
                }
            }
            assert forall|j: int| 1 <= j < n + 1 implies #[trigger] ray_on_board(s, d, e, j + 1) by {
                if j < n {
                } else {
                    assert(j == n);
                }
            }
        }
        f = f + df;
        k = k + dr;
        proof {
            n = n + 1;
        }
    }
    proof {
        assert((n + 1) * d == n * d + d) by (nonlinear_arith);
        assert((n + 1) * e == n * e + e) by (nonlinear_arith);
        assert forall|t: int| #[trigger] mask.has(t) == ray_inner(s, d, e, t) by {
            if mask.has(t) {
                let j = choose|j: int| 1 <= j < n && t == #[trigger] ray_square(s, d, e, j);
                assert(ray_on_board(s, d, e, j + 1));
            }
            if ray_inner(s, d, e, t) {
                let j = choose|j: int| 1 <= j < 8 && #[trigger] ray_on_board(s, d, e, j + 1) && t == ray_square(s, d, e, j);
                if j >= n {
                    lemma_ray_convex(s, d, e, n + 1, j + 1);
                    assert(false);
                }
            }
        }
    }
    mask
}

/// A step that is on the board is at most seven.
proof fn lemma_step_bound(sq: int, df: int, dr: int, n: int)
    requires
        is_square(sq),
        -1 <= df <= 1,
        -1 <= dr <= 1,
        df != 0 || dr != 0,
        n >= 0,
        ray_on_board(sq, df, dr, n),
    ensures
        n < 8,
{
    if df == 1 {
        assert(n * df == n) by (nonlinear_arith)
            requires
                df == 1,
        ;
    } else if df == -1 {
        assert(n * df == -n) by (nonlinear_arith)
            requires
                df == -1,
        ;
    } else if dr == 1 {
        assert(n * dr == n) by (nonlinear_arith)
            requires
                dr == 1,
        ;
    } else {
        assert(n * dr == -n) by (nonlinear_arith)
            requires
                dr == -1,
        ;
    }
}

/// Compute the relevant occupancy mask for a square: the last square of each
/// ray does not change what is attacked.
pub fn relevant_mask(sq: usize, is_bishop: bool) -> (r: u64)
    requires
        sq < 64,
    ensures
        r == relevant(is_bishop, sq as int),
        forall|t: int| #[trigger] bit(r, t) == matters(is_bishop, sq as int, t),
{
    broadcast use group_bits;
    let r = if is_bishop {
        inner_ray(sq, 1, 1) | inner_ray(sq, 1, -1) | inner_ray(sq, -1, 1) | inner_ray(sq, -1, -1)
    } else {
        inner_ray(sq, 0, 1) | inner_ray(sq, 0, -1) | inner_ray(sq, 1, 0) | inner_ray(sq, -1, 0)
    };
    proof {
        lemma_word_of(|t: int| matters(is_bishop, sq as int, t));
        lemma_bits_extensional(r.0, relevant(is_bishop, sq as int));
    }
    r.0
}

proof fn lemma_ray_masked(occ: u64, mask: u64, sq: int, df: int, dr: int, t: int)
    requires
        is_square(sq),
        -1 <= df <= 1,
        -1 <= dr <= 1,
        df != 0 || dr != 0,
        forall|i: int| ray_inner(sq, df, dr, i) ==> #[trigger] bit(mask, i),
    ensures
        ray_hits(occ & mask, sq, df, dr, t) == ray_hits(occ, sq, df, dr, t),
{
    broadcast use group_bits;
    if ray_hits(occ, sq, df, dr, t) {
        let n = choose|n: int| 1 <= n < 8 && #[trigger] ray_open(occ, sq, df, dr, n) && t == ray_square(sq, df, dr, n);
        assert(ray_open(occ & mask, sq, df, dr, n));
    }
    if ray_hits(occ & mask, sq, df, dr, t) {
        let n = choose|n: int|
            1 <= n < 8 && #[trigger] ray_open(occ & mask, sq, df, dr, n) && t == ray_square(sq, df, dr, n);
        assert forall|k: int| 1 <= k < n implies !bit(occ, #[trigger] ray_square(sq, df, dr, k)) by {
            lemma_ray_convex(sq, df, dr, k + 1, n);
            assert(ray_on_board(sq, df, dr, k + 1));
            assert(ray_inner(sq, df, dr, ray_square(sq, df, dr, k)));
            assert(bit(mask, ray_square(sq, df, dr, k)));
        }
        assert(ray_open(occ, sq, df, dr, n));
    }
}

/// Only the occupancy of the relevant squares decides what a slider attacks.
pub proof fn law_relevant_occupancy_decides(is_bishop: bool, occ: u64, mask: u64, sq: int, t: int)
    requires
        is_square(sq),
        forall|i: int| #[trigger] bit(mask, i) == matters(is_bishop, sq, i),
    ensures
        slider_hits(is_bishop, occ & mask, sq, t) == slider_hits(is_bishop, occ, sq, t),
{
    if is_bishop {
        lemma_ray_masked(occ, mask, sq, 1, 1, t);
        lemma_ray_masked(occ, mask, sq, 1, -1, t);
        lemma_ray_masked(occ, mask, sq, -1, 1, t);
        lemma_ray_masked(occ, mask, sq, -1, -1, t);
    } else {
        lemma_ray_masked(occ, mask, sq, 0, 1, t);
        lemma_ray_masked(occ, mask, sq, 0, -1, t);
        lemma_ray_masked(occ, mask, sq, 1, 0, t);
        lemma_ray_masked(occ, mask, sq, -1, 0, t);
    }
}

// Subsets of a mask.
/// The subset of a mask that follows in the enumeration.
pub open spec fn next_subset(s: u64, mask: u64) -> u64 {
    s.wrapping_sub(mask) & mask
}

proof fn lemma_next_subset(s: u64, mask: u64, t: u64)
    requires
        s & mask == s,
        t & mask == t,
    ensures
        next_subset(s, mask) & mask == next_subset(s, mask),
        s == mask ==> next_subset(s, mask) == 0,
        s != mask ==> next_subset(s, mask) > s,
        t > s ==> next_subset(s, mask) <= t && s != mask,
        t <= mask,
{
    let d = s.wrapping_sub(mask);
    assert(s & mask == s ==> s <= mask) by (bit_vector);
    let e = (mask - s) as u64;
    assert(s & mask == s && t & mask == t && s <= mask && e == (mask - s) as u64 ==> ({
        let n = ((!e) + 1) as u64 & mask;
        &&& n & mask == n
        &&& s == mask ==> n == 0
        &&& s != mask ==> n > s
        &&& t > s ==> n <= t && s != mask
        &&& t <= mask
    })) by (bit_vector);
    assert(d == ((!e) + 1) as u64) by {
        lemma_negate(e);
    }
}

proof fn lemma_negate(e: u64)
    ensures
        e == 0 ==> ((!e) + 1) as u64 == 0,
        e != 0 ==> ((!e) + 1) as u64 == 0x1_0000_0000_0000_0000 - e,
{
    assert((e == 0 ==> ((!e) + 1) as u64 == 0) && (e != 0 ==> ((!e) + 1) as u64 == 0x1_0000_0000_0000_0000 - e))
        by (bit_vector);
}

/// Enumerate all subsets of a mask, in ascending order.
pub fn enumerate_subsets(mask: u64) -> (r: Vec<u64>)
    ensures
        forall|t: u64| t & mask == t <==> #[trigger] r@.contains(t),
        forall|i: int, j: int| 0 <= i < j < r@.len() ==> r@[i] < r@[j],
{
    let mut subsets: Vec<u64> = Vec::new();
    let mut subset: u64 = 0;
    let mut done = false;
    assert(0u64 & mask == 0) by (bit_vector);
    while !done
        invariant
            !done ==> subset & mask == subset,
            forall|i: int| 0 <= i < subsets@.len() ==> #[trigger] subsets@[i] & mask == subsets@[i],
            forall|i: int, j: int| 0 <= i < j < subsets@.len() ==> subsets@[i] < subsets@[j],
            !done ==> forall|i: int| 0 <= i < subsets@.len() ==> #[trigger] subsets@[i] < subset,
            !done ==> forall|t: u64| t & mask == t && t < subset ==> #[trigger] subsets@.contains(t),
            done ==> forall|t: u64| t & mask == t ==> #[trigger] subsets@.contains(t),
        decreases (if done { 0int } else { 0x1_0000_0000_0000_0001 - subset }),
    {
        let ghost before = subsets@;
        subsets.push(subset);
        let next: u64 = subset.wrapping_sub(mask) & mask;
        proof {
            lemma_next_subset(subset, mask, subset);
            assert forall|t: u64| t & mask == t && t <= subset implies #[trigger] subsets@.contains(t) by {
                if t == subset {
                    assert(subsets@[before.len() as int] == t);
                } else {
                    assert(before.contains(t));
                    let k = choose|k: int| 0 <= k < before.len() && before[k] == t;
                    assert(subsets@[k] == t);
                }
            }
            if subset == mask {
                assert forall|t: u64| t & mask == t implies #[trigger] subsets@.contains(t) by {
                    lemma_next_subset(t, mask, t);
                }
            } else {
                assert forall|t: u64| t & mask == t && t < next implies #[trigger] subsets@.contains(t) by {
                    lemma_next_subset(subset, mask, t);
                }
            }
        }
        if next == 0 {
            done = true;
        } else {
            subset = next;
        }
    }
    proof {
        assert forall|t: u64| t & mask == t <==> #[trigger] subsets@.contains(t) by {
            if subsets@.contains(t) {
                let k = choose|k: int| 0 <= k < subsets@.len() && subsets@[k] == t;
                assert(subsets@[k] & mask == subsets@[k]);
            }
        }
    }
    subsets
}

// Multipliers.
/// A deterministic generator of trial multipliers.
pub struct Rng {
    state: u64,
}

/// The state that follows a state.
pub open spec fn rng_step(s: u64) -> u64 {
    let a = s ^ (s >> 12);
    let b = a ^ (a << 25);
    b ^ (b >> 27)
}

impl Rng {
    pub closed spec fn seed(&self) -> u64 {
        self.state
    }

    pub fn new(seed: u64) -> (r: Self)
        ensures
            r.seed() == seed,
    {
        Rng { state: seed }
    }

    /// The next random word.
    pub fn next(&mut self) -> (r: u64)
        ensures
            final(self).seed() == rng_step(old(self).seed()),
            r == rng_step(old(self).seed()).wrapping_mul(0x2545_F491_4F6C_DD1D),
    {
        let mut s: u64 = self.state;
        s = s ^ (s >> 12);
        s = s ^ (s << 25);
        s = s ^ (s >> 27);
        self.state = s;
        s.wrapping_mul(0x2545_F491_4F6C_DD1D)
    }

    /// A word with few bits set, a good multiplier to try.
    pub fn sparse(&mut self) -> (r: u64)
        ensures
            final(self).seed() == after_draw(old(self).seed()),
            r == draw_of(old(self).seed()),
    {
        let a: u64 = self.next();
        let b: u64 = self.next();
        let c: u64 = self.next();
        a & b & c
    }
}

/// The word of a state.
pub open spec fn word_for(s: u64) -> u64 {
    s.wrapping_mul(0x2545_F491_4F6C_DD1D)
}

/// The multiplier that is drawn in a state: few of its bits are set.
pub open spec fn draw_of(s: u64) -> u64 {
    word_for(rng_step(s)) & word_for(rng_step(rng_step(s))) & word_for(after_draw(s))
}

/// The state after a draw.
pub open spec fn after_draw(s: u64) -> u64 {
    rng_step(rng_step(rng_step(s)))
}

/// The first multiplier among a number of draws that is good, and the state
/// after it.
pub open spec fn first_draw(good: spec_fn(u64) -> bool, seed: u64, trials: int) -> (Option<u64>, u64)
    decreases trials,
{
    if trials <= 0 {
        (None, seed)
    } else if good(draw_of(seed)) {
        (Some(draw_of(seed)), after_draw(seed))
    } else {
        first_draw(good, after_draw(seed), trials - 1)
    }
}

/// The number of states that a generator can be in.
pub const STATES: u128 = 0x1_0000_0000_0000_0000;

/// The state after a number of draws.
pub open spec fn state_at(seed: u64, n: int) -> u64
    decreases n,
{
    if n <= 0 { seed } else { after_draw(state_at(seed, n - 1)) }
}

proof fn lemma_state_shift(seed: u64, n: int)
    requires
        n >= 0,
    ensures
        state_at(after_draw(seed), n) == state_at(seed, n + 1),
    decreases n,
{
    if n > 0 {
        lemma_state_shift(seed, n - 1);
    } else {
        assert(state_at(seed, 0) == seed);
        assert(state_at(seed, 1) == after_draw(state_at(seed, 0)));
    }
}

proof fn lemma_first_draw(good: spec_fn(u64) -> bool, seed: u64, trials: int)
    ensures
        first_draw(good, seed, trials).0 is None <==> forall|k: int|
            0 <= k < trials ==> !good(draw_of(#[trigger] state_at(seed, k))),
    decreases trials,
{
    if trials > 0 {
        let next = after_draw(seed);
        lemma_first_draw(good, next, trials - 1);
        assert(state_at(seed, 0) == seed);
        if forall|k: int| 0 <= k < trials ==> !good(draw_of(#[trigger] state_at(seed, k))) {
            assert forall|k: int| 0 <= k < trials - 1 implies !good(draw_of(#[trigger] state_at(next, k))) by {
                lemma_state_shift(seed, k);
                assert(!good(draw_of(state_at(seed, k + 1))));
            }
        }
        if !good(draw_of(seed)) && first_draw(good, next, trials - 1).0 is None {
            assert forall|k: int| 0 <= k < trials implies !good(draw_of(#[trigger] state_at(seed, k))) by {
                if k > 0 {
                    lemma_state_shift(seed, k - 1);
                    assert(!good(draw_of(state_at(next, k - 1))));
                }
            }
        }
    }
}

/// Among one more state than there are, two are the same.
proof fn lemma_states_repeat(seed: u64) -> (r: (int, int))
    ensures
        0 <= r.0 < r.1 <= STATES,
        state_at(seed, r.0) == state_at(seed, r.1),
{
    let n = STATES as int;
    let s = Seq::new((n + 1) as nat, |k: int| state_at(seed, k) as int);
    if s.no_duplicates() {
        s.unique_seq_to_set();
        let all = vstd::set_lib::set_int_range(0, n);
        vstd::set_lib::lemma_int_range(0, n);
        assert forall|x: int| s.to_set().contains(x) implies all.contains(x) by {
            let k = choose|k: int| 0 <= k < s.len() && s[k] == x;
            assert(x == state_at(seed, k) as int);
        }
        vstd::set_lib::lemma_len_subset(s.to_set(), all);
        assert(false);
    }
    let (i, j) = choose|i: int, j: int| 0 <= i < s.len() && 0 <= j < s.len() && i != j && s[i] == s[j];
    assert(s[i] == state_at(seed, i) as int && s[j] == state_at(seed, j) as int);
    if i < j { (i, j) } else { (j, i) }
}

proof fn lemma_states_cycle(seed: u64, a: int, b: int, k: int)
    requires
        0 <= a <= b <= k,
        state_at(seed, a) == state_at(seed, b),
    ensures
        state_at(seed, k) == state_at(seed, k - (b - a)),
    decreases k,
{
    if k > b {
        lemma_states_cycle(seed, a, b, k - 1);
    }
}

proof fn lemma_state_early(seed: u64, k: int) -> (j: int)
    requires
        0 <= k,
    ensures
        0 <= j < STATES,
        state_at(seed, j) == state_at(seed, k),
    decreases k,
{
    if k < STATES {
        k
    } else {
        let (a, b) = lemma_states_repeat(seed);
        lemma_states_cycle(seed, a, b, k);
        lemma_state_early(seed, k - (b - a))
    }
}

/// A search as long as the generator has states misses nothing: if it finds no
/// good multiplier, none is ever drawn.
pub proof fn law_search_is_exhaustive(good: spec_fn(u64) -> bool, seed: u64, trials: int)
    requires
        first_draw(good, seed, STATES as int).0 is None,
    ensures
        first_draw(good, seed, trials).0 is None,
{
    lemma_first_draw(good, seed, STATES as int);
    lemma_first_draw(good, seed, trials);
    assert forall|k: int| 0 <= k < trials implies !good(draw_of(#[trigger] state_at(seed, k))) by {
        let j = lemma_state_early(seed, k);
        assert(!good(draw_of(state_at(seed, j))));
    }
}

/// The table index of an occupancy.
pub open spec fn magic_index(occ: u64, magic: u64, shift: u64) -> int {
    (occ.wrapping_mul(magic) >> shift) as int
}

/// A multiplier serves: occupancies that share an index share their attacks.
pub open spec fn serves(subsets: Seq<u64>, reference: Seq<u64>, magic: u64, shift: u64) -> bool {
    forall|i: int, j: int|
        0 <= i < subsets.len() && 0 <= j < subsets.len() && #[trigger] magic_index(subsets[i], magic, shift)
            == #[trigger] magic_index(subsets[j], magic, shift) ==> reference[i] == reference[j]
}

proof fn lemma_index_fits(x: u64, shift: u64)
    requires
        1 <= shift < 64,
    ensures
        (x >> shift) < (1u64 << ((64 - shift) as u64)),
        (1u64 << ((64 - shift) as u64)) > 0,
{
    assert(1 <= shift && shift < 64 ==> (x >> shift) < (1u64 << ((64 - shift) as u64))) by (bit_vector);
}

/// A multiplier spreads enough bits of the mask into the top byte.
pub open spec fn spreads(mask: u64, magic: u64) -> bool {
    popcount(mask.wrapping_mul(magic) & 0xFF00_0000_0000_0000) >= 6
}

/// The multipliers that are taken for the given subsets.
pub open spec fn taken_for(subsets: Seq<u64>, reference: Seq<u64>, mask: u64, shift: u64) -> spec_fn(u64) -> bool {
    |magic: u64| spreads(mask, magic) && serves(subsets, reference, magic, shift)
}

/// The first multiplier among a number of draws that serves, and the state of
/// the generator after it.
pub open spec fn first_serving(
    subsets: Seq<u64>,
    reference: Seq<u64>,
    mask: u64,
    shift: u64,
    seed: u64,
    trials: int,
) -> (Option<u64>, u64) {
    first_draw(taken_for(subsets, reference, mask, shift), seed, trials)
}

/// Whether a multiplier serves for the given subsets. `used` is room for a
/// table.
fn try_magic(subsets: &Vec<u64>, reference: &Vec<u64>, magic: u64, shift: u64, used: &mut Vec<u64>) -> (r: bool)
    requires
        subsets@.len() == reference@.len(),
        1 <= shift < 64,
        old(used)@.len() == 1u64 << ((64 - shift) as u64),
        forall|i: int| 0 <= i < reference@.len() ==> #[trigger] reference@[i] != u64::MAX,
    ensures
        r == serves(subsets@, reference@, magic, shift),
        final(used)@.len() == old(used)@.len(),
{
    // No slider attacks every square, so the full board marks a free slot.
    let mut n: usize = 0;
    let size: usize = used.len();
    while n < size
        invariant
            n <= size,
            size == old(used)@.len(),
            used@.len() == size,
            forall|i: int| 0 <= i < n ==> #[trigger] used@[i] == u64::MAX,
        decreases size - n,
    {
        used[n] = u64::MAX;
        n = n + 1;
    }
    let mut i: usize = 0;
    while i < subsets.len()
        invariant
            i <= subsets@.len(),
            subsets@.len() == reference@.len(),
            1 <= shift < 64,
            size == 1u64 << ((64 - shift) as u64),
            size == old(used)@.len(),
            used@.len() == size,
            forall|k: int| 0 <= k < reference@.len() ==> #[trigger] reference@[k] != u64::MAX,
            forall|k: int| 0 <= k < i ==> used@[#[trigger] magic_index(subsets@[k], magic, shift)] == reference@[k],
            forall|k: int|
                0 <= k < i ==> 0 <= #[trigger] magic_index(subsets@[k], magic, shift) < size,
            forall|x: int| 0 <= x < size && #[trigger] used@[x] != u64::MAX ==> exists|k: int|
                0 <= k < i && #[trigger] magic_index(subsets@[k], magic, shift) == x,
        decreases subsets@.len() - i,
    {
        proof {
            lemma_index_fits(subsets@[i as int].wrapping_mul(magic), shift);
        }
        let idx: usize = (subsets[i].wrapping_mul(magic) >> shift) as usize;
        let ghost before = used@;
        if used[idx] == u64::MAX {
            used[idx] = reference[i];
        } else if used[idx] != reference[i] {
            proof {
                assert(used@[idx as int] != u64::MAX);
                let k = choose|k: int| 0 <= k < i && #[trigger] magic_index(subsets@[k], magic, shift) == idx;
                assert(magic_index(subsets@[i as int], magic, shift) == idx);
                assert(reference@[k] != reference@[i as int]);
            }
            return false;
        }
        proof {
            assert(magic_index(subsets@[i as int], magic, shift) == idx);
            assert forall|k: int| 0 <= k < i + 1 implies used@[#[trigger] magic_index(subsets@[k], magic, shift)]
                == reference@[k] by {
                if k < i {
                    assert(before[magic_index(subsets@[k], magic, shift)] == reference@[k]);
                    assert(reference@[k] != u64::MAX);
                } else {
                    assert(magic_index(subsets@[k], magic, shift) == idx);
                }
            }
            assert forall|x: int| 0 <= x < size && #[trigger] used@[x] != u64::MAX implies exists|k: int|
                0 <= k < i + 1 && #[trigger] magic_index(subsets@[k], magic, shift) == x by {
                if x == idx {
                    assert(magic_index(subsets@[i as int], magic, shift) == x);
                } else {
                    assert(before[x] != u64::MAX);
                    let k = choose|k: int| 0 <= k < i && #[trigger] magic_index(subsets@[k], magic, shift) == x;
                    assert(0 <= k < i + 1);
                }
            }
        }
        i = i + 1;
    }
    proof {
        assert forall|a: int, b: int|
            0 <= a < subsets@.len() && 0 <= b < subsets@.len() && #[trigger] magic_index(subsets@[a], magic, shift)
                == #[trigger] magic_index(subsets@[b], magic, shift) implies reference@[a] == reference@[b] by {}
    }
    true
}

/// Find the first multiplier that the generator draws and that serves. There is
/// none only if none is ever drawn.
pub fn find_magic(
    subsets: &Vec<u64>,
    reference: &Vec<u64>,
    mask: u64,
    shift: u64,
    table_size: usize,
    rng: &mut Rng,
) -> (r: Option<u64>)
    requires
        subsets@.len() == reference@.len(),
        1 <= shift < 64,
        table_size == 1u64 << ((64 - shift) as u64),
        forall|i: int| 0 <= i < reference@.len() ==> #[trigger] reference@[i] != u64::MAX,
    ensures
        (r, final(rng).seed()) == first_serving(subsets@, reference@, mask, shift, old(rng).seed(), STATES as int),
        r is Some ==> serves(subsets@, reference@, r->Some_0, shift),
        r is None ==> forall|trials: int|
            (#[trigger] first_serving(subsets@, reference@, mask, shift, old(rng).seed(), trials)).0 is None,
{
    let ghost good = taken_for(subsets@, reference@, mask, shift);
    let ghost seed = rng.seed();
    let mut used: Vec<u64> = Vec::new();
    let mut n: usize = 0;
    while n < table_size
        invariant
            n <= table_size,
            used@.len() == n,
        decreases table_size - n,
    {
        used.push(u64::MAX);
        n = n + 1;
    }
    let mut left: u128 = STATES;
    while left > 0
        invariant
            good == taken_for(subsets@, reference@, mask, shift),
            seed == old(rng).seed(),
            left <= STATES,
            first_draw(good, rng.seed(), left as int) == first_draw(good, seed, STATES as int),
            used@.len() == table_size,
            subsets@.len() == reference@.len(),
            1 <= shift < 64,
            table_size == 1u64 << ((64 - shift) as u64),
            forall|i: int| 0 <= i < reference@.len() ==> #[trigger] reference@[i] != u64::MAX,
        decreases left,
    {
        left = left - 1;
        let magic: u64 = rng.sparse();
        if Bitboard(mask.wrapping_mul(magic) & 0xFF00_0000_0000_0000).count() >= 6 {
            if try_magic(subsets, reference, magic, shift, &mut used) {
                return Some(magic);
            }
        }
    }
    proof {
        assert forall|trials: int|
            (#[trigger] first_serving(subsets@, reference@, mask, shift, seed, trials)).0 is None by {
            law_search_is_exhaustive(good, seed, trials);
        }
    }
    None
}

/// The lookup table of one square.
pub struct MagicEntry {
    pub mask: u64,
    pub magic: u64,
    pub shift: u64,
    pub attacks: Vec<u64>,
}

impl MagicEntry {
    /// Every occupancy of the relevant squares finds its attacks.
    pub open spec fn answers(&self, is_bishop: bool, sq: int) -> bool {
        &&& self.mask == relevant(is_bishop, sq)
        &&& self.shift == shift_for(is_bishop, sq)
        &&& 1 <= self.shift < 64
        &&& self.attacks@.len() == 1u64 << ((64 - self.shift) as u64)
        &&& forall|t: int| #[trigger] bit(self.mask, t) == matters(is_bishop, sq, t)
        &&& forall|s: u64, t: int|
            s & self.mask == s ==> #[trigger] bit(self.attacks@[magic_index(s, self.magic, self.shift)], t)
                == slider_hits(is_bishop, s, sq, t)
    }
}

/// The multipliers of entries.
pub open spec fn multipliers(entries: Seq<MagicEntry>) -> Seq<u64> {
    Seq::new(entries.len(), |i: int| entries[i].magic)
}

/// Lookup tables for all squares.
pub struct MagicTable {
    entries: Vec<MagicEntry>,
    is_bishop: bool,
}

impl MagicTable {
    pub closed spec fn ok(&self) -> bool {
        &&& self.entries@.len() == 64
        &&& forall|sq: int| 0 <= sq < 64 ==> (#[trigger] self.entries@[sq]).answers(self.is_bishop, sq)
    }

    /// The multipliers of the squares.
    pub closed spec fn magics(&self) -> Seq<u64> {
        multipliers(self.entries@)
    }

    /// Whether this is the table of the bishop, or else of the rook.
    pub closed spec fn bishop(&self) -> bool {
        self.is_bishop
    }

    /// What the slider attacks, by lookup.
    pub fn attacks(&self, sq: Square, occupancy: Bitboard) -> (r: Bitboard)
        requires
            self.ok(),
            sq.ok(),
        ensures
            forall|t: int| #[trigger] r.has(t) == slider_hits(self.bishop(), occupancy.0, sq.0 as int, t),
    {
        let e = &self.entries[sq.index()];
        let occ: u64 = occupancy.0;
        let mask: u64 = e.mask;
        proof {
            assert(e.answers(self.is_bishop, sq.0 as int));
            assert((occ & mask) & mask == occ & mask) by (bit_vector);
            lemma_index_fits((occ & mask).wrapping_mul(e.magic), e.shift);
            assert forall|t: int| slider_hits(self.is_bishop, occ & mask, sq.0 as int, t) == #[trigger] slider_hits(
                self.is_bishop,
                occ,
                sq.0 as int,
                t,
            ) by {
                law_relevant_occupancy_decides(self.is_bishop, occ, mask, sq.0 as int, t);
            }
        }
        let len: usize = e.attacks.len();
        let idx: usize = ((occ & mask).wrapping_mul(e.magic) >> e.shift) as usize;
        let r = Bitboard(e.attacks[idx]);
        proof {
            assert(idx == magic_index(occ & mask, e.magic, e.shift));
            assert forall|t: int| #[trigger] r.has(t) == slider_hits(self.is_bishop, occ, sq.0 as int, t) by {
                assert(bit(e.attacks@[magic_index(occ & mask, e.magic, e.shift)], t) == slider_hits(
                    self.is_bishop,
                    occ & mask,
                    sq.0 as int,
                    t,
                ));
                assert(slider_hits(self.is_bishop, occ & mask, sq.0 as int, t) == slider_hits(
                    self.is_bishop,
                    occ,
                    sq.0 as int,
                    t,
                ));
            }
        }
        r
    }
}

/// A slider does not attack its own square.
proof fn lemma_not_self(is_bishop: bool, occ: u64, sq: int)
    requires
        is_square(sq),
    ensures
        !slider_hits(is_bishop, occ, sq, sq),
{
    assert forall|df: int, dr: int|
        -1 <= df <= 1 && -1 <= dr <= 1 && (df != 0 || dr != 0) implies !#[trigger] ray_hits(occ, sq, df, dr, sq) by {
        if ray_hits(occ, sq, df, dr, sq) {
            let n = choose|n: int| 1 <= n < 8 && #[trigger] ray_open(occ, sq, df, dr, n) && sq == ray_square(sq, df, dr, n);
            let x = n * df;
            let y = n * dr;
            assert(sq % 8 + x == sq % 8 && sq / 8 + y == sq / 8) by {
                assert(sq == (sq / 8 + y) * 8 + (sq % 8 + x));
            }
            assert(df == 0 && dr == 0) by (nonlinear_arith)
                requires
                    n >= 1,
                    n * df == 0,
                    n * dr == 0,
            ;
        }
    }
    assert(!ray_hits(occ, sq, 1, 1, sq) && !ray_hits(occ, sq, 1, -1, sq) && !ray_hits(occ, sq, -1, 1, sq) && !ray_hits(
        occ,
        sq,
        -1,
        -1,
        sq,
    ));
    assert(!ray_hits(occ, sq, 0, 1, sq) && !ray_hits(occ, sq, 0, -1, sq) && !ray_hits(occ, sq, 1, 0, sq) && !ray_hits(
        occ,
        sq,
        -1,
        0,
        sq,
    ));
}

// The size of a mask.
/// Some square matters for a slider, wherever it stands.
proof fn lemma_mask_not_empty(is_bishop: bool, sq: int)
    requires
        is_square(sq),
    ensures
        relevant(is_bishop, sq) != 0,
{
    broadcast use group_bits;
    lemma_word_of(|t: int| matters(is_bishop, sq, t));
    let df: int = if sq % 8 < 4 { 1 } else { -1 };
    let dr: int = if is_bishop {
        if sq / 8 < 4 { 1 } else { -1 }
    } else {
        0
    };
    assert(ray_on_board(sq, df, dr, 1int + 1));
    let t = ray_square(sq, df, dr, 1);
    assert(ray_inner(sq, df, dr, t));
    assert(matters(is_bishop, sq, t));
    assert(is_square(t));
    assert(bit(relevant(is_bishop, sq), t));
}

/// The squares of a ray.
spec fn ray_squares(sq: int, df: int, dr: int) -> Seq<int> {
    Seq::new(7, |n: int| ray_square(sq, df, dr, n + 1))
}

/// The squares of a slider's four rays.
spec fn star(is_bishop: bool, sq: int) -> Seq<int> {
    if is_bishop {
        ray_squares(sq, 1, 1) + ray_squares(sq, 1, -1) + ray_squares(sq, -1, 1) + ray_squares(sq, -1, -1)
    } else {
        ray_squares(sq, 0, 1) + ray_squares(sq, 0, -1) + ray_squares(sq, 1, 0) + ray_squares(sq, -1, 0)
    }
}

proof fn lemma_inner_on_ray(sq: int, df: int, dr: int, t: int, all: Seq<int>, at: int)
    requires
        0 <= at,
        at + 7 <= all.len(),
        all.subrange(at, at + 7) == ray_squares(sq, df, dr),
    ensures
        ray_inner(sq, df, dr, t) ==> all.contains(t),
{
    if ray_inner(sq, df, dr, t) {
        let n = choose|n: int|
            1 <= n < 8 && #[trigger] ray_on_board(sq, df, dr, n + 1) && t == ray_square(sq, df, dr, n);
        assert(ray_squares(sq, df, dr)[n - 1] == t);
        assert(all.subrange(at, at + 7)[n - 1] == all[at + n - 1]);
    }
}

proof fn lemma_mask_in_star(is_bishop: bool, sq: int, t: int)
    ensures
        matters(is_bishop, sq, t) ==> star(is_bishop, sq).contains(t),
        star(is_bishop, sq).len() == 28,
{
    let all = star(is_bishop, sq);
    if is_bishop {
        assert(all.subrange(0, 7) =~= ray_squares(sq, 1, 1));
        assert(all.subrange(7, 14) =~= ray_squares(sq, 1, -1));
        assert(all.subrange(14, 21) =~= ray_squares(sq, -1, 1));
        assert(all.subrange(21, 28) =~= ray_squares(sq, -1, -1));
        lemma_inner_on_ray(sq, 1, 1, t, all, 0);
        lemma_inner_on_ray(sq, 1, -1, t, all, 7);
        lemma_inner_on_ray(sq, -1, 1, t, all, 14);
        lemma_inner_on_ray(sq, -1, -1, t, all, 21);
    } else {
        assert(all.subrange(0, 7) =~= ray_squares(sq, 0, 1));
        assert(all.subrange(7, 14) =~= ray_squares(sq, 0, -1));
        assert(all.subrange(14, 21) =~= ray_squares(sq, 1, 0));
        assert(all.subrange(21, 28) =~= ray_squares(sq, -1, 0));
        lemma_inner_on_ray(sq, 0, 1, t, all, 0);
        lemma_inner_on_ray(sq, 0, -1, t, all, 7);
        lemma_inner_on_ray(sq, 1, 0, t, all, 14);
        lemma_inner_on_ray(sq, -1, 0, t, all, 21);
    }
}

/// At least one and at most twenty-eight squares matter, so that a table's size
/// can be counted.
proof fn lemma_mask_size(is_bishop: bool, sq: int)
    requires
        is_square(sq),
    ensures
        1 <= popcount(relevant(is_bishop, sq)) <= 28,
{
    broadcast use group_bits;
    let mask = relevant(is_bishop, sq);
    let s = squares(mask);
    let all = star(is_bishop, sq);
    lemma_word_of(|t: int| matters(is_bishop, sq, t));
    lemma_squares_members(mask);
    lemma_mask_not_empty(is_bishop, sq);
    lemma_lowest(mask);
    assert(s.contains(vstd::std_specs::bits::u64_trailing_zeros(mask) as int));
    s.unique_seq_to_set();
    all.lemma_cardinality_of_set();
    lemma_mask_in_star(is_bishop, sq, 0);
    assert forall|t: int| s.to_set().contains(t) implies all.to_set().contains(t) by {
        assert(s.contains(t));
        assert(bit(mask, t));
        lemma_mask_in_star(is_bishop, sq, t);
    }
    vstd::set_lib::lemma_len_subset(s.to_set(), all.to_set());
}

// Tables.
/// How far the index of a square's table is shifted down.
pub open spec fn shift_for(is_bishop: bool, sq: int) -> u64 {
    (64 - popcount(relevant(is_bishop, sq))) as u64
}

/// A slider attacks the same squares with either occupancy.
pub open spec fn same_attacks(is_bishop: bool, sq: int, a: u64, b: u64) -> bool {
    forall|t: int| slider_hits(is_bishop, a, sq, t) == #[trigger] slider_hits(is_bishop, b, sq, t)
}

/// A multiplier keeps apart the occupancies of the relevant squares with
/// different attacks.
pub open spec fn separates(is_bishop: bool, sq: int, magic: u64) -> bool {
    let mask = relevant(is_bishop, sq);
    let shift = shift_for(is_bishop, sq);
    forall|a: u64, b: u64|
        a & mask == a && b & mask == b && #[trigger] magic_index(a, magic, shift) == #[trigger] magic_index(b, magic, shift)
            ==> same_attacks(is_bishop, sq, a, b)
}

/// The multipliers that are taken for a slider on a square.
pub open spec fn suits(is_bishop: bool, sq: int) -> spec_fn(u64) -> bool {
    |magic: u64| spreads(relevant(is_bishop, sq), magic) && separates(is_bishop, sq, magic)
}

/// The multipliers of the first `n` squares, if all are found, and the state of
/// the generator after the search: each square's search goes on where that of
/// the square before ended.
pub open spec fn magics_to(is_bishop: bool, n: int) -> (Option<Seq<u64>>, u64)
    decreases n,
{
    if n <= 0 {
        (Some(Seq::empty()), first_seed(is_bishop))
    } else {
        let (found, seed) = magics_to(is_bishop, n - 1);
        match found {
            None => (None, seed),
            Some(magics) => {
                let (magic, after) = first_draw(suits(is_bishop, n - 1), seed, STATES as int);
                match magic {
                    Some(m) => (Some(magics.push(m)), after),
                    None => (None, after),
                }
            },
        }
    }
}

/// The state with which the search begins.
pub open spec fn first_seed(is_bishop: bool) -> u64 {
    if is_bishop { 0xBEEF_CAFE_1234_5678 } else { 0xDEAD_FACE_8765_4321 }
}

proof fn lemma_first_draw_same(f: spec_fn(u64) -> bool, g: spec_fn(u64) -> bool, seed: u64, trials: int)
    requires
        forall|m: u64| #[trigger] f(m) == g(m),
    ensures
        first_draw(f, seed, trials) == first_draw(g, seed, trials),
    decreases trials,
{
    if trials > 0 {
        lemma_first_draw_same(f, g, after_draw(seed), trials - 1);
    }
}

/// The lists show which multipliers separate.
proof fn lemma_serves_separates(is_bishop: bool, sq: int, subsets: Seq<u64>, reference: Seq<u64>, magic: u64)
    requires
        subsets.len() == reference.len(),
        forall|t: u64| t & relevant(is_bishop, sq) == t <==> #[trigger] subsets.contains(t),
        forall|k: int, t: int|
            0 <= k < subsets.len() ==> #[trigger] bit(reference[k], t) == slider_hits(is_bishop, subsets[k], sq, t),
    ensures
        serves(subsets, reference, magic, shift_for(is_bishop, sq)) == separates(is_bishop, sq, magic),
{
    let mask = relevant(is_bishop, sq);
    let shift = shift_for(is_bishop, sq);
    if serves(subsets, reference, magic, shift) {
        assert forall|a: u64, b: u64|
            a & mask == a && b & mask == b && #[trigger] magic_index(a, magic, shift) == #[trigger] magic_index(
                b,
                magic,
                shift,
            ) implies same_attacks(is_bishop, sq, a, b) by {
            assert(subsets.contains(a) && subsets.contains(b));
            let i = choose|i: int| 0 <= i < subsets.len() && subsets[i] == a;
            let j = choose|j: int| 0 <= j < subsets.len() && subsets[j] == b;
            assert(magic_index(subsets[i], magic, shift) == magic_index(subsets[j], magic, shift));
            assert(reference[i] == reference[j]);
            assert forall|t: int| slider_hits(is_bishop, a, sq, t) == #[trigger] slider_hits(is_bishop, b, sq, t) by {
                assert(bit(reference[i], t) == slider_hits(is_bishop, subsets[i], sq, t));
                assert(bit(reference[j], t) == slider_hits(is_bishop, subsets[j], sq, t));
            }
        }
    }
    if separates(is_bishop, sq, magic) {
        assert forall|i: int, j: int|
            0 <= i < subsets.len() && 0 <= j < subsets.len() && #[trigger] magic_index(subsets[i], magic, shift)
                == #[trigger] magic_index(subsets[j], magic, shift) implies reference[i] == reference[j] by {
            assert(subsets.contains(subsets[i]) && subsets.contains(subsets[j]));
            assert(same_attacks(is_bishop, sq, subsets[i], subsets[j]));
            assert forall|t: int| 0 <= t < 64 implies bit(reference[i], t) == bit(reference[j], t) by {
                assert(bit(reference[i], t) == slider_hits(is_bishop, subsets[i], sq, t));
                assert(bit(reference[j], t) == slider_hits(is_bishop, subsets[j], sq, t));
            }
            lemma_bits_extensional(reference[i], reference[j]);
        }
    }
}

fn build_entry(sq: usize, is_bishop: bool, rng: &mut Rng) -> (r: Option<MagicEntry>)
    requires
        sq < 64,
    ensures
        (match r {
            Some(e) => Some(e.magic),
            None => None,
        }, final(rng).seed()) == first_draw(suits(is_bishop, sq as int), old(rng).seed(), STATES as int),
        r is Some ==> r->Some_0.answers(is_bishop, sq as int),
{
    let mask: u64 = relevant_mask(sq, is_bishop);
    let bits: u32 = mask.count_ones();
    proof {
        lemma_mask_size(is_bishop, sq as int);
        lemma_table_size(bits as u64);
    }
    let shift: u64 = 64 - bits as u64;
    let table_size: usize = 1usize << (bits as usize);
    let subsets = enumerate_subsets(mask);
    let mut reference: Vec<u64> = Vec::new();
    let mut i: usize = 0;
    while i < subsets.len()
        invariant
            sq < 64,
            i <= subsets@.len(),
            reference@.len() == i,
            forall|k: int, t: int|
                0 <= k < i ==> #[trigger] bit(reference@[k], t) == slider_hits(is_bishop, subsets@[k], sq as int, t),
            forall|k: int| 0 <= k < i ==> #[trigger] reference@[k] != u64::MAX,
        decreases subsets@.len() - i,
    {
        let v: u64 = sliding_attacks_reference(sq, subsets[i], is_bishop);
        proof {
            broadcast use group_bits;
            lemma_not_self(is_bishop, subsets@[i as int], sq as int);
            assert(!bit(v, sq as int));
            assert(bit(u64::MAX, sq as int));
        }
        reference.push(v);
        i = i + 1;
    }
    let ghost seed = rng.seed();
    let found = find_magic(&subsets, &reference, mask, shift, table_size, rng);
    proof {
        let f = taken_for(subsets@, reference@, mask, shift);
        let g = suits(is_bishop, sq as int);
        assert forall|m: u64| #[trigger] f(m) == g(m) by {
            lemma_serves_separates(is_bishop, sq as int, subsets@, reference@, m);
        }
        lemma_first_draw_same(f, g, seed, STATES as int);
    }
    let magic: u64 = match found {
        Some(m) => m,
        None => {
            return None;
        },
    };
    let mut attacks: Vec<u64> = Vec::new();
    let mut n: usize = 0;
    while n < table_size
        invariant
            n <= table_size,
            attacks@.len() == n,
        decreases table_size - n,
    {
        attacks.push(0);
        n = n + 1;
    }
    let mut j: usize = 0;
    while j < subsets.len()
        invariant
            j <= subsets@.len(),
            subsets@.len() == reference@.len(),
            1 <= shift < 64,
            table_size == 1u64 << ((64 - shift) as u64),
            attacks@.len() == table_size,
            serves(subsets@, reference@, magic, shift),
            forall|k: int| 0 <= k < j ==> attacks@[#[trigger] magic_index(subsets@[k], magic, shift)] == reference@[k],
        decreases subsets@.len() - j,
    {
        proof {
            lemma_index_fits(subsets@[j as int].wrapping_mul(magic), shift);
        }
        let idx: usize = (subsets[j].wrapping_mul(magic) >> shift) as usize;
        let ghost before = attacks@;
        attacks[idx] = reference[j];
        proof {
            assert forall|k: int| 0 <= k < j + 1 implies attacks@[#[trigger] magic_index(subsets@[k], magic, shift)]
                == reference@[k] by {
                if k < j {
                    lemma_index_fits(subsets@[k].wrapping_mul(magic), shift);
                    assert(before[magic_index(subsets@[k], magic, shift)] == reference@[k]);
                    if magic_index(subsets@[k], magic, shift) == idx {
                        assert(magic_index(subsets@[j as int], magic, shift) == idx);
                        assert(reference@[k] == reference@[j as int]);
                    }
                }
            }
        }
        j = j + 1;
    }
    proof {
        assert forall|s: u64, t: int| s & mask == s implies #[trigger] bit(attacks@[magic_index(s, magic, shift)], t)
            == slider_hits(is_bishop, s, sq as int, t) by {
            assert(subsets@.contains(s));
            let k = choose|k: int| 0 <= k < subsets@.len() && subsets@[k] == s;
            assert(attacks@[magic_index(subsets@[k], magic, shift)] == reference@[k]);
            assert(bit(reference@[k], t) == slider_hits(is_bishop, subsets@[k], sq as int, t));
        }
    }
    Some(MagicEntry { mask, magic, shift, attacks })
}

proof fn lemma_table_size(bits: u64)
    requires
        1 <= bits <= 28,
    ensures
        1usize << (bits as usize) == 1u64 << bits,
{
    let b = bits as usize;
    assert(1 <= b && b <= 28 && bits == b as u64 ==> (1usize << b) as u64 == 1u64 << bits) by (bit_vector);
}

/// Build the lookup tables of the bishop or the rook: each square takes the
/// first multiplier that suits it. There is no table only if for some square no
/// such multiplier is ever drawn.
pub fn build_table(is_bishop: bool) -> (r: Option<MagicTable>)
    ensures
        r is Some <==> magics_to(is_bishop, 64).0 is Some,
        r is Some ==> r->Some_0.ok() && r->Some_0.bishop() == is_bishop && r->Some_0.magics() == magics_to(
            is_bishop,
            64,
        ).0->Some_0,
{
    let seed: u64 = if is_bishop { 0xBEEF_CAFE_1234_5678 } else { 0xDEAD_FACE_8765_4321 };
    let mut rng = Rng::new(seed);
    let mut entries: Vec<MagicEntry> = Vec::new();
    let mut sq: usize = 0;
    proof {
        assert(multipliers(entries@) =~= Seq::<u64>::empty());
    }
    while sq < 64
        invariant
            sq <= 64,
            entries@.len() == sq,
            forall|s: int| 0 <= s < sq ==> (#[trigger] entries@[s]).answers(is_bishop, s),
            magics_to(is_bishop, sq as int) == (Some(multipliers(entries@)), rng.seed()),
        decreases 64 - sq,
    {
        match build_entry(sq, is_bishop, &mut rng) {
            Some(e) => {
                let ghost before = entries@;
                entries.push(e);
                proof {
                    assert(multipliers(entries@) =~= multipliers(before).push(e.magic));
                }
            },
            None => {
                proof {
                    lemma_no_more(is_bishop, sq + 1, 64);
                }
                return None;
            },
        }
        sq = sq + 1;
    }
    Some(MagicTable { entries, is_bishop })
}

proof fn lemma_no_more(is_bishop: bool, n: int, m: int)
    requires
        n <= m,
        magics_to(is_bishop, n).0 is None,
    ensures
        magics_to(is_bishop, m).0 is None,
    decreases m - n,
{
    if n < m {
        lemma_no_more(is_bishop, n, m - 1);
        if m <= 0 {
            assert(magics_to(is_bishop, n).0 is Some);
        }
    }
}

} // verus!
