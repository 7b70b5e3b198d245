//! Reasoning about the individual bits of a 64-bit word.
//!
//! A bitboard is a set of squares. The functions here give that reading to a
//! `u64`: `bit` is membership, `squares` lists the members in ascending order.

use vstd::prelude::*;

verus! {

/// Whether bit `i` of `x` is set.
#[verifier::opaque]
pub open spec fn bit(x: u64, i: int) -> bool {
    0 <= i < 64 && (x >> (i as u64)) & 1u64 == 1u64
}

pub broadcast proof fn lemma_bit_range(x: u64, i: int)
    ensures
        #[trigger] bit(x, i) ==> 0 <= i < 64,
{
    reveal(bit);
}

/// The bitwise operations at one position.
proof fn lemma_position(x: u64, y: u64, k: u64)
    requires
        k < 64,
    ensures
        (((x & y) >> k) & 1u64 == 1u64) <==> ((x >> k) & 1u64 == 1u64 && (y >> k) & 1u64 == 1u64),
        (((x | y) >> k) & 1u64 == 1u64) <==> ((x >> k) & 1u64 == 1u64 || (y >> k) & 1u64 == 1u64),
        (((x ^ y) >> k) & 1u64 == 1u64) <==> (((x >> k) & 1u64 == 1u64) != ((y >> k) & 1u64 == 1u64)),
        (((!x) >> k) & 1u64 == 1u64) <==> !((x >> k) & 1u64 == 1u64),
        (0u64 >> k) & 1u64 == 0u64,
        (0xffff_ffff_ffff_ffffu64 >> k) & 1u64 == 1u64,
{
    assert(k < 64 ==> ((((x & y) >> k) & 1u64 == 1u64) <==> ((x >> k) & 1u64 == 1u64 && (y >> k) & 1u64 == 1u64))
        && ((((x | y) >> k) & 1u64 == 1u64) <==> ((x >> k) & 1u64 == 1u64 || (y >> k) & 1u64 == 1u64))
        && ((((x ^ y) >> k) & 1u64 == 1u64) <==> (((x >> k) & 1u64 == 1u64) != ((y >> k) & 1u64 == 1u64)))
        && ((((!x) >> k) & 1u64 == 1u64) <==> !((x >> k) & 1u64 == 1u64))
        && (0u64 >> k) & 1u64 == 0u64 && (0xffff_ffff_ffff_ffffu64 >> k) & 1u64 == 1u64) by (bit_vector);
}

pub broadcast proof fn lemma_bit_and(x: u64, y: u64, i: int)
    ensures
        #[trigger] bit(x & y, i) == (bit(x, i) && bit(y, i)),
{
    reveal(bit);
    if 0 <= i < 64 {
        lemma_position(x, y, i as u64);
    }
}

pub broadcast proof fn lemma_bit_or(x: u64, y: u64, i: int)
    ensures
        #[trigger] bit(x | y, i) == (bit(x, i) || bit(y, i)),
{
    reveal(bit);
    if 0 <= i < 64 {
        lemma_position(x, y, i as u64);
    }
}

pub broadcast proof fn lemma_bit_xor(x: u64, y: u64, i: int)
    ensures
        #[trigger] bit(x ^ y, i) == (bit(x, i) != bit(y, i)),
{
    reveal(bit);
    if 0 <= i < 64 {
        lemma_position(x, y, i as u64);
    }
}

pub broadcast proof fn lemma_bit_not(x: u64, i: int)
    ensures
        #[trigger] bit(!x, i) == (0 <= i < 64 && !bit(x, i)),
{
    reveal(bit);
    if 0 <= i < 64 {
        lemma_position(x, 0, i as u64);
    }
}

pub broadcast proof fn lemma_bit_zero(i: int)
    ensures
        !#[trigger] bit(0u64, i),
{
    reveal(bit);
    if 0 <= i < 64 {
        lemma_position(0, 0, i as u64);
    }
}

pub broadcast proof fn lemma_bit_max(i: int)
    ensures
        #[trigger] bit(u64::MAX, i) == (0 <= i < 64),
{
    reveal(bit);
    if 0 <= i < 64 {
        lemma_position(0, 0, i as u64);
    }
}

/// A left shift moves every bit up; bits shifted past the top are lost.
pub broadcast proof fn lemma_bit_shl(x: u64, k: u64, i: int)
    requires
        k < 64,
    ensures
        #[trigger] bit(x << k, i) == (i < 64 && bit(x, i - k)),
{
    reveal(bit);
    if 0 <= i < 64 {
        let j = i as u64;
        if i >= k {
            let d = (i - k) as u64;
            assert(k < 64 && j < 64 && k + d == j ==> ((x << k) >> j) & 1u64 == (x >> d) & 1u64)
                by (bit_vector);
        } else {
            assert(k < 64 && j < k ==> ((x << k) >> j) & 1u64 == 0u64) by (bit_vector);
        }
    }
}

/// A right shift moves every bit down.
pub broadcast proof fn lemma_bit_shr(x: u64, k: u64, i: int)
    requires
        k < 64,
    ensures
        #[trigger] bit(x >> k, i) == (i >= 0 && bit(x, i + k)),
{
    reveal(bit);
    if 0 <= i < 64 {
        let j = i as u64;
        if i + k < 64 {
            let d = (i + k) as u64;
            assert(k < 64 && j < 64 && d < 64 && j + k == d ==> ((x >> k) >> j) & 1u64 == (x >> d) & 1u64)
                by (bit_vector);
        } else {
            assert(k < 64 && j < 64 && j + k >= 64 ==> ((x >> k) >> j) & 1u64 == 0u64) by (bit_vector);
        }
    }
}

/// The word `1 << k` holds bit `k` and no other.
pub broadcast proof fn lemma_bit_one(k: u64, i: int)
    requires
        k < 64,
    ensures
        #[trigger] bit(1u64 << k, i) == (i == k),
{
    reveal(bit);
    if 0 <= i < 64 {
        let j = i as u64;
        assert(k < 64 && j < 64 ==> ((((1u64 << k) >> j) & 1u64 == 1u64) <==> j == k)) by (bit_vector);
    }
}

pub broadcast group group_bits {
    lemma_bit_range,
    lemma_bit_and,
    lemma_bit_or,
    lemma_bit_xor,
    lemma_bit_not,
    lemma_bit_zero,
    lemma_bit_max,
    lemma_bit_shl,
    lemma_bit_shr,
    lemma_bit_one,
}

/// The squares of one file: bit `i` is set exactly when `i % 8` is the file.
pub proof fn lemma_file_mask(f: u64, i: int)
    requires
        f < 8,
    ensures
        bit(0x0101_0101_0101_0101u64 << f, i) == (0 <= i < 64 && i % 8 == f),
{
    reveal(bit);
    if 0 <= i < 64 {
        let j = i as u64;
        assert(f < 8 && j < 64 ==> ((((0x0101_0101_0101_0101u64 << f) >> j) & 1u64 == 1u64) <==> j % 8 == f))
            by (bit_vector);
    }
}

/// The squares of one rank: bit `i` is set exactly when `i / 8` is the rank.
pub proof fn lemma_rank_mask(r: u64, i: int)
    requires
        r < 8,
    ensures
        bit(0xFFu64 << ((r * 8) as u64), i) == (0 <= i < 64 && i / 8 == r),
{
    reveal(bit);
    if 0 <= i < 64 {
        let j = i as u64;
        assert(r < 8 && j < 64 ==> ((((0xFFu64 << ((r * 8) as u64)) >> j) & 1u64 == 1u64) <==> j / 8 == r))
            by (bit_vector);
    }
}

/// The named file and rank masks, as shifts of the first of each.
pub proof fn lemma_named_masks()
    ensures
        0x0101_0101_0101_0101u64 << 0u64 == 0x0101_0101_0101_0101u64,
        0x0101_0101_0101_0101u64 << 1u64 == 0x0202_0202_0202_0202u64,
        0x0101_0101_0101_0101u64 << 2u64 == 0x0404_0404_0404_0404u64,
        0x0101_0101_0101_0101u64 << 3u64 == 0x0808_0808_0808_0808u64,
        0x0101_0101_0101_0101u64 << 4u64 == 0x1010_1010_1010_1010u64,
        0x0101_0101_0101_0101u64 << 5u64 == 0x2020_2020_2020_2020u64,
        0x0101_0101_0101_0101u64 << 6u64 == 0x4040_4040_4040_4040u64,
        0x0101_0101_0101_0101u64 << 7u64 == 0x8080_8080_8080_8080u64,
        0xFFu64 << 0u64 == 0xFFu64,
        0xFFu64 << 8u64 == 0xFF00u64,
        0xFFu64 << 16u64 == 0xFF_0000u64,
        0xFFu64 << 24u64 == 0xFF00_0000u64,
        0xFFu64 << 32u64 == 0xFF_0000_0000u64,
        0xFFu64 << 40u64 == 0xFF00_0000_0000u64,
        0xFFu64 << 48u64 == 0xFF_0000_0000_0000u64,
        0xFFu64 << 56u64 == 0xFF00_0000_0000_0000u64,
{
    assert(0x0101_0101_0101_0101u64 << 0u64 == 0x0101_0101_0101_0101u64
        && 0x0101_0101_0101_0101u64 << 1u64 == 0x0202_0202_0202_0202u64
        && 0x0101_0101_0101_0101u64 << 2u64 == 0x0404_0404_0404_0404u64
        && 0x0101_0101_0101_0101u64 << 3u64 == 0x0808_0808_0808_0808u64
        && 0x0101_0101_0101_0101u64 << 4u64 == 0x1010_1010_1010_1010u64
        && 0x0101_0101_0101_0101u64 << 5u64 == 0x2020_2020_2020_2020u64
        && 0x0101_0101_0101_0101u64 << 6u64 == 0x4040_4040_4040_4040u64
        && 0x0101_0101_0101_0101u64 << 7u64 == 0x8080_8080_8080_8080u64
        && 0xFFu64 << 0u64 == 0xFFu64 && 0xFFu64 << 8u64 == 0xFF00u64 && 0xFFu64 << 16u64 == 0xFF_0000u64
        && 0xFFu64 << 24u64 == 0xFF00_0000u64 && 0xFFu64 << 32u64 == 0xFF_0000_0000u64
        && 0xFFu64 << 40u64 == 0xFF00_0000_0000u64 && 0xFFu64 << 48u64 == 0xFF_0000_0000_0000u64
        && 0xFFu64 << 56u64 == 0xFF00_0000_0000_0000u64) by (bit_vector);
}

/// The lowest set bit of a non-zero word, and what clearing it leaves.
pub proof fn lemma_lowest(x: u64)
    requires
        x != 0,
    ensures
        0 <= vstd::std_specs::bits::u64_trailing_zeros(x) < 64,
        bit(x, vstd::std_specs::bits::u64_trailing_zeros(x) as int),
        forall|j: int| j < vstd::std_specs::bits::u64_trailing_zeros(x) ==> !#[trigger] bit(x, j),
        forall|j: int| #[trigger]
            bit(x & (x - 1) as u64, j) == (bit(x, j) && j
                != vstd::std_specs::bits::u64_trailing_zeros(x)),
        (x & (x - 1) as u64) < x,
{
    let t = vstd::std_specs::bits::u64_trailing_zeros(x);
    vstd::std_specs::bits::axiom_u64_trailing_zeros(x);
    reveal(bit);
    assert forall|j: int| j < t implies !#[trigger] bit(x, j) by {
        if 0 <= j {
            assert((x >> (j as u64)) & 1u64 == 0u64);
        }
    }
    let y = (x - 1) as u64;
    let k = t as u64;
    assert(x << ((64 - k) as u64) == 0);
    assert forall|j: int| #[trigger] bit(x & y, j) == (bit(x, j) && j != t) by {
        if 0 <= j < 64 {
            let i = j as u64;
            if i == k {
                assert(x != 0 && k < 64 && x << ((64 - k) as u64) == 0 && (x >> k) & 1u64 == 1u64 && y == (x - 1) as u64
                    ==> ((x & y) >> k) & 1u64 == 0u64) by (bit_vector);
            } else {
                assert(x != 0 && k < 64 && i < 64 && i != k && x << ((64 - k) as u64) == 0 && (x >> k) & 1u64 == 1u64 && y
                    == (x - 1) as u64 ==> ((x & y) >> i) & 1u64 == (x >> i) & 1u64) by (bit_vector);
            }
        }
    }
    assert(x != 0 && y == (x - 1) as u64 ==> (x & y) < x) by (bit_vector);
}

/// Two words with the same bits are the same word.
pub proof fn lemma_bits_extensional(x: u64, y: u64)
    requires
        forall|i: int| 0 <= i < 64 ==> bit(x, i) == bit(y, i),
    ensures
        x == y,
{
    broadcast use group_bits;
    if x ^ y != 0 {
        lemma_lowest(x ^ y);
        assert(bit(x ^ y, vstd::std_specs::bits::u64_trailing_zeros(x ^ y) as int));
        assert(false);
    }
    assert(x ^ y == 0 ==> x == y) by (bit_vector);
}

/// A word without set bits is zero.
pub proof fn lemma_no_bits(x: u64)
    requires
        forall|i: int| 0 <= i < 64 ==> !bit(x, i),
    ensures
        x == 0,
{
    broadcast use group_bits;
    lemma_bits_extensional(x, 0);
}

/// The set bits of `x` at positions `n` and above, in ascending order.
pub open spec fn squares_from(x: u64, n: int) -> Seq<int>
    decreases 64 - n,
{
    if n >= 64 {
        Seq::empty()
    } else if bit(x, n) {
        seq![n] + squares_from(x, n + 1)
    } else {
        squares_from(x, n + 1)
    }
}

/// The set bits of `x` in ascending order.
pub open spec fn squares(x: u64) -> Seq<int> {
    squares_from(x, 0)
}

/// How many bits of `x` are set.
pub open spec fn popcount(x: u64) -> nat {
    squares(x).len()
}

proof fn lemma_squares_from_skip(x: u64, n: int, m: int)
    requires
        n <= m <= 64,
        forall|j: int| n <= j < m ==> !#[trigger] bit(x, j),
    ensures
        squares_from(x, n) == squares_from(x, m),
    decreases m - n,
{
    if n < m {
        lemma_squares_from_skip(x, n + 1, m);
    }
}

proof fn lemma_squares_from_same(x: u64, y: u64, n: int)
    requires
        forall|j: int| n <= j < 64 ==> bit(x, j) == #[trigger] bit(y, j),
    ensures
        squares_from(x, n) == squares_from(y, n),
    decreases 64 - n,
{
    if n < 64 {
        assert(bit(x, n) == bit(y, n));
        lemma_squares_from_same(x, y, n + 1);
    }
}

/// Taking the lowest set bit off `x` takes the head off its list of squares.
pub proof fn lemma_pop(x: u64)
    requires
        x != 0,
    ensures
        squares(x).len() > 0,
        squares(x)[0] == vstd::std_specs::bits::u64_trailing_zeros(x),
        squares(x).drop_first() == squares(x & (x - 1) as u64),
        squares(x) == seq![vstd::std_specs::bits::u64_trailing_zeros(x) as int] + squares(
            x & (x - 1) as u64,
        ),
{
    let t = vstd::std_specs::bits::u64_trailing_zeros(x) as int;
    let y = x & (x - 1) as u64;
    lemma_lowest(x);
    lemma_squares_from_skip(x, 0, t);
    lemma_squares_from_skip(y, 0, t + 1);
    lemma_squares_from_same(x, y, t + 1);
    assert(squares(x) == seq![t] + squares_from(x, t + 1));
    assert(squares(x).drop_first() =~= squares(y));
}

/// The empty word lists no square.
pub proof fn lemma_squares_zero()
    ensures
        squares(0u64) == Seq::<int>::empty(),
{
    broadcast use group_bits;
    lemma_squares_from_skip(0, 0, 64);
}

proof fn lemma_squares_from_members(x: u64, n: int)
    requires
        0 <= n <= 64,
    ensures
        forall|i: int| #[trigger] squares_from(x, n).contains(i) <==> n <= i && bit(x, i),
        squares_from(x, n).no_duplicates(),
        forall|a: int, b: int|
            0 <= a < b < squares_from(x, n).len() ==> squares_from(x, n)[a] < squares_from(x, n)[b],
        squares_from(x, n).len() <= 64 - n,
    decreases 64 - n,
{
    broadcast use group_bits;
    if n < 64 {
        lemma_squares_from_members(x, n + 1);
        let rest = squares_from(x, n + 1);
        let all = squares_from(x, n);
        if bit(x, n) {
            assert(all == seq![n] + rest);
            assert forall|i: int| #[trigger] all.contains(i) <==> n <= i && bit(x, i) by {
                if all.contains(i) {
                    let k = choose|k: int| 0 <= k < all.len() && all[k] == i;
                    if k > 0 {
                        assert(rest[k - 1] == i);
                        assert(rest.contains(i));
                    }
                }
                if n <= i && bit(x, i) {
                    if i == n {
                        assert(all[0] == i);
                    } else {
                        assert(rest.contains(i));
                        let k = choose|k: int| 0 <= k < rest.len() && rest[k] == i;
                        assert(all[k + 1] == i);
                    }
                }
            }
            assert forall|a: int, b: int| 0 <= a < b < all.len() implies all[a] < all[b] by {
                assert(all[b] == rest[b - 1]);
                if a == 0 {
                    assert(rest.contains(rest[b - 1]));
                } else {
                    assert(all[a] == rest[a - 1]);
                }
            }
        } else {
            assert forall|i: int| #[trigger] all.contains(i) <==> n <= i && bit(x, i) by {
                assert(rest.contains(i) <==> n + 1 <= i && bit(x, i));
            }
        }
    }
}

/// `squares` lists exactly the set bits, each once, in ascending order.
pub proof fn lemma_squares_members(x: u64)
    ensures
        forall|i: int| #[trigger] squares(x).contains(i) <==> bit(x, i),
        squares(x).no_duplicates(),
        forall|a: int, b: int| 0 <= a < b < squares(x).len() ==> squares(x)[a] < squares(x)[b],
        forall|a: int| 0 <= a < squares(x).len() ==> 0 <= #[trigger] squares(x)[a] < 64 && bit(x, squares(x)[a]),
        squares(x).len() <= 64,
{
    broadcast use group_bits;
    lemma_squares_from_members(x, 0);
    assert forall|a: int| 0 <= a < squares(x).len() implies 0 <= #[trigger] squares(x)[a] < 64 && bit(
        x,
        squares(x)[a],
    ) by {
        assert(squares(x).contains(squares(x)[a]));
    }
}

/// The positions from `n` up at which `f` holds, in ascending order.
pub open spec fn ascending_from(f: spec_fn(int) -> bool, n: int) -> Seq<int>
    decreases 64 - n,
{
    if n >= 64 {
        Seq::empty()
    } else if f(n) {
        seq![n] + ascending_from(f, n + 1)
    } else {
        ascending_from(f, n + 1)
    }
}

/// The squares at which `f` holds, in ascending order.
pub open spec fn ascending(f: spec_fn(int) -> bool) -> Seq<int> {
    ascending_from(f, 0)
}

proof fn lemma_ascending_from(x: u64, f: spec_fn(int) -> bool, n: int)
    requires
        0 <= n <= 64,
        forall|i: int| 0 <= i < 64 ==> #[trigger] bit(x, i) == f(i),
    ensures
        squares_from(x, n) == ascending_from(f, n),
    decreases 64 - n,
{
    if n < 64 {
        assert(bit(x, n) == f(n));
        lemma_ascending_from(x, f, n + 1);
    }
}

/// A word whose bits are given by a predicate lists the predicate's squares.
pub proof fn lemma_ascending(x: u64, f: spec_fn(int) -> bool)
    requires
        forall|i: int| 0 <= i < 64 ==> #[trigger] bit(x, i) == f(i),
    ensures
        squares(x) == ascending(f),
{
    lemma_ascending_from(x, f, 0);
}

proof fn lemma_ascending_from_members(f: spec_fn(int) -> bool, n: int)
    requires
        0 <= n <= 64,
    ensures
        forall|i: int| #[trigger] ascending_from(f, n).contains(i) <==> n <= i < 64 && f(i),
        forall|a: int, b: int|
            0 <= a < b < ascending_from(f, n).len() ==> ascending_from(f, n)[a] < ascending_from(f, n)[b],
    decreases 64 - n,
{
    if n < 64 {
        lemma_ascending_from_members(f, n + 1);
        let rest = ascending_from(f, n + 1);
        let all = ascending_from(f, n);
        if f(n) {
            assert(all == seq![n] + rest);
            assert forall|i: int| #[trigger] all.contains(i) <==> n <= i < 64 && f(i) by {
                if all.contains(i) {
                    let k = choose|k: int| 0 <= k < all.len() && all[k] == i;
                    if k > 0 {
                        assert(rest[k - 1] == i);
                        assert(rest.contains(i));
                    }
                }
                if n <= i < 64 && f(i) {
                    if i == n {
                        assert(all[0] == i);
                    } else {
                        assert(rest.contains(i));
                        let k = choose|k: int| 0 <= k < rest.len() && rest[k] == i;
                        assert(all[k + 1] == i);
                    }
                }
            }
            assert forall|a: int, b: int| 0 <= a < b < all.len() implies all[a] < all[b] by {
                assert(all[b] == rest[b - 1]);
                if a == 0 {
                    assert(rest.contains(rest[b - 1]));
                } else {
                    assert(all[a] == rest[a - 1]);
                }
            }
        } else {
            assert forall|i: int| #[trigger] all.contains(i) <==> n <= i < 64 && f(i) by {
                assert(rest.contains(i) <==> n + 1 <= i < 64 && f(i));
            }
        }
    }
}

/// `ascending` lists exactly the squares of the predicate, in strict order.
pub proof fn lemma_ascending_members(f: spec_fn(int) -> bool)
    ensures
        forall|i: int| #[trigger] ascending(f).contains(i) <==> 0 <= i < 64 && f(i),
        forall|a: int, b: int| 0 <= a < b < ascending(f).len() ==> ascending(f)[a] < ascending(f)[b],
{
    lemma_ascending_from_members(f, 0);
}

/// The word whose bits below `n` are given by a predicate.
pub open spec fn word_below(f: spec_fn(int) -> bool, n: int) -> u64
    decreases n,
{
    if n <= 0 {
        0
    } else if f(n - 1) {
        word_below(f, n - 1) | (1u64 << ((n - 1) as u64))
    } else {
        word_below(f, n - 1)
    }
}

/// The word whose bits are given by a predicate.
pub open spec fn word_of(f: spec_fn(int) -> bool) -> u64 {
    word_below(f, 64)
}

proof fn lemma_word_below(f: spec_fn(int) -> bool, n: int)
    requires
        0 <= n <= 64,
    ensures
        forall|i: int| #[trigger] bit(word_below(f, n), i) == (0 <= i < n && f(i)),
    decreases n,
{
    broadcast use group_bits;
    if n > 0 {
        lemma_word_below(f, n - 1);
        assert forall|i: int| #[trigger] bit(word_below(f, n), i) == (0 <= i < n && f(i)) by {
            assert(bit(word_below(f, n - 1), i) == (0 <= i < n - 1 && f(i)));
        }
    }
}

/// The bits of `word_of` are those of its predicate.
pub proof fn lemma_word_of(f: spec_fn(int) -> bool)
    ensures
        forall|i: int| #[trigger] bit(word_of(f), i) == (0 <= i < 64 && f(i)),
{
    lemma_word_below(f, 64);
}

/// Sum of `f` over a list of squares.
pub open spec fn sum_over(s: Seq<int>, f: spec_fn(int) -> int) -> int
    decreases s.len(),
{
    if s.len() == 0 {
        0
    } else {
        f(s[0]) + sum_over(s.drop_first(), f)
    }
}

/// Sums of a pair of values over a list of squares.
pub open spec fn pairs_over(s: Seq<int>, f: spec_fn(int) -> (int, int)) -> (int, int)
    decreases s.len(),
{
    if s.len() == 0 {
        (0, 0)
    } else {
        let rest = pairs_over(s.drop_first(), f);
        (f(s[0]).0 + rest.0, f(s[0]).1 + rest.1)
    }
}

/// A word with the bits of a predicate is `word_of` it.
pub proof fn lemma_is_word(x: u64, f: spec_fn(int) -> bool)
    requires
        forall|i: int| 0 <= i < 64 ==> #[trigger] bit(x, i) == f(i),
    ensures
        x == word_of(f),
{
    lemma_word_of(f);
    assert forall|i: int| 0 <= i < 64 implies bit(x, i) == bit(word_of(f), i) by {
        assert(bit(x, i) == f(i));
    }
    lemma_bits_extensional(x, word_of(f));
}

/// Concatenation of `f` over a list of squares.
pub open spec fn concat_over<T>(s: Seq<int>, f: spec_fn(int) -> Seq<T>) -> Seq<T>
    decreases s.len(),
{
    if s.len() == 0 {
        Seq::empty()
    } else {
        f(s[0]) + concat_over(s.drop_first(), f)
    }
}

} // verus!
