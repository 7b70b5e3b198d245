//! Transposition table.
//!
//! Each entry is two words: the packed data, and the position hash combined
//! with it by exclusive or, so that an entry read for another position, or
//! half overwritten, does not pass for a hit.

use vstd::prelude::*;
use crate::moves::Move;
use crate::zobrist::lemma_xor;

verus! {

/// What a stored score says about the true one.
#[derive(Clone, Copy, PartialEq, Eq, Debug, Structural)]
pub enum TTFlag {
    Exact,
    LowerBound,
    UpperBound,
}

impl TTFlag {
    /// The two-bit code of a flag.
    pub open spec fn code(self) -> u64 {
        match self {
            TTFlag::Exact => 0,
            TTFlag::LowerBound => 1,
            TTFlag::UpperBound => 2,
        }
    }

    /// The flag of a two-bit code.
    pub open spec fn of_code(v: u64) -> TTFlag {
        if v == 0 {
            TTFlag::Exact
        } else if v == 1 {
            TTFlag::LowerBound
        } else {
            TTFlag::UpperBound
        }
    }

    fn bits(self) -> (r: u64)
        ensures
            r == self.code(),
            r < 4,
    {
        match self {
            TTFlag::Exact => 0,
            TTFlag::LowerBound => 1,
            TTFlag::UpperBound => 2,
        }
    }

    fn from_bits(v: u64) -> (r: Self)
        ensures
            r == TTFlag::of_code(v),
    {
        match v {
            0 => TTFlag::Exact,
            1 => TTFlag::LowerBound,
            _ => TTFlag::UpperBound,
        }
    }
}

/// An unpacked entry.
#[derive(Clone, Copy, PartialEq, Eq, Debug, Structural)]
pub struct TTData {
    pub depth: u8,
    pub score: i32,
    pub flag: TTFlag,
    pub best_move: Move,
}

/// Scores are kept within 16 bits.
pub open spec fn clamped_score(score: int) -> int {
    if score < -32000 {
        -32000
    } else if score > 32000 {
        32000
    } else {
        score
    }
}

/// Two's complement of a score in 16 bits.
pub open spec fn score_bits(score: int) -> u64 {
    (if clamped_score(score) < 0 { 65536 + clamped_score(score) } else { clamped_score(score) }) as u64
}

/// The score of 16 bits in two's complement.
pub open spec fn score_of_bits(b: u64) -> int {
    if b >= 32768 { b - 65536 } else { b as int }
}

/// The packed word: move in bits 0..15, score in 16..31, depth in 32..39, flag
/// in 40..41, generation in 42..49, and bit 50 set, so that no entry looks like
/// an empty slot.
pub open spec fn packed(depth: u8, score: int, flag: TTFlag, best_move: Move, generation: u8) -> u64 {
    (best_move.0 as u64) | (score_bits(score) << 16) | ((depth as u64) << 32) | (flag.code() << 40) | ((
    generation as u64) << 42) | 0x4_0000_0000_0000
}

/// The entry that a packed word holds.
pub open spec fn unpacked(data: u64) -> TTData {
    TTData {
        best_move: Move((data & 0xFFFF) as u16),
        score: score_of_bits((data >> 16) & 0xFFFF) as i32,
        depth: ((data >> 32) & 0xFF) as u8,
        flag: TTFlag::of_code((data >> 40) & 3),
    }
}

/// The generation that a packed word holds.
pub open spec fn generation_of(data: u64) -> u8 {
    ((data >> 42) & 0xFF) as u8
}

proof fn lemma_fields(m: u64, s: u64, d: u64, f: u64, g: u64)
    requires
        m < 65536,
        s < 65536,
        d < 256,
        f < 4,
        g < 256,
    ensures
        ({
            let data = m | (s << 16) | (d << 32) | (f << 40) | (g << 42) | 0x4_0000_0000_0000;
            &&& data != 0
            &&& data & 0xFFFF == m
            &&& (data >> 16) & 0xFFFF == s
            &&& (data >> 32) & 0xFF == d
            &&& (data >> 40) & 3 == f
            &&& (data >> 42) & 0xFF == g
        }),
{
    assert(m < 65536 && s < 65536 && d < 256 && f < 4 && g < 256 ==> ({
        let data = m | (s << 16) | (d << 32) | (f << 40) | (g << 42) | 0x4_0000_0000_0000;
        &&& data != 0
        &&& data & 0xFFFF == m
        &&& (data >> 16) & 0xFFFF == s
        &&& (data >> 32) & 0xFF == d
        &&& (data >> 40) & 3 == f
        &&& (data >> 42) & 0xFF == g
    })) by (bit_vector);
}

proof fn lemma_field_ranges(data: u64)
    ensures
        data & 0xFFFF < 65536,
        (data >> 16) & 0xFFFF < 65536,
        (data >> 32) & 0xFF < 256,
        (data >> 40) & 3 < 4,
        (data >> 42) & 0xFF < 256,
{
    assert(data & 0xFFFF < 65536 && (data >> 16) & 0xFFFF < 65536 && (data >> 32) & 0xFF < 256 && (data >> 40) & 3 < 4
        && (data >> 42) & 0xFF < 256) by (bit_vector);
}

pub proof fn lemma_masked(x: u64, mask: u64)
    ensures
        x & mask <= mask,
{
    assert(x & mask <= mask) by (bit_vector);
}

/// What is packed comes back, with the score clamped, and is never empty.
pub proof fn law_pack_unpack(depth: u8, score: int, flag: TTFlag, best_move: Move, generation: u8)
    ensures
        unpacked(packed(depth, score, flag, best_move, generation)) == (TTData {
            depth,
            score: clamped_score(score) as i32,
            flag,
            best_move,
        }),
        generation_of(packed(depth, score, flag, best_move, generation)) == generation,
        packed(depth, score, flag, best_move, generation) != 0,
{
    lemma_fields(best_move.0 as u64, score_bits(score), depth as u64, flag.code(), generation as u64);
}

/// A stored score fits 16 bits.
pub proof fn lemma_found_score(t: Table, hash: u64)
    ensures
        t.found(hash) is Some ==> -32768 <= t.found(hash)->Some_0.score <= 32767,
{
    lemma_field_ranges(t.entries[t.slot(hash)].data);
}

pub fn pack_data(depth: u8, score: i32, flag: TTFlag, best_move: Move, generation: u8) -> (r: u64)
    ensures
        r == packed(depth, score as int, flag, best_move, generation),
{
    let clamped: i32 = if score < -32000 {
        -32000
    } else if score > 32000 {
        32000
    } else {
        score
    };
    let m: u64 = best_move.0 as u64;
    let s: u64 = if clamped < 0 { (65536 + clamped) as u64 } else { clamped as u64 };
    let d: u64 = depth as u64;
    let f: u64 = flag.bits();
    let g: u64 = generation as u64;
    m | (s << 16) | (d << 32) | (f << 40) | (g << 42) | 0x4_0000_0000_0000
}

pub fn unpack_data(data: u64) -> (r: (TTData, u8))
    ensures
        r.0 == unpacked(data),
        r.1 == generation_of(data),
{
    proof {
        lemma_field_ranges(data);
    }
    let best_move = Move((data & 0xFFFF) as u16);
    let s: u64 = (data >> 16) & 0xFFFF;
    let score: i32 = if s >= 32768 { s as i32 - 65536 } else { s as i32 };
    let depth: u8 = ((data >> 32) & 0xFF) as u8;
    let flag = TTFlag::from_bits((data >> 40) & 3);
    let generation: u8 = ((data >> 42) & 0xFF) as u8;
    (TTData { depth, score, flag, best_move }, generation)
}

/// One slot: the hash combined with the data, and the data.
#[derive(Clone, Copy, PartialEq, Eq, Debug, Structural)]
pub struct TTEntry {
    pub key: u64,
    pub data: u64,
}

/// The transposition table.
pub struct SharedTT {
    entries: Vec<TTEntry>,
    mask: u64,
    generation: u8,
}

/// The content of a table.
pub struct Table {
    pub entries: Seq<TTEntry>,
    pub mask: u64,
    pub generation: u8,
}

impl Table {
    /// There is a slot for every hash.
    pub open spec fn ok(self) -> bool {
        &&& self.entries.len() == self.mask + 1
    }

    /// The slot of a position.
    pub open spec fn slot(self, hash: u64) -> int {
        (hash & self.mask) as int
    }

    /// What a lookup finds: the entry of the position, nothing in an empty slot.
    pub open spec fn found(self, hash: u64) -> Option<TTData> {
        let e = self.entries[self.slot(hash)];
        if e.data != 0 && e.key ^ e.data == hash { Some(unpacked(e.data)) } else { None }
    }

    /// A deeper entry of another position, of this generation, is kept.
    pub open spec fn keeps(self, hash: u64, depth: u8) -> bool {
        let e = self.entries[self.slot(hash)];
        &&& e.data != 0
        &&& e.key ^ e.data != hash
        &&& generation_of(e.data) == self.generation
        &&& unpacked(e.data).depth > depth
    }

    /// The table after a store.
    pub open spec fn stored(self, hash: u64, depth: u8, score: int, flag: TTFlag, best_move: Move) -> Table {
        if self.keeps(hash, depth) {
            self
        } else {
            let data = packed(depth, score, flag, best_move, self.generation);
            Table { entries: self.entries.update(self.slot(hash), TTEntry { key: hash ^ data, data }), ..self }
        }
    }

    /// How many of the first `n` slots hold an entry of this generation.
    pub open spec fn used(self, n: int) -> int
        decreases n,
    {
        if n <= 0 {
            0
        } else {
            self.used(n - 1) + if self.entries[n - 1].data != 0 && generation_of(self.entries[n - 1].data)
                == self.generation { 1int } else { 0 }
        }
    }
}

impl Table {
    /// How full the first thousand slots are, in thousandths.
    pub open spec fn fullness(self) -> int {
        let sample = if self.entries.len() < 1000 { self.entries.len() as int } else { 1000 };
        self.used(sample) * 1000 / sample
    }
}

/// A power of two.
pub open spec fn is_power_of_two(n: int) -> bool
    decreases n,
{
    if n <= 1 { n == 1 } else { n % 2 == 0 && is_power_of_two(n / 2) }
}

/// The smallest power of two that is at least `n`.
fn next_power_of_two(n: u64) -> (r: u64)
    requires
        n <= 0x4000_0000_0000_0000,
    ensures
        is_power_of_two(r as int),
        n <= r,
        r == 1 || r < 2 * n,
{
    let mut p: u64 = 1;
    while p < n
        invariant
            n <= 0x4000_0000_0000_0000,
            is_power_of_two(p as int),
            p == 1 || p < 2 * n,
        decreases 2 * n - p,
    {
        proof {
            assert((2 * p) / 2 == p);
        }
        p = p * 2;
    }
    p
}

/// The number of slots for a size in megabytes: half the smallest power of two
/// that holds as many 16-byte entries, and at least 1024.
pub open spec fn slots_for(size_mb: int, n: int) -> bool {
    let wanted = size_mb * 65536;
    ||| n == 1024 && exists|q: int| #[trigger] is_power_of_two(q) && wanted <= q && (q == 1 || q < 2 * wanted) && q / 2
        <= 1024
    ||| n > 1024 && is_power_of_two(n) && wanted <= 2 * n < 2 * wanted
}

impl View for SharedTT {
    type V = Table;

    closed spec fn view(&self) -> Table {
        Table { entries: self.entries@, mask: self.mask, generation: self.generation }
    }
}

impl SharedTT {
    /// Create a new transposition table with the given size in MB.
    pub fn new(size_mb: usize) -> (r: Self)
        requires
            size_mb <= 0x800_0000_0000,
        ensures
            r@.ok(),
            slots_for(size_mb as int, r@.entries.len() as int),
            forall|i: int| 0 <= i < r@.entries.len() ==> #[trigger] r@.entries[i] == (TTEntry { key: 0, data: 0 }),
            r@.generation == 0,
    {
        let wanted: u64 = (size_mb as u64 * 1024 * 1024) / 16;
        let full: u64 = next_power_of_two(wanted);
        let half: u64 = full / 2;
        let count: u64 = if half < 1024 { 1024 } else { half };
        proof {
            assert(size_mb as int * 65536 == wanted);
            assert(is_power_of_two(full as int));
            if half > 1024 {
                assert(is_power_of_two(full as int / 2));
            } else {
                assert(slots_for(size_mb as int, 1024));
            }
        }
        let mut entries: Vec<TTEntry> = Vec::new();
        let mut i: u64 = 0;
        while i < count
            invariant
                i <= count,
                entries@.len() == i,
                forall|j: int| 0 <= j < i ==> #[trigger] entries@[j] == (TTEntry { key: 0, data: 0 }),
            decreases count - i,
        {
            entries.push(TTEntry { key: 0, data: 0 });
            i = i + 1;
        }
        SharedTT { entries, mask: count - 1, generation: 0 }
    }

    fn slot_of(&self, hash: u64) -> (r: usize)
        requires
            self@.ok(),
        ensures
            r == self@.slot(hash),
            r < self@.entries.len(),
    {
        let mask: u64 = self.mask;
        let len: usize = self.entries.len();
        proof {
            lemma_masked(hash, mask);
            assert(mask < len);
        }
        (hash & mask) as usize
    }

    /// Probe the table for the given hash. Returns `None` on a miss.
    pub fn probe(&self, hash: u64) -> (r: Option<TTData>)
        requires
            self@.ok(),
        ensures
            r == self@.found(hash),
    {
        let e = self.entries[self.slot_of(hash)];
        if e.data == 0 || e.key ^ e.data != hash {
            return None;
        }
        let (entry, _generation) = unpack_data(e.data);
        Some(entry)
    }

    /// Store an entry. It replaces what is in its slot if that is an entry of the
    /// same position, from an older generation, or not deeper.
    pub fn store(&mut self, hash: u64, depth: u8, score: i32, flag: TTFlag, best_move: Move)
        requires
            old(self)@.ok(),
        ensures
            final(self)@ == old(self)@.stored(hash, depth, score as int, flag, best_move),
            final(self)@.ok(),
    {
        let idx: usize = self.slot_of(hash);
        let data: u64 = pack_data(depth, score, flag, best_move, self.generation);
        let e = self.entries[idx];
        if e.data != 0 {
            let (old_entry, old_generation) = unpack_data(e.data);
            if e.key ^ e.data != hash && old_generation == self.generation && old_entry.depth > depth {
                return ;
            }
        }
        self.entries[idx] = TTEntry { key: hash ^ data, data };
        proof {
            assert(self@.entries =~= old(self)@.stored(hash, depth, score as int, flag, best_move).entries);
        }
    }

    /// Increment the generation counter. Call once per search.
    pub fn new_search(&mut self)
        ensures
            final(self)@ == (Table { generation: old(self)@.generation.wrapping_add(1), ..old(self)@ }),
    {
        self.generation = self.generation.wrapping_add(1);
    }

    /// Approximate fill ratio in permille (0..1000).
    pub fn hashfull(&self) -> (r: u16)
        requires
            self@.ok(),
        ensures
            r == self@.fullness(),
            r <= 1000,
    {
        let len: usize = self.entries.len();
        let sample: usize = if len < 1000 { len } else { 1000 };
        let mut used: u64 = 0;
        let mut i: usize = 0;
        while i < sample
            invariant
                i <= sample <= 1000,
                sample <= self.entries@.len(),
                used == self@.used(i as int),
                used <= i,
            decreases sample - i,
        {
            let data: u64 = self.entries[i].data;
            if data != 0 {
                let (_entry, entry_generation) = unpack_data(data);
                if entry_generation == self.generation {
                    used = used + 1;
                }
            }
            i = i + 1;
        }
        proof {
            assert(used * 1000 / (sample as int) <= 1000) by (nonlinear_arith)
                requires
                    0 <= used <= sample,
                    sample > 0,
            ;
        }
        ((used * 1000) / sample as u64) as u16
    }

    /// Clear all entries.
    pub fn clear(&mut self)
        requires
            old(self)@.ok(),
        ensures
            final(self)@.ok(),
            final(self)@.entries.len() == old(self)@.entries.len(),
            final(self)@.mask == old(self)@.mask,
            forall|i: int|
                0 <= i < final(self)@.entries.len() ==> #[trigger] final(self)@.entries[i] == (TTEntry { key: 0, data: 0 }),
            final(self)@.generation == 0,
    {
        let mut i: usize = 0;
        let ghost before = self@;
        while i < self.entries.len()
            invariant
                i <= self.entries@.len(),
                self@.mask == before.mask,
                self@.entries.len() == before.entries.len(),
                forall|j: int| 0 <= j < i ==> #[trigger] self@.entries[j] == (TTEntry { key: 0, data: 0 }),
            decreases self.entries@.len() - i,
        {
            self.entries[i] = TTEntry { key: 0, data: 0 };
            i = i + 1;
        }
        self.generation = 0;
    }

    /// A new table of the given size in MB, in place of this one.
    pub fn resize(size_mb: usize) -> (r: Self)
        requires
            size_mb <= 0x800_0000_0000,
        ensures
            r@.ok(),
            slots_for(size_mb as int, r@.entries.len() as int),
            forall|i: int| 0 <= i < r@.entries.len() ==> #[trigger] r@.entries[i] == (TTEntry { key: 0, data: 0 }),
            r@.generation == 0,
    {
        Self::new(size_mb)
    }
}

/// An entry that is stored is found again, its score clamped.
pub proof fn law_store_then_probe(t: Table, hash: u64, depth: u8, score: int, flag: TTFlag, best_move: Move)
    requires
        t.ok(),
        !t.keeps(hash, depth),
    ensures
        t.stored(hash, depth, score, flag, best_move).found(hash) == Some(
            TTData { depth, score: clamped_score(score) as i32, flag, best_move },
        ),
{
    let data = packed(depth, score, flag, best_move, t.generation);
    let mask = t.mask;
    lemma_masked(hash, mask);
    law_pack_unpack(depth, score, flag, best_move, t.generation);
    lemma_xor(hash, data, 0);
}

/// A store never changes what is found for a position in another slot, and a
/// position that shares the slot is either found as before or not at all.
pub proof fn law_store_keeps_others(
    t: Table,
    hash: u64,
    other: u64,
    depth: u8,
    score: int,
    flag: TTFlag,
    best_move: Move,
)
    requires
        t.ok(),
        other != hash,
    ensures
        ({
            let after = t.stored(hash, depth, score, flag, best_move);
            &&& t.slot(other) != t.slot(hash) ==> after.found(other) == t.found(other)
            &&& t.slot(other) == t.slot(hash) ==> after.found(other) == t.found(other) || after.found(other) is None
        }),
{
    let data = packed(depth, score, flag, best_move, t.generation);
    let mask = t.mask;
    lemma_masked(hash, mask);
    lemma_masked(other, mask);
    lemma_xor(hash, data, 0);
}

/// Refining an entry of the same position always replaces it.
pub proof fn law_same_position_is_replaced(t: Table, hash: u64, depth: u8)
    requires
        t.found(hash) is Some,
    ensures
        !t.keeps(hash, depth),
{
}

/// What a store does: it takes an empty slot, and replaces an entry of the same
/// position, one of an older search, and one that is not deeper; the entry is
/// found with all its parts. A deeper entry of another position, from the same
/// search, stays and nothing changes.
pub proof fn law_what_a_store_replaces(t: Table, hash: u64, depth: u8, score: int, flag: TTFlag, best_move: Move)
    requires
        t.ok(),
        -32000 <= score <= 32000,
    ensures
        ({
            let e = t.entries[(hash & t.mask) as int];
            let after = t.stored(hash, depth, score, flag, best_move);
            let old = unpacked(e.data);
            let gives_way = e.data == 0 || e.key ^ e.data == hash || generation_of(e.data) != t.generation || old.depth
                <= depth;
            &&& gives_way ==> after.found(hash) is Some
            &&& gives_way ==> after.found(hash)->Some_0.depth == depth
            &&& gives_way ==> after.found(hash)->Some_0.score == score
            &&& gives_way ==> after.found(hash)->Some_0.flag == flag
            &&& gives_way ==> after.found(hash)->Some_0.best_move == best_move
            &&& !gives_way ==> after == t
        }),
{
    if !t.keeps(hash, depth) {
        law_store_then_probe(t, hash, depth, score, flag, best_move);
    }
}

/// Nothing is found in an empty table, and what is found was stored for the very
/// hash that is asked for.
pub proof fn law_only_the_own_hash_is_found(t: Table, hash: u64)
    requires
        t.ok(),
    ensures
        ({
            let e = t.entries[(hash & t.mask) as int];
            &&& e.data == 0 ==> t.found(hash) is None
            &&& e.data != 0 && e.key ^ e.data != hash ==> t.found(hash) is None
            &&& e.data != 0 && e.key ^ e.data == hash ==> t.found(hash) is Some
        }),
{
}

/// The fill runs from nothing in an empty table to a thousand in a full one, and
/// only entries of this search count.
pub proof fn law_fill_of_a_table(t: Table, n: int)
    requires
        0 <= n,
    ensures
        0 <= t.used(n) <= n,
        (forall|i: int|
            0 <= i < n ==> (#[trigger] t.entries[i]).data == 0 || generation_of(t.entries[i].data) != t.generation)
            ==> t.used(n) == 0,
        (forall|i: int|
            0 <= i < n ==> (#[trigger] t.entries[i]).data != 0 && generation_of(t.entries[i].data) == t.generation)
            ==> t.used(n) == n,
        t.entries.len() >= 1000 ==> t.fullness() == t.used(1000),
    decreases n,
{
    if n > 0 {
        law_fill_of_a_table(t, n - 1);
    }
}

} // verus!
