//! Default `Hash` and `Threads` values for the machine the engine runs on.
//!
//! * Hash scales to about 1/16 of the available memory.
//! * Threads is the number of performance cores, those whose maximum frequency
//!   is close to the fastest core's.

use vstd::prelude::*;

verus! {

/// Hash fallback (MB) used as the memory ceiling when memory can't be probed.
pub const FIXED_HASH_MB: usize = 256;

/// Upper bound on the auto-selected thread count.
pub const MAX_AUTO_THREADS: usize = 16;

/// The memory ceiling for the hash is this fraction of available memory.
pub const HASH_DIVISOR: u64 = 16;

/// Floor for the auto-selected hash size (MB).
pub const HASH_MIN_MB: usize = 16;

/// Transposition-table budget per thread (MB).
pub const HASH_MB_PER_THREAD: usize = 128;

/// Cores whose maximum frequency is at least this percentage of the fastest
/// core's are performance cores.
pub const PERF_CORE_FREQ_PCT: u64 = 70;

/// Hash size for a number of threads and the available memory: the threads'
/// budget, at most the memory ceiling, at least the floor.
pub open spec fn hash_size(threads: int, available_mb: Option<u64>) -> int {
    let budget = (if threads < 1 { 1 } else { threads }) * 128;
    let ceiling = match available_mb {
        Some(mb) => mb as int / 16,
        None => 256,
    };
    let capped = if budget < ceiling { budget } else { ceiling };
    if capped < 16 { 16 } else { capped }
}

/// Combine the per-thread budget with the memory ceiling.
pub fn hash_for(threads: usize, available_mb: Option<u64>) -> (r: usize)
    requires
        threads <= usize::MAX / 128,
    ensures
        r == hash_size(threads as int, available_mb),
        r >= HASH_MIN_MB,
{
    let budget: usize = (if threads < 1 { 1 } else { threads }) * HASH_MB_PER_THREAD;
    let capped: usize = match available_mb {
        Some(mb) => if mb / HASH_DIVISOR < budget as u64 {
            (mb / HASH_DIVISOR) as usize
        } else {
            budget
        },
        None => if budget < FIXED_HASH_MB {
            budget
        } else {
            FIXED_HASH_MB
        },
    };
    if capped < HASH_MIN_MB {
        HASH_MIN_MB
    } else {
        capped
    }
}

/// The largest of a list of numbers, from the first `n`.
pub open spec fn largest(s: Seq<u64>, n: int) -> int
    decreases n,
{
    if n <= 0 {
        0
    } else if s[n - 1] > largest(s, n - 1) {
        s[n - 1] as int
    } else {
        largest(s, n - 1)
    }
}

/// How many of the first `n` numbers are at least `limit`.
pub open spec fn at_least(s: Seq<u64>, limit: int, n: int) -> int
    decreases n,
{
    if n <= 0 {
        0
    } else {
        at_least(s, limit, n - 1) + if s[n - 1] >= limit { 1int } else { 0 }
    }
}

/// The number of performance cores, between 1 and 16; none without a usable
/// frequency.
pub open spec fn performance_count(s: Seq<u64>) -> Option<int> {
    let top = largest(s, s.len() as int);
    if top == 0 {
        None
    } else {
        let n = at_least(s, top * 70 / 100, s.len() as int);
        Some(if n < 1 { 1 } else if n > 16 { 16 } else { n })
    }
}

/// Count performance cores given each core's maximum frequency (kHz).
pub fn count_performance_cores(max_freqs: &[u64]) -> (r: Option<usize>)
    requires
        forall|i: int| 0 <= i < max_freqs@.len() ==> #[trigger] max_freqs@[i] <= u64::MAX / 70,
    ensures
        r is Some <==> performance_count(max_freqs@) is Some,
        r is Some ==> r->Some_0 == performance_count(max_freqs@)->Some_0 && 1 <= r->Some_0 <= MAX_AUTO_THREADS,
{
    let mut top: u64 = 0;
    let mut i: usize = 0;
    while i < max_freqs.len()
        invariant
            i <= max_freqs@.len(),
            top == largest(max_freqs@, i as int),
            top <= u64::MAX / 70,
            forall|j: int| 0 <= j < max_freqs@.len() ==> #[trigger] max_freqs@[j] <= u64::MAX / 70,
        decreases max_freqs@.len() - i,
    {
        if max_freqs[i] > top {
            top = max_freqs[i];
        }
        i = i + 1;
    }
    if top == 0 {
        return None;
    }
    let threshold: u64 = top * PERF_CORE_FREQ_PCT / 100;
    let mut n: usize = 0;
    let mut j: usize = 0;
    while j < max_freqs.len()
        invariant
            j <= max_freqs@.len(),
            n == at_least(max_freqs@, threshold as int, j as int),
            n <= j,
        decreases max_freqs@.len() - j,
    {
        if max_freqs[j] >= threshold {
            n = n + 1;
        }
        j = j + 1;
    }
    Some(
        if n < 1 {
            1
        } else if n > MAX_AUTO_THREADS {
            MAX_AUTO_THREADS
        } else {
            n
        },
    )
}

/// Number of search threads to use when the user hasn't set `Threads`: the
/// performance cores where the cores' frequencies are known, otherwise the
/// parallelism that the system reports, at most 16, or one.
pub fn default_threads(max_freqs: &[u64], parallelism: Option<usize>) -> (r: usize)
    requires
        forall|i: int| 0 <= i < max_freqs@.len() ==> #[trigger] max_freqs@[i] <= u64::MAX / 70,
    ensures
        r == (match performance_count(max_freqs@) {
            Some(n) => n,
            None => match parallelism {
                Some(n) => if n < 16 { n as int } else { 16 },
                None => 1,
            },
        }),
{
    match count_performance_cores(max_freqs) {
        Some(n) => n,
        None => match parallelism {
            Some(n) => if n < MAX_AUTO_THREADS {
                n
            } else {
                MAX_AUTO_THREADS
            },
            None => 1,
        },
    }
}

/// `sysinfo::System`, the machine as it was last read.
#[verifier::external_type_specification]
#[verifier::external_body]
pub struct ExSystem(sysinfo::System);

/// `sysinfo::Error`, why the machine cannot be read.
#[verifier::external_type_specification]
#[verifier::external_body]
pub struct ExSystemError(sysinfo::Error);

/// `sysinfo::System::new`: a reading of the machine, or an error where the
/// system is not supported. Nothing is claimed of which.
pub assume_specification[ sysinfo::System::new ]() -> (r: Result<sysinfo::System, sysinfo::Error>);

/// `sysinfo::System::refresh_memory`: reads the memory anew. Nothing is claimed
/// of what is read.
pub assume_specification[ sysinfo::System::refresh_memory ](system: &mut sysinfo::System);

/// `sysinfo::System::total_memory`: bytes of memory as last read. Nothing is
/// claimed of the number, which is the machine's.
pub assume_specification[ sysinfo::System::total_memory ](system: &sysinfo::System) -> (r: u64);

/// `sysinfo::System::available_memory`: bytes that can be used, as last read.
/// Nothing is claimed of the number, which is the machine's.
pub assume_specification[ sysinfo::System::available_memory ](system: &sysinfo::System) -> (r: u64);

/// A reading of total and available memory in bytes, in MB.
pub fn in_mb(total: u64, available: u64) -> (r: (u64, u64))
    ensures
        r.0 == total / 1_048_576,
        r.1 == available / 1_048_576,
{
    (total / 1_048_576, available / 1_048_576)
}

/// Total and available memory in MB; zero where unknown. The machine decides
/// what is read; [`in_mb`] says what is made of it.
pub fn mem_total_avail_mb() -> (r: (u64, u64))
    ensures
        r.0 <= u64::MAX / 1_048_576,
        r.1 <= u64::MAX / 1_048_576,
{
    match sysinfo::System::new() {
        Ok(system) => {
            let mut read = system;
            read.refresh_memory();
            in_mb(read.total_memory(), read.available_memory())
        },
        Err(_) => (0, 0),
    }
}

/// The transposition-table size (MB) that follows from a reading of the
/// available memory, in which zero stands for unknown.
pub fn hash_for_reading(threads: usize, available_mb: u64) -> (r: usize)
    requires
        threads <= usize::MAX / 128,
    ensures
        r == hash_size(
            threads as int,
            if available_mb > 0 {
                Some(available_mb)
            } else {
                None
            },
        ),
        r >= HASH_MIN_MB,
{
    hash_for(
        threads,
        if available_mb > 0 {
            Some(available_mb)
        } else {
            None
        },
    )
}

/// Default transposition-table size (MB) for a search using `threads` threads,
/// when the user hasn't set `Hash`. It depends on the memory available now:
/// whatever is read, the size is [`hash_for_reading`] of it.
pub fn default_hash_mb(threads: usize) -> (r: usize)
    requires
        threads <= usize::MAX / 128,
    ensures
        exists|available: Option<u64>| r == #[trigger] hash_size(threads as int, available),
        r >= HASH_MIN_MB,
{
    hash_for_reading(threads, mem_total_avail_mb().1)
}

/// More threads or more memory never give a smaller table.
pub proof fn law_hash_size_monotone(t1: int, t2: int, m1: u64, m2: u64)
    requires
        t1 <= t2,
        m1 <= m2,
    ensures
        hash_size(t1, Some(m1)) <= hash_size(t2, Some(m2)),
{
}

/// The table takes at most a sixteenth of the memory and at most 128 MB a thread,
/// but at least 16 MB; where the memory is unknown, at most 256 MB.
pub proof fn law_hash_size_limits(threads: int, available_mb: Option<u64>)
    requires
        1 <= threads,
    ensures
        hash_size(threads, available_mb) >= 16,
        hash_size(threads, available_mb) <= 128 * threads,
        available_mb is Some && available_mb->Some_0 >= 256 ==> hash_size(threads, available_mb) * 16
            <= available_mb->Some_0,
        available_mb is None ==> hash_size(threads, available_mb) <= 256,
        available_mb is Some && available_mb->Some_0 >= 2048 * threads ==> hash_size(threads, available_mb) == 128
            * threads,
{
}

proof fn lemma_largest(s: Seq<u64>, n: int)
    requires
        0 <= n <= s.len(),
    ensures
        forall|i: int| 0 <= i < n ==> #[trigger] s[i] <= largest(s, n),
        n > 0 ==> exists|i: int| 0 <= i < n && #[trigger] s[i] == largest(s, n),
        n == 0 ==> largest(s, n) == 0,
    decreases n,
{
    if n > 0 {
        lemma_largest(s, n - 1);
        assert(s[n - 1] <= largest(s, n));
        if s[n - 1] > largest(s, n - 1) {
            assert(s[n - 1] == largest(s, n));
        } else if n == 1 {
            assert(s[0] == largest(s, n));
        }
    }
}

proof fn lemma_at_least(s: Seq<u64>, limit: int, n: int)
    requires
        0 <= n <= s.len(),
    ensures
        0 <= at_least(s, limit, n) <= n,
        (forall|i: int| 0 <= i < n ==> #[trigger] s[i] >= limit) ==> at_least(s, limit, n) == n,
        (exists|i: int| 0 <= i < n && #[trigger] s[i] < limit) ==> at_least(s, limit, n) < n,
    decreases n,
{
    if n > 0 {
        lemma_at_least(s, limit, n - 1);
    }
}

/// A core counts as one for performance if it runs at seven tenths of the fastest
/// core's frequency: where all do, all up to sixteen are counted, where a slower
/// one is among sixteen or fewer, not all are, and at least one always is.
pub proof fn law_fast_cores_are_counted(s: Seq<u64>, fastest: int)
    requires
        0 <= fastest < s.len(),
        s[fastest] >= 1,
        forall|i: int| 0 <= i < s.len() ==> #[trigger] s[i] <= s[fastest],
    ensures
        performance_count(s) is Some,
        1 <= performance_count(s)->Some_0 <= 16,
        (forall|i: int| 0 <= i < s.len() ==> #[trigger] s[i] * 100 >= s[fastest] * 70) ==> performance_count(s)->Some_0
            == (if s.len() <= 16 { s.len() as int } else { 16 }),
        (exists|i: int| 0 <= i < s.len() && (#[trigger] s[i] + 1) * 100 <= s[fastest] * 70) && s.len() <= 16
            ==> performance_count(s)->Some_0 < s.len(),
{
    let n = s.len() as int;
    lemma_largest(s, n);
    let top = largest(s, n);
    assert(top == s[fastest]) by {
        let i = choose|i: int| 0 <= i < n && #[trigger] s[i] == top;
        assert(s[i] <= s[fastest] && s[fastest] <= top);
    }
    let limit = top * 70 / 100;
    lemma_at_least(s, limit, n);
    if forall|i: int| 0 <= i < n ==> #[trigger] s[i] * 100 >= s[fastest] * 70 {
        assert forall|i: int| 0 <= i < n implies #[trigger] s[i] >= limit by {
            assert(s[i] * 100 >= s[fastest] * 70);
        }
    }
    if exists|i: int| 0 <= i < n && (#[trigger] s[i] + 1) * 100 <= s[fastest] * 70 {
        let i = choose|i: int| 0 <= i < n && (#[trigger] s[i] + 1) * 100 <= s[fastest] * 70;
        assert(s[i] < limit);
        assert(i != fastest);
        assert(n >= 2);
    }
}

} // verus!
