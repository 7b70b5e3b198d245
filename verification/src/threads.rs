//! How many threads a search uses.

use vstd::prelude::*;

verus! {

/// The number of threads worth starting for a number of root moves: one for at
/// most one move, one more than the moves for up to four, and otherwise all.
pub open spec fn threads_for(num_threads: int, root_moves: int) -> int {
    if num_threads <= 1 || root_moves <= 1 {
        1
    } else if root_moves <= 4 {
        if num_threads < root_moves + 1 { num_threads } else { root_moves + 1 }
    } else {
        num_threads
    }
}

/// The number of threads worth starting.
pub fn active_thread_count(num_threads: usize, root_moves: usize) -> (r: usize)
    ensures
        r == threads_for(num_threads as int, root_moves as int),
        1 <= r,
        r <= num_threads || r == 1,
{
    if num_threads <= 1 || root_moves <= 1 {
        return 1;
    }
    // Helpers beyond a few mostly duplicate work when the root is narrow.
    if root_moves <= 4 {
        return if num_threads < root_moves + 1 {
            num_threads
        } else {
            root_moves + 1
        };
    }
    num_threads
}

/// The threads of a search: one main thread and its helpers.
pub struct ThreadPool {
    num_threads: usize,
}

impl ThreadPool {
    /// The number of threads, at least one.
    pub closed spec fn size(&self) -> int {
        self.num_threads as int
    }

    pub fn new(num_threads: usize) -> (r: Self)
        ensures
            r.size() == (if num_threads < 1 { 1 } else { num_threads as int }),
    {
        ThreadPool { num_threads: if num_threads < 1 { 1 } else { num_threads } }
    }

    /// How many threads to start for a position with this many legal moves.
    pub fn active_for(&self, root_moves: usize) -> (r: usize)
        ensures
            r == threads_for(self.size(), root_moves as int),
            1 <= r,
    {
        active_thread_count(self.num_threads, root_moves)
    }
}

/// The nodes of all threads together.
pub open spec fn node_sum(counts: Seq<u64>, n: int) -> int
    decreases n,
{
    if n <= 0 { 0 } else { node_sum(counts, n - 1) + counts[n - 1] }
}

/// Adds up the node counts of all threads.
pub fn total_nodes(counts: &Vec<u64>) -> (r: u64)
    requires
        node_sum(counts@, counts@.len() as int) <= u64::MAX,
    ensures
        r == node_sum(counts@, counts@.len() as int),
{
    let mut sum: u64 = 0;
    let mut i: usize = 0;
    while i < counts.len()
        invariant
            i <= counts@.len(),
            sum == node_sum(counts@, i as int),
            node_sum(counts@, counts@.len() as int) <= u64::MAX,
        decreases counts@.len() - i,
    {
        proof {
            lemma_partial(counts@, i + 1, counts@.len() as int);
        }
        sum = sum + counts[i];
        i = i + 1;
    }
    sum
}

proof fn lemma_partial(counts: Seq<u64>, n: int, m: int)
    requires
        0 <= n <= m,
    ensures
        node_sum(counts, n) <= node_sum(counts, m),
    decreases m - n,
{
    if n < m {
        lemma_partial(counts, n, m - 1);
    }
}

/// A search never starts more threads than it was given, always at least one, and
/// only one where there is nothing to choose; with many moves it starts them all.
pub proof fn law_threads_fit_the_work(given: int, moves: int)
    requires
        1 <= given,
        0 <= moves,
    ensures
        1 <= threads_for(given, moves) <= given,
        moves <= 1 ==> threads_for(given, moves) == 1,
        moves >= 5 ==> threads_for(given, moves) == given,
        2 <= moves <= 4 ==> threads_for(given, moves) <= moves + 1,
        2 <= moves <= 4 && given <= moves + 1 ==> threads_for(given, moves) == given,
{
}

/// The nodes of all threads together: those of the last, and of those before it.
pub proof fn law_nodes_add_up(counts: Seq<u64>)
    ensures
        counts.len() == 0 ==> node_sum(counts, counts.len() as int) == 0,
        counts.len() > 0 ==> node_sum(counts, counts.len() as int) == node_sum(counts, counts.len() - 1)
            + counts[counts.len() - 1],
        counts.len() == 2 ==> node_sum(counts, 2) == counts[0] + counts[1],
{
    reveal_with_fuel(node_sum, 3);
}

} // verus!
