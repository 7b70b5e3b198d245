//! The engine: its settings, its transposition table, and searches with them.

use vstd::prelude::*;
use crate::board::Board;
use crate::deepening::outcome;
use crate::history::{PersistentHistory, Tables};
use crate::iterative::{comes_to, iterative_deepening};
use crate::moves::Move;
use crate::nnue::network::NnueNetwork;
use crate::params::{default_tune, SearchParams, SearchResult, TuneParams};
use crate::search::{clock_room, Host, Witness};
use crate::text::{chars_are, chars_of};
use crate::threads::{threads_for, ThreadPool};
use crate::tt::{slots_for, SharedTT, TTEntry, Table};

verus! {

/// A number kept between two limits.
pub open spec fn within_limits(x: int, lo: int, hi: int) -> int {
    if x < lo {
        lo
    } else if x > hi {
        hi
    } else {
        x
    }
}

fn limited(x: usize, lo: usize, hi: usize) -> (r: usize)
    requires
        lo <= hi,
    ensures
        r == within_limits(x as int, lo as int, hi as int),
        lo <= r <= hi,
{
    if x < lo {
        lo
    } else if x > hi {
        hi
    } else {
        x
    }
}

/// The main engine that performs searches.
pub struct Engine {
    tt: SharedTT,
    thread_pool: ThreadPool,
    hash_mb: usize,
    num_threads: usize,
    move_overhead_ms: u64,
    slow_mover: u64,
    contempt: i32,
    singular_ext_mode: u8,
    use_nnue: bool,
    nnue_net: NnueNetwork,
    tune: TuneParams,
}

/// The settings of an engine.
pub struct Settings {
    pub hash_mb: int,
    pub num_threads: int,
    pub move_overhead_ms: u64,
    pub slow_mover: u64,
    pub contempt: i32,
    pub singular_ext_mode: u8,
    pub use_nnue: bool,
    pub tune: TuneParams,
}

impl View for Engine {
    type V = Settings;

    closed spec fn view(&self) -> Settings {
        Settings {
            hash_mb: self.hash_mb as int,
            num_threads: self.num_threads as int,
            move_overhead_ms: self.move_overhead_ms,
            slow_mover: self.slow_mover,
            contempt: self.contempt,
            singular_ext_mode: self.singular_ext_mode,
            use_nnue: self.use_nnue,
            tune: self.tune,
        }
    }
}

/// The tuning with one parameter set by its name.
pub open spec fn retuned(t: TuneParams, name: Seq<char>, value: i32) -> TuneParams {
    if name == "lmr_base"@ {
        TuneParams { lmr_base: value, ..t }
    } else if name == "lmr_div"@ {
        TuneParams { lmr_div: value, ..t }
    } else if name == "hist_lmr_div"@ {
        TuneParams { hist_lmr_div: value, ..t }
    } else if name == "rfp_margin_imp"@ {
        TuneParams { rfp_margin_imp: value, ..t }
    } else if name == "rfp_margin_noimp"@ {
        TuneParams { rfp_margin_noimp: value, ..t }
    } else if name == "fut_margin_imp"@ {
        TuneParams { fut_margin_imp: value, ..t }
    } else if name == "fut_margin_noimp"@ {
        TuneParams { fut_margin_noimp: value, ..t }
    } else if name == "see_quiet_margin"@ {
        TuneParams { see_quiet_margin: value, ..t }
    } else if name == "corrhist_mult"@ {
        TuneParams { corrhist_mult: value, ..t }
    } else {
        t
    }
}

/// The parameters with another tuning.
pub open spec fn tuned(params: SearchParams, tune: TuneParams) -> SearchParams {
    SearchParams { tune, ..params }
}

/// The table in its next generation.
pub open spec fn next_generation(t: Table) -> Table {
    Table { generation: t.generation.wrapping_add(1), ..t }
}

/// A parameter that is set reads back, and no other changes.
pub proof fn law_tuning_reads_back(t: TuneParams, name: Seq<char>, value: i32, other: Seq<char>)
    requires
        t.named(name) is Some,
    ensures
        retuned(t, name, value).named(name) == Some(value),
        other != name ==> retuned(t, name, value).named(other) == t.named(other),
{
}

impl Engine {
    /// The transposition table.
    pub closed spec fn table(&self) -> Table {
        self.tt@
    }

    /// The size of the thread pool.
    pub closed spec fn pool(&self) -> int {
        self.thread_pool.size()
    }

    /// The network.
    pub closed spec fn net(&self) -> NnueNetwork {
        self.nnue_net
    }

    /// The settings are within their limits, and the network can be used.
    pub open spec fn ok(&self) -> bool {
        &&& self.table().ok()
        &&& self.pool() == self@.num_threads
        &&& self.net().ok()
        &&& 1 <= self@.hash_mb <= 131072
        &&& 1 <= self@.num_threads <= 256
        &&& self@.move_overhead_ms <= 5000
        &&& 10 <= self@.slow_mover <= 300
        &&& 0 <= self@.contempt <= 100
        &&& self@.singular_ext_mode <= 2
    }

    /// An engine with a minimal table, to be resized once the settings are
    /// known.
    pub fn new(parallelism: Option<usize>) -> (r: Self)
        requires
            parallelism is Some ==> parallelism->Some_0 >= 1,
        ensures
            r.ok(),
            r@ == (Settings {
                hash_mb: 1,
                num_threads: match parallelism {
                    Some(n) => within_limits(n as int, 1, 16),
                    None => 1,
                },
                move_overhead_ms: 20,
                slow_mover: 100,
                contempt: 20,
                singular_ext_mode: 1,
                use_nnue: false,
                tune: default_tune(),
            }),
    {
        Self::with_hash(1, parallelism)
    }

    /// An engine with a specific hash size (MB), and as many threads as the
    /// system offers, at most 16.
    pub fn with_hash(hash_mb: usize, parallelism: Option<usize>) -> (r: Self)
        requires
            parallelism is Some ==> parallelism->Some_0 >= 1,
        ensures
            r.ok(),
            r@ == (Settings {
                hash_mb: within_limits(hash_mb as int, 1, 131072),
                num_threads: match parallelism {
                    Some(n) => within_limits(n as int, 1, 16),
                    None => 1,
                },
                move_overhead_ms: 20,
                slow_mover: 100,
                contempt: 20,
                singular_ext_mode: 1,
                use_nnue: false,
                tune: default_tune(),
            }),
            slots_for(r@.hash_mb, r.table().entries.len() as int),
    {
        let hash_mb: usize = limited(hash_mb, 1, 131072);
        let num_threads: usize = match parallelism {
            Some(n) => limited(n, 1, 16),
            None => 1,
        };
        let nnue_net = NnueNetwork::embedded();
        let use_nnue = nnue_net.is_trained();
        Engine {
            tt: SharedTT::new(hash_mb),
            thread_pool: ThreadPool::new(num_threads),
            hash_mb,
            num_threads,
            move_overhead_ms: 20,
            slow_mover: 100,
            contempt: 20,
            singular_ext_mode: 1,
            use_nnue,
            nnue_net,
            tune: TuneParams::default(),
        }
    }

    /// Set the transposition table size in MB. A new size empties the table.
    pub fn set_hash_mb(&mut self, mb: usize)
        requires
            old(self).ok(),
        ensures
            final(self).ok(),
            final(self).net() == old(self).net(),
            final(self)@ == (Settings { hash_mb: within_limits(mb as int, 1, 131072), ..old(self)@ }),
            final(self)@.hash_mb == old(self)@.hash_mb ==> final(self).table() == old(self).table(),
            final(self)@.hash_mb != old(self)@.hash_mb ==> slots_for(
                final(self)@.hash_mb,
                final(self).table().entries.len() as int,
            ) && forall|i: int|
                0 <= i < final(self).table().entries.len() ==> #[trigger] final(self).table().entries[i] == (TTEntry {
                    key: 0,
                    data: 0,
                }),
    {
        let mb: usize = limited(mb, 1, 131072);
        if mb != self.hash_mb {
            self.hash_mb = mb;
            self.tt = SharedTT::new(mb);
        }
    }

    pub fn hash_mb(&self) -> (r: usize)
        ensures
            r == self@.hash_mb,
    {
        self.hash_mb
    }

    /// Set the number of search threads.
    pub fn set_threads(&mut self, threads: usize)
        requires
            old(self).ok(),
        ensures
            final(self).ok(),
            final(self).net() == old(self).net(),
            final(self).table() == old(self).table(),
            final(self)@ == (Settings { num_threads: within_limits(threads as int, 1, 256), ..old(self)@ }),
    {
        self.num_threads = limited(threads, 1, 256);
        self.thread_pool = ThreadPool::new(self.num_threads);
    }

    pub fn num_threads(&self) -> (r: usize)
        ensures
            r == self@.num_threads,
    {
        self.num_threads
    }

    /// Set the move overhead in milliseconds.
    pub fn set_move_overhead(&mut self, ms: u64)
        requires
            old(self).ok(),
        ensures
            final(self).ok(),
            final(self).net() == old(self).net(),
            final(self).table() == old(self).table(),
            final(self)@ == (Settings { move_overhead_ms: within_limits(ms as int, 0, 5000) as u64, ..old(self)@ }),
    {
        self.move_overhead_ms = if ms > 5000 { 5000 } else { ms };
    }

    pub fn move_overhead_ms(&self) -> (r: u64)
        ensures
            r == self@.move_overhead_ms,
    {
        self.move_overhead_ms
    }

    /// Set the slow mover percentage.
    pub fn set_slow_mover(&mut self, pct: u64)
        requires
            old(self).ok(),
        ensures
            final(self).ok(),
            final(self).net() == old(self).net(),
            final(self).table() == old(self).table(),
            final(self)@ == (Settings { slow_mover: within_limits(pct as int, 10, 300) as u64, ..old(self)@ }),
    {
        self.slow_mover = if pct < 10 {
            10
        } else if pct > 300 {
            300
        } else {
            pct
        };
    }

    pub fn slow_mover(&self) -> (r: u64)
        ensures
            r == self@.slow_mover,
    {
        self.slow_mover
    }

    /// Set the contempt factor in centipawns.
    pub fn set_contempt(&mut self, cp: i32)
        requires
            old(self).ok(),
        ensures
            final(self).ok(),
            final(self).net() == old(self).net(),
            final(self).table() == old(self).table(),
            final(self)@ == (Settings { contempt: within_limits(cp as int, 0, 100) as i32, ..old(self)@ }),
    {
        self.contempt = if cp < 0 {
            0
        } else if cp > 100 {
            100
        } else {
            cp
        };
    }

    pub fn contempt(&self) -> (r: i32)
        ensures
            r == self@.contempt,
    {
        self.contempt
    }

    /// Set the singular extension mode: 0 = off, 1 = conservative,
    /// 2 = aggressive.
    pub fn set_singular_ext_mode(&mut self, mode: u8)
        requires
            old(self).ok(),
        ensures
            final(self).ok(),
            final(self).net() == old(self).net(),
            final(self).table() == old(self).table(),
            final(self)@ == (Settings { singular_ext_mode: within_limits(mode as int, 0, 2) as u8, ..old(self)@ }),
    {
        self.singular_ext_mode = if mode > 2 { 2 } else { mode };
    }

    pub fn singular_ext_mode(&self) -> (r: u8)
        ensures
            r == self@.singular_ext_mode,
    {
        self.singular_ext_mode
    }

    /// Set whether the network is used.
    pub fn set_use_nnue(&mut self, enabled: bool)
        requires
            old(self).ok(),
        ensures
            final(self).ok(),
            final(self).net() == old(self).net(),
            final(self).table() == old(self).table(),
            final(self)@ == (Settings { use_nnue: enabled, ..old(self)@ }),
    {
        self.use_nnue = enabled;
    }

    pub fn use_nnue(&self) -> (r: bool)
        ensures
            r == self@.use_nnue,
    {
        self.use_nnue
    }

    /// Use another network. It is switched on if it is trained.
    pub fn set_nnue_net(&mut self, net: NnueNetwork)
        requires
            old(self).ok(),
            net.ok(),
        ensures
            final(self).ok(),
            final(self).net() == net,
            final(self).table() == old(self).table(),
            final(self)@ == (Settings { use_nnue: net.trained(), ..old(self)@ }),
    {
        self.use_nnue = net.is_trained();
        self.nnue_net = net;
    }

    /// The active network.
    pub fn nnue_net(&self) -> (r: &NnueNetwork)
        ensures
            *r == self.net(),
    {
        &self.nnue_net
    }

    /// The current tuning.
    pub fn tune(&self) -> (r: &TuneParams)
        ensures
            *r == self@.tune,
    {
        &self.tune
    }

    /// Set a single tuning parameter by name. Returns false if the name is
    /// unknown, and then changes nothing.
    pub fn set_tune_param(&mut self, name: &str, value: i32) -> (r: bool)
        requires
            old(self).ok(),
        ensures
            final(self).ok(),
            final(self).net() == old(self).net(),
            final(self).table() == old(self).table(),
            r == old(self)@.tune.named(name@) is Some,
            final(self)@ == (Settings { tune: retuned(old(self)@.tune, name@, value), ..old(self)@ }),
    {
        let cs = chars_of(name);
        if chars_are(&cs, "lmr_base") {
            self.tune.lmr_base = value;
        } else if chars_are(&cs, "lmr_div") {
            self.tune.lmr_div = value;
        } else if chars_are(&cs, "hist_lmr_div") {
            self.tune.hist_lmr_div = value;
        } else if chars_are(&cs, "rfp_margin_imp") {
            self.tune.rfp_margin_imp = value;
        } else if chars_are(&cs, "rfp_margin_noimp") {
            self.tune.rfp_margin_noimp = value;
        } else if chars_are(&cs, "fut_margin_imp") {
            self.tune.fut_margin_imp = value;
        } else if chars_are(&cs, "fut_margin_noimp") {
            self.tune.fut_margin_noimp = value;
        } else if chars_are(&cs, "see_quiet_margin") {
            self.tune.see_quiet_margin = value;
        } else if chars_are(&cs, "corrhist_mult") {
            self.tune.corrhist_mult = value;
        } else {
            return false;
        }
        true
    }

    /// Clear the transposition table, as for a new game.
    pub fn clear_tt(&mut self)
        requires
            old(self).ok(),
        ensures
            final(self).ok(),
            final(self).net() == old(self).net(),
            final(self)@ == old(self)@,
            final(self).table().entries.len() == old(self).table().entries.len(),
            final(self).table().mask == old(self).table().mask,
            final(self).table().generation == 0,
            forall|i: int|
                0 <= i < final(self).table().entries.len() ==> #[trigger] final(self).table().entries[i] == (TTEntry {
                    key: 0,
                    data: 0,
                }),
    {
        self.tt.clear();
    }

    /// Begin a new generation of the transposition table. Old entries stay.
    pub fn new_search_tt(&mut self)
        requires
            old(self).ok(),
        ensures
            final(self).ok(),
            final(self).net() == old(self).net(),
            final(self)@ == old(self)@,
            final(self).table() == next_generation(old(self).table()),
    {
        self.tt.new_search();
    }

    /// How many threads a search of a position with this many legal moves
    /// would use.
    pub fn active_threads(&self, root_moves: usize) -> (r: usize)
        requires
            self.ok(),
        ensures
            r == threads_for(self@.num_threads, root_moves as int),
    {
        self.thread_pool.active_for(root_moves)
    }

    /// Run a search of a position, with the tuning of the engine. Nothing is
    /// learned beyond the transposition table.
    pub fn search<H: Host>(
        &mut self,
        board: &Board,
        params: &SearchParams,
        lmr_table: &Vec<u8>,
        table_pieces: Option<u32>,
        has_book: bool,
        book_move: Option<Move>,
        host: &mut Witness<H>,
    ) -> (r: SearchResult)
        requires
            old(self).ok(),
            board.ok(),
            board@.sound(),
            clock_room(board@, 129),
            lmr_table@.len() == 4096,
            old(self)@.tune.divides(),
            -2_000_000_000 <= params.contempt <= 2_000_000_000,
        ensures
            final(self).ok(),
            final(self).net() == old(self).net(),
            final(self)@ == old(self)@,
            exists|learned: Tables|
                #[trigger] comes_to(
                    board@,
                    tuned(*params, old(self)@.tune),
                    (next_generation(old(self).table()), Tables::blank()),
                    (final(self).table(), learned),
                    old(self).net(),
                    lmr_table@,
                    0,
                    table_pieces,
                    None,
                    has_book,
                    book_move,
                    (old(host).heard(), final(host).heard()),
                    outcome(r),
                ),
    {
        let own = SearchParams { tune: self.tune, ..*params };
        self.tt.new_search();
        let ghost begin = self.tt@;
        let mut tables = PersistentHistory::new();
        let r = iterative_deepening(
            board,
            &own,
            &mut self.tt,
            &mut tables,
            &self.nnue_net,
            lmr_table,
            0,
            table_pieces,
            &None,
            has_book,
            book_move,
            host,
        );
        proof {
            assert(own == tuned(*params, old(self)@.tune));
            assert(begin == next_generation(old(self).table()));
            assert(self.nnue_net == old(self).net());
            assert(self.tt@ == self.table());
            let learned = tables@;
            assert(comes_to(
                board@,
                tuned(*params, old(self)@.tune),
                (next_generation(old(self).table()), Tables::blank()),
                (self.table(), learned),
                old(self).net(),
                lmr_table@,
                0,
                table_pieces,
                None,
                has_book,
                book_move,
                (old(host).heard(), host.heard()),
                outcome(r),
            ));
        }
        r
    }
}

/// A setting within its limits is taken as it is; one beyond them becomes the
/// nearest limit.
pub proof fn law_settings_are_kept_within_limits(x: int, lo: int, hi: int)
    requires
        lo <= hi,
    ensures
        lo <= within_limits(x, lo, hi) <= hi,
        lo <= x <= hi ==> within_limits(x, lo, hi) == x,
        x < lo ==> within_limits(x, lo, hi) == lo,
        x > hi ==> within_limits(x, lo, hi) == hi,
{
}

/// A new search counts as another generation, and keeps what is in the table.
pub proof fn law_searches_are_told_apart(t: Table)
    ensures
        next_generation(t).generation != t.generation,
        next_generation(t).entries == t.entries,
        next_generation(t).mask == t.mask,
{
}

} // verus!
