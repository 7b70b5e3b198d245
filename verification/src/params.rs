//! What a search is asked for and what it reports.

use vstd::prelude::*;
use crate::moves::Move;
use crate::types::Score;

verus! {

/// Search result returned by the engine.
#[derive(Debug, Clone)]
pub struct SearchResult {
    pub best_move: Move,
    pub score: Score,
    pub depth: u8,
    pub nodes: u64,
    pub pv: Vec<Move>,
}

/// Search parameters.
#[derive(Debug, Clone, Copy)]
pub struct SearchParams {
    pub max_depth: u8,
    pub max_nodes: Option<u64>,
    pub move_time_ms: Option<u64>,
    pub white_time_ms: Option<u64>,
    pub black_time_ms: Option<u64>,
    pub white_inc_ms: Option<u64>,
    pub black_inc_ms: Option<u64>,
    pub moves_to_go: Option<u32>,
    pub infinite: bool,
    /// Whether to use the network instead of the hand-written evaluation.
    pub use_nnue: bool,
    /// Safety margin (ms) subtracted from allocated time to avoid flagging.
    pub move_overhead_ms: u64,
    /// Time management scaling factor (percentage). 100 = normal.
    pub slow_mover: u64,
    /// Contempt factor in centipawns. A positive value makes the engine
    /// slightly prefer avoiding draws (scored as -contempt for the side to
    /// move). 0 = neutral.
    pub contempt: i32,
    /// Singular extension mode: 0 = off, 1 = conservative, 2 = aggressive.
    pub singular_ext_mode: u8,
    /// Number of best lines to search and report. 1 = normal.
    pub multi_pv: usize,
    /// Tunable search parameters.
    pub tune: TuneParams,
}

/// Search parameters that a tuner can vary.
#[derive(Clone, Copy, Debug, PartialEq, Eq, Structural)]
pub struct TuneParams {
    /// Base of the late move reductions, times 100.
    /// Default 50.
    pub lmr_base: i32,
    /// Divisor of the late move reductions, times 100.
    /// Default 200.
    pub lmr_div: i32,
    /// Divisor for the history's influence on late move reductions.
    /// Default 4000.
    pub hist_lmr_div: i32,
    /// Reverse futility margin per depth when improving.
    /// Default 65.
    pub rfp_margin_imp: i32,
    /// Reverse futility margin per depth when not improving.
    /// Default 85.
    pub rfp_margin_noimp: i32,
    /// Futility margin per depth when improving.
    /// Default 95.
    pub fut_margin_imp: i32,
    /// Futility margin per depth when not improving.
    /// Default 65.
    pub fut_margin_noimp: i32,
    /// Exchange margin per depth for quiet moves.
    /// Default 50.
    pub see_quiet_margin: i32,
    /// Multiplier of the learned corrections, times 100; 0 disables them.
    /// Default 100.
    pub corrhist_mult: i32,
}

/// The default tuning.
pub open spec fn default_tune() -> TuneParams {
    TuneParams {
        lmr_base: 50,
        lmr_div: 200,
        hist_lmr_div: 4000,
        rfp_margin_imp: 65,
        rfp_margin_noimp: 85,
        fut_margin_imp: 95,
        fut_margin_noimp: 65,
        see_quiet_margin: 50,
        corrhist_mult: 100,
    }
}

impl TuneParams {
    /// The divisor of the history can be divided by.
    pub open spec fn divides(self) -> bool {
        self.hist_lmr_div != 0
    }

    /// The value of a parameter by its name.
    pub open spec fn named(self, name: Seq<char>) -> Option<i32> {
        if name == "lmr_base"@ {
            Some(self.lmr_base)
        } else if name == "lmr_div"@ {
            Some(self.lmr_div)
        } else if name == "hist_lmr_div"@ {
            Some(self.hist_lmr_div)
        } else if name == "rfp_margin_imp"@ {
            Some(self.rfp_margin_imp)
        } else if name == "rfp_margin_noimp"@ {
            Some(self.rfp_margin_noimp)
        } else if name == "fut_margin_imp"@ {
            Some(self.fut_margin_imp)
        } else if name == "fut_margin_noimp"@ {
            Some(self.fut_margin_noimp)
        } else if name == "see_quiet_margin"@ {
            Some(self.see_quiet_margin)
        } else if name == "corrhist_mult"@ {
            Some(self.corrhist_mult)
        } else {
            None
        }
    }
}

impl Default for TuneParams {
    fn default() -> (r: Self)
        ensures
            r == default_tune(),
            r.divides(),
    {
        TuneParams {
            lmr_base: 50,
            lmr_div: 200,
            hist_lmr_div: 4000,
            rfp_margin_imp: 65,
            rfp_margin_noimp: 85,
            fut_margin_imp: 95,
            fut_margin_noimp: 65,
            see_quiet_margin: 50,
            corrhist_mult: 100,
        }
    }
}

/// The default limits and settings of a search.
pub open spec fn default_params() -> SearchParams {
    SearchParams {
        max_depth: 64,
        max_nodes: None,
        move_time_ms: None,
        white_time_ms: None,
        black_time_ms: None,
        white_inc_ms: None,
        black_inc_ms: None,
        moves_to_go: None,
        infinite: false,
        use_nnue: true,
        move_overhead_ms: 20,
        slow_mover: 100,
        contempt: 20,
        singular_ext_mode: 1,
        multi_pv: 1,
        tune: default_tune(),
    }
}

impl Default for SearchParams {
    fn default() -> (r: Self)
        ensures
            r == default_params(),
    {
        SearchParams {
            max_depth: 64,
            max_nodes: None,
            move_time_ms: None,
            white_time_ms: None,
            black_time_ms: None,
            white_inc_ms: None,
            black_inc_ms: None,
            moves_to_go: None,
            infinite: false,
            use_nnue: true,
            move_overhead_ms: 20,
            slow_mover: 100,
            contempt: 20,
            singular_ext_mode: 1,
            multi_pv: 1,
            tune: TuneParams::default(),
        }
    }
}

/// Search info reported during a search.
#[derive(Debug, Clone)]
pub struct SearchInfo {
    pub depth: u8,
    pub seldepth: u8,
    pub score: Score,
    pub nodes: u64,
    pub time_ms: u64,
    pub pv: Vec<Move>,
    pub hashfull: u16,
    /// Which line this info belongs to, from 1. Always 1 in single-line mode.
    pub multipv_line: usize,
}

} // verus!
