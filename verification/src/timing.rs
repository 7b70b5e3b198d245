//! Time management: how long to think.

use vstd::prelude::*;
use crate::arith::{max_of, min_of};
use crate::board::{Board, Position};
use crate::params::SearchParams;
use crate::types::{abs_i32, magnitude, Color};

verus! {

/// Per-move time cap (ms) for sudden death (no increment).
///
/// With no increment the clock must last the whole game with no refund, so the
/// slice is bounded to a small share of it. Any increment refunds the clock and
/// leaves the target alone.
pub open spec fn death_cap(target: int, inc: int, time: int) -> int {
    if inc != 0 { target } else { min_of(target, time / if time > 300_000 { 38int } else { 34 }) }
}

pub fn sudden_death_time_cap(target_ms: u64, inc_ms: u64, time_ms: u64) -> (r: u64)
    ensures
        r == death_cap(target_ms as int, inc_ms as int, time_ms as int),
        r <= target_ms,
{
    if inc_ms != 0 {
        return target_ms;
    }
    let n: u64 = if time_ms > 300_000 { 38 } else { 34 };
    let cap: u64 = time_ms / n;
    if target_ms < cap {
        target_ms
    } else {
        cap
    }
}

/// What is left of a number after a subtraction that stops at zero.
pub open spec fn less(a: int, b: int) -> int {
    if a > b { a - b } else { 0 }
}

/// The most that 64 bits hold, where a number is larger.
pub open spec fn capped(x: int) -> int {
    min_of(x, u64::MAX as int)
}

/// The clock of the side to move.
pub open spec fn clock_of(params: SearchParams, side: Color) -> Option<u64> {
    match side {
        Color::White => params.white_time_ms,
        Color::Black => params.black_time_ms,
    }
}

/// The increment of the side to move.
pub open spec fn increment_of(params: SearchParams, side: Color) -> int {
    match match side {
        Color::White => params.white_inc_ms,
        Color::Black => params.black_inc_ms,
    } {
        Some(inc) => inc as int,
        None => 0,
    }
}

/// Moves left by the number of pieces, fewer on a fast clock.
pub open spec fn estimated_moves(pieces: int, time: int) -> int {
    let base = if pieces >= 28 {
        32
    } else if pieces >= 22 {
        26
    } else if pieces >= 16 {
        20
    } else {
        16int
    };
    if time <= 15_000 {
        max_of(base * 65 / 100, 1)
    } else if time < 300_000 {
        max_of(base * 3 / 4, 1)
    } else {
        base
    }
}

/// Share of the moves left to plan for, in thousandths: an increment lets the
/// engine plan for fewer.
pub open spec fn planning_share(inc: int) -> int {
    if inc >= 5_000 {
        650
    } else if inc >= 2_000 {
        740
    } else if inc >= 1_000 {
        840
    } else if inc > 0 {
        930
    } else {
        1000
    }
}

/// The number of moves that the clock is divided among.
pub open spec fn planned_moves(moves_to_go: Option<u32>, pieces: int, time: int, inc: int) -> int {
    let left = match moves_to_go {
        Some(n) => max_of(n as int, 1),
        None => estimated_moves(pieces, time),
    };
    max_of(left * planning_share(inc) / 1000, 1)
}

/// The part of the increment to spend: a share that grows with the clock, and
/// more where the increment is large against the base slice.
pub open spec fn increment_part(time: int, inc: int, base: int) -> int {
    let share = if time <= 10_000 {
        500
    } else if time <= 30_000 {
        650
    } else if time <= 120_000 {
        800
    } else {
        900int
    };
    inc * share / 1000 + if base > 0 && inc > 0 { inc * min_of(capped(inc * 1000) / base, 1000) / 5000 } else { 0 }
}

/// The reserve to steer towards, by game phase.
pub open spec fn reserve(inc: int, game_ply: int) -> int {
    if inc > 0 {
        if game_ply < 20 {
            8_000 + inc * 16
        } else if game_ply < 40 {
            6_000 + inc * 12
        } else if game_ply < 60 {
            5_000 + inc * 9
        } else {
            4_000 + inc * 7
        }
    } else if game_ply < 40 {
        5_000
    } else {
        3_000
    }
}

/// The number of moves over which the excess is spent.
pub open spec fn burn_horizon(moves_to_go: Option<u32>, game_ply: int) -> int {
    match moves_to_go {
        Some(n) => max_of(min_of(n as int, 16), 4),
        None => if game_ply < 20 {
            18
        } else if game_ply < 40 {
            14
        } else {
            10
        },
    }
}

/// Share of the excess to spend in the opening, in thousandths.
pub open spec fn opening_share(game_ply: int, time: int) -> int {
    if game_ply < 6 {
        if time <= 15_000 {
            600
        } else {
            350
        }
    } else if game_ply < 12 {
        if time <= 15_000 {
            700
        } else if time <= 300_000 {
            550
        } else {
            600
        }
    } else if game_ply < 20 {
        if time <= 300_000 {
            800
        } else {
            900
        }
    } else {
        1000
    }
}

/// The part of the excess over the reserve to spend.
pub open spec fn bank_part(moves_to_go: Option<u32>, game_ply: int, time: int, inc: int, base: int) -> int {
    let usable = less(time, reserve(inc, game_ply));
    let raw = usable / (burn_horizon(moves_to_go, game_ply) * 3) * opening_share(game_ply, time) / 1000;
    min_of(raw, base * 3 / 2 + inc)
}

/// The time to aim for.
pub open spec fn target_time(params: SearchParams, game_ply: int, pieces: int, time: int, inc: int) -> int {
    let base = time / planned_moves(params.moves_to_go, pieces, time, inc);
    let target = base + increment_part(time, inc, base) + bank_part(params.moves_to_go, game_ply, time, inc, base);
    death_cap(capped(capped(target) * params.slow_mover / 100), inc, time)
}

/// The most time to take, with low-time safety and an early-opening cap.
pub open spec fn hard_limit(game_ply: int, time: int, inc: int, base: int) -> int {
    let m = if time <= 30_000 {
        time / 8 + inc * 2
    } else if time < 120_000 {
        time / 6 + inc
    } else {
        time / 4 + inc / 2
    };
    let m2 = if base > 0 && inc * 2 >= base { m + inc / 2 } else { m };
    if game_ply < 6 {
        min_of(m2, time / (if time <= 300_000 { 16int } else { 30 }) + inc * 2)
    } else if game_ply < 12 {
        min_of(m2, time / (if time <= 300_000 { 13int } else { 22 }) + inc * 2)
    } else {
        m2
    }
}

/// The least time to take: with time on the clock at least the increment.
pub open spec fn least_time(time: int, inc: int, overhead: int) -> int {
    if time > 1000 {
        max_of(max_of(time / 60, less(inc, overhead)), 50)
    } else if inc > overhead {
        inc - overhead
    } else {
        10
    }
}

/// The time allocated from a clock, before the overhead.
pub open spec fn allocated(params: SearchParams, game_ply: int, pieces: int, time: int, inc: int) -> int {
    let base = time / planned_moves(params.moves_to_go, pieces, time, inc);
    max_of(
        min_of(target_time(params, game_ply, pieces, time, inc), hard_limit(game_ply, time, inc, base)),
        least_time(time, inc, params.move_overhead_ms as int),
    )
}

/// The limits of a search.
#[derive(Clone, Copy, PartialEq, Eq, Debug, Structural)]
pub struct TimeLimit {
    /// Milliseconds, or none for an untimed search.
    pub limit_ms: Option<u64>,
    /// Whether time must be saved for later moves.
    pub use_soft_limit: bool,
    pub inc_ms: u64,
    pub time_remaining_ms: u64,
}

/// The limits of a search from a position.
pub open spec fn time_limit(params: SearchParams, p: Position) -> TimeLimit {
    let none = TimeLimit { limit_ms: None, use_soft_limit: false, inc_ms: 0, time_remaining_ms: 0 };
    let overhead = params.move_overhead_ms as int;
    let inc = increment_of(params, p.side);
    if params.infinite {
        none
    } else {
        match params.move_time_ms {
            Some(mt) => TimeLimit { limit_ms: Some(less(mt as int, overhead) as u64), ..none },
            None => match clock_of(params, p.side) {
                Some(time) => TimeLimit {
                    limit_ms: Some(
                        less(
                            allocated(params, p.history.len() as int, p.occupied().size() as int, time as int, inc),
                            overhead,
                        ) as u64,
                    ),
                    use_soft_limit: true,
                    inc_ms: inc as u64,
                    time_remaining_ms: time,
                },
                None => none,
            },
        }
    }
}

fn less_of(a: u64, b: u64) -> (r: u64)
    ensures
        r == less(a as int, b as int),
{
    if a > b {
        a - b
    } else {
        0
    }
}

fn min_wide(a: u128, b: u128) -> (r: u128)
    ensures
        r == min_of(a as int, b as int),
{
    if a < b {
        a
    } else {
        b
    }
}

fn capped_of(x: u128) -> (r: u64)
    ensures
        r == capped(x as int),
{
    if x < 0xFFFF_FFFF_FFFF_FFFF {
        x as u64
    } else {
        0xFFFF_FFFF_FFFF_FFFF
    }
}

fn times(a: u64, b: u64) -> (r: u128)
    ensures
        r == a * b,
        r <= 0xFFFF_FFFF_FFFF_FFFF * 0xFFFF_FFFF_FFFF_FFFF,
{
    proof {
        assert(0 <= a * b <= 0xFFFF_FFFF_FFFF_FFFF * 0xFFFF_FFFF_FFFF_FFFF) by (nonlinear_arith)
            requires
                0 <= a <= 0xFFFF_FFFF_FFFF_FFFF,
                0 <= b <= 0xFFFF_FFFF_FFFF_FFFF,
        ;
    }
    a as u128 * b as u128
}

fn min_u64(a: u64, b: u64) -> (r: u64)
    ensures
        r == min_of(a as int, b as int),
{
    if a < b {
        a
    } else {
        b
    }
}

fn max_u64(a: u64, b: u64) -> (r: u64)
    ensures
        r == max_of(a as int, b as int),
{
    if a > b {
        a
    } else {
        b
    }
}

fn moves_to_plan(moves_to_go: Option<u32>, pieces: u32, time: u64, inc: u64) -> (r: u64)
    ensures
        r == planned_moves(moves_to_go, pieces as int, time as int, inc as int),
        r >= 1,
{
    let left: u64 = match moves_to_go {
        Some(n) => max_u64(n as u64, 1),
        None => {
            let base: u64 = if pieces >= 28 {
                32
            } else if pieces >= 22 {
                26
            } else if pieces >= 16 {
                20
            } else {
                16
            };
            if time <= 15_000 {
                max_u64(base * 65 / 100, 1)
            } else if time < 300_000 {
                max_u64(base * 3 / 4, 1)
            } else {
                base
            }
        },
    };
    let share: u64 = if inc >= 5_000 {
        650
    } else if inc >= 2_000 {
        740
    } else if inc >= 1_000 {
        840
    } else if inc > 0 {
        930
    } else {
        1000
    };
    max_u64(left * share / 1000, 1)
}

fn increment_to_spend(time: u64, inc: u64, base: u64) -> (r: u128)
    ensures
        r == increment_part(time as int, inc as int, base as int),
        r <= 2 * inc,
{
    let share: u64 = if time <= 10_000 {
        500
    } else if time <= 30_000 {
        650
    } else if time <= 120_000 {
        800
    } else {
        900
    };
    proof {
        assert(inc * share <= inc * 1000) by (nonlinear_arith)
            requires
                share <= 1000,
                inc >= 0,
        ;
    }
    let part: u128 = times(inc, share) / 1000;
    if base > 0 && inc > 0 {
        let ratio: u64 = min_u64(capped_of(times(inc, 1000)) / base, 1000);
        proof {
            assert(inc * ratio <= inc * 1000) by (nonlinear_arith)
                requires
                    ratio <= 1000,
                    inc >= 0,
            ;
        }
        part + times(inc, ratio) / 5000
    } else {
        part
    }
}

/// The reserve to steer towards.
pub fn reserve_ms(inc: u64, game_ply: u64) -> (r: u128)
    ensures
        r == reserve(inc as int, game_ply as int),
{
    let wide: u128 = inc as u128;
    if inc > 0 {
        if game_ply < 20 {
            8_000 + wide * 16
        } else if game_ply < 40 {
            6_000 + wide * 12
        } else if game_ply < 60 {
            5_000 + wide * 9
        } else {
            4_000 + wide * 7
        }
    } else if game_ply < 40 {
        5_000
    } else {
        3_000
    }
}

/// The clock beyond the reserve.
fn surplus_of(inc: u64, remaining: u64, game_ply: u64) -> (r: u64)
    ensures
        r == surplus(inc as int, remaining as int, game_ply as int),
        r <= remaining,
{
    let kept: u128 = reserve_ms(inc, game_ply);
    if remaining as u128 > kept {
        (remaining as u128 - kept) as u64
    } else {
        0
    }
}

fn bank_to_spend(moves_to_go: Option<u32>, game_ply: u64, time: u64, inc: u64, base: u64) -> (r: u128)
    ensures
        r == bank_part(moves_to_go, game_ply as int, time as int, inc as int, base as int),
        r <= time,
{
    let usable: u64 = surplus_of(inc, time, game_ply);
    let horizon: u64 = match moves_to_go {
        Some(n) => max_u64(min_u64(n as u64, 16), 4),
        None => if game_ply < 20 {
            18
        } else if game_ply < 40 {
            14
        } else {
            10
        },
    };
    let share: u64 = if game_ply < 6 {
        if time <= 15_000 {
            600
        } else {
            350
        }
    } else if game_ply < 12 {
        if time <= 15_000 {
            700
        } else if time <= 300_000 {
            550
        } else {
            600
        }
    } else if game_ply < 20 {
        if time <= 300_000 {
            800
        } else {
            900
        }
    } else {
        1000
    };
    let slice: u64 = usable / (horizon * 3);
    proof {
        let h = horizon as int * 3;
        let u = usable as int;
        let q = u / h;
        assert(slice == q);
        assert(q <= u) by (nonlinear_arith)
            requires
                q == u / h,
                h >= 1,
                u >= 0,
        ;
        assert(slice * share <= slice * 1000) by (nonlinear_arith)
            requires
                share <= 1000,
                slice >= 0,
        ;
    }
    min_wide(times(slice, share) / 1000, base as u128 * 3 / 2 + inc as u128)
}

fn most_time(game_ply: u64, time: u64, inc: u64, base: u64) -> (r: u128)
    ensures
        r == hard_limit(game_ply as int, time as int, inc as int, base as int),
{
    let clock: u128 = time as u128;
    let more: u128 = inc as u128;
    let mut max: u128 = if time <= 30_000 {
        clock / 8 + more * 2
    } else if time < 120_000 {
        clock / 6 + more
    } else {
        clock / 4 + more / 2
    };
    if base > 0 && more * 2 >= base as u128 {
        max = max + more / 2;
    }
    if game_ply < 6 {
        let frac: u128 = if time <= 300_000 { 16 } else { 30 };
        max = min_wide(max, clock / frac + more * 2);
    } else if game_ply < 12 {
        let frac: u128 = if time <= 300_000 { 13 } else { 22 };
        max = min_wide(max, clock / frac + more * 2);
    }
    max
}

fn minimum_time(time: u64, inc: u64, overhead: u64) -> (r: u64)
    ensures
        r == least_time(time as int, inc as int, overhead as int),
{
    if time > 1000 {
        max_u64(max_u64(time / 60, less_of(inc, overhead)), 50)
    } else if inc > overhead {
        inc - overhead
    } else {
        10
    }
}

/// How long a search from a position may take.
///
/// A fixed time per move is used up to the overhead. From a clock, time must be
/// saved for later moves. Supports classical, rapid, blitz and bullet controls,
/// with and without increment.
pub fn compute_time_limit(params: &SearchParams, board: &Board) -> (r: TimeLimit)
    ensures
        r == time_limit(*params, board@),
{
    let none = TimeLimit { limit_ms: None, use_soft_limit: false, inc_ms: 0, time_remaining_ms: 0 };
    if params.infinite {
        return none;
    }
    let overhead: u64 = params.move_overhead_ms;
    if let Some(mt) = params.move_time_ms {
        return TimeLimit { limit_ms: Some(less_of(mt, overhead)), use_soft_limit: false, inc_ms: 0, time_remaining_ms: 0 };
    }
    let (time_ms, inc_ms) = match board.side_to_move {
        Color::White => (params.white_time_ms, params.white_inc_ms),
        Color::Black => (params.black_time_ms, params.black_inc_ms),
    };
    let time: u64 = match time_ms {
        Some(t) => t,
        None => {
            return none;
        },
    };
    let inc: u64 = match inc_ms {
        Some(i) => i,
        None => 0,
    };
    let game_ply: u64 = board.position_history.len() as u64;
    let pieces: u32 = board.all_occupancy().count();
    let moves: u64 = moves_to_plan(params.moves_to_go, pieces, time, inc);
    let base: u64 = time / moves;
    proof {
        assert(base <= time) by (nonlinear_arith)
            requires
                base == time / moves,
                moves >= 1,
        ;
    }
    let target: u128 = base as u128 + increment_to_spend(time, inc, base) + bank_to_spend(
        params.moves_to_go,
        game_ply,
        time,
        inc,
        base,
    );
    let scaled: u64 = capped_of(times(capped_of(target), params.slow_mover) / 100);
    let held: u64 = sudden_death_time_cap(scaled, inc, time);
    let max: u128 = most_time(game_ply, time, inc, base);
    let min: u64 = minimum_time(time, inc, overhead);
    let allocated: u64 = max_u64(capped_of(min_wide(held as u128, max)), min);
    TimeLimit {
        limit_ms: Some(less_of(allocated, overhead)),
        use_soft_limit: true,
        inc_ms: inc,
        time_remaining_ms: time,
    }
}

// When to stop deepening.
/// How the nodes of the best root move compare to those of all.
#[derive(Clone, Copy, PartialEq, Eq, Debug, Structural)]
pub struct NodeShare {
    /// More than four fifths.
    pub most: bool,
    /// Less than half.
    pub few: bool,
    /// Less than eleven twentieths.
    pub unsure: bool,
}

/// What a search has seen of the position so far.
#[derive(Clone, Copy, PartialEq, Eq, Debug, Structural)]
pub struct Progress {
    pub depth: u8,
    pub score: i32,
    /// How often the best move changed.
    pub pv_changes: u32,
    /// For how many iterations it has stayed the same.
    pub stability: u32,
    /// The largest change of the score between iterations.
    pub max_swing: i64,
    /// The last drop of the score.
    pub drop: i64,
    /// Searches that fell out of their window.
    pub fails: u32,
    pub root_moves: usize,
    pub game_ply: usize,
    pub book_bonus: u64,
    pub share: NodeShare,
    /// Duration of the last iteration.
    pub last_ms: u64,
}

/// The increment against the limit, in the given parts of the whole.
pub open spec fn inc_share(inc: int, limit: int, parts: int) -> int {
    if limit == 0 { 0 } else { inc * parts / limit }
}

/// The clock beyond the reserve.
pub open spec fn surplus(inc: int, remaining: int, game_ply: int) -> int {
    less(remaining, reserve(inc, game_ply))
}

/// Longer for an unstable best move, a falling or swinging score, failed
/// windows, many moves, and a rich clock; in thousandths of the limit.
pub open spec fn lengthening(limit: int, inc: int, remaining: int, g: Progress) -> int {
    let ratio = min_of(inc_share(inc, limit, 1000), 2000);
    let base = if ratio >= 600 {
        860
    } else if ratio >= 350 {
        800
    } else if ratio >= 200 {
        740
    } else {
        650int
    };
    base + min_of(g.pv_changes as int, 5) * 80 + min_of(g.drop / 25, 8) * 50 + min_of(g.max_swing / 30, 5) * 60 + min_of(
        g.fails as int,
        4,
    ) * 80 + min_of(less(g.root_moves as int, 20), 20) * 10 + min_of(inc_share(inc, limit, 150), 150) + (if limit > 0 {
        min_of(surplus(inc, remaining, g.game_ply as int) * 320 / (limit * 8), 320)
    } else {
        0
    }) + g.book_bonus
}

/// The adjustment for how the nodes are spread.
pub open spec fn share_adjustment(g: Progress) -> int {
    if g.share.most {
        -100
    } else if g.share.few {
        200
    } else {
        0
    }
}

/// The adjustment for the score: less in decided and stable positions, more in
/// unclear and volatile ones.
pub open spec fn score_adjustment(g: Progress) -> int {
    let size = magnitude(g.score as int);
    if size >= 29_000 {
        -220
    } else if size >= 500 && g.stability >= 2 && g.max_swing <= 40 {
        -220
    } else if size >= 300 && g.stability >= 2 && g.max_swing <= 60 {
        -140
    } else if size <= 50 && g.max_swing >= 35 {
        180
    } else if size <= 90 && g.max_swing >= 25 {
        100
    } else {
        0
    }
}

/// The adjustment in the opening.
pub open spec fn opening_adjustment(game_ply: int, remaining: int) -> int {
    if game_ply < 6 {
        if remaining <= 300_000 {
            -240
        } else {
            -160
        }
    } else if game_ply < 12 {
        if remaining <= 300_000 {
            -140
        } else {
            -90
        }
    } else if game_ply < 20 {
        if remaining <= 300_000 {
            -60
        } else {
            -30
        }
    } else {
        0
    }
}

/// The adjustment when time is short.
pub open spec fn blitz_adjustment(remaining: int) -> int {
    if remaining <= 15_000 {
        -180
    } else if remaining <= 30_000 {
        -80
    } else {
        0
    }
}

/// The share of the limit to spend, in thousandths.
pub open spec fn soft_share(limit: int, inc: int, remaining: int, g: Progress) -> int {
    let x = less(lengthening(limit, inc, remaining, g), min_of(g.stability as int, 5) * 30);
    let y = x + share_adjustment(g) + score_adjustment(g) + opening_adjustment(g.game_ply as int, remaining)
        + blitz_adjustment(remaining);
    max_of(min_of(max_of(y, 0), 1800), 350)
}

/// Enough time is spent: the soft limit is passed, or the next iteration would
/// not end before it.
pub open spec fn enough_time(limit: int, inc: int, remaining: int, g: Progress, elapsed: int) -> bool {
    let soft = limit * soft_share(limit, inc, remaining, g) / 1000;
    let growth = if g.pv_changes > 0 || g.max_swing >= 35 || g.share.unsure { 2int } else { 3 };
    let margin = if surplus(inc, remaining, g.game_ply as int) > limit {
        980
    } else if min_of(inc_share(inc, limit, 1000), 2000) >= 350 {
        950
    } else {
        900int
    };
    elapsed > soft || (g.depth >= 6 && elapsed + g.last_ms * growth > soft * margin / 1000)
}

/// The numbers are in range.
pub open spec fn progress_ok(g: Progress) -> bool {
    0 <= g.drop <= 0x2_0000_0000 && 0 <= g.max_swing <= 0x2_0000_0000 && g.book_bonus <= 1000 && g.score > i32::MIN
}

fn inc_share_of(inc: u64, limit: u64, parts: u64) -> (r: u128)
    ensures
        r == inc_share(inc as int, limit as int, parts as int),
{
    if limit == 0 {
        0
    } else {
        times(inc, parts) / limit as u128
    }
}

fn lengthening_of(limit: u64, inc: u64, remaining: u64, g: &Progress) -> (r: u64)
    requires
        progress_ok(*g),
    ensures
        r == lengthening(limit as int, inc as int, remaining as int, *g),
        r <= 10_000,
{
    let ratio: u128 = min_wide(inc_share_of(inc, limit, 1000), 2000);
    let base: u64 = if ratio >= 600 {
        860
    } else if ratio >= 350 {
        800
    } else if ratio >= 200 {
        740
    } else {
        650
    };
    let instability: u64 = min_u64(g.pv_changes as u64, 5) * 80;
    let drop: u64 = min_u64(g.drop as u64 / 25, 8) * 50;
    let volatility: u64 = min_u64(g.max_swing as u64 / 30, 5) * 60;
    let aspiration: u64 = min_u64(g.fails as u64, 4) * 80;
    let complexity: u64 = min_u64(less_of(g.root_moves as u64, 20), 20) * 10;
    let increment: u64 = min_wide(inc_share_of(inc, limit, 150), 150) as u64;
    let bank: u64 = if limit > 0 {
        let extra: u64 = surplus_of(inc, remaining, g.game_ply as u64);
        min_wide(times(extra, 320) / (limit as u128 * 8), 320) as u64
    } else {
        0
    };
    base + instability + drop + volatility + aspiration + complexity + increment + bank + g.book_bonus
}

fn soft_share_of(limit: u64, inc: u64, remaining: u64, g: &Progress) -> (r: u64)
    requires
        progress_ok(*g),
    ensures
        r == soft_share(limit as int, inc as int, remaining as int, *g),
        350 <= r <= 1800,
{
    let longer: u64 = lengthening_of(limit, inc, remaining, g);
    let x: i64 = less_of(longer, min_u64(g.stability as u64, 5) * 30) as i64;
    let share: i64 = if g.share.most {
        -100
    } else if g.share.few {
        200
    } else {
        0
    };
    let size: i32 = abs_i32(g.score);
    let score: i64 = if size >= 29_000 {
        -220
    } else if size >= 500 && g.stability >= 2 && g.max_swing <= 40 {
        -220
    } else if size >= 300 && g.stability >= 2 && g.max_swing <= 60 {
        -140
    } else if size <= 50 && g.max_swing >= 35 {
        180
    } else if size <= 90 && g.max_swing >= 25 {
        100
    } else {
        0
    };
    let opening: i64 = if g.game_ply < 6 {
        if remaining <= 300_000 {
            -240
        } else {
            -160
        }
    } else if g.game_ply < 12 {
        if remaining <= 300_000 {
            -140
        } else {
            -90
        }
    } else if g.game_ply < 20 {
        if remaining <= 300_000 {
            -60
        } else {
            -30
        }
    } else {
        0
    };
    let blitz: i64 = if remaining <= 15_000 {
        -180
    } else if remaining <= 30_000 {
        -80
    } else {
        0
    };
    let y: i64 = x + share + score + opening + blitz;
    if y < 350 {
        350
    } else if y > 1800 {
        1800
    } else {
        y as u64
    }
}

/// Whether to stop deepening.
pub fn is_enough_time(limit: u64, inc: u64, remaining: u64, g: &Progress, elapsed: u64) -> (r: bool)
    requires
        progress_ok(*g),
    ensures
        r == enough_time(limit as int, inc as int, remaining as int, *g, elapsed as int),
{
    let share: u64 = soft_share_of(limit, inc, remaining, g);
    proof {
        assert(limit * share <= 0xFFFF_FFFF_FFFF_FFFF * 1800) by (nonlinear_arith)
            requires
                0 <= limit <= 0xFFFF_FFFF_FFFF_FFFF,
                0 <= share <= 1800,
        ;
    }
    let soft: u128 = times(limit, share) / 1000;
    if elapsed as u128 > soft {
        return true;
    }
    if g.depth < 6 {
        return false;
    }
    let growth: u64 = if g.pv_changes > 0 || g.max_swing >= 35 || g.share.unsure { 2 } else { 3 };
    let extra: u64 = surplus_of(inc, remaining, g.game_ply as u64);
    let margin: u128 = if extra > limit {
        980
    } else if min_wide(inc_share_of(inc, limit, 1000), 2000) >= 350 {
        950
    } else {
        900
    };
    proof {
        assert(0 <= soft * margin <= 0xFFFF_FFFF_FFFF_FFFF * 1800 * 980) by (nonlinear_arith)
            requires
                0 <= soft <= 0xFFFF_FFFF_FFFF_FFFF * 1800,
                0 <= margin <= 980,
        ;
    }
    let next: u128 = elapsed as u128 + times(g.last_ms, growth);
    next > soft * margin / 1000
}

/// Never less than 35 nor more than 180 hundredths of the limit are spent.
pub proof fn law_soft_share_range(limit: int, inc: int, remaining: int, g: Progress)
    ensures
        350 <= soft_share(limit, inc, remaining, g) <= 1800,
{
}

/// Move-time budget (ms) the engine would allocate, or `None` for an infinite
/// or untimed search. Converts a pondering search into a timed one.
pub fn allocated_move_time_ms(params: &SearchParams, board: &Board) -> (r: Option<u64>)
    ensures
        r == time_limit(*params, board@).limit_ms,
{
    compute_time_limit(params, board).limit_ms
}

/// In sudden death a move's target never exceeds a thirty-fourth of the clock,
/// so that thirty-three further moves remain.
pub proof fn law_sudden_death_keeps_reserve(params: SearchParams, game_ply: int, pieces: int, time: int)
    requires
        time >= 0,
    ensures
        target_time(params, game_ply, pieces, time, 0) <= time / 34,
{
    assert(time / 38 <= time / 34);
}

/// What is allocated from a clock above a second with no increment is within
/// the clock.
pub proof fn law_allocation_within_clock(params: SearchParams, game_ply: int, pieces: int, time: int)
    requires
        time > 1000,
    ensures
        allocated(params, game_ply, pieces, time, 0) <= time,
{
    law_sudden_death_keeps_reserve(params, game_ply, pieces, time);
}

/// Only the clock of the side to move counts: two settings that agree on it and
/// on its increment, and on what is not a clock, give the same limits.
pub proof fn law_own_clock_decides(a: SearchParams, b: SearchParams, p: Position)
    requires
        p.side == Color::White ==> a.white_time_ms == b.white_time_ms && a.white_inc_ms == b.white_inc_ms,
        p.side == Color::Black ==> a.black_time_ms == b.black_time_ms && a.black_inc_ms == b.black_inc_ms,
        a.infinite == b.infinite,
        a.move_time_ms == b.move_time_ms,
        a.moves_to_go == b.moves_to_go,
        a.move_overhead_ms == b.move_overhead_ms,
        a.slow_mover == b.slow_mover,
    ensures
        time_limit(a, p) == time_limit(b, p),
{
}

/// Neither side is favoured: with the clocks and increments exchanged, the other
/// side gets the same limits in the same position.
pub proof fn law_clocks_are_treated_alike(a: SearchParams, b: SearchParams, p: Position, q: Position)
    requires
        p.side != q.side,
        p.history.len() == q.history.len(),
        p.occupied().size() == q.occupied().size(),
        a.white_time_ms == b.black_time_ms,
        a.black_time_ms == b.white_time_ms,
        a.white_inc_ms == b.black_inc_ms,
        a.black_inc_ms == b.white_inc_ms,
        a.infinite == b.infinite,
        a.move_time_ms == b.move_time_ms,
        a.moves_to_go == b.moves_to_go,
        a.move_overhead_ms == b.move_overhead_ms,
        a.slow_mover == b.slow_mover,
    ensures
        time_limit(a, p) == time_limit(b, q),
{
}

/// A search on a clock keeps count of the clock and increment of the side to
/// move, is timed, and may be cut short; without one it is not timed.
pub proof fn law_limits_name_the_own_clock(a: SearchParams, p: Position)
    requires
        !a.infinite,
        a.move_time_ms is None,
    ensures
        ({
            let t = time_limit(a, p);
            let time = if p.side == Color::White { a.white_time_ms } else { a.black_time_ms };
            let inc = if p.side == Color::White { a.white_inc_ms } else { a.black_inc_ms };
            &&& t.limit_ms is Some <==> time is Some
            &&& t.use_soft_limit <==> time is Some
            &&& time is Some ==> t.time_remaining_ms == time->Some_0
            &&& time is Some && inc is Some ==> t.inc_ms == inc->Some_0
            &&& time is Some && inc is None ==> t.inc_ms == 0
        }),
{
}

/// An endless search has no limit, and a fixed time per move is used up to the
/// overhead, whatever the clocks show.
pub proof fn law_fixed_times_are_kept(a: SearchParams, p: Position)
    ensures
        a.infinite ==> time_limit(a, p).limit_ms is None,
        !a.infinite && a.move_time_ms is Some && a.move_time_ms->Some_0 >= a.move_overhead_ms ==> time_limit(
            a,
            p,
        ).limit_ms is Some && time_limit(a, p).limit_ms->Some_0 + a.move_overhead_ms == a.move_time_ms->Some_0,
        !a.infinite && a.move_time_ms is Some && a.move_time_ms->Some_0 < a.move_overhead_ms ==> time_limit(
            a,
            p,
        ).limit_ms == Some(0u64),
        a.infinite || a.move_time_ms is Some ==> !time_limit(a, p).use_soft_limit,
{
}

/// What is enough time once stays enough, the later it gets.
pub proof fn law_time_only_runs_out(limit: int, inc: int, remaining: int, g: Progress, earlier: int, later: int)
    requires
        earlier <= later,
        enough_time(limit, inc, remaining, g, earlier),
    ensures
        enough_time(limit, inc, remaining, g, later),
{
}

/// Beyond nine fifths of the limit no further iteration is begun, and an early
/// iteration is never the last within a third of it.
pub proof fn law_iterations_respect_the_limit(limit: int, inc: int, remaining: int, g: Progress, elapsed: int)
    requires
        0 <= limit,
        0 <= elapsed,
    ensures
        elapsed * 1000 > limit * 1800 ==> enough_time(limit, inc, remaining, g, elapsed),
        g.depth < 6 && elapsed * 3 <= limit && limit >= 1000 ==> !enough_time(limit, inc, remaining, g, elapsed),
{
    law_soft_share_range(limit, inc, remaining, g);
    let share = soft_share(limit, inc, remaining, g);
    assert(limit * 350 <= limit * share <= limit * 1800) by (nonlinear_arith)
        requires
            0 <= limit,
            350 <= share <= 1800,
    ;
}

/// Without an increment a move never takes more than the clock less the overhead.
pub proof fn law_the_clock_is_never_exceeded(a: SearchParams, p: Position)
    requires
        !a.infinite,
        a.move_time_ms is None,
        p.side == Color::White ==> a.white_time_ms is Some && a.white_time_ms->Some_0 > 1000 && (a.white_inc_ms is None
            || a.white_inc_ms == Some(0u64)),
        p.side == Color::Black ==> a.black_time_ms is Some && a.black_time_ms->Some_0 > 1000 && (a.black_inc_ms is None
            || a.black_inc_ms == Some(0u64)),
    ensures
        ({
            let clock = if p.side == Color::White { a.white_time_ms->Some_0 } else { a.black_time_ms->Some_0 };
            let limit = time_limit(a, p).limit_ms;
            &&& limit is Some
            &&& limit->Some_0 <= clock
            &&& clock >= a.move_overhead_ms ==> limit->Some_0 + a.move_overhead_ms <= clock
        }),
{
    let clock = if p.side == Color::White { a.white_time_ms->Some_0 } else { a.black_time_ms->Some_0 };
    law_allocation_within_clock(a, p.history.len() as int, p.occupied().size() as int, clock as int);
}

/// A slower mover never thinks for less time.
pub proof fn law_slow_movers_think_longer(a: SearchParams, b: SearchParams, game_ply: int, pieces: int, time: int, inc: int)
    requires
        0 <= time,
        0 <= inc,
        a.moves_to_go == b.moves_to_go,
        a.move_overhead_ms == b.move_overhead_ms,
        a.slow_mover <= b.slow_mover,
        target_room(a, game_ply, pieces, time, inc) >= 0,
    ensures
        allocated(a, game_ply, pieces, time, inc) <= allocated(b, game_ply, pieces, time, inc),
{
    let x = target_room(a, game_ply, pieces, time, inc);
    let c = capped(x);
    assert(c * a.slow_mover <= c * b.slow_mover) by (nonlinear_arith)
        requires
            c >= 0,
            0 <= a.slow_mover <= b.slow_mover,
    ;
    assert((c * a.slow_mover) / 100 <= (c * b.slow_mover) / 100);
}

/// What is aimed for before the pace of the engine is applied.
pub open spec fn target_room(params: SearchParams, game_ply: int, pieces: int, time: int, inc: int) -> int {
    let base = time / planned_moves(params.moves_to_go, pieces, time, inc);
    base + increment_part(time, inc, base) + bank_part(params.moves_to_go, game_ply, time, inc, base)
}

/// More pieces on the board mean more moves to come, and a known number of moves
/// is taken as it is without an increment.
pub proof fn law_moves_left(pieces: int, more: int, time: int, n: u32)
    requires
        0 <= pieces <= more,
    ensures
        1 <= planned_moves(None, pieces, time, 0) <= planned_moves(None, more, time, 0),
        n >= 1 ==> planned_moves(Some(n), pieces, time, 0) == n,
{
}

/// A move on a clock gets a share of it: at least a sixtieth with more than a
/// second left, and, where the least is not more, at most a quarter of the clock
/// and two and a half increments; in the first plies less.
pub proof fn law_allocations_are_a_share(params: SearchParams, game_ply: int, pieces: int, time: int, inc: int)
    requires
        0 <= time,
        0 <= inc,
    ensures
        ({
            let a = allocated(params, game_ply, pieces, time, inc);
            let least = least_time(time, inc, params.move_overhead_ms as int);
            &&& time > 1000 ==> a >= time / 60 && a >= 50
            &&& a <= least || a <= time / 4 + 5 * inc / 2
            &&& game_ply < 6 ==> a <= least || a <= time / 16 + 2 * inc
            &&& time > 1000 && inc == 0 ==> least <= max_of(time / 60, 50)
        }),
{
}

/// A search goes on the longer the less settled it is: each change of the best
/// move, each drop and swing of the score and each failed window buys time, and a
/// stable best move gives it back.
pub proof fn law_unsettled_searches_take_longer(limit: int, inc: int, remaining: int, g: Progress, h: Progress)
    requires
        progress_ok(g),
        progress_ok(h),
        h == (Progress {
            pv_changes: h.pv_changes,
            stability: h.stability,
            drop: h.drop,
            fails: h.fails,
            ..g
        }),
        h.pv_changes >= g.pv_changes,
        h.drop >= g.drop,
        h.fails >= g.fails,
        h.stability <= g.stability,
        magnitude(g.score as int) < 300,
    ensures
        soft_share(limit, inc, remaining, h) >= soft_share(limit, inc, remaining, g),
{
}

} // verus!
