use endspiel::history::PersistentHistory;
use endspiel::iterative::iterative_deepening;
use endspiel::nnue::network::NnueNetwork;
use endspiel::search::{Alone, Witness};
use endspiel::timing::{allocated_move_time_ms, sudden_death_time_cap};
use endspiel::tt::SharedTT;
use endspiel::{Board, Color, SearchParams, SearchResult, Square, TuneParams};

#[test]
fn sudden_death_cap_bounds_blitz_and_rapid_no_increment() {
    // 180+0: an over-large target is capped to time/34.
    assert_eq!(sudden_death_time_cap(15_000, 0, 180_000), 180_000 / 34);
    // 10+0 rapid uses the gentler time/38 divisor.
    assert_eq!(sudden_death_time_cap(40_000, 0, 600_000), 600_000 / 38);
}

#[test]
fn sudden_death_cap_noop_when_small_target_or_any_increment() {
    // Target already under the cap is returned unchanged.
    assert_eq!(sudden_death_time_cap(1_000, 0, 180_000), 1_000);
    // Any increment disables the cap.
    assert_eq!(sudden_death_time_cap(15_000, 100, 180_000), 15_000);
    assert_eq!(sudden_death_time_cap(15_000, 2_000, 180_000), 15_000);
}

#[test]
fn allocated_time_reserves_clock_in_no_increment_blitz() {
    let board = Board::starting_position();
    let params = SearchParams {
        white_time_ms: Some(180_000),
        black_time_ms: Some(180_000),
        white_inc_ms: Some(0),
        black_inc_ms: Some(0),
        ..Default::default()
    };
    let alloc = allocated_move_time_ms(&params, &board).expect("timed search");
    assert!(alloc > 0);
    assert!(alloc <= 180_000 / 30, "allocated {alloc} too high for 180+0");
}

/// Late move reductions by depth and number of the move.
fn lmr_table(base_x100: i32, div_x100: i32) -> Vec<u8> {
    let base = base_x100 as f64 / 100.0;
    let div = div_x100 as f64 / 100.0;
    let mut table = vec![0u8; 4096];
    for depth in 1..64usize {
        for moves in 1..64usize {
            table[depth * 64 + moves] = (base + (depth as f64).ln() * (moves as f64).ln() / div) as u8;
        }
    }
    table
}

fn search_with_contempt(fen: &str, max_depth: u8, contempt: i32) -> SearchResult {
    let board = Board::from_fen(fen).expect("valid FEN");
    let mut tt = SharedTT::new(1);
    let mut tables = PersistentHistory::new();
    let params = SearchParams { max_depth, use_nnue: false, contempt, ..Default::default() };
    let lmr = lmr_table(params.tune.lmr_base, params.tune.lmr_div);
    let net = NnueNetwork::embedded();
    let mut host = Witness::new(Alone);
    iterative_deepening(
        &board,
        &params,
        &mut tt,
        &mut tables,
        &net,
        &lmr,
        0,
        None,
        &None,
        false,
        None,
        &mut host,
    )
}

fn search_position(fen: &str, max_depth: u8) -> SearchResult {
    search_with_contempt(fen, max_depth, 20)
}

#[test]
fn mate_in_one() {
    // White: Kg6, Re1. Black: Kg8. Re8# is mate in 1.
    let result = search_position("6k1/8/6K1/8/8/8/8/4R3 w - - 0 1", 4);
    assert!(result.score.is_mate(), "should detect mate, got {}", result.score.0);
    assert_eq!(result.best_move.to_uci(), "e1e8");
}

#[test]
fn mate_in_two() {
    // White: Kf5, Ra1. Black: Kh8. Mate in 2: Kg6 Kg8 Ra8#
    let result = search_position("7k/8/8/5K2/8/8/8/R7 w - - 0 1", 8);
    assert!(result.score.is_mate(), "should detect mate, got {}", result.score.0);
    // Optimal first move is Kg6 (approaching the king)
    assert_eq!(result.best_move.to_uci(), "f5g6");
}

#[test]
fn mate_distance_pruning_efficiency() {
    // White: Kb6, Rh1. Black: Kb8. Rh8# is mate in 1.
    let result = search_position("1k6/8/1K6/8/8/8/8/7R w - - 0 1", 12);
    assert!(result.score.is_mate(), "should detect mate, got {}", result.score.0);
    assert_eq!(result.best_move.to_uci(), "h1h8");
    assert!(result.depth <= 3, "should break early on mate, searched to depth {}", result.depth);
}

#[test]
fn game_position_move35() {
    let fen = "8/1Rpk4/5p2/p6p/P1pP1p1P/2q2P1R/4K1P1/8 w - - 2 36";
    let board = Board::from_fen(fen).expect("valid FEN");
    assert_eq!(board.king_square(Color::White), Square::new(4, 1));
    assert_eq!(board.king_square(Color::Black), Square::new(3, 6));
    let result = search_position(fen, 10);
    assert!(result.score.0 < -100, "Black should be clearly winning, got score {}", result.score.0);
}

#[test]
fn contempt_draw_score_fifty_move() {
    // K vs K, kings far apart, halfmove_clock = 99.
    let fen = "8/8/8/8/8/8/1K6/7k w - - 99 1";
    let with_contempt = search_with_contempt(fen, 1, 20);
    let no_contempt = search_with_contempt(fen, 1, 0);
    assert_eq!(with_contempt.score.0, 20);
    assert_eq!(no_contempt.score.0, 0);
    assert!(!with_contempt.best_move.is_null());
    assert!(!no_contempt.best_move.is_null());
}

#[test]
fn find_best_move_nf6_mate_in_two() {
    let result = search_position("8/3P3k/n2K3p/2p3n1/1b4N1/2p1p1P1/8/3B4 w - - 0 1", 6);
    assert_eq!(result.best_move.to_uci(), "g4f6");
}

#[test]
fn a_position_without_moves_is_mate_or_stalemate() {
    let mated = search_position("R5k1/5ppp/8/8/8/8/8/4K3 b - - 0 1", 4);
    assert!(mated.best_move.is_null());
    assert_eq!(mated.score.0, -30_000);
    assert_eq!(mated.depth, 0);
    let stalemate = search_position("k7/2Q5/1K6/8/8/8/8/8 b - - 0 1", 4);
    assert!(stalemate.best_move.is_null());
    assert_eq!(stalemate.score.0, 0);
}

#[test]
fn a_single_legal_move_is_played_after_a_quick_search() {
    // The king on a1 can only go to b1.
    let result = search_position("8/8/8/8/8/k7/7r/K7 w - - 0 1", 3);
    assert_eq!(result.best_move.to_uci(), "a1b1");
    assert_eq!(result.depth, 10);
    assert_eq!(result.pv[0].to_uci(), "a1b1");
}

#[test]
fn a_book_move_is_played_at_once() {
    let board = Board::starting_position();
    let mut tt = SharedTT::new(1);
    let mut tables = PersistentHistory::new();
    let params = SearchParams { use_nnue: false, ..Default::default() };
    let lmr = lmr_table(24, 163);
    let net = NnueNetwork::embedded();
    let book_move = endspiel::Move::from_uci("d2d4");
    let result = iterative_deepening(
        &board,
        &params,
        &mut tt,
        &mut tables,
        &net,
        &lmr,
        0,
        None,
        &None,
        true,
        book_move,
        &mut Witness::new(Alone),
    );
    assert_eq!(Some(result.best_move), book_move);
    assert_eq!(result.depth, 1);
    assert_eq!(result.nodes, 1);
    assert!(result.score.0.abs() <= 40);
}

#[test]
fn extreme_tuning_still_finds_the_mate() {
    let board = Board::from_fen("6k1/5ppp/8/8/8/8/8/R3K3 w - - 0 1").expect("valid FEN");
    for extreme in [i32::MIN, i32::MAX] {
        let tune = TuneParams {
            hist_lmr_div: extreme,
            rfp_margin_imp: extreme,
            rfp_margin_noimp: extreme,
            fut_margin_imp: extreme,
            fut_margin_noimp: extreme,
            see_quiet_margin: extreme,
            corrhist_mult: extreme,
            ..TuneParams::default()
        };
        let params = SearchParams { max_depth: 3, use_nnue: false, tune, ..Default::default() };
        let result = iterative_deepening(
            &board,
            &params,
            &mut SharedTT::new(1),
            &mut PersistentHistory::new(),
            &NnueNetwork::embedded(),
            &lmr_table(24, 163),
            0,
            None,
            &None,
            false,
            None,
            &mut Witness::new(Alone),
        );
        assert_eq!(result.best_move.to_uci(), "a1a8");
    }
}
