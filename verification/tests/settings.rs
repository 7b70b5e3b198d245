use endspiel::fen::FenError;
use endspiel::iterative::{depth_offset, may_use_book};
use endspiel::platform::{hash_for, mem_total_avail_mb};
use endspiel::threads::{total_nodes, ThreadPool};
use endspiel::timing::{allocated_move_time_ms, compute_time_limit, is_enough_time, NodeShare, Progress};
use endspiel::validate::{validate_position, PositionError};
use endspiel::{Board, Color, Engine, Score, SearchParams, TuneParams};

#[test]
fn time_is_shared_out() {
    let b = Board::starting_position();
    let fixed = SearchParams { move_time_ms: Some(1_000), ..Default::default() };
    assert_eq!(allocated_move_time_ms(&fixed, &b), Some(980));
    let short = SearchParams { move_time_ms: Some(5), ..Default::default() };
    assert_eq!(allocated_move_time_ms(&short, &b), Some(0));
    let infinite = SearchParams { infinite: true, move_time_ms: Some(1_000), ..Default::default() };
    assert_eq!(allocated_move_time_ms(&infinite, &b), None);
    assert_eq!(allocated_move_time_ms(&SearchParams::default(), &b), None);
    let blitz = SearchParams { white_time_ms: Some(60_000), white_inc_ms: Some(1_000), ..Default::default() };
    assert_eq!(allocated_move_time_ms(&blitz, &b), Some(4_079));
    let limit = compute_time_limit(&blitz, &b);
    assert!(limit.use_soft_limit);
    assert_eq!((limit.inc_ms, limit.time_remaining_ms), (1_000, 60_000));
    let low = SearchParams { white_time_ms: Some(800), ..Default::default() };
    assert_eq!(allocated_move_time_ms(&low, &b), Some(3));
}

#[test]
fn the_soft_limit_stops_a_search() {
    let g = Progress {
        depth: 10,
        score: 20,
        pv_changes: 0,
        stability: 0,
        max_swing: 0,
        drop: 0,
        fails: 0,
        root_moves: 20,
        game_ply: 60,
        book_bonus: 0,
        share: NodeShare { most: false, few: false, unsure: false },
        last_ms: 0,
    };
    // With nothing special 65 hundredths of the limit are spent.
    assert!(!is_enough_time(10_000, 0, 3_000 + 30_001, &Progress { depth: 5, ..g }, 6_500 + 1_200));
    assert!(is_enough_time(10_000, 0, 30_001 + 3_000, &Progress { depth: 5, ..g }, 7_901));
    // An iteration that would not end in time is not begun.
    assert!(is_enough_time(10_000, 0, 30_001, &Progress { last_ms: 5_000, ..g }, 100));
    assert!(!is_enough_time(10_000, 0, 30_001, &g, 100));
    // A decided position needs less.
    let decided = Progress { score: 900, stability: 5, ..g };
    assert!(is_enough_time(10_000, 0, 30_001, &Progress { depth: 5, ..decided }, 5_000));
}

#[test]
fn settings_stay_within_their_limits() {
    let mut e = Engine::new(Some(64));
    assert_eq!(e.num_threads(), 16);
    assert_eq!(e.hash_mb(), 1);
    assert!(!e.use_nnue());
    e.set_hash_mb(0);
    assert_eq!(e.hash_mb(), 1);
    e.set_hash_mb(2);
    assert_eq!(e.hash_mb(), 2);
    e.set_threads(0);
    assert_eq!(e.num_threads(), 1);
    e.set_threads(1000);
    assert_eq!(e.num_threads(), 256);
    assert_eq!(e.active_threads(3), 4);
    e.set_move_overhead(9_999);
    assert_eq!(e.move_overhead_ms(), 5_000);
    e.set_slow_mover(1);
    assert_eq!(e.slow_mover(), 10);
    e.set_contempt(-5);
    assert_eq!(e.contempt(), 0);
    e.set_contempt(55);
    assert_eq!(e.contempt(), 55);
    e.set_singular_ext_mode(7);
    assert_eq!(e.singular_ext_mode(), 2);
    e.set_use_nnue(true);
    assert!(e.use_nnue());
    assert_eq!(Engine::with_hash(usize::MAX.min(3), None).num_threads(), 1);
}

#[test]
fn tuning_reads_back() {
    let mut e = Engine::new(None);
    assert_eq!(*e.tune(), TuneParams::default());
    let want = (50, 200, 4000, 65, 85);
    let t = TuneParams::default();
    assert_eq!((t.lmr_base, t.lmr_div, t.hist_lmr_div, t.rfp_margin_imp, t.rfp_margin_noimp), want);
    assert_eq!((t.fut_margin_imp, t.fut_margin_noimp, t.see_quiet_margin, t.corrhist_mult), (95, 65, 50, 100));
    assert!(e.set_tune_param("hist_lmr_div", 1234));
    assert_eq!(e.tune().hist_lmr_div, 1234);
    assert!(!e.set_tune_param("unknown", 1));
    let want = TuneParams { hist_lmr_div: 1234, ..TuneParams::default() };
    assert_eq!(*e.tune(), want);
    assert_eq!(e.nnue_net().l1_size, 16);
}

#[test]
fn more_threads_and_memory_mean_more_hash() {
    assert!(hash_for(2, Some(4_000)) <= hash_for(4, Some(4_000)));
    assert!(hash_for(4, Some(4_000)) <= hash_for(4, Some(40_000)));
    let (total, available) = mem_total_avail_mb();
    assert!(available <= total);
}

#[test]
fn threads_add_up() {
    assert_eq!(total_nodes(&vec![1, 2, 39]), 42);
    assert_eq!(total_nodes(&Vec::new()), 0);
    assert_eq!(ThreadPool::new(0).active_for(40), 1);
    assert_eq!(ThreadPool::new(8).active_for(40), 8);
}

#[test]
fn helper_threads_search_other_depths() {
    assert_eq!(depth_offset(0), 0);
    assert_eq!(depth_offset(1), 1);
    assert_eq!(depth_offset(2), -1);
    assert_eq!(depth_offset(8), -3);
    assert_eq!(depth_offset(17), 1);
    assert!(may_use_book(&Board::starting_position()));
}

#[test]
fn positions_are_shown_as_diagrams() {
    let text = Board::starting_position().to_text();
    assert!(text.starts_with("\n  8 r n b q k b n r \n  7 p p p p p p p p \n  6 . . . . . . . . \n"));
    assert!(text.ends_with(
        "  1 R N B Q K B N R \n    a b c d e f g h\n  Side to move: White\n  Castling: KQkq\n  En passant: -\n  Halfmove clock: 0\n  Fullmove: 1\n"
    ));
}

#[test]
fn texts_that_are_no_positions_say_why() {
    let fault = |fen: &str| match Board::from_fen(fen) {
        Ok(_) => panic!("accepted {fen}"),
        Err(e) => e,
    };
    assert!(matches!(fault("8/8 w -"), FenError::WrongPartCount(3)));
    assert!(matches!(fault("8/8/8/8/8/8/8 w - - 0 1"), FenError::BadPiecePlacement));
    assert!(matches!(fault("4k3/8/8/8/8/8/8/4K4 w - - 0 1"), FenError::BadPiecePlacement));
    for (fen, why) in [
        ("4k3/8/8/8/8/8/8/4K3 x - - 0 1", "bad side to move: x"),
        ("4k3/8/8/8/8/8/8/4K2R w KK - 0 1", "duplicate castling right: K"),
        ("4k3/8/8/8/8/8/8/4K3 w - - 0 0", "fullmove number must be at least 1"),
        ("8/8/8/8/8/3k4/4K3/8 w - - 0 1", "kings may not be adjacent"),
    ] {
        match fault(fen) {
            FenError::Invalid(text) => assert_eq!(text, why),
            other => panic!("{other:?}"),
        }
    }
    // A right left over from before castling is passed over.
    let b = Board::from_fen("4k3/8/8/8/8/8/8/5RK1 w K - 0 1").unwrap();
    assert_eq!(b.to_fen(), "4k3/8/8/8/8/8/8/5RK1 w - - 0 1");
}

#[test]
fn positions_that_cannot_be_say_why() {
    let mut b = Board::starting_position();
    let king = b.piece_at(b.king_square(Color::White)).unwrap();
    b.remove_piece(b.king_square(Color::White), king);
    assert_eq!(
        validate_position(&b),
        Err(PositionError::KingCount { color: Color::White, count: 0 })
    );
}

#[test]
fn scores_are_shown() {
    assert!(Score(29_998).is_mate());
    assert!(!Score(28_999).is_mate());
    assert_eq!(Score(150).centipawns(), 150);
}

#[test]
fn a_reading_of_the_memory_gives_the_hash_size() {
    assert_eq!(endspiel::platform::in_mb(3 << 20, (1 << 20) - 1), (3, 0));
    assert_eq!(endspiel::platform::hash_for_reading(4, 0), endspiel::platform::hash_for(4, None));
    assert_eq!(endspiel::platform::hash_for_reading(4, 8192), endspiel::platform::hash_for(4, Some(8192)));
}

#[test]
fn long_clocks_are_no_trouble() {
    let board = Board::starting_position();
    let params = SearchParams { infinite: true, white_time_ms: Some(u64::MAX), ..Default::default() };
    assert_eq!(endspiel::timing::allocated_move_time_ms(&params, &board), None);
    let params = SearchParams { move_time_ms: Some(500), white_inc_ms: Some(u64::MAX), ..Default::default() };
    assert_eq!(endspiel::timing::allocated_move_time_ms(&params, &board), Some(480));
    let params = SearchParams { white_time_ms: Some(u64::MAX), white_inc_ms: Some(u64::MAX), ..Default::default() };
    assert!(endspiel::timing::allocated_move_time_ms(&params, &board).is_some());
}

#[test]
fn only_a_castled_king_leaves_its_rights_behind() {
    assert!(Board::from_fen("4k3/8/8/8/8/8/8/R3K3 w K - 0 1").is_err());
    assert!(Board::from_fen("4k3/8/8/8/8/8/8/R4RK1 w KQ - 0 1").is_ok());
    let board = Board::starting_position();
    assert!(endspiel::san::san_to_move(&board, "e4=\u{e9}").is_none());
    assert!(endspiel::san::san_to_move(&board, "e4").is_some());
}
