use endspiel::history::PersistentHistory;
use endspiel::iterative::iterative_deepening;
use endspiel::nnue::network::NnueNetwork;
use endspiel::search::{Alone, Host, Witness};
use endspiel::syzygy::{
    decode_root_move, is_wdl_score, rank_root_moves, validated_probe_inputs, wdl_display_score, wdl_to_score, ChessAdapter,
    DtzMove, ProbeInputs, Wdl, TB_LOSS_SCORE, TB_WIN_SCORE,
};
use endspiel::timing::NodeShare;
use endspiel::tt::SharedTT;
use endspiel::validate::find_legal_move;
use endspiel::{Board, Move, PieceKind, Score, SearchInfo, SearchParams};

fn board(fen: &str) -> Board {
    Board::from_fen(fen).expect("valid FEN")
}

fn dtz(wdl: Wdl, uci: &str, dtz: u16) -> DtzMove {
    let m = Move::from_uci(uci).unwrap();
    DtzMove { wdl, from: m.from_sq().0, to: m.to_sq().0, promotion: m.flag().promotion_piece(), dtz }
}

#[test]
fn rank_root_moves_reports_loss_without_minting_a_mate() {
    let b = board("8/8/P1b5/6p1/3K1k2/8/8/8 w - - 0 54");
    let root = dtz(Wdl::Loss, "d4c5", 7);
    let ranking = rank_root_moves(&b, Some(root), &vec![root]).expect("root TB ranking");
    assert_eq!(ranking.best_wdl, Wdl::Loss);
    assert!(ranking.score.0 < 0, "expected negative score, got {}", ranking.score.0);
    assert_eq!(ranking.score.0, TB_LOSS_SCORE + 7);
    assert!(!ranking.score.is_mate());
    assert!(ranking.winning_moves.is_empty(), "a losing root has no winning moves");
}

#[test]
fn rank_root_moves_ranks_precapture_tb_win() {
    let b = board("b7/8/P1P5/6p1/3K1k2/8/8/8 b - - 0 53");
    let root = dtz(Wdl::Win, "a8c6", 1);
    let moves = vec![
        dtz(Wdl::Draw, "f4f3", 0),
        dtz(Wdl::Win, "g5g4", 1),
        dtz(Wdl::Win, "f4g4", 9),
        dtz(Wdl::Win, "a8c6", 1),
        dtz(Wdl::Win, "a1h8", 1),
    ];
    let ranking = rank_root_moves(&b, Some(root), &moves).expect("root TB ranking");
    assert_eq!(ranking.best_wdl, Wdl::Win);
    assert!(!ranking.score.is_mate());
    assert!(ranking.score.0 > TB_WIN_SCORE - 1_000 && ranking.score.0 <= TB_WIN_SCORE);
    assert_eq!(ranking.winning_moves.first().map(|m| m.to_uci()), Some("a8c6".to_string()));
    let names: Vec<String> = ranking.winning_moves.iter().map(|m| m.to_uci()).collect();
    assert_eq!(names, vec!["a8c6", "g5g4", "f4g4"]);
}

#[test]
fn rank_root_moves_returns_none_when_root_is_out_of_tb_range() {
    let b = Board::default();
    assert!(validated_probe_inputs(&b, 7).is_none());
    assert!(rank_root_moves(&b, None, &Vec::new()).is_none());
}

#[test]
fn outcomes_have_scores() {
    let scores: Vec<i32> =
        [Wdl::Loss, Wdl::BlessedLoss, Wdl::Draw, Wdl::CursedWin, Wdl::Win].map(wdl_to_score).to_vec();
    assert_eq!(scores, vec![TB_LOSS_SCORE, -2, 0, 2, TB_WIN_SCORE]);
    assert!(scores.iter().all(|&s| is_wdl_score(s)));
    assert!(!is_wdl_score(1));
    assert_eq!(wdl_display_score(TB_WIN_SCORE), Some(3_000));
    assert_eq!(wdl_display_score(-2), Some(-20));
    assert_eq!(wdl_display_score(0), Some(0));
    assert_eq!(wdl_display_score(27_999), None);
}

#[test]
fn probe_inputs_are_checked() {
    let b = board("8/8/8/8/4Pp2/8/8/K1k5 b - e3 0 1");
    let inputs = validated_probe_inputs(&b, 5).unwrap();
    assert_eq!(inputs.ep, 20);
    assert!(!inputs.turn);
    assert_eq!(inputs.kings, 0b101);
    assert_eq!(inputs.pawns, (1 << 28) | (1 << 29));
    assert_eq!(inputs.white | inputs.black, inputs.kings | inputs.pawns);
    // Too many pieces, castling rights.
    assert!(validated_probe_inputs(&b, 3).is_none());
    assert!(validated_probe_inputs(&board("4k3/8/8/8/8/8/8/4K2R w K - 0 1"), 5).is_none());
    // Sets that disagree.
    let mut c = board("4k3/8/8/8/8/8/8/4K2R w - - 0 1");
    c.occupancy[0].0 |= 1 << 30;
    assert!(validated_probe_inputs(&c, 5).is_none());
}

#[test]
fn the_adapter_knows_the_attacks() {
    assert_eq!(ChessAdapter::knight_attacks(0), (1 << 10) | (1 << 17));
    assert_eq!(ChessAdapter::king_attacks(64), 0);
    assert_eq!(ChessAdapter::pawn_attacks(true, 8), 1 << 17);
    assert_eq!(ChessAdapter::pawn_attacks(false, 8), 1 << 1);
    assert_eq!(
        ChessAdapter::queen_attacks(27, 0),
        ChessAdapter::rook_attacks(27, 0) | ChessAdapter::bishop_attacks(27, 0)
    );
    assert_eq!(ChessAdapter::rook_attacks(0, 1 << 8) & (1 << 16), 0);
}

#[test]
fn promotions_are_decoded() {
    let b = board("8/P7/8/8/8/8/8/K1k5 w - - 0 1");
    let m = decode_root_move(&b, dtz(Wdl::Win, "a7a8n", 1)).unwrap();
    assert_eq!(m.flag().promotion_piece(), Some(PieceKind::Knight));
    assert!(decode_root_move(&b, dtz(Wdl::Win, "a7a6", 1)).is_none());
}

#[test]
fn syzygy_guides_precapture_transition_to_bxc6() {
    let b = board("b7/8/P1P5/6p1/3K1k2/8/8/8 b - - 0 53");
    let m = find_legal_move(&b, Move::from_uci("a8c6").unwrap()).unwrap();
    let solution = Some((Score(TB_WIN_SCORE), vec![m]));
    let mut tt = SharedTT::new(1);
    let mut tables = PersistentHistory::new();
    let params = SearchParams { max_depth: 4, use_nnue: false, ..Default::default() };
    let result = iterative_deepening(
        &b,
        &params,
        &mut tt,
        &mut tables,
        &NnueNetwork::embedded(),
        &vec![1u8; 4096],
        0,
        None,
        &solution,
        false,
        None,
        &mut Witness::new(Alone),
    );
    assert_eq!(result.best_move.to_uci(), "a8c6");
    assert!(result.score.0 >= TB_WIN_SCORE);
}

/// Tables that call every position a draw, and a search that can be stopped.
struct Tables {
    probes: u32,
    reports: Vec<(u8, u64)>,
    stop_after: u32,
    polls: u32,
}

impl Host for Tables {
    fn begin(&mut self) {}

    fn stop_requested(&mut self) -> bool {
        self.polls += 1;
        self.polls > self.stop_after
    }

    fn elapsed_ms(&mut self) -> u64 {
        0
    }

    fn probe_wdl(&mut self, inputs: ProbeInputs) -> Option<Wdl> {
        assert!((inputs.white | inputs.black).count_ones() <= 4);
        self.probes += 1;
        Some(Wdl::Draw)
    }

    fn node_share(&mut self, _best: u64, _total: u64) -> NodeShare {
        NodeShare { most: false, few: false, unsure: false }
    }

    fn steadier(&mut self, _stable: &Vec<i32>, _best: &Vec<i32>) -> Option<i32> {
        None
    }

    fn report(&mut self, info: &SearchInfo) {
        self.reports.push((info.depth, info.nodes));
    }

    fn count_nodes(&mut self, _nodes: u64) {}
}

fn search_with(host: Tables, fen: &str, depth: u8) -> (Tables, i32) {
    let mut host = Witness::new(host);
    let b = board(fen);
    let mut tt = SharedTT::new(1);
    let mut tables = PersistentHistory::new();
    let params = SearchParams { max_depth: depth, use_nnue: false, ..Default::default() };
    let result = iterative_deepening(
        &b,
        &params,
        &mut tt,
        &mut tables,
        &NnueNetwork::embedded(),
        &vec![0u8; 4096],
        0,
        Some(4),
        &None,
        false,
        None,
        &mut host,
    );
    assert!(endspiel::generate_legal_moves(&b).contains(&result.best_move));
    (host.into_host(), result.score.0)
}

#[test]
fn the_search_believes_the_tables() {
    let host = Tables { probes: 0, reports: Vec::new(), stop_after: u32::MAX, polls: 0 };
    let (host, score) = search_with(host, "4k3/8/8/8/8/8/8/Q3K3 w - - 0 1", 4);
    assert_eq!(score, 0);
    assert!(host.probes > 0);
    assert_eq!(host.reports.len(), 4);
    assert!(host.reports.windows(2).all(|w| w[0].1 <= w[1].1));
}

#[test]
fn a_stopped_search_still_plays_a_legal_move() {
    let host = Tables { probes: 0, reports: Vec::new(), stop_after: 0, polls: 0 };
    let (host, _) = search_with(host, "rnbqkbnr/pppppppp/8/8/8/8/PPPPPPPP/RNBQKBNR w KQkq - 0 1", 30);
    assert!(host.reports.len() <= 1);
}
