use endspiel::datagen::{backfill_results, bin_edge, game_standing, play_game, recent_abs_score_avg_cp, record_position, score_bin, stm_to_white, Adjudication, DataEntry, Ending, Game, Standing};
use endspiel::openings::{opening_with, pick_by_weight, play_opening, start_from_fen, total_weight, Luck, NoBook};
use endspiel::pgn::PgnGame;
use endspiel::search::{Alone, Witness};
use endspiel::types::{DrawReason, GameResult};
use endspiel::validate::validate_position;
use endspiel::{Board, Engine, Move, Score};

fn board(fen: &str) -> Board {
    Board::from_fen(fen).unwrap()
}

fn entry(score_cp: i16) -> DataEntry {
    let mut e = DataEntry::from_board(&Board::starting_position(), 0);
    e.score_cp = score_cp;
    e
}

#[test]
fn four_winning_scores_end_a_game() {
    let mut a = Adjudication::new();
    assert_eq!(a.note(700), None);
    assert_eq!(a.note(650), None);
    assert_eq!(a.note(600), None);
    assert_eq!(a.note(601), Some(Ending::WhiteWins));
    let mut b = Adjudication::new();
    for s in [-600, -700, -800, 599, -600, -600, -600] {
        assert_eq!(b.note(s), None);
    }
    assert_eq!(b.note(-600), Some(Ending::BlackWins));
    // A change of side starts the count again.
    let mut c = Adjudication::new();
    for s in [600, 600, 600, -600, -600, -600] {
        assert_eq!(c.note(s), None);
    }
}

#[test]
fn eight_level_scores_are_a_draw() {
    let mut a = Adjudication::new();
    for s in [0, 14, -14, 3, 0, 0, 0] {
        assert_eq!(a.note(s), None);
    }
    assert_eq!(a.note(1), Some(Ending::Draw));
    let mut b = Adjudication::new();
    for s in [0, 0, 0, 0, 0, 0, 0, 15, 0] {
        assert_eq!(b.note(s), None);
    }
}

#[test]
fn averages_look_at_the_last_scores() {
    let entries = vec![entry(10_000), entry(-100), entry(200), entry(-300), entry(401)];
    assert_eq!(recent_abs_score_avg_cp(&entries, 4), 1001 / 4);
    assert_eq!(recent_abs_score_avg_cp(&entries, 1), 401);
    assert_eq!(recent_abs_score_avg_cp(&Vec::new(), 4), 0);
}

#[test]
fn standings_follow_the_rules() {
    let none: Vec<DataEntry> = Vec::new();
    let mate = board("R5k1/5ppp/8/8/8/8/8/4K3 b - - 0 1");
    assert_eq!(game_standing(&mate, &none, 3), Standing::Over(Ending::WhiteWins));
    let stalemate = board("k7/2Q5/1K6/8/8/8/8/8 b - - 0 1");
    assert_eq!(game_standing(&stalemate, &none, 3), Standing::Over(Ending::Draw));
    let fifty = board("8/8/8/8/8/8/1K6/7k w - - 100 80");
    assert_eq!(game_standing(&fifty, &none, 3), Standing::Over(Ending::Draw));
    let start = Board::starting_position();
    assert_eq!(game_standing(&start, &none, 0), Standing::Open);
    assert_eq!(game_standing(&start, &none, 401), Standing::Over(Ending::Draw));
    // A threefold repetition counts as a draw unless the scores say otherwise.
    let mut b = Board::starting_position();
    for uci in ["g1f3", "g8f6", "f3g1", "f6g8", "g1f3", "g8f6", "f3g1", "f6g8"] {
        b.make_move(Move::from_uci(uci).unwrap());
    }
    assert_eq!(game_standing(&b, &none, 8), Standing::Over(Ending::Draw));
    assert_eq!(game_standing(&b, &vec![entry(900)], 8), Standing::Discarded);
}

#[test]
fn records_hold_quiet_positions() {
    let start = Board::starting_position();
    let mut entries = Vec::new();
    record_position(&start, Score(5_000), &mut entries);
    assert_eq!(entries.len(), 1);
    assert_eq!(entries[0].score_cp, 3_000);
    assert_eq!(entries[0].stm, 0);
    assert_eq!(entries[0].bbs[0], 0xFFFF);
    assert_eq!(entries[0].bbs[2], 0x00FF_0000_0000_FF00);
    assert_eq!(entries[0].bbs[7], 0x1000_0000_0000_0010);
    // Mates and checks are left out.
    record_position(&start, Score(29_500), &mut entries);
    record_position(&board("4k3/8/8/8/8/8/4r3/4K3 w - - 0 1"), Score(10), &mut entries);
    assert_eq!(entries.len(), 1);
    // Black's scores are turned round.
    let black = board("4k3/4p3/8/8/8/8/8/4K3 b - - 0 1");
    record_position(&black, Score(120), &mut entries);
    assert_eq!(entries[1].score_cp, -120);
    assert_eq!(entries[1].stm, 1);
    assert_eq!(stm_to_white(&black, 120), -120);
    backfill_results(&mut entries, Ending::WhiteWins);
    assert!(entries.iter().all(|e| e.half_points == 2));
    backfill_results(&mut entries, Ending::Draw);
    assert!(entries.iter().all(|e| e.half_points == 1));
}

#[test]
fn a_game_advances_by_search_results() {
    let mut game = Game::new(Board::starting_position());
    let m = endspiel::generate_legal_moves(&game.board).get(0);
    assert_eq!(game.advance(m, Score(30)), None);
    assert_eq!(game.ply, 1);
    assert_eq!(game.entries.len(), 1);
    assert_eq!(game.board.position_history.len(), 1);
}

#[test]
fn weights_decide_a_pick() {
    let entries = vec![(Move(1), 3u32), (Move(2), 0), (Move(3), 5)];
    assert_eq!(total_weight(&entries), Some(8));
    let picks: Vec<usize> = (0..9).map(|p| pick_by_weight(&entries, p)).collect();
    assert_eq!(picks, vec![0, 0, 0, 2, 2, 2, 2, 2, 0]);
    assert_eq!(total_weight(&vec![(Move(1), u32::MAX), (Move(2), 1)]), None);
}

#[test]
fn scores_fall_into_bins() {
    assert_eq!(score_bin(-9_999), 0);
    assert_eq!(score_bin(0), 160);
    assert_eq!(score_bin(24), 160);
    assert_eq!(score_bin(25), 161);
    assert_eq!(score_bin(-1), 159);
    assert_eq!(score_bin(4_000), 320);
    assert_eq!(bin_edge(160), 0);
    assert_eq!(bin_edge(0), -4_000);
}

#[test]
fn an_opening_has_eight_plies() {
    for _ in 0..5 {
        if let Some(b) = play_opening(&mut Luck::new(NoBook)) {
            assert_eq!(b.position_history.len(), 8);
            assert!(validate_position(&b).is_ok());
        }
    }
}

#[test]
fn games_start_from_good_texts_only() {
    assert!(start_from_fen("not a position", false, &mut Luck::new(NoBook)).is_none());
    // A position with the side that has just moved in check is played on.
    let check = "4k3/8/8/8/8/8/4R3/4K3 w - - 0 1";
    assert_eq!(start_from_fen(check, false, &mut Luck::new(NoBook)).unwrap().to_fen(), check);
    // Without a legal move nothing can be randomised.
    assert!(start_from_fen("k7/2Q5/1K6/8/8/8/8/8 b - - 0 1", true, &mut Luck::new(NoBook)).is_none());
    let fen = "4k3/8/8/8/8/8/4P3/4K3 w - - 0 1";
    assert_eq!(start_from_fen(fen, false, &mut Luck::new(NoBook)).unwrap().to_fen(), fen);
    assert_eq!(start_from_fen(fen, true, &mut Luck::new(NoBook)).unwrap().position_history.len(), 1);
}

#[test]
fn a_self_play_game_yields_labelled_positions() {
    let mut engine = Engine::with_hash(1, Some(1));
    let lmr = vec![0u8; 4096];
    let bad = play_game(&mut engine, 1, &mut Luck::new(NoBook), Some("8/8 w"), false, &lmr, None, &mut Witness::new(Alone));
    assert!(bad.is_empty());
    let fen = "4k3/8/8/8/8/8/QQ2P3/4K3 w - - 0 1";
    let game = play_game(&mut engine, 2, &mut Luck::new(NoBook), Some(fen), false, &lmr, None, &mut Witness::new(Alone));
    for e in &game {
        assert_eq!(e.half_points, 2);
        assert!(e.stm < 2);
        assert!(e.score_cp.abs() <= 3_000);
    }
}

#[test]
fn games_are_read_and_written() {
    let text = "[Event \"Test\"]\n[White \"A B\"]\n\n1. e4 e5 2. Nf3 {good} Nc6 $1 1/2-1/2\n";
    let game = PgnGame::from_pgn(text).unwrap();
    assert_eq!(game.get_header("Event"), Some("Test"));
    assert_eq!(game.get_header("White"), Some("A B"));
    assert_eq!(game.get_header("Black"), None);
    assert_eq!(game.moves, vec!["e4", "e5", "Nf3", "Nc6"]);
    assert_eq!(game.result, Some(GameResult::Draw(DrawReason::Agreement)));
    assert_eq!(game.to_pgn(), "[Event \"Test\"]\n[White \"A B\"]\n\n1. e4 e5 2. Nf3 Nc6 1/2-1/2\n");
    let again = PgnGame::from_pgn(&game.to_pgn()).unwrap();
    assert_eq!(again.headers, game.headers);
    assert_eq!(again.moves, game.moves);
    assert_eq!(again.result, game.result);
    assert_eq!(PgnGame::new().to_pgn(), "\n*\n");
    assert_eq!(PgnGame::from_pgn("1. d4 0-1").unwrap().result, Some(GameResult::BlackWins));
    assert_eq!(PgnGame::from_pgn("1. d4 1-0").unwrap().result, Some(GameResult::WhiteWins));
    assert_eq!(PgnGame::from_pgn("1... d5 *").unwrap().moves, vec!["d5"]);
}

#[test]
fn an_opening_follows_its_draws_and_answers() {
    let first = Move::from_uci("e2e4").unwrap();
    let first = Move::new(first.from_sq(), first.to_sq(), endspiel::MoveFlag::DoublePawnPush);
    let answers = vec![vec![(Move::null(), 3), (first, 5)]];
    // The fourth of eight weights falls on the second entry.
    let b = opening_with(&vec![4], &answers).unwrap();
    assert_eq!(b.position_history.len(), 8);
    let c = opening_with(&vec![3], &answers).unwrap();
    assert_eq!(b.to_fen(), c.to_fen());
    // A move that is not legal leaves the book.
    let d = opening_with(&vec![0], &answers).unwrap();
    assert_ne!(b.to_fen(), d.to_fen());
    // Without book and draws the first legal move is played each time.
    let e = opening_with(&vec![], &vec![]).unwrap();
    let mut plain = Board::starting_position();
    for _ in 0..8 {
        let m = endspiel::generate_legal_moves(&plain).get(0);
        plain.make_move(m);
    }
    assert_eq!(e.to_fen(), plain.to_fen());
}

#[test]
fn a_game_without_a_king_is_discarded() {
    let mut b = board("4k3/8/8/8/8/8/4R3/4K3 w - - 0 1");
    let moves = endspiel::generate_pseudo_legal_moves(&b);
    let takes = (0..moves.len()).map(|i| moves.get(i)).find(|m| m.to_sq().to_algebraic() == "e8").unwrap();
    b.make_move(takes);
    assert_eq!(game_standing(&b, &Vec::new(), 1), Standing::Discarded);
}
