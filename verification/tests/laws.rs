use endspiel::attacks::{all_attackers_of, attackers_of, is_square_attacked};
use endspiel::eval::{evaluate, evaluate_cached, evaluate_impl, evaluate_with_params, pawn_hash, PawnHashTable};
use endspiel::eval_params::EvalParams;
use endspiel::history::{PersistentHistory, PlyContext, MAX_PLY};
use endspiel::lines::{leave_out, sanitize_pv, sort_by_score, take_scores};
use endspiel::magics::{build_table, relevant_mask, rook_attacks};
use endspiel::moves::MoveFlag;
use endspiel::nnue::accumulator::Accumulator;
use endspiel::nnue::network::NnueNetwork;
use endspiel::ordering::{capture_value, is_move_safe, move_fits, mvv_lva_score, pick_next_move, MovePicker, Scored};
use endspiel::root::LEFT_OUT;
use endspiel::san::san_to_move;
use endspiel::search::{score_from_tt, score_to_tt};
use endspiel::see::see_ge;
use endspiel::tt::{SharedTT, TTFlag};
use endspiel::validate::{find_legal_move, validate_position};
use endspiel::{
    generate_legal_moves, generate_pseudo_legal_moves, is_in_check, Bitboard, Board, CastlingRights, Color, Move, Piece,
    PieceKind, Square,
};

const KIWIPETE: &str = "r3k2r/p1ppqpb1/bn2pnp1/3PN3/1p2P3/2N2Q1p/PPPBBPPP/R3K2R w KQkq - 0 1";

fn board(fen: &str) -> Board {
    Board::from_fen(fen).unwrap()
}

fn legal(b: &Board, uci: &str) -> Move {
    find_legal_move(b, Move::from_uci(uci).unwrap()).unwrap()
}

fn contexts() -> Vec<PlyContext> {
    vec![PlyContext { piece_kind: 0, to_sq: 0 }; MAX_PLY]
}

#[test]
fn move_parts_come_back() {
    let m = Move::new(Square::new(4, 6), Square::new(5, 7), MoveFlag::PromoteCaptureRook);
    assert_eq!(m.from_sq(), Square(52));
    assert_eq!(m.to_sq(), Square(61));
    assert_eq!(m.flag(), MoveFlag::PromoteCaptureRook);
    assert!(m.is_capture() && m.is_promotion());
    assert_eq!(m.flag().promotion_piece(), Some(PieceKind::Rook));
    assert_eq!(m.to_uci(), "e7f8r");
    assert_eq!(Move::from_uci("e7f8r").unwrap().to_uci(), "e7f8r");
    assert_eq!(Move::from_uci("e7f8x"), None);
    assert_eq!(Move::from_uci("e7"), None);
    assert!(Move::null().is_null());
}

#[test]
fn letters_and_names_come_back() {
    for kind in PieceKind::ALL {
        for color in [Color::White, Color::Black] {
            assert_eq!(PieceKind::from_char(kind.to_char(color)), Some(kind));
        }
    }
    assert_eq!(PieceKind::from_char('x'), None);
    for i in 0..64u8 {
        let name = Square(i).to_algebraic();
        assert_eq!(Square::from_algebraic(&name), Some(Square(i)));
    }
    assert_eq!(Square::from_algebraic("i1"), None);
    assert_eq!(Square::from_algebraic("a9"), None);
    for mask in 0..16u8 {
        let rights = CastlingRights(mask);
        assert_eq!(CastlingRights::from_fen(&rights.to_fen()), rights);
    }
    assert_eq!(CastlingRights::all().to_fen(), "KQkq");
    assert_eq!(CastlingRights::none().to_fen(), "-");
}

#[test]
fn sets_are_their_members() {
    let a = Square(3).bitboard() | Square(40).bitboard();
    assert_eq!(a.count(), 2);
    assert_eq!(a.lsb(), Some(Square(3)));
    let mut members = Vec::new();
    let mut it = a.iter();
    while let Some(sq) = it.next() {
        members.push(sq.0);
    }
    assert_eq!(members, vec![3, 40]);
    let (first, rest) = a.pop_lsb();
    assert_eq!(first, Some(Square(3)));
    assert_eq!(rest, Square(40).bitboard());
    assert_eq!(Bitboard(0).lsb(), None);
    assert_eq!(a.complement().count(), 62);
    // The edges of the board do not wrap.
    assert!(Square(7).bitboard().east().is_empty());
    assert!(Square(0).bitboard().west().is_empty());
    assert_eq!(Square(0).bitboard().north_east(), Square(9).bitboard());
}

#[test]
fn making_and_unmaking_restores_everything() {
    let mut b = board(KIWIPETE);
    let moves = generate_pseudo_legal_moves(&b);
    let before = b.to_fen();
    let hash = b.hash;
    for &m in moves.iter() {
        assert!(move_fits(&b, m));
        let castling = b.castling;
        let ep = b.en_passant;
        let half = b.halfmove_clock;
        let captured = b.make_move(m);
        assert_eq!(b.hash, b.compute_hash(), "{}", m.to_uci());
        b.unmake_move(m, captured, castling, ep, half);
        assert_eq!(b.to_fen(), before);
        assert_eq!(b.hash, hash);
        assert!(b.position_history.is_empty());
    }
}

#[test]
fn a_null_move_keeps_the_hash_in_step() {
    let mut b = board("rnbqkbnr/pppppppp/8/8/4P3/8/PPPP1PPP/RNBQKBNR b KQkq e3 0 1");
    b.update_hash_for_null_move();
    b.side_to_move = Color::White;
    b.en_passant = None;
    assert_eq!(b.hash, b.compute_hash());
}

#[test]
fn legal_moves_keep_positions_valid() {
    let b = board(KIWIPETE);
    for &m in generate_legal_moves(&b).iter() {
        let mut c = b.clone();
        c.make_move(m);
        assert!(validate_position(&c).is_ok());
        for &n in generate_legal_moves(&c).iter() {
            let mut d = c.clone();
            d.make_move(n);
            assert!(validate_position(&d).is_ok());
        }
    }
    assert!(validate_position(&Board::default()).is_ok());
}

#[test]
fn a_legal_move_is_pseudo_legal_and_leaves_the_king_safe() {
    // The knight on e2 is pinned.
    let b = board("4r1k1/8/8/8/8/8/4N3/4K3 w - - 0 1");
    let pseudo = generate_pseudo_legal_moves(&b);
    let legal_moves = generate_legal_moves(&b);
    assert!(pseudo.iter().any(|m| m.to_uci() == "e2c3"));
    assert!(!legal_moves.iter().any(|m| m.to_uci() == "e2c3"));
    assert!(legal_moves.iter().all(|m| pseudo.contains(m)));
    assert!(!is_in_check(&b));
}

#[test]
fn attacks_go_both_ways() {
    let b = board("4k3/8/8/3r4/8/8/8/3RK3 w - - 0 1");
    let occ = b.all_occupancy();
    assert!(rook_attacks(Square(3), occ).is_set(Square(35)));
    assert!(rook_attacks(Square(35), occ).is_set(Square(3)));
}

#[test]
fn only_the_relevant_occupancy_decides() {
    let mask = relevant_mask(27, false);
    let occ = 0xA5A5_1234_F00F_9999u64;
    assert_eq!(rook_attacks(Square(27), Bitboard(occ)), rook_attacks(Square(27), Bitboard(occ & mask)));
}

#[test]
fn a_magic_table_gives_the_attacks() {
    let table = build_table(true).expect("magics");
    for sq in [0u8, 27, 36, 63] {
        for occ in [0u64, u64::MAX, 0x00FF_0010_2030_4050] {
            let want = endspiel::magics::bishop_attacks(Square(sq), Bitboard(occ));
            assert_eq!(table.attacks(Square(sq), Bitboard(occ)), want);
        }
    }
}

#[test]
fn fen_texts_come_back() {
    for fen in [
        KIWIPETE,
        "8/2p5/3p4/KP5r/1R3p1k/8/4P1P1/8 w - - 12 345",
        "bbqnnrkr/pppppppp/8/8/8/8/PPPPPPPP/BBQNNRKR w KFkf - 0 1",
        "rnbqkbnr/ppp1pppp/8/3pP3/8/8/PPPP1PPP/RNBQKBNR w KQkq d6 0 3",
    ] {
        assert_eq!(board(fen).to_fen(), fen);
    }
}

#[test]
fn found_and_noted_moves_are_legal() {
    let b = board(KIWIPETE);
    let moves = generate_legal_moves(&b);
    let m = find_legal_move(&b, Move::from_uci("e1g1").unwrap()).unwrap();
    assert_eq!(m.flag(), MoveFlag::KingsideCastle);
    assert!(moves.contains(&m));
    let n = san_to_move(&b, "Nxf7").unwrap();
    assert!(moves.contains(&n));
    assert_eq!(n.to_uci(), "e5f7");
    assert!(san_to_move(&b, "Nc6").is_some());
    assert!(san_to_move(&b, "Ne2").is_none());
}

#[test]
fn exchanges_are_bounded() {
    let b = board("4k3/8/4p3/3p4/8/8/8/3QK3 w - - 0 1");
    let m = legal(&b, "d1d5");
    assert!(see_ge(&b, m, -900 + 100));
    assert!(!see_ge(&b, m, 101));
}

#[test]
fn stored_entries_come_back_and_others_stay() {
    let mut tt = SharedTT::new(1);
    tt.store(1, 9, -40_000, TTFlag::UpperBound, Move(77));
    let e = tt.probe(1).unwrap();
    // Scores are kept within limits.
    assert_eq!((e.depth, e.score, e.flag, e.best_move), (9, -32_000, TTFlag::UpperBound, Move(77)));
    tt.store(2, 3, 5, TTFlag::Exact, Move(78));
    assert_eq!(tt.probe(1).unwrap().depth, 9);
    // The same position is replaced, even by a shallower entry.
    tt.store(1, 2, 11, TTFlag::Exact, Move(79));
    assert_eq!(tt.probe(1).unwrap().score, 11);
    // Another position of the same slot and generation gives way only if it is
    // not deeper.
    let other = 1 + (1u64 << 40);
    tt.store(1, 9, 1, TTFlag::Exact, Move(80));
    tt.store(other, 8, 2, TTFlag::Exact, Move(81));
    assert!(tt.probe(other).is_none());
    tt.store(other, 9, 2, TTFlag::Exact, Move(81));
    assert_eq!(tt.probe(other).unwrap().score, 2);
}

#[test]
fn mate_scores_are_counted_from_the_position() {
    assert_eq!(score_to_tt(29_990, 5), 29_995);
    assert_eq!(score_from_tt(29_995, 5), 29_990);
    assert_eq!(score_to_tt(-29_990, 5), -29_995);
    assert_eq!(score_from_tt(-29_995, 5), -29_990);
    assert_eq!(score_to_tt(150, 5), 150);
    assert_eq!(score_from_tt(29_000, 5), 29_000);
}

#[test]
fn history_moves_towards_its_limit() {
    let b = Board::starting_position();
    let ctxs = contexts();
    let m = legal(&b, "g1f3");
    let mut h = PersistentHistory::new();
    assert_eq!(h.history_of(m), 0);
    h.update_history(m, 4, &b, &ctxs, 0);
    assert_eq!(h.history_of(m), 16);
    h.update_history(m, 100, &b, &ctxs, 0);
    // 16 + 10000 - 16 * 10000 / 16384
    assert_eq!(h.history_of(m), 16 + 10_000 - 9);
    for _ in 0..50 {
        h.update_history(m, 128, &b, &ctxs, 0);
    }
    assert_eq!(h.history_of(m), 16_384);
    h.update_history_malus(m, 1, &b, &ctxs, 0);
    assert!(h.history_of(m) < 16_384);
}

#[test]
fn continuation_history_looks_back() {
    let b = Board::starting_position();
    let ctxs = contexts();
    let m = legal(&b, "g1f3");
    let mut h = PersistentHistory::new();
    h.update_history(m, 8, &b, &ctxs, 2);
    // Both look at the same earlier move here: 64, then 64 and 64 once more.
    let once = h.get_cont_history_bonus(m, &b, &ctxs, 1);
    let twice = h.get_cont_history_bonus(m, &b, &ctxs, 2);
    assert_eq!(once, 128);
    assert_eq!(twice, 128 + 64);
    assert_eq!(h.get_cont_history_bonus(m, &b, &ctxs, 0), 0);
    assert_eq!(h.quiet_worth(m, &b, &ctxs, 2), 64 + 96);
}

#[test]
fn capture_history_and_replies_are_noted() {
    let b = board("4k3/8/8/3p4/4P3/8/8/4K3 w - - 0 1");
    let m = legal(&b, "e4d5");
    let mut h = PersistentHistory::new();
    h.update_capture_history(m, 5, &b);
    assert_eq!(h.get_capture_history(m, &b), 25);
    h.update_capture_history_malus(m, 5, &b);
    assert_eq!(h.get_capture_history(m, &b), 0);
    assert!(h.get_counter_move(m).is_null());
    let reply = Move::from_uci("e8e7").unwrap();
    h.store_counter_move(m, reply);
    assert_eq!(h.get_counter_move(m), reply);
    h.store_counter_move(Move::null(), reply);
    assert!(h.get_counter_move(Move::null()).is_null());
}

#[test]
fn corrections_stay_within_their_cap() {
    let b = Board::starting_position();
    let ctxs = contexts();
    let mut h = PersistentHistory::new();
    assert_eq!(h.correction(&b, &ctxs, 1, 100), 0);
    for _ in 0..1000 {
        h.update_corrhist(&b, 20, 5_000, &ctxs, 1);
    }
    assert_eq!(h.correction(&b, &ctxs, 1, 100), 64);
    assert_eq!(h.correction(&b, &ctxs, 1, 50), 32);
    for _ in 0..1000 {
        h.update_corrhist(&b, 20, -5_000, &ctxs, 1);
    }
    assert_eq!(h.correction(&b, &ctxs, 1, 100), -64);
}

#[test]
fn pawn_values_are_cached() {
    let b = board(KIWIPETE);
    let params = EvalParams::default();
    let mut table = PawnHashTable::new();
    let key = pawn_hash(&b);
    assert_eq!(table.probe(key), None);
    let first = evaluate_cached(&b, &params, &mut table);
    assert!(table.probe(key).is_some());
    let second = evaluate_cached(&b, &params, &mut table);
    assert_eq!(first, second);
    assert_eq!(first, evaluate_with_params(&b, &params));
    assert_eq!(first, evaluate(&b));
    table.store(99, -7, 12);
    assert_eq!(table.probe(99), Some((-7, 12)));
}

#[test]
fn a_lone_minor_piece_is_a_draw() {
    assert_eq!(evaluate(&board("4k3/8/8/8/8/8/8/4KB2 w - - 0 1")).0, 0);
    assert_eq!(evaluate(&board("4k1n1/8/8/8/8/8/8/4K3 w - - 0 1")).0, 0);
}

#[test]
fn moves_are_sorted_by_score() {
    let list = vec![
        Scored { m: Move(1), score: 5 },
        Scored { m: Move(2), score: 9 },
        Scored { m: Move(3), score: 5 },
        Scored { m: Move(4), score: -1 },
    ];
    let sorted: Vec<u16> = sort_by_score(&list).iter().map(|x| x.m.0).collect();
    assert_eq!(sorted, vec![2, 1, 3, 4]);
    let left = leave_out(&list, &vec![Move(2)]);
    assert_eq!(left[1].score, LEFT_OUT);
    assert_eq!(left[0].score, 5);
    let mut taken = list;
    take_scores(&mut taken, &vec![Scored { m: Move(4), score: 40 }, Scored { m: Move(9), score: 1 }]);
    assert_eq!(taken[3].score, 40);
    assert_eq!(taken[0].score, 5);
}

#[test]
fn picking_brings_the_best_forward() {
    let mut list = vec![
        Scored { m: Move(1), score: 1 },
        Scored { m: Move(2), score: 7 },
        Scored { m: Move(3), score: 7 },
    ];
    pick_next_move(&mut list, 0);
    assert_eq!((list[0].m.0, list[1].m.0, list[2].m.0), (2, 1, 3));
    pick_next_move(&mut list, 1);
    assert_eq!((list[0].m.0, list[1].m.0, list[2].m.0), (2, 3, 1));
}

#[test]
fn a_line_is_cut_at_its_first_illegal_move() {
    let b = Board::starting_position();
    let line: Vec<Move> = vec![legal(&b, "e2e4"), Move::from_uci("e2e4").unwrap()];
    let clean = sanitize_pv(&b, &line);
    assert_eq!(clean.len(), 1);
    assert_eq!(clean[0].to_uci(), "e2e4");
    assert_eq!(sanitize_pv(&b, &clean), clean);
    // A move that completes the fifty moves is dropped too.
    let c = board("8/8/8/8/8/8/1K6/7k w - - 99 1");
    assert!(sanitize_pv(&c, &vec![legal(&c, "b2b3")]).is_empty());
}

#[test]
fn hash_moves_are_checked() {
    let b = Board::starting_position();
    assert!(is_move_safe(&b, legal(&b, "e2e4")));
    assert!(!is_move_safe(&b, Move::null()));
    let e = |s: &str| Square::from_algebraic(s).unwrap();
    // No piece, a piece of the opponent, a piece in the way.
    assert!(!is_move_safe(&b, Move::new(e("e4"), e("e5"), MoveFlag::Normal)));
    assert!(!is_move_safe(&b, Move::new(e("e7"), e("e5"), MoveFlag::DoublePawnPush)));
    assert!(!is_move_safe(&b, Move::new(e("a1"), e("a2"), MoveFlag::Normal)));
    // Flags that the board does not bear out.
    assert!(!is_move_safe(&b, Move::new(e("e2"), e("d3"), MoveFlag::Capture)));
    assert!(!is_move_safe(&b, Move::new(e("e2"), e("d3"), MoveFlag::EnPassant)));
    assert!(!is_move_safe(&b, Move::new(e("e2"), e("e3"), MoveFlag::PromoteQueen)));
    assert!(!is_move_safe(&b, Move::new(e("d1"), e("d3"), MoveFlag::DoublePawnPush)));
    // Castling passes by king and square; playing it would need more.
    let castle = Move::new(e("e1"), e("g1"), MoveFlag::KingsideCastle);
    assert!(is_move_safe(&b, castle));
    assert!(!move_fits(&b, castle));
}

#[test]
fn captures_are_ordered_by_victim_and_attacker() {
    let b = board("4k3/8/8/3q4/4P3/8/8/3QK3 w - - 0 1");
    assert_eq!(capture_value(&b, legal(&b, "e4d5")), 9_000 - 100);
    assert_eq!(capture_value(&b, legal(&b, "d1d5")), 9_000 - 900);
    let p = board("3r2k1/4P3/8/8/8/8/8/4K3 w - - 0 1");
    assert_eq!(mvv_lva_score(&p, legal(&p, "e7d8q")), 5_000 - 100 + 800);
}

#[test]
fn a_picker_yields_every_move_once() {
    let b = board(KIWIPETE);
    let h = PersistentHistory::new();
    let ctxs = contexts();
    let tt_move = legal(&b, "e2a6");
    let mut picker = MovePicker::new(tt_move);
    let mut seen = Vec::new();
    while let Some(m) = picker.next(&b, &h, &ctxs, 1, (Move::null(), Move::null()), Move::null()) {
        seen.push(m.0);
    }
    assert_eq!(seen[0], tt_move.0);
    let mut all: Vec<u16> = generate_pseudo_legal_moves(&b).iter().map(|m| m.0).collect();
    all.sort();
    seen.sort();
    assert_eq!(seen, all);
}

#[test]
fn an_accumulator_follows_the_moves() {
    // Weights that tell every feature apart.
    let mut net = NnueNetwork::embedded();
    for (i, row) in net.ft_weights.iter_mut().enumerate() {
        row.fill((i % 251) as i16 - 125);
    }
    let start = board(KIWIPETE);
    for &m in generate_legal_moves(&start).iter() {
        let mut parent = Accumulator::new();
        parent.refresh(&start, &net);
        let mut b = start.clone();
        let captured = b.make_move(m);
        if let Some(piece) = b.piece_at(m.to_sq()) {
            if piece.kind == PieceKind::King {
                continue;
            }
        }
        let wk = b.king_square(Color::White);
        let bk = b.king_square(Color::Black);
        let mover = start.piece_at(m.from_sq()).unwrap();
        if let Some(cap) = captured {
            parent.sub_piece(&net, wk, bk, cap.color, cap.kind, m.to_sq());
        }
        parent.sub_piece(&net, wk, bk, mover.color, mover.kind, m.from_sq());
        parent.add_piece(&net, wk, bk, mover.color, mover.kind, m.to_sq());
        parent.update_state(&net, wk, bk, start.castling, start.en_passant, b.castling, b.en_passant);
        let mut fresh = Accumulator::new();
        fresh.refresh(&b, &net);
        assert_eq!(parent.white, fresh.white, "{}", m.to_uci());
        assert_eq!(parent.black, fresh.black, "{}", m.to_uci());
    }
    let _ = Piece::new(PieceKind::King, Color::White);
}

#[test]
fn a_deeper_entry_of_the_same_search_stays() {
    let mut tt = SharedTT::new(1);
    assert!(tt.probe(0).is_none());
    assert!(tt.probe(12345).is_none());
    tt.store(1, 5, 0, TTFlag::Exact, Move(7));
    tt.store(4294967297, 4, 0, TTFlag::Exact, Move(9));
    let kept = tt.probe(1).unwrap();
    assert_eq!((kept.depth, kept.best_move), (5, Move(7)));
    assert!(tt.probe(4294967297).is_none());
    tt.store(4294967297, 5, 0, TTFlag::Exact, Move(9));
    assert!(tt.probe(4294967297).is_some());
    tt.store(0, 255, 0, TTFlag::Exact, Move(0));
    assert_eq!(tt.probe(0).unwrap().depth, 255);
    tt.store(1024, 0, 0, TTFlag::Exact, Move(0));
    assert!(tt.probe(1024).is_some());
}

fn swap_colors(fen: &str) -> String {
    let swap = |t: &str| -> String {
        t.chars().map(|c| if c.is_ascii_uppercase() { c.to_ascii_lowercase() } else { c.to_ascii_uppercase() }).collect()
    };
    let parts: Vec<&str> = fen.split(' ').collect();
    let ranks: Vec<String> = parts[0].split('/').rev().map(|r| swap(r)).collect();
    let side = if parts[1] == "w" { "b" } else { "w" };
    format!("{} {} {} - 0 1", ranks.join("/"), side, if parts[2] == "-" { String::from("-") } else { swap(parts[2]) })
}

#[test]
fn the_evaluation_treats_both_colors_alike() {
    let params = EvalParams::default();
    for fen in [
        "r1bqk2r/ppp2ppp/2n2n2/3pp3/1bB1P3/2NP1N2/PPP2PPP/R1BQK2R w KQkq - 0 1",
        "8/5pk1/2P3p1/1r5p/R6P/6P1/5PK1/8 b - - 0 1",
        "2b2k2/5p2/3p2p1/3P3p/4B2P/6P1/5PK1/8 w - - 0 1",
        "6k1/1Q6/8/8/8/8/2p5/6K1 w - - 0 1",
        "r4rk1/1p1qbppp/p1npbn2/4p3/4P3/1NN1BP2/PPPQB1PP/2KR3R w - - 0 1",
    ] {
        let a = evaluate_with_params(&board(fen), &params).0;
        let b = evaluate_with_params(&board(&swap_colors(fen)), &params).0;
        assert_eq!(a, -b, "{fen}");
    }
}

#[test]
fn no_move_is_listed_twice() {
    for fen in [
        "r3k2r/p1ppqpb1/bn2pnp1/3PN3/1p2P3/2N2Q1p/PPPBBPPP/R3K2R w KQkq - 0 1",
        "8/2p5/3p4/KP5r/1R3p1k/8/4P1P1/8 w - - 0 1",
        "n1n5/PPPk4/8/8/8/8/4Kppp/5N1N b - - 0 1",
    ] {
        let b = board(fen);
        let moves = generate_legal_moves(&b);
        for i in 0..moves.len() {
            for j in 0..i {
                assert_ne!(moves.get(i), moves.get(j));
            }
        }
    }
}

#[test]
fn the_text_of_a_move_finds_it() {
    for fen in [
        "r3k2r/p1ppqpb1/bn2pnp1/3PN3/1p2P3/2N2Q1p/PPPBBPPP/R3K2R w KQkq - 0 1",
        "n1n5/PPPk4/8/8/8/8/4Kppp/5N1N b - - 0 1",
        "1r3k1r/8/8/8/8/8/8/1R3K1R w HBhb - 0 1",
    ] {
        let b = board(fen);
        let moves = generate_legal_moves(&b);
        for i in 0..moves.len() {
            let m = moves.get(i);
            let uci = Move::from_uci(&b.move_to_uci(m, true)).unwrap();
            assert_eq!(endspiel::validate::find_legal_move_uci(&b, uci, true), Some(m));
            let flag = m.flag();
            if flag == MoveFlag::KingsideCastle {
                assert_eq!(san_to_move(&b, "0-0+"), Some(m));
            } else if flag == MoveFlag::QueensideCastle {
                assert_eq!(san_to_move(&b, "O-O-O!?"), Some(m));
            } else {
                let letter = match b.piece_at(m.from_sq()).unwrap().kind {
                    endspiel::PieceKind::Pawn => "",
                    endspiel::PieceKind::Knight => "N",
                    endspiel::PieceKind::Bishop => "B",
                    endspiel::PieceKind::Rook => "R",
                    endspiel::PieceKind::Queen => "Q",
                    endspiel::PieceKind::King => "K",
                };
                let promo = match flag.promotion_piece() {
                    Some(endspiel::PieceKind::Queen) => "=Q",
                    Some(endspiel::PieceKind::Rook) => "=R",
                    Some(endspiel::PieceKind::Bishop) => "=B",
                    Some(endspiel::PieceKind::Knight) => "=N",
                    _ => "",
                };
                let text =
                    format!("{letter}{}{}{promo}+!", m.from_sq().to_algebraic(), m.to_sq().to_algebraic());
                assert_eq!(san_to_move(&b, &text), Some(m), "{text}");
            }
        }
    }
}

#[test]
fn a_picker_goes_through_its_stages() {
    let b = board("r3k2r/p1ppqpb1/bn2pnp1/3PN3/1p2P3/2N2Q1p/PPPBBPPP/R3K2R w KQkq - 0 1");
    let h = PersistentHistory::new();
    let ctxs = vec![PlyContext { piece_kind: 0, to_sq: 0 }; MAX_PLY];
    let mut picker = MovePicker::new(Move::null());
    let mut last = 0;
    while let Some(m) = picker.next(&b, &h, &ctxs, 1, (Move::null(), Move::null()), Move::null()) {
        let tactical = m.flag().is_capture() || m.flag().is_promotion();
        let band = if !tactical { 1 } else if see_ge(&b, m, 0) { 0 } else { 2 };
        assert!(last <= band);
        last = band;
    }
    assert_eq!(last, 2);
    assert!(picker.next(&b, &h, &ctxs, 1, (Move::null(), Move::null()), Move::null()).is_none());
}

#[test]
fn a_square_is_attacked_if_it_has_attackers() {
    let b = board(KIWIPETE);
    let all = b.all_occupancy();
    for i in 0..64u8 {
        let sq = Square(i);
        let (white, black) = (attackers_of(&b, sq, Color::White), attackers_of(&b, sq, Color::Black));
        assert_eq!(is_square_attacked(&b, sq, Color::White), white.0 != 0);
        assert_eq!(is_square_attacked(&b, sq, Color::Black), black.0 != 0);
        assert_eq!(all_attackers_of(&b, sq, all).0, white.0 | black.0);
        // Fewer blockers never cost an attacker, and the square itself is none.
        let open = all_attackers_of(&b, sq, Bitboard(0)).0;
        assert_eq!(white.0 & !open, 0);
        assert_eq!(all_attackers_of(&b, sq, Bitboard(all.0 ^ (1u64 << i))).0, white.0 | black.0);
    }
    let rooks = board("k3r3/4r3/8/8/8/8/8/4K3 w - - 0 1");
    let e1 = Square::from_algebraic("e1").unwrap();
    assert_eq!(attackers_of(&rooks, e1, Color::Black).0, 1u64 << 52);
    assert_eq!(all_attackers_of(&rooks, e1, Bitboard(0)).0, 1u64 << 52 | 1u64 << 60);
}

#[test]
fn spellings_of_a_position_are_written_alike() {
    let want = "r3k2r/8/8/8/8/8/8/R3K2R w KQkq - 0 1";
    for castling in ["KQkq", "HAha", "qkQK", "HQka"] {
        let read = board(&format!("r3k2r/8/8/8/8/8/8/R3K2R w {castling} - 0 1"));
        assert_eq!(read.to_fen(), want);
    }
    let inner = board("1r2kr2/8/8/8/8/8/8/1R2KR2 w FBfb - 3 9");
    assert_eq!(inner.to_fen(), "1r2kr2/8/8/8/8/8/8/1R2KR2 w FBfb - 3 9");
    assert_eq!(inner.to_fen().split(' ').count(), 6);
    assert_eq!(board(&inner.to_fen()).hash, inner.hash);
}

#[test]
fn a_breakdown_adds_up() {
    let params = EvalParams::default();
    for fen in [KIWIPETE, "8/2p5/3p4/KP5r/1R3p1k/8/4P1P1/8 w - - 0 1", "4kb2/8/8/8/8/8/4P3/2B1K3 b - - 0 1"] {
        let b = board(fen);
        let full = evaluate_impl(&b, &params, true);
        let bare = evaluate_impl(&b, &params, false);
        assert_eq!(full.terms.len(), 18);
        assert_eq!(full.mg_total, full.terms.iter().map(|t| t.mg).sum::<i32>());
        assert_eq!(full.eg_total, full.terms.iter().map(|t| t.eg).sum::<i32>());
        assert_eq!(full.interpolated, (full.mg_total * (256 - full.phase) + full.eg_total * full.phase) / 256);
        assert!(0 <= full.scale && full.scale <= 128);
        assert_eq!(full.final_score, full.interpolated * full.scale / 128);
        assert!(bare.terms.is_empty());
        assert_eq!((bare.mg_total, bare.eg_total, bare.scale), (full.mg_total, full.eg_total, full.scale));
        assert_eq!((bare.interpolated, bare.final_score), (full.interpolated, full.final_score));
    }
}

#[test]
fn exchange_thresholds_are_ordered() {
    let b = board(KIWIPETE);
    let moves = generate_pseudo_legal_moves(&b);
    for i in 0..moves.len() {
        let m = moves.get(i);
        let reached: Vec<bool> = (-2_500..2_500).step_by(50).map(|t| see_ge(&b, m, t)).collect();
        assert!(reached.windows(2).all(|w| w[0] || !w[1]));
        if !m.flag().is_capture() && !m.flag().is_promotion() {
            assert!(!see_ge(&b, m, 1));
        }
    }
}

#[test]
fn a_picker_yields_each_move_once() {
    let b = board(KIWIPETE);
    let h = PersistentHistory::new();
    let ctxs = vec![PlyContext { piece_kind: 0, to_sq: 0 }; MAX_PLY];
    let mut picker = MovePicker::new(Move::null());
    let mut seen: Vec<u16> = Vec::new();
    while let Some(m) = picker.next(&b, &h, &ctxs, 1, (Move::null(), Move::null()), Move::null()) {
        seen.push(m.0);
    }
    let moves = generate_pseudo_legal_moves(&b);
    let mut all: Vec<u16> = (0..moves.len()).map(|i| moves.get(i).0).collect();
    seen.sort();
    all.sort();
    assert_eq!(seen, all);
    all.dedup();
    assert_eq!(seen.len(), all.len());
}
