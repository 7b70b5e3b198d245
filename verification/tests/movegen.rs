use endspiel::{generate_legal_moves, generate_pseudo_legal_captures, generate_pseudo_legal_moves, generate_pseudo_legal_quiets, Board, Color, MoveFlag, PieceKind, Square};

#[test]
fn test_starting_position_moves() {
    let board = Board::starting_position();
    let moves = generate_legal_moves(&board);
    // Starting position has exactly 20 legal moves
    assert_eq!(
        moves.len(),
        20,
        "Starting position should have 20 legal moves, got {}",
        moves.len()
    );
}

#[test]
fn test_position_after_e4() {
    let board =
        Board::from_fen("rnbqkbnr/pppppppp/8/8/4P3/8/PPPP1PPP/RNBQKBNR b KQkq e3 0 1").unwrap();
    let moves = generate_legal_moves(&board);
    // After 1.e4, Black has 20 legal moves
    assert_eq!(moves.len(), 20);
}

#[test]
fn test_castling_available() {
    // Position where white can castle both sides
    let board = Board::from_fen("r3k2r/pppppppp/8/8/8/8/PPPPPPPP/R3K2R w KQkq - 0 1").unwrap();
    let moves = generate_legal_moves(&board);
    let castling_moves: Vec<_> = moves
        .iter()
        .filter(|m| {
            m.flag() == MoveFlag::KingsideCastle || m.flag() == MoveFlag::QueensideCastle
        })
        .collect();
    assert_eq!(
        castling_moves.len(),
        2,
        "Expected 2 castling moves, got {:?}",
        castling_moves
    );
}

#[test]
fn test_en_passant() {
    // White pawn on e5, black pawn just pushed d7-d5
    let board = Board::from_fen("rnbqkbnr/ppp1pppp/8/3pP3/8/8/PPPP1PPP/RNBQKBNR w KQkq d6 0 3")
        .unwrap();
    let moves = generate_legal_moves(&board);
    let ep_moves: Vec<_> = moves
        .iter()
        .filter(|m| m.flag() == MoveFlag::EnPassant)
        .collect();
    assert_eq!(ep_moves.len(), 1, "Expected 1 en passant move");
    assert_eq!(ep_moves[0].to_sq(), Square::from_algebraic("d6").unwrap());
}

#[test]
fn movegen_test_promotion() {
    // White pawn on e7, can promote (black king on a8, not blocking e8)
    let board = Board::from_fen("k7/4P3/8/8/8/8/8/4K3 w - - 0 1").unwrap();
    let moves = generate_legal_moves(&board);
    let promo_moves: Vec<_> = moves.iter().filter(|m| m.flag().is_promotion()).collect();
    // 4 promotions (queen, rook, bishop, knight)
    assert_eq!(promo_moves.len(), 4);
}

#[test]
fn test_promotion_with_capture() {
    // White pawn on e7, can capture-promote on d8 and f8
    let board = Board::from_fen("3rkr2/4P3/8/8/8/8/8/4K3 w - - 0 1").unwrap();
    let moves = generate_legal_moves(&board);
    let promo_cap_moves: Vec<_> = moves
        .iter()
        .filter(|m| m.flag().is_promotion() && m.flag().is_capture())
        .collect();
    // 2 capture-promotions * 4 pieces = 8
    assert_eq!(promo_cap_moves.len(), 8);
}

#[test]
fn test_no_castling_through_check() {
    // Rook on f8 attacks f1, preventing kingside castle
    let board = Board::from_fen("1k3r2/8/8/8/8/8/8/R3K2R w KQ - 0 1").unwrap();
    let moves = generate_legal_moves(&board);
    let ks_castle: Vec<_> = moves
        .iter()
        .filter(|m| m.flag() == MoveFlag::KingsideCastle)
        .collect();
    assert!(
        ks_castle.is_empty(),
        "Should not be able to castle kingside through attacked f1"
    );
}

#[test]
fn test_no_castling_in_check() {
    // King in check, cannot castle
    let board = Board::from_fen("1k2r3/8/8/8/8/8/8/R3K2R w KQ - 0 1").unwrap();
    let moves = generate_legal_moves(&board);
    let castling_moves: Vec<_> = moves
        .iter()
        .filter(|m| {
            m.flag() == MoveFlag::KingsideCastle || m.flag() == MoveFlag::QueensideCastle
        })
        .collect();
    assert!(castling_moves.is_empty(), "Should not castle when in check");
}

#[test]
fn test_checkmate_no_moves() {
    // Scholar's mate position - black is checkmated
    let board =
        Board::from_fen("r1bqkb1r/pppp1Qpp/2n2n2/4p3/2B1P3/8/PPPP1PPP/RNB1K1NR b KQkq - 0 4")
            .unwrap();
    let moves = generate_legal_moves(&board);
    assert_eq!(
        moves.len(),
        0,
        "Checkmate position should have 0 legal moves"
    );
}

#[test]
fn test_stalemate() {
    // Stalemate position: black king on a8, white queen on b6, white king on c8
    // Actually let's use a simpler stalemate
    let board = Board::from_fen("k7/2Q5/1K6/8/8/8/8/8 b - - 0 1").unwrap();
    let moves = generate_legal_moves(&board);
    assert_eq!(
        moves.len(),
        0,
        "Stalemate position should have 0 legal moves"
    );
}

/// Perft test: count leaf nodes at a given depth.
fn perft(board: &Board, depth: u32) -> u64 {
    if depth == 0 {
        return 1;
    }

    let moves = generate_legal_moves(board);
    if depth == 1 {
        return moves.len() as u64;
    }

    let mut nodes = 0u64;
    for &m in moves.iter() {
        let mut b = board.clone();
        b.make_move(m);
        nodes += perft(&b, depth - 1);
    }
    nodes
}

#[test]
fn test_perft_starting_depth_1() {
    let board = Board::starting_position();
    assert_eq!(perft(&board, 1), 20);
}

#[test]
fn test_perft_starting_depth_2() {
    let board = Board::starting_position();
    assert_eq!(perft(&board, 2), 400);
}

#[test]
fn test_perft_starting_depth_3() {
    let board = Board::starting_position();
    assert_eq!(perft(&board, 3), 8902);
}

#[test]
fn test_perft_starting_depth_4() {
    let board = Board::starting_position();
    assert_eq!(perft(&board, 4), 197_281);
}

#[test]
fn test_perft_kiwipete_depth_1() {
    // "Kiwipete" position - good test for tactical move generation
    let board =
        Board::from_fen("r3k2r/p1ppqpb1/bn2pnp1/3PN3/1p2P3/2N2Q1p/PPPBBPPP/R3K2R w KQkq - 0 1")
            .unwrap();
    assert_eq!(perft(&board, 1), 48);
}

#[test]
fn test_perft_kiwipete_depth_2() {
    let board =
        Board::from_fen("r3k2r/p1ppqpb1/bn2pnp1/3PN3/1p2P3/2N2Q1p/PPPBBPPP/R3K2R w KQkq - 0 1")
            .unwrap();
    assert_eq!(perft(&board, 2), 2039);
}

#[test]
fn test_perft_kiwipete_depth_3() {
    let board =
        Board::from_fen("r3k2r/p1ppqpb1/bn2pnp1/3PN3/1p2P3/2N2Q1p/PPPBBPPP/R3K2R w KQkq - 0 1")
            .unwrap();
    assert_eq!(perft(&board, 3), 97862);
}

// Chess960 perft positions from chessprogramming.org (Andrew Grant / Ethereal).
#[test]
fn test_perft_chess960_grant_1() {
    let board = Board::from_fen(
        "bqnb1rkr/pp3ppp/3ppn2/2p5/5P2/P2P4/NPP1P1PP/BQ1BNRKR w HFhf - 2 9",
    )
    .unwrap();
    assert_eq!(perft(&board, 1), 21);
    assert_eq!(perft(&board, 2), 528);
    assert_eq!(perft(&board, 3), 12_189);
}

#[test]
fn test_perft_chess960_king_on_rook_file() {
    // King already on f, rooks on e and g: G/E castling, rook already on dest.
    let board =
        Board::from_fen("b1q1rrkb/pppppppp/3nn3/8/P7/1PPP4/4PPPP/BQNNRKRB w GE - 1 9")
            .unwrap();
    assert_eq!(perft(&board, 1), 20);
    assert_eq!(perft(&board, 2), 479);
    assert_eq!(perft(&board, 3), 10_471);
}

#[test]
fn test_perft_chess960_double_rook_same_side() {
    let board =
        Board::from_fen("qn1rkrbb/pp1p1ppp/2p1p3/3n4/4P2P/2NP4/PPP2PP1/Q1NRKRBB w FDfd - 1 9")
            .unwrap();
    assert_eq!(perft(&board, 1), 24);
    assert_eq!(perft(&board, 2), 585);
    assert_eq!(perft(&board, 3), 14_769);
}

#[test]
fn test_chess960_castle_make_unmake_hash() {
    // King on f, rook on g: O-O swaps them (king to g, rook to f).
    let fen = "b1q1rrkb/pppppppp/3nn3/8/P7/1PPP4/4PPPP/BQNNRKRB w GE - 1 9";
    let mut board = Board::from_fen(fen).unwrap();
    let hash_before = board.hash;
    let castle = generate_legal_moves(&board)
        .iter()
        .copied()
        .find(|m| m.flag() == MoveFlag::KingsideCastle)
        .expect("kingside castle");
    let prev_castling = board.castling;
    let prev_ep = board.en_passant;
    let prev_halfmove = board.halfmove_clock;
    let captured = board.make_move(castle);
    assert_eq!(board.king_square(Color::White), Square(6));
    assert_eq!(
        board.piece_at(Square(5)).map(|p| p.kind),
        Some(PieceKind::Rook)
    );
    assert_eq!(board.hash, board.compute_hash());
    board.unmake_move(castle, captured, prev_castling, prev_ep, prev_halfmove);
    assert_eq!(board.hash, hash_before);
    assert_eq!(board.to_fen(), fen);
}

#[test]
fn test_shredder_fen_standard_perft() {
    let board =
        Board::from_fen("rnbqkbnr/pppppppp/8/8/8/8/PPPPPPPP/RNBQKBNR w AHah - 0 1").unwrap();
    assert_eq!(perft(&board, 3), 8902);
}

// -----------------------------------------------------------------------
// Tests for staged (capture / quiet) generators
// -----------------------------------------------------------------------

/// Captures + quiets must cover exactly the same moves as the full
/// pseudo-legal generator (union must match, no overlaps except promos
/// which we deliberately put in captures).
#[test]
fn test_staged_generators_cover_all_moves() {
    let positions = [
        "rnbqkbnr/pppppppp/8/8/8/8/PPPPPPPP/RNBQKBNR w KQkq - 0 1",
        "r3k2r/p1ppqpb1/bn2pnp1/3PN3/1p2P3/2N2Q1p/PPPBBPPP/R3K2R w KQkq - 0 1",
        "rnbqkbnr/pppppppp/8/8/4P3/8/PPPP1PPP/RNBQKBNR b KQkq e3 0 1",
        "r3k2r/pppppppp/8/8/8/8/PPPPPPPP/R3K2R w KQkq - 0 1",
        "k7/4P3/8/8/8/8/8/4K3 w - - 0 1",    // promotion
        "3rkr2/4P3/8/8/8/8/8/4K3 w - - 0 1", // promo-capture
        "rnbqkbnr/ppp1pppp/8/3pP3/8/8/PPPP1PPP/RNBQKBNR w KQkq d6 0 3", // en passant
        "k7/2Q5/1K6/8/8/8/8/8 b - - 0 1",    // stalemate
    ];

    for fen in &positions {
        let board = Board::from_fen(fen).unwrap();
        let all = generate_pseudo_legal_moves(&board);
        let caps = generate_pseudo_legal_captures(&board);
        let qts = generate_pseudo_legal_quiets(&board);

        // Every capture/promotion from caps must be in all
        for &m in caps.iter() {
            assert!(
                all.iter().any(|a| *a == m),
                "capture move {} from captures-gen not found in all pseudo-legal (fen: {})",
                m.to_uci(),
                fen,
            );
        }
        // Every quiet from qts must be in all
        for &m in qts.iter() {
            assert!(
                all.iter().any(|a| *a == m),
                "quiet move {} from quiets-gen not found in all pseudo-legal (fen: {})",
                m.to_uci(),
                fen,
            );
        }
        // Union must match total count (promotions appear only in caps)
        assert_eq!(
            caps.len() + qts.len(),
            all.len(),
            "capture ({}) + quiet ({}) != all ({}) for fen: {}",
            caps.len(),
            qts.len(),
            all.len(),
            fen,
        );
    }
}
