use endspiel::nnue::features::{board_state_feature_indices, feature_index};
use endspiel::nnue::INPUT_SIZE;
use endspiel::{Board, Color, PieceKind, Square};

#[test]
fn feature_index_bounds() {
    let wk = Square::new(4, 0); // e1
    let bk = Square::new(4, 7); // e8
    for &perspective in &[Color::White, Color::Black] {
        for &piece_color in &[Color::White, Color::Black] {
            for &kind in &PieceKind::ALL {
                for sq_idx in 0..64 {
                    let idx =
                        feature_index(perspective, wk, bk, piece_color, kind, Square(sq_idx));
                    assert!(idx < INPUT_SIZE, "feature index {idx} out of bounds");
                }
            }
        }
    }
}

#[test]
fn state_features_distinguish_lost_castling_rights() {
    let with_rights = Board::from_fen("r3k2r/8/8/8/8/8/8/R3K2R w KQkq - 0 1").unwrap();
    let without_rights = Board::from_fen("r3k2r/8/8/8/8/8/8/R3K2R w - - 0 1").unwrap();
    assert_ne!(
        board_state_feature_indices(&with_rights, Color::White),
        board_state_feature_indices(&without_rights, Color::White)
    );
}

#[test]
fn state_feature_indices_stay_in_bounds() {
    let board = Board::starting_position();
    for perspective in [Color::White, Color::Black] {
        assert!(
            board_state_feature_indices(&board, perspective)
                .into_iter()
                .all(|index| index < INPUT_SIZE)
        );
    }
}

#[test]
fn mirrored_king_same_bucket() {
    // King on a1 (queenside) and h1 (kingside) should give the same bucket
    let wk_queenside = Square::new(0, 0); // a1
    let wk_kingside = Square::new(7, 0); // h1
    let bk = Square::new(4, 7); // e8
    let pawn_sq = Square::new(3, 3); // d4

    let idx_q = feature_index(
        Color::White,
        wk_queenside,
        bk,
        Color::White,
        PieceKind::Pawn,
        pawn_sq,
    );
    let idx_k = feature_index(
        Color::White,
        wk_kingside,
        bk,
        Color::White,
        PieceKind::Pawn,
        pawn_sq,
    );
    // Same bucket, but file mirrored: d4 (file 3) -> e4 (file 4) when king on h1
    assert_eq!(
        idx_q / 768,
        idx_k / 768,
        "bucket should match for symmetric king positions"
    );
    assert_ne!(idx_q, idx_k, "piece square should be mirrored");
}

#[test]
fn kings_use_distinct_feature_planes() {
    // Friendly and enemy kings at the same square must be distinguishable.
    let wk = Square::new(4, 0); // e1 (white king, perspective=White)
    let bk = Square::new(4, 7); // e8
    let sq = Square::new(3, 3); // d4

    let friendly_king_idx =
        feature_index(Color::White, wk, bk, Color::White, PieceKind::King, sq);
    let enemy_king_idx = feature_index(Color::White, wk, bk, Color::Black, PieceKind::King, sq);

    assert_ne!(
        friendly_king_idx, enemy_king_idx,
        "friendly and enemy kings should map to distinct feature planes"
    );
}
