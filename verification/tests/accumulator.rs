use endspiel::nnue::accumulator::{add_row, replace_row, sub_row, Accumulator};
use endspiel::nnue::features::board_state_feature_indices;
use endspiel::nnue::network::NnueNetwork;
use endspiel::nnue::{FEATURES_PER_BUCKET, HIDDEN_SIZE, NUM_BUCKETS, PIECE_FEATURES};
use endspiel::{Board, CastlingRights, Color, PieceKind, Square};

fn add_row_scalar(values: &mut [i16; HIDDEN_SIZE], row: &[i16; HIDDEN_SIZE]) {
    for (value, &weight) in values.iter_mut().zip(row) {
        *value += weight;
    }
}

fn sub_row_scalar(values: &mut [i16; HIDDEN_SIZE], row: &[i16; HIDDEN_SIZE]) {
    for (value, &weight) in values.iter_mut().zip(row) {
        *value -= weight;
    }
}

#[test]
fn inheriting_dirty_perspectives_remains_correct_after_refresh() {
    let board = Board::starting_position();
    let net = NnueNetwork::embedded();
    let mut parent = Accumulator::new();
    parent.refresh(&board, &net);
    let expected = parent.copied();
    parent.mark_refresh(Color::White);
    // Stale contents must never leak into a clean perspective.
    parent.white.fill(-123);
    let mut child = Accumulator::new();
    child.white.fill(456);
    child.black.fill(789);
    child.copy_clean_from(&parent, None);
    assert!(child.needs_refresh(Color::White));
    assert!(!child.needs_refresh(Color::Black));
    assert_eq!(child.black, expected.black);
    child.refresh_perspective(&board, &net, Color::White);
    assert_eq!(child.white, expected.white);

    // A king move can invalidate the other half while one is already dirty.
    child.copy_clean_from(&parent, Some(Color::Black));
    assert!(child.needs_refresh(Color::White));
    assert!(child.needs_refresh(Color::Black));
    child.refresh(&board, &net);
    assert_eq!(child.white, expected.white);
    assert_eq!(child.black, expected.black);

    child.copy_clean_from(&expected, None);
    assert!(!child.needs_refresh(Color::White));
    assert!(!child.needs_refresh(Color::Black));
}

#[test]
fn dispatched_row_operations_match_scalar() {
    let original: [i16; HIDDEN_SIZE] = std::array::from_fn(|i| (i as i16 % 97) - 48);
    let row: [i16; HIDDEN_SIZE] = std::array::from_fn(|i| (i as i16 % 31) - 15);
    let replacement: [i16; HIDDEN_SIZE] = std::array::from_fn(|i| (i as i16 % 43) - 21);

    let mut expected = original;
    add_row_scalar(&mut expected, &row);
    let mut actual = original;
    add_row(&mut actual, &row);
    assert_eq!(actual, expected);

    sub_row_scalar(&mut expected, &row);
    sub_row(&mut actual, &row);
    assert_eq!(actual, original);
    assert_eq!(actual, expected);

    for ((value, &old), &new) in expected.iter_mut().zip(&row).zip(&replacement) {
        *value += new - old;
    }
    replace_row(&mut actual, &row, &replacement);
    assert_eq!(actual, expected);
}

#[test]
fn incremental_matches_refresh() {
    let net = NnueNetwork::embedded();
    let board = Board::starting_position();
    let white_king = board.king_square(Color::White);
    let black_king = board.king_square(Color::Black);

    // Full refresh
    let mut acc_full = Accumulator::new();
    acc_full.refresh(&board, &net);

    // Incremental: start from biases, add pieces one by one
    let mut acc_inc = Accumulator::new();
    acc_inc.white = net.ft_biases;
    acc_inc.black = net.ft_biases;
    acc_inc.needs_refresh = [false; 2];
    for &color in &[Color::White, Color::Black] {
        for &kind in &PieceKind::ALL {
            let bb = board.pieces[color.index()][kind.index()];
            let mut squares = bb.iter();
            while let Some(sq) = squares.next() {
                acc_inc.add_piece(&net, white_king, black_king, color, kind, sq);
            }
        }
    }
    for perspective in [Color::White, Color::Black] {
        let values = match perspective {
            Color::White => &mut acc_inc.white,
            Color::Black => &mut acc_inc.black,
        };
        for index in board_state_feature_indices(&board, perspective) {
            add_row(values, &net.ft_weights[index]);
        }
    }

    assert_eq!(acc_full.white, acc_inc.white);
    assert_eq!(acc_full.black, acc_inc.black);
}

#[test]
fn add_sub_roundtrip() {
    let net = NnueNetwork::embedded();
    let board = Board::starting_position();
    let white_king = board.king_square(Color::White);
    let black_king = board.king_square(Color::Black);

    let mut acc = Accumulator::new();
    acc.refresh(&board, &net);
    let original_white = acc.white;
    let original_black = acc.black;

    // Add then subtract a piece - should return to original
    acc.add_piece(
        &net,
        white_king,
        black_king,
        Color::White,
        PieceKind::Queen,
        Square::new(3, 3),
    );
    acc.sub_piece(
        &net,
        white_king,
        black_king,
        Color::White,
        PieceKind::Queen,
        Square::new(3, 3),
    );

    assert_eq!(acc.white, original_white);
    assert_eq!(acc.black, original_black);
}

#[test]
fn incremental_state_change_matches_full_refresh_with_nonzero_state_weights() {
    let mut net = NnueNetwork::embedded();
    for bucket in 0..NUM_BUCKETS {
        for slot in PIECE_FEATURES..FEATURES_PER_BUCKET {
            net.ft_weights[bucket * FEATURES_PER_BUCKET + slot]
                .fill((slot - PIECE_FEATURES + 1) as i16);
        }
    }

    let before = Board::from_fen("r3k2r/8/8/8/8/8/8/R3K2R w KQkq - 0 1").unwrap();
    let mut after = before.clone();
    after.castling = CastlingRights::none();
    after.en_passant = Some(Square::new(4, 5));

    let mut incremental = Accumulator::new();
    incremental.refresh(&before, &net);
    incremental.update_state(
        &net,
        before.king_square(Color::White),
        before.king_square(Color::Black),
        before.castling,
        before.en_passant,
        after.castling,
        after.en_passant,
    );

    let mut refreshed = Accumulator::new();
    refreshed.refresh(&after, &net);
    assert_eq!(incremental.white, refreshed.white);
    assert_eq!(incremental.black, refreshed.black);
}

#[test]
fn perspective_refresh_leaves_other_half_untouched() {
    let net = NnueNetwork::embedded();
    let board = Board::starting_position();

    let mut expected = Accumulator::new();
    expected.refresh(&board, &net);

    let mut acc = expected.copied();
    acc.white = [0; HIDDEN_SIZE];
    acc.black = [123; HIDDEN_SIZE];
    acc.mark_refresh(Color::White);
    acc.refresh_perspective(&board, &net, Color::White);

    assert_eq!(acc.white, expected.white);
    assert_eq!(acc.black, [123; HIDDEN_SIZE]);
    assert!(!acc.needs_refresh(Color::White));
}
