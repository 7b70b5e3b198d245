use endspiel::{Board, Color, Square};

#[test]
fn test_starting_position_fen_roundtrip() {
    let fen = "rnbqkbnr/pppppppp/8/8/8/8/PPPPPPPP/RNBQKBNR w KQkq - 0 1";
    let board = Board::from_fen(fen).unwrap();
    assert_eq!(board.to_fen(), fen);
}

#[test]
fn test_mid_game_fen_roundtrip() {
    let fen = "r1bqkb1r/pppppppp/2n2n2/8/4P3/5N2/PPPP1PPP/RNBQKB1R w KQkq - 2 3";
    let board = Board::from_fen(fen).unwrap();
    assert_eq!(board.to_fen(), fen);
}

#[test]
fn test_en_passant_fen() {
    let fen = "rnbqkbnr/pppppppp/8/8/4P3/8/PPPP1PPP/RNBQKBNR b KQkq e3 0 1";
    let board = Board::from_fen(fen).unwrap();
    assert_eq!(
        board.en_passant,
        Some(Square::from_algebraic("e3").unwrap())
    );
    assert_eq!(board.to_fen(), fen);
}

#[test]
fn rejects_missing_or_duplicate_kings() {
    assert!(Board::from_fen("8/8/8/8/8/8/8/8 w - - 0 1").is_err());
    assert!(Board::from_fen("4k3/8/8/8/8/8/4K3/4K3 w - - 0 1").is_err());
}

#[test]
fn rejects_impossible_piece_placement_without_panicking() {
    for fen in [
        "4k3/8/8/8/8/8/8/P3K3 w - - 0 1",
        "4k3/8/8/8/8/8/8/9K w - - 0 1",
        "4k3/8/8/8/8/8/8/80K w - - 0 1",
    ] {
        assert!(Board::from_fen(fen).is_err(), "accepted {fen}");
    }
}

#[test]
fn rejects_invalid_castling_and_en_passant_state() {
    for fen in [
        "4k3/8/8/8/8/8/8/4K3 w K - 0 1",
        "4k3/8/8/8/8/8/8/4K3 w X - 0 1",
        "4k3/8/8/8/4P3/8/8/4K3 b - e4 0 1",
        "4k3/8/8/8/8/8/8/4K3 b - e3 0 1",
    ] {
        assert!(Board::from_fen(fen).is_err(), "accepted {fen}");
    }
}

#[test]
fn accepts_four_field_epd_but_rejects_extra_fields_and_move_zero() {
    assert!(Board::from_fen("4k3/8/8/8/8/8/8/4K3 w - -").is_ok());
    assert!(Board::from_fen("4k3/8/8/8/8/8/8/4K3 w - - 0 1 extra").is_err());
    assert!(Board::from_fen("4k3/8/8/8/8/8/8/4K3 w - - 0 0").is_err());
}

#[test]
fn shredder_fen_standard_start_roundtrips_as_kq() {
    // Shredder-FEN AHah is the standard start; we emit X-FEN KQkq.
    let board =
        Board::from_fen("rnbqkbnr/pppppppp/8/8/8/8/PPPPPPPP/RNBQKBNR w AHah - 0 1").unwrap();
    assert_eq!(board.castle_rooks, [Square(7), Square(0), Square(63), Square(56)]);
    assert_eq!(
        board.to_fen(),
        "rnbqkbnr/pppppppp/8/8/8/8/PPPPPPPP/RNBQKBNR w KQkq - 0 1"
    );
}

#[test]
fn chess960_shredder_fen_stores_rook_files() {
    // BBQNNRKR: king g, rooks f and h. Shredder-FEN is HFhf; X-FEN emit is KFkf
    // because the h-file rook is written as K.
    let board =
        Board::from_fen("bbqnnrkr/pppppppp/8/8/8/8/PPPPPPPP/BBQNNRKR w HFhf - 0 1").unwrap();
    assert_eq!(board.castle_rook(Color::White, true), Square(7));
    assert_eq!(board.castle_rook(Color::White, false), Square(5));
    assert_eq!(board.castle_rook(Color::Black, true), Square(63));
    assert_eq!(board.castle_rook(Color::Black, false), Square(61));
    assert_eq!(
        board.to_fen(),
        "bbqnnrkr/pppppppp/8/8/8/8/PPPPPPPP/BBQNNRKR w KFkf - 0 1"
    );
}

#[test]
fn chess960_kq_infers_outermost_rooks() {
    let board =
        Board::from_fen("bbqnnrkr/pppppppp/8/8/8/8/PPPPPPPP/BBQNNRKR w KQkq - 0 1").unwrap();
    assert_eq!(board.castle_rook(Color::White, true), Square(7));
    assert_eq!(board.castle_rook(Color::White, false), Square(5));
    // X-FEN: K (h-file rook) and F (not the a-file).
    assert_eq!(
        board.to_fen(),
        "bbqnnrkr/pppppppp/8/8/8/8/PPPPPPPP/BBQNNRKR w KFkf - 0 1"
    );
}
