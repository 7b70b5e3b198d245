use endspiel::validate::{find_legal_move, find_legal_move_uci, is_legal_move, validate_position, PositionError};
use endspiel::{Board, Color, Move, MoveFlag, Square};

#[test]
fn test_e2e4_is_legal() {
    let board = Board::starting_position();
    let m = Move::new(
        Square::from_algebraic("e2").unwrap(),
        Square::from_algebraic("e4").unwrap(),
        MoveFlag::DoublePawnPush,
    );
    assert!(is_legal_move(&board, m));
}

#[test]
fn test_e2e4_from_uci() {
    let board = Board::starting_position();
    // UCI doesn't know about DoublePawnPush flag, so it sends Normal
    let m = Move::from_uci("e2e4").unwrap();
    assert!(is_legal_move(&board, m));
}

#[test]
fn test_invalid_move() {
    let board = Board::starting_position();
    let m = Move::new(
        Square::from_algebraic("e2").unwrap(),
        Square::from_algebraic("e5").unwrap(),
        MoveFlag::Normal,
    );
    assert!(!is_legal_move(&board, m));
}

#[test]
fn test_find_legal_move_flags() {
    let board = Board::starting_position();
    let uci_move = Move::from_uci("e2e4").unwrap();
    let legal = find_legal_move(&board, uci_move).unwrap();
    assert_eq!(legal.flag(), MoveFlag::DoublePawnPush);
}

#[test]
fn validates_normal_and_in_check_positions() {
    assert!(validate_position(&Board::starting_position()).is_ok());

    // White is in check and must respond; that is a valid position.
    let checked = Board::from_fen("4k3/8/8/8/8/8/4r3/4K3 w - - 0 1").unwrap();
    assert!(validate_position(&checked).is_ok());
}

#[test]
fn rejects_a_position_where_the_previous_side_is_in_check() {
    let board = Board::from_fen("4k3/8/8/8/8/8/4R3/4K3 w - - 0 1").unwrap();
    assert_eq!(
        validate_position(&board),
        Err(PositionError::SideNotToMoveInCheck(Color::Black))
    );
}

#[test]
fn chess960_king_takes_rook_matches_castle() {
    let board =
        Board::from_fen("r3k2r/pppppppp/8/8/8/8/PPPPPPPP/R3K2R w KQkq - 0 1").unwrap();
    let rook_uci = Move::from_uci("e1h1").unwrap();
    let dest_uci = Move::from_uci("e1g1").unwrap();
    let via_rook = find_legal_move_uci(&board, rook_uci, true).unwrap();
    assert_eq!(via_rook.flag(), MoveFlag::KingsideCastle);
    let via_dest = find_legal_move_uci(&board, dest_uci, false).unwrap();
    assert_eq!(via_dest.flag(), MoveFlag::KingsideCastle);
    assert_eq!(via_rook, via_dest);
}
