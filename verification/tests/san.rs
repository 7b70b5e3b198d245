use endspiel::san::san_to_move;
use endspiel::{Board, MoveFlag, PieceKind, Square};

#[test]
fn test_pawn_move() {
    let board = Board::starting_position();
    let m = san_to_move(&board, "e4").unwrap();
    assert_eq!(m.to_sq(), Square::from_algebraic("e4").unwrap());
}

#[test]
fn test_knight_move() {
    let board = Board::starting_position();
    let m = san_to_move(&board, "Nf3").unwrap();
    assert_eq!(m.to_sq(), Square::from_algebraic("f3").unwrap());
}

#[test]
fn test_castling_kingside() {
    let board = Board::from_fen("r1bqk2r/pppp1ppp/2n2n2/2b1p3/2B1P3/5N2/PPPP1PPP/RNBQK2R w KQkq - 4 4").unwrap();
    let m = san_to_move(&board, "O-O").unwrap();
    assert_eq!(m.flag(), MoveFlag::KingsideCastle);
}

#[test]
fn san_test_promotion() {
    let board = Board::from_fen("8/P7/8/8/8/8/8/4K2k w - - 0 1").unwrap();
    let m = san_to_move(&board, "a8=Q").unwrap();
    assert_eq!(m.flag().promotion_piece(), Some(PieceKind::Queen));
}

#[test]
fn test_annotations_stripped() {
    let board = Board::starting_position();
    let m = san_to_move(&board, "e4!").unwrap();
    assert_eq!(m.to_sq(), Square::from_algebraic("e4").unwrap());
}
