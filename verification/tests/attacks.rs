use endspiel::attacks::{bishop_attacks, is_square_attacked, king_attacks, knight_attacks, pawn_attacks, rook_attacks};
use endspiel::{Bitboard, Board, Color, Square};

#[test]
fn test_knight_attacks_center() {
    // Knight on e4 should attack 8 squares
    let sq = Square::from_algebraic("e4").unwrap();
    let attacks = knight_attacks(sq);
    assert_eq!(attacks.count(), 8);
    assert!(attacks.is_set(Square::from_algebraic("d6").unwrap()));
    assert!(attacks.is_set(Square::from_algebraic("f6").unwrap()));
    assert!(attacks.is_set(Square::from_algebraic("c5").unwrap()));
    assert!(attacks.is_set(Square::from_algebraic("g5").unwrap()));
    assert!(attacks.is_set(Square::from_algebraic("c3").unwrap()));
    assert!(attacks.is_set(Square::from_algebraic("g3").unwrap()));
    assert!(attacks.is_set(Square::from_algebraic("d2").unwrap()));
    assert!(attacks.is_set(Square::from_algebraic("f2").unwrap()));
}

#[test]
fn test_knight_attacks_corner() {
    // Knight on a1 should attack 2 squares
    let attacks = knight_attacks(Square(0));
    assert_eq!(attacks.count(), 2);
    assert!(attacks.is_set(Square::from_algebraic("b3").unwrap()));
    assert!(attacks.is_set(Square::from_algebraic("c2").unwrap()));
}

#[test]
fn test_king_attacks_center() {
    let sq = Square::from_algebraic("e4").unwrap();
    let attacks = king_attacks(sq);
    assert_eq!(attacks.count(), 8);
}

#[test]
fn test_king_attacks_corner() {
    let attacks = king_attacks(Square(0));
    assert_eq!(attacks.count(), 3);
}

#[test]
fn test_pawn_attacks_white() {
    let sq = Square::from_algebraic("e4").unwrap();
    let attacks = pawn_attacks(sq, Color::White);
    assert_eq!(attacks.count(), 2);
    assert!(attacks.is_set(Square::from_algebraic("d5").unwrap()));
    assert!(attacks.is_set(Square::from_algebraic("f5").unwrap()));
}

#[test]
fn test_pawn_attacks_black() {
    let sq = Square::from_algebraic("e4").unwrap();
    let attacks = pawn_attacks(sq, Color::Black);
    assert_eq!(attacks.count(), 2);
    assert!(attacks.is_set(Square::from_algebraic("d3").unwrap()));
    assert!(attacks.is_set(Square::from_algebraic("f3").unwrap()));
}

#[test]
fn attacks_test_rook_attacks_empty_board() {
    let sq = Square::from_algebraic("e4").unwrap();
    let attacks = rook_attacks(sq, Bitboard(0));
    assert_eq!(attacks.count(), 14); // 7 horizontal + 7 vertical
}

#[test]
fn attacks_test_bishop_attacks_empty_board() {
    let sq = Square::from_algebraic("e4").unwrap();
    let attacks = bishop_attacks(sq, Bitboard(0));
    assert_eq!(attacks.count(), 13);
}

#[test]
fn attacks_test_rook_attacks_blocked() {
    let sq = Square::from_algebraic("e4").unwrap();
    // Place a blocker on e6 (north of e4)
    let blocker = Square::from_algebraic("e6").unwrap().bitboard();
    let attacks = rook_attacks(sq, blocker);
    // Should include e5 and e6 (blocker) but not e7, e8
    assert!(attacks.is_set(Square::from_algebraic("e5").unwrap()));
    assert!(attacks.is_set(Square::from_algebraic("e6").unwrap()));
    assert!(!attacks.is_set(Square::from_algebraic("e7").unwrap()));
}

#[test]
fn test_is_square_attacked_starting_position() {
    let board = Board::starting_position();
    // e3 is attacked by white pawns d2 and f2, and white king e1
    assert!(is_square_attacked(&board, Square::from_algebraic("e3").unwrap(), Color::White));
    // e6 is attacked by black pawns d7 and f7, and black king e8
    assert!(is_square_attacked(&board, Square::from_algebraic("e6").unwrap(), Color::Black));
    // e4 is not attacked by white in starting position
    assert!(!is_square_attacked(&board, Square::from_algebraic("e4").unwrap(), Color::White));
}
