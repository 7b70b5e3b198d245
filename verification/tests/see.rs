use endspiel::see::see_ge;
use endspiel::validate::find_legal_move;
use endspiel::{Board, Move};

fn board(fen: &str) -> Board {
    Board::from_fen(fen).unwrap()
}

fn uci_move(b: &Board, uci: &str) -> Move {
    let parsed = Move::from_uci(uci).unwrap();
    find_legal_move(b, parsed).unwrap()
}

#[test]
fn test_see_winning_capture() {
    // Queen captures undefended pawn: SEE = +100
    let b = board("4k3/8/8/4p3/8/8/8/Q3K3 w - - 0 1");
    let m = uci_move(&b, "a1e5");
    assert!(see_ge(&b, m, 0));
    assert!(see_ge(&b, m, 100));
    assert!(!see_ge(&b, m, 101));
}

#[test]
fn test_see_equal_capture() {
    // Knight takes knight defended by knight: NxN NxN -> SEE = 0
    let b = board("4k3/8/5n2/3n4/8/4N3/8/4K3 w - - 0 1");
    let m = uci_move(&b, "e3d5");
    assert!(see_ge(&b, m, 0));   // NxN NxN = 0, which is >= 0
    assert!(!see_ge(&b, m, 1));  // NxN NxN = 0, which is NOT >= 1
}

#[test]
fn test_see_losing_capture() {
    // Queen captures pawn defended by pawn: SEE = 100 - 900 = -800
    let b = board("4k3/8/4p3/3p4/8/8/8/3QK3 w - - 0 1");
    let m = uci_move(&b, "d1d5");
    // QxPd5, then PxQ from e6: SEE = 100 - 900 = -800
    assert!(!see_ge(&b, m, 0));
    assert!(!see_ge(&b, m, -799));
    assert!(see_ge(&b, m, -800));
}

#[test]
fn test_see_xray_discovery() {
    // Rook behind rook: after first rook captures, second rook backs it up
    // White: Rooks on a1 and a2, Black: Rook on a8
    // RxR on a8, then nothing defends. SEE = 500
    let b = board("r3k3/8/8/8/8/8/R7/R3K3 w - - 0 1");
    let m = uci_move(&b, "a2a8");
    // RxR, black has nothing. But wait, after Ra2xa8, Ra1 discovers attack on a8.
    // Actually Ra2xa8 means white rook on a2 captures Ra8. Then if black had
    // another piece, white Ra1 would x-ray. But black has nothing, so SEE = 500.
    assert!(see_ge(&b, m, 0));
    assert!(see_ge(&b, m, 500));
}

#[test]
fn test_see_non_capture_always_true() {
    let b = board("4k3/8/8/8/8/8/4P3/4K3 w - - 0 1");
    let m = uci_move(&b, "e2e4");
    // Non-captures: threshold 0 should be true (gain = 0 >= 0)
    assert!(see_ge(&b, m, 0));
    assert!(!see_ge(&b, m, 1)); // gain = 0 < 1
}
