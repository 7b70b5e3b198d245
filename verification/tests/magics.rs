use endspiel::magics::{bishop_attacks, build_table, enumerate_subsets, relevant_mask, rook_attacks, sliding_attacks_reference};
use endspiel::{Bitboard, Square};

#[test]
fn magics_test_bishop_attacks_empty_board() {
    let sq = Square::from_algebraic("e4").unwrap();
    let attacks = bishop_attacks(sq, Bitboard(0));
    assert_eq!(attacks.count(), 13);
}

#[test]
fn magics_test_rook_attacks_empty_board() {
    let sq = Square::from_algebraic("e4").unwrap();
    let attacks = rook_attacks(sq, Bitboard(0));
    assert_eq!(attacks.count(), 14);
}

#[test]
fn magics_test_rook_attacks_blocked() {
    let sq = Square::from_algebraic("e4").unwrap();
    let blocker = Square::from_algebraic("e6").unwrap().bitboard();
    let attacks = rook_attacks(sq, blocker);
    assert!(attacks.is_set(Square::from_algebraic("e5").unwrap()));
    assert!(attacks.is_set(Square::from_algebraic("e6").unwrap()));
    assert!(!attacks.is_set(Square::from_algebraic("e7").unwrap()));
}

#[test]
fn test_bishop_attacks_corner() {
    let sq = Square(0);
    let attacks = bishop_attacks(sq, Bitboard(0));
    assert_eq!(attacks.count(), 7);
    assert!(attacks.is_set(Square::from_algebraic("b2").unwrap()));
    assert!(attacks.is_set(Square(63)));
}

#[test]
fn test_magic_matches_reference_all_squares() {
    for sq in 0..64u8 {
        let square = Square(sq);

        // Empty board
        let magic_b = bishop_attacks(square, Bitboard(0));
        let ref_b = sliding_attacks_reference(sq as usize, 0, true);
        assert_eq!(magic_b.0, ref_b, "bishop mismatch sq={} empty", sq);

        let magic_r = rook_attacks(square, Bitboard(0));
        let ref_r = sliding_attacks_reference(sq as usize, 0, false);
        assert_eq!(magic_r.0, ref_r, "rook mismatch sq={} empty", sq);

        // Full board
        let full = Bitboard(u64::MAX);
        let magic_bf = bishop_attacks(square, full);
        let ref_bf = sliding_attacks_reference(sq as usize, full.0, true);
        assert_eq!(magic_bf.0, ref_bf, "bishop mismatch sq={} full", sq);

        let magic_rf = rook_attacks(square, full);
        let ref_rf = sliding_attacks_reference(sq as usize, full.0, false);
        assert_eq!(magic_rf.0, ref_rf, "rook mismatch sq={} full", sq);
    }
}

#[test]
fn test_all_subsets_bishop() {
    for sq in 0..64usize {
        let mask = relevant_mask(sq, true);
        let subsets = enumerate_subsets(mask);
        for &subset in &subsets {
            let magic = bishop_attacks(Square(sq as u8), Bitboard(subset));
            let reference = sliding_attacks_reference(sq, subset, true);
            assert_eq!(
                magic.0, reference,
                "bishop subset mismatch sq={} occ={:#x}",
                sq, subset
            );
        }
    }
}

#[test]
fn test_all_subsets_rook() {
    for sq in 0..64usize {
        let mask = relevant_mask(sq, false);
        let subsets = enumerate_subsets(mask);
        for &subset in &subsets {
            let magic = rook_attacks(Square(sq as u8), Bitboard(subset));
            let reference = sliding_attacks_reference(sq, subset, false);
            assert_eq!(
                magic.0, reference,
                "rook subset mismatch sq={} occ={:#x}",
                sq, subset
            );
        }
    }
}

#[test]
fn a_built_bishop_table_answers_every_subset() {
    let table = build_table(true).expect("magics");
    for sq in 0..64usize {
        for &subset in &enumerate_subsets(relevant_mask(sq, true)) {
            let got = table.attacks(Square(sq as u8), Bitboard(subset));
            assert_eq!(got.0, sliding_attacks_reference(sq, subset, true), "sq={} occ={:#x}", sq, subset);
        }
    }
}

#[test]
fn a_built_rook_table_answers_every_subset() {
    let table = build_table(false).expect("magics");
    for sq in 0..64usize {
        for &subset in &enumerate_subsets(relevant_mask(sq, false)) {
            let got = table.attacks(Square(sq as u8), Bitboard(subset));
            assert_eq!(got.0, sliding_attacks_reference(sq, subset, false), "sq={} occ={:#x}", sq, subset);
        }
    }
}
