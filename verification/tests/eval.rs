use endspiel::eval::{evaluate, evaluate_impl};
use endspiel::eval_params::EvalParams;
use endspiel::Board;

#[test]
fn opening_evals_not_inflated() {
    // Common opening positions should eval within +/- 100cp
    let positions = [
        ("After 1.e4",   "rnbqkbnr/pppppppp/8/8/4P3/8/PPPP1PPP/RNBQKBNR b KQkq - 0 1"),
        ("Sicilian 2.Nf3","rnbqkbnr/pp1ppppp/8/2p5/4P3/5N2/PPPP1PPP/RNBQKB1R b KQkq - 1 2"),
        ("Najdorf 5.Nc3","rnbqkb1r/1p2pppp/p2p1n2/8/3NP3/2N5/PPP2PPP/R1BQKB1R b KQkq - 2 5"),
    ];
    for (label, fen) in positions {
        let board = Board::from_fen(fen).unwrap();
        let score = evaluate(&board).0;
        assert!(score.abs() < 300,
            "{label}: eval {score} is too far from zero (expected within +/- 300)");
    }
}

#[test]
fn berlin_endgame_not_overvalued() {
    // Berlin endgame after 9...Bd7: should be slightly positive, not +300
    let board = Board::from_fen(
        "r2k1b1r/pppb1ppp/2p2n2/4P3/8/2N2N2/PPP2PPP/R1B2RK1 w - - 3 10"
    ).unwrap();
    let score = evaluate(&board).0;
    assert!(score < 350, "Berlin eval {score} is too high (expected < 350)");
    assert!(score > -50, "Berlin eval {score} is too low (expected > -50)");
}

#[test]
fn debug_eval_positions() {
    let positions = [
        // Game 4 HM20: SF=+155, Engine(old)=-53
        ("G4 HM20", "rn1qkb1r/pb3p2/2p1pn1p/6p1/1ppPP3/2N2NB1/PP2BPPP/R2Q1RK1 w KQkq - 0 11", 155),
        // Game 2 HM19: SF=+71, Engine(old)=-125
        ("G2 HM19", "r1b1k2r/pp1nbpp1/1qp2n1p/3p4/3P1B2/2NBP2P/PPQ2PP1/R3K1NR b KQkq - 2 10", 71),
        // Game 1 HM19: SF=-40, Engine(old)=+77
        ("G1 HM19", "r1bq1rk1/pppp1ppp/3n1b2/4R3/3P4/3B4/PPP2PPP/RNBQ2K1 b - - 2 10", -40),
        // Game 2 HM53: SF=+384, Engine(old)=-108
        ("G2 HM53", "3rr3/1k3pp1/p5qp/5b2/8/1Qb1P2P/PP3PPB/R4R1K b - - 1 27", 384),
        // Game 1 HM73: SF=-525, Engine(old)=+300
        ("G1 HM73", "8/p2r1k1p/1p3Bp1/2p3P1/3p4/1P5P/P1PR1PK1/1r6 b - - 0 37", -525),
        // Game 5 HM84: SF=-855, Engine(old)=+363
        ("G5 HM84", "1R6/8/2p1k3/p1p3P1/P1P1b2p/4P3/1P2K2r/8 w - - 3 43", -855),
    ];

    for (label, fen_str, sf) in positions {
        let board = Board::from_fen(fen_str).unwrap();
        let score = evaluate(&board);
        let sign_match = if (score.0 > 0) == (sf > 0) || score.0 == 0 || sf == 0 { "OK" } else { "FLIP" };
        println!("{label:10}: eval={:+5}  SF={sf:+5}  {sign_match}", score.0);
    }
}

#[test]
fn diagnose_sf_outliers() {
    // Top outlier positions from convergence validation
    let positions = [
        ("KBN vs K",         "8/8/8/8/K2B3N/8/4k3/8 w - - 0 1",                              194),
        ("R+P vs R",         "5r2/5P2/8/6k1/8/6KP/5R2/8 w - - 0 1",                          0),
        ("Middlegame1",      "r1bqk1nr/ppp2ppp/1b1p4/n5B1/2BPP3/2N2N2/P4PPP/R2Q1RK1 b kq - 0 1",  -12),
        ("Middlegame2",      "rn2kbnr/ppp1pppp/q7/1R6/6b1/2N2N2/P1PP1PPP/2BQKB1R w Kkq - 0 1",    97),
        ("Middlegame3",      "r1b2rk1/2q3pp/pb1p1pn1/1ppP4/4P1n1/P4NB1/1PBN1PPP/R2QR1K1 w - - 0 1",-29),
        ("Tactical",         "1r5k/p1p3pp/8/8/4p3/P1P2q2/1P1Q1Pr1/2KRR3 w - - 0 1",          -110),
        ("Middlegame4",      "r6r/p3pk1p/1n1p1npQ/q1p5/4P3/1Pp2P2/P1P3PP/K2R1BNR b - - 0 1", -38),
        ("Middlegame5",      "3r1rk1/pp1qnpb1/4n1pp/2pp4/4P1P1/P1NP4/1PPB2QP/1R2NR1K w - - 0 1", -45),
        ("Middlegame6",      "r2q1r2/pR2ppkp/2n3p1/8/4P3/5B2/P4PPP/3Q1RK1 b - - 0 1",        -16),
        ("Middlegame7",      "r1bq1r1k/p3nn1p/3p2pb/2pPpp2/2P1P3/P1N2P2/3NBBPP/1R1Q1RK1 b - - 0 1", -15),
    ];

    for (label, fen, sf_cp) in positions {
        let board = Board::from_fen(fen).unwrap();
        let bd = evaluate_impl(&board, &EvalParams::default(), true);
        let delta = bd.final_score - sf_cp;
        println!("\n{label}: eval={:+} SF={sf_cp:+} delta={delta:+} phase={} scale={}/128",
            bd.final_score, bd.phase, bd.scale);
        for t in &bd.terms {
            if t.mg != 0 || t.eg != 0 {
                println!("  {:30} mg={:+5} eg={:+5}", t.name, t.mg, t.eg);
            }
        }
        println!("  {:30} mg={:+5} eg={:+5} -> interp={:+} -> final={:+}",
            "TOTAL", bd.mg_total, bd.eg_total, bd.interpolated, bd.final_score);
    }
}

#[test]
fn rook_minor_vs_rook_drawn_endings() {
    // R+N vs R+P (non-advanced pawn) and R+N vs R (no pawns) are both
    // theoretical draws; the engine should evaluate both near zero.
    let positions = [
        // From an actual game: Black has R+N, White has R+g3 pawn
        ("R+N vs R+P (g3)", "4R3/8/8/4nk2/8/6P1/r7/4K3 b - - 7 73"),
        // Subsequent position: R+N vs R+g4 pawn
        ("R+N vs R+P (g4)", "R7/8/8/4k3/6P1/5n2/6r1/2K5 b - - 0 83"),
        // R+N vs R with no pawns (the position Black reaches after taking the g-pawn)
        ("R+N vs R (no pawns)", "4R3/8/8/4nk2/8/8/6r1/4K3 w - - 0 1"),
    ];
    for (label, fen) in positions {
        let board = Board::from_fen(fen).unwrap();
        let score = evaluate(&board).0;
        assert!(
            score.abs() < 50,
            "{label}: eval {score} should be near draw (< 50 cp) - \
             R+minor vs R is a theoretical draw",
        );
    }
}
