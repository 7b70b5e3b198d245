use endspiel::tt::{pack_data, unpack_data, SharedTT, TTFlag};
use endspiel::Move;

#[test]
fn test_pack_unpack_roundtrip() {
    let m = Move(1234);
    let data = pack_data(12, -500, TTFlag::LowerBound, m, 7);
    let (entry, generation) = unpack_data(data);
    assert_eq!(entry.depth, 12);
    assert_eq!(entry.score, -500);
    assert_eq!(entry.flag, TTFlag::LowerBound);
    assert_eq!(entry.best_move, m);
    assert_eq!(generation, 7);
}

#[test]
fn test_pack_unpack_positive_score() {
    let m = Move(4321);
    let data = pack_data(20, 31000, TTFlag::Exact, m, 255);
    let (entry, generation) = unpack_data(data);
    assert_eq!(entry.depth, 20);
    assert_eq!(entry.score, 31000);
    assert_eq!(entry.flag, TTFlag::Exact);
    assert_eq!(entry.best_move, m);
    assert_eq!(generation, 255);
}

#[test]
fn test_store_and_probe() {
    let mut tt = SharedTT::new(1);
    let hash = 0xDEAD_BEEF_1234_5678u64;
    let m = Move(100);

    tt.store(hash, 8, 150, TTFlag::Exact, m);
    let result = tt.probe(hash);
    assert!(result.is_some());
    let entry = result.unwrap();
    assert_eq!(entry.depth, 8);
    assert_eq!(entry.score, 150);
    assert_eq!(entry.flag, TTFlag::Exact);
    assert_eq!(entry.best_move, m);
}

#[test]
fn test_probe_miss() {
    let tt = SharedTT::new(1);
    assert!(tt.probe(12345).is_none());
}

#[test]
fn test_hashfull() {
    let mut tt = SharedTT::new(1);
    assert_eq!(tt.hashfull(), 0);

    // Store some entries
    for i in 0..500u64 {
        tt.store(i * 7919, 5, 0, TTFlag::Exact, Move::null());
    }
    let hf = tt.hashfull();
    assert!(hf > 0, "hashfull should be > 0 after storing entries");
}

#[test]
fn test_generation_replacement() {
    let mut tt = SharedTT::new(1);
    let hash = 0x1234_5678_ABCD_EF01u64;

    // Store at generation 0
    tt.store(hash, 10, 100, TTFlag::Exact, Move(200));

    // New search bumps generation
    tt.new_search();

    // Store at generation 1 - should replace even at lower depth
    tt.store(hash, 3, 50, TTFlag::UpperBound, Move(300));

    let entry = tt.probe(hash).unwrap();
    assert_eq!(entry.depth, 3);
    assert_eq!(entry.score, 50);
    assert_eq!(entry.best_move, Move(300));
}

#[test]
fn test_clear() {
    let mut tt = SharedTT::new(1);
    tt.store(42, 5, 100, TTFlag::Exact, Move(10));
    assert!(tt.probe(42).is_some());

    tt.clear();
    assert!(tt.probe(42).is_none());
}
