use endspiel::platform::{count_performance_cores, default_hash_mb, default_threads, hash_for, FIXED_HASH_MB, HASH_MB_PER_THREAD, HASH_MIN_MB, MAX_AUTO_THREADS};

#[test]
fn hash_caps_by_ram_on_low_memory_devices() {
    // Phone: 4 perf cores would want 512 MB but ~2.5 GB RAM caps to 2500/16.
    assert_eq!(hash_for(4, Some(2500)), 156);
}

#[test]
fn hash_scales_with_threads_when_ram_is_ample() {
    // 64 GB box: the throughput budget binds, not RAM.
    assert_eq!(hash_for(16, Some(64_000)), 16 * HASH_MB_PER_THREAD);
    assert_eq!(hash_for(1, Some(64_000)), HASH_MB_PER_THREAD);
}

#[test]
fn hash_respects_floor_and_ram_fallback() {
    // Tiny RAM clamps up to the floor.
    assert_eq!(hash_for(1, Some(64)), HASH_MIN_MB);
    // RAM unreadable -> fall back to the fixed ceiling.
    assert_eq!(hash_for(8, None), FIXED_HASH_MB);
    assert_eq!(hash_for(1, None), HASH_MB_PER_THREAD);
}

#[test]
fn performance_cores_excludes_little_tier() {
    // Snapdragon-style 1 prime + 3 big + 4 little (kHz).
    let freqs = [
        2_995_200, 2_419_200, 2_419_200, 2_419_200, 1_804_800, 1_804_800, 1_804_800, 1_804_800,
    ];
    // Prime (100%) + big (~81%) clear the 70% bar; little tier (~60%) excluded.
    assert_eq!(count_performance_cores(&freqs), Some(4));
}

#[test]
fn performance_cores_homogeneous_uses_all() {
    let freqs = [2_400_000; 8];
    assert_eq!(count_performance_cores(&freqs), Some(8));
}

#[test]
fn performance_cores_capped_and_floored() {
    assert_eq!(count_performance_cores(&[]), None);
    assert_eq!(count_performance_cores(&[0, 0]), None);
    let many = [3_000_000u64; 32];
    assert_eq!(count_performance_cores(&many), Some(MAX_AUTO_THREADS));
}

#[test]
fn defaults_are_sane_on_this_host() {
    // Whatever this machine reports, the defaults must stay sane.
    let cores = [3_000_000u64, 3_000_000, 1_000_000];
    assert!(default_hash_mb(default_threads(&cores, Some(4))) >= HASH_MIN_MB);
    assert!(default_threads(&cores, Some(4)) >= 1);
    assert!(default_threads(&[], Some(4)) >= 1);
    assert!(default_threads(&[], None) >= 1);
}
