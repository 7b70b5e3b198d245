use endspiel::threads::active_thread_count;

#[test]
fn single_move_forces_single_thread() {
    assert_eq!(active_thread_count(1, 1), 1);
    assert_eq!(active_thread_count(8, 0), 1);
    assert_eq!(active_thread_count(8, 1), 1);
}

#[test]
fn tiny_root_caps_helper_swarm() {
    assert_eq!(active_thread_count(8, 2), 3);
    assert_eq!(active_thread_count(8, 3), 4);
    assert_eq!(active_thread_count(8, 4), 5);
}

#[test]
fn wider_roots_keep_requested_threads() {
    assert_eq!(active_thread_count(8, 5), 8);
    assert_eq!(active_thread_count(4, 20), 4);
}
