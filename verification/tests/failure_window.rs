//! The failure detector's suspicion window.
use slde::failure::FAILURE_WINDOW_SECS;
use slde::failure::TimeoutTable;

#[test]
fn peer_never_seen_failing_is_not_suspected_late_enough() {
    let t = TimeoutTable::new();
    // Treated as having failed at instant zero: long past the window.
    assert!(!t.is_timed_out("0", FAILURE_WINDOW_SECS, 1000));
    // ... but still inside it right after startup.
    assert!(t.is_timed_out("0", FAILURE_WINDOW_SECS, 50));
}

#[test]
fn recorded_failure_suspends_peer_for_the_window() {
    let mut t = TimeoutTable::new();
    t.update_timestamp("2", 950);
    assert!(t.is_timed_out("2", 100, 1000));
    assert!(t.is_timed_out("2", 100, 1050));
    assert!(!t.is_timed_out("2", 100, 1051));
}

#[test]
fn clock_running_backwards_counts_as_fresh_failure() {
    let mut t = TimeoutTable::new();
    t.update_timestamp("1", 2000);
    assert!(t.is_timed_out("1", 100, 1000));
}

#[test]
fn later_failure_overwrites_earlier_one() {
    let mut t = TimeoutTable::new();
    t.update_timestamp("3", 100);
    t.update_timestamp("3", 900);
    assert!(t.is_timed_out("3", 100, 950));
    assert!(!t.is_timed_out("3", 100, 1001));
}
