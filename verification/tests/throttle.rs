use std::collections::VecDeque;
use std::time::{Duration, Instant};

use blood_money::throttle::{prune_history, ThreadThrottler};

/// Admission attempts against the real clock until one passes.
fn acquire(tt: &mut ThreadThrottler, origin: &Instant) {
    loop {
        let now = origin.elapsed().as_nanos() as u64;
        if tt.pass_through_or_block(now).is_none() {
            return;
        }
    }
}

#[test]
fn test_basic_throttle() {
    // Let a thread through 1 time every 100 milliseconds.
    let origin = Instant::now();
    let mut tt = ThreadThrottler::new(1, 100_000_000);
    let start_time = Instant::now();
    for _x in 0..11 {
        acquire(&mut tt, &origin);
    }
    let run_time = Instant::now() - start_time;
    assert!(run_time > Duration::new(1, 0));
}

#[test]
fn throttle_admits_up_to_rate_then_blocks() {
    let mut tt = ThreadThrottler::new(2, 100);
    assert_eq!(tt.pass_through_or_block(0), None);
    assert_eq!(tt.pass_through_or_block(10), None);
    // Window [0, 100] already holds two admissions; the wake hint points just
    // past the oldest one's window.
    assert_eq!(tt.pass_through_or_block(20), Some(100));
    // At 100 the oldest admission (instant 0) is still inside the window.
    assert_eq!(tt.pass_through_or_block(100), Some(100));
    // One tick later it has aged out.
    assert_eq!(tt.pass_through_or_block(101), None);
}

#[test]
fn throttle_clamps_backward_clock() {
    let mut tt = ThreadThrottler::new(1, 100);
    assert_eq!(tt.pass_through_or_block(1000), None);
    // A clock reading that went backwards is treated as "no time passed".
    assert_eq!(tt.pass_through_or_block(500), Some(1100));
    assert_eq!(tt.pass_through_or_block(1101), None);
}

#[test]
fn prune_history_drops_only_stale_entries() {
    let mut h: VecDeque<u64> = VecDeque::new();
    h.push_back(5);
    h.push_back(10);
    h.push_back(15);
    prune_history(&mut h, 11);
    assert_eq!(h.len(), 1);
    assert_eq!(h[0], 15);
    // Entries exactly at the cutoff stay.
    let mut h2: VecDeque<u64> = VecDeque::new();
    h2.push_back(7);
    h2.push_back(9);
    prune_history(&mut h2, 7);
    assert_eq!(h2.len(), 2);
    // An empty history stays empty.
    let mut h3: VecDeque<u64> = VecDeque::new();
    prune_history(&mut h3, 3);
    assert_eq!(h3.len(), 0);
}
