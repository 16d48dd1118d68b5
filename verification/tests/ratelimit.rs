use std::time::Duration;

use scratch_card::ratelimit::{ClientIp, RateLimiter};

#[test]
fn allows_up_to_capacity_then_blocks() {
    let mut limiter = RateLimiter::new(3, Duration::from_secs(10).as_nanos());
    let ip = ClientIp::v4(192, 168, 1, 1);
    assert!(limiter.check(ip));
    assert!(limiter.check(ip));
    assert!(limiter.check(ip));
    assert!(!limiter.check(ip));
}

#[test]
fn windows_are_independent_per_ip() {
    let mut limiter = RateLimiter::new(1, Duration::from_secs(10).as_nanos());
    assert!(limiter.check(ClientIp::v4(10, 0, 0, 1)));
    assert!(limiter.check(ClientIp::v4(10, 0, 0, 2)));
    assert!(!limiter.check(ClientIp::v4(10, 0, 0, 1)));
}

#[test]
fn window_renews_after_it_runs_out() {
    let mut limiter = RateLimiter::new(2, Duration::from_secs(10).as_nanos());
    let ip = ClientIp::v4(1, 2, 3, 4);
    let t0: u64 = 1_000_000_000_000;
    assert!(limiter.check_at(ip, t0));
    assert!(limiter.check_at(ip, t0 + 1));
    assert!(!limiter.check_at(ip, t0 + 2));
    assert!(!limiter.check_at(ip, t0 + 9_999_999_999));
    assert!(limiter.check_at(ip, t0 + 10_000_000_000));
    assert!(limiter.check_at(ip, t0 + 10_000_000_001));
    assert!(!limiter.check_at(ip, t0 + 10_000_000_002));
}

#[test]
fn clock_going_back_keeps_the_window() {
    let mut limiter = RateLimiter::new(1, Duration::from_secs(10).as_nanos());
    let ip = ClientIp::V6(1);
    assert!(limiter.check_at(ip, 50_000_000_000));
    assert!(!limiter.check_at(ip, 1));
}

#[test]
fn zero_capacity_refuses_everything_in_a_window() {
    let mut limiter = RateLimiter::new(0, Duration::from_secs(10).as_nanos());
    let ip = ClientIp::v4(9, 9, 9, 9);
    assert!(!limiter.check_at(ip, 100));
    assert!(!limiter.check_at(ip, 200));
}

#[test]
fn v4_and_v6_addresses_are_distinct_clients() {
    let mut limiter = RateLimiter::new(1, Duration::from_secs(10).as_nanos());
    assert!(limiter.check_at(ClientIp::V4(7), 0));
    assert!(limiter.check_at(ClientIp::V6(7), 0));
    assert!(!limiter.check_at(ClientIp::V4(7), 1));
}

#[test]
fn many_clients_drop_run_out_windows() {
    let mut limiter = RateLimiter::new(1, Duration::from_secs(10).as_nanos());
    for i in 0..5000u32 {
        assert!(limiter.check_at(ClientIp::V4(i), 0));
    }
    // Long after: the old windows ran out and are dropped; every client
    // starts afresh.
    let later: u64 = 60_000_000_000;
    assert!(limiter.check_at(ClientIp::V4(0), later));
    assert!(!limiter.check_at(ClientIp::V4(0), later + 1));
    assert!(limiter.check_at(ClientIp::V4(4999), later + 2));
}

#[test]
fn zero_capacity_passes_once_per_renewed_window() {
    let mut limiter = RateLimiter::new(0, Duration::from_secs(10).as_nanos());
    let ip = ClientIp::v4(8, 8, 4, 4);
    let t0: u64 = 5_000_000_000;
    assert!(!limiter.check_at(ip, t0));
    // The window opened at t0 runs out: the next call opens a new one and
    // passes, and nothing else passes until that one runs out too.
    assert!(limiter.check_at(ip, t0 + 10_000_000_000));
    assert!(!limiter.check_at(ip, t0 + 10_000_000_001));
    assert!(!limiter.check_at(ip, t0 + 19_999_999_999));
    assert!(limiter.check_at(ip, t0 + 20_000_000_000));
    assert!(!limiter.check_at(ip, t0 + 20_000_000_001));
}

#[test]
fn renewed_window_counts_capacity_again() {
    let mut limiter = RateLimiter::new(3, 100);
    let ip = ClientIp::V6(42);
    let mut passed = 0;
    for t in 0..100u64 {
        if limiter.check_at(ip, t) {
            passed += 1;
        }
    }
    assert_eq!(passed, 3);
    passed = 0;
    for t in 100..200u64 {
        if limiter.check_at(ip, t) {
            passed += 1;
        }
    }
    assert_eq!(passed, 3);
}
