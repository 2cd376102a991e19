use batch_runner::limiter::{RateLimiter, NANOS_PER_SECOND};

#[test]
fn a_free_limiter_grants_at_once() {
    let mut limiter = RateLimiter::new(4);
    assert_eq!(limiter.rate_limit(), 4);
    assert_eq!(limiter.acquire(123), 123);
}

#[test]
fn grants_are_one_interval_apart() {
    let mut limiter = RateLimiter::new(2);
    let grants: Vec<u64> = (0..4).map(|_| limiter.acquire(0)).collect();
    assert_eq!(grants, vec![0, 500_000_000, 1_000_000_000, 1_500_000_000]);
}

#[test]
fn interval_is_rounded_up() {
    let mut limiter = RateLimiter::new(3);
    assert_eq!(limiter.acquire(0), 0);
    assert_eq!(limiter.acquire(0), 333_333_334);
    assert_eq!(limiter.acquire(0), 666_666_668);
    assert_eq!(limiter.acquire(0), 1_000_000_002);
}

#[test]
fn a_late_request_starts_when_it_is_made() {
    let mut limiter = RateLimiter::new(1);
    assert_eq!(limiter.acquire(10), 10);
    assert_eq!(limiter.acquire(20), 10 + NANOS_PER_SECOND);
    assert_eq!(limiter.acquire(5 * NANOS_PER_SECOND), 5 * NANOS_PER_SECOND);
    assert_eq!(limiter.acquire(0), 6 * NANOS_PER_SECOND);
}

#[test]
fn k_grants_take_k_minus_one_over_rate_seconds() {
    for rate in [1usize, 2, 3, 7, 1000] {
        let mut limiter = RateLimiter::new(rate);
        let k = 25u64;
        let grants: Vec<u64> = (0..k).map(|_| limiter.acquire(0)).collect();
        let span = grants[grants.len() - 1] - grants[0];
        assert!(rate as u64 * span >= (k - 1) * NANOS_PER_SECOND);
    }
}

#[test]
fn no_second_holds_more_than_rate_starts() {
    let rate = 7usize;
    let mut limiter = RateLimiter::new(rate);
    let grants: Vec<u64> = (0..50).map(|i| limiter.acquire(i * 1000)).collect();
    for i in 0..grants.len() - rate {
        assert!(grants[i + rate] - grants[i] >= NANOS_PER_SECOND);
    }
}

#[test]
fn a_rate_above_the_clock_resolution_still_advances() {
    let mut limiter = RateLimiter::new(usize::MAX);
    assert_eq!(limiter.acquire(0), 0);
    assert_eq!(limiter.acquire(0), 1);
    assert_eq!(limiter.acquire(0), 2);
}

#[test]
fn the_clock_ends_without_wrapping() {
    let mut limiter = RateLimiter::new(1);
    assert_eq!(limiter.acquire(u64::MAX - 5), u64::MAX - 5);
    assert_eq!(limiter.acquire(0), u64::MAX);
    assert_eq!(limiter.acquire(0), u64::MAX);
}
