use gemini_rag::limiter::RateLimiter;

#[test]
fn third_request_in_window_must_wait() {
    let mut rl = RateLimiter::new(2, 1_000_000);
    let t0: u64 = 1_000_000;
    assert_eq!(rl.check_and_update(1, t0), 0);
    assert_eq!(rl.check_and_update(1, t0 + 200), 0);
    let wait = rl.check_and_update(1, t0 + 400);
    assert!(wait > 0);
    // Time until the oldest entry leaves the window, plus the fixed buffer.
    assert_eq!(wait, 59_600 + 100);
}

#[test]
fn request_admitted_after_window_rolls_forward() {
    let mut rl = RateLimiter::new(2, 1_000_000);
    let t0: u64 = 1_000_000;
    assert_eq!(rl.check_and_update(1, t0), 0);
    assert_eq!(rl.check_and_update(1, t0 + 200), 0);
    let wait = rl.check_and_update(1, t0 + 400);
    assert!(wait > 0);
    // After the wait elapses the oldest entry has expired.
    let later = t0 + 400 + wait;
    assert_eq!(rl.check_and_update(1, later), 0);
}

#[test]
fn token_budget_is_enforced() {
    let mut rl = RateLimiter::new(10, 5);
    let t0: u64 = 500_000;
    assert_eq!(rl.check_and_update(3, t0), 0);
    // 3 + 3 > 5: rejected, nothing recorded.
    assert!(rl.check_and_update(3, t0 + 10) > 0);
    // 3 + 2 <= 5: admitted.
    assert_eq!(rl.check_and_update(2, t0 + 20), 0);
}

#[test]
fn single_request_over_budget_gets_fallback_wait() {
    let mut rl = RateLimiter::new(5, 2);
    // The request alone exceeds the whole token budget and the log is
    // empty: fixed one-second fallback, forever.
    assert_eq!(rl.check_and_update(3, 100_000), 1_000);
    assert_eq!(rl.check_and_update(3, 200_000), 1_000);
}

#[test]
fn rejected_requests_are_not_recorded() {
    let mut rl = RateLimiter::new(1, 1_000_000);
    let t0: u64 = 2_000_000;
    assert_eq!(rl.check_and_update(7, t0), 0);
    assert!(rl.check_and_update(7, t0 + 1) > 0);
    assert!(rl.check_and_update(7, t0 + 2) > 0);
    // Once the single recorded request expires, the next one is admitted.
    assert_eq!(rl.check_and_update(7, t0 + 61_000), 0);
}
