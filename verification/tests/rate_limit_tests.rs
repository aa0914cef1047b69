use kline_feed::rate_limit::RateBudgetTracker;
use kline_feed::rate_limit::RateLimitInfo;

#[test]
fn should_delay_within_the_safety_buffer() {
    let info = RateLimitInfo { used: 92, limit: 100, window_ms: 60_000, reset_at_ms: 0 };
    // remaining = 3 <= buffer = 10
    assert!(info.should_delay(5));
}

#[test]
fn should_not_delay_with_plenty_of_budget() {
    let info = RateLimitInfo { used: 50, limit: 100, window_ms: 60_000, reset_at_ms: 0 };
    // remaining = 45 > buffer = 10
    assert!(!info.should_delay(5));
}

#[test]
fn no_delay_while_budget_remains() {
    let info = RateLimitInfo { used: 92, limit: 100, window_ms: 60_000, reset_at_ms: 10_000 };
    assert_eq!(info.get_delay(5, 0), 0);
}

#[test]
fn delay_estimates_refill_time_for_the_deficit() {
    let info = RateLimitInfo { used: 150, limit: 100, window_ms: 60_000, reset_at_ms: 50_000 };
    // deficit 55, refill rate 100 per 60s: 33_000 ms, above the 10_000 ms to reset
    assert_eq!(info.get_delay(5, 40_000), 33_000);
}

#[test]
fn delay_is_floored_by_time_to_reset() {
    let info = RateLimitInfo { used: 101, limit: 100, window_ms: 60_000, reset_at_ms: 50_000 };
    // deficit 2, estimate 1_200 ms, but the reset is 40_000 ms away
    assert_eq!(info.get_delay(1, 10_000), 40_000);
}

#[test]
fn tracker_updates_overwrite_per_key() {
    let mut t = RateBudgetTracker::new();
    assert!(t.lookup("weight").is_none());
    t.update(
        "weight",
        RateLimitInfo { used: 10, limit: 1200, window_ms: 60_000, reset_at_ms: 60_000 },
    );
    t.update(
        "orders",
        RateLimitInfo { used: 3, limit: 1600, window_ms: 60_000, reset_at_ms: 60_000 },
    );
    t.update(
        "weight",
        RateLimitInfo { used: 20, limit: 1200, window_ms: 60_000, reset_at_ms: 120_000 },
    );
    let w = t.lookup("weight").unwrap();
    assert_eq!(w.used, 20);
    assert_eq!(w.reset_at_ms, 120_000);
    let o = t.lookup("orders").unwrap();
    assert_eq!(o.used, 3);
}

#[test]
fn untracked_keys_never_delay() {
    let t = RateBudgetTracker::new();
    assert_eq!(t.delay_before("weight", 5, 0), 0);
}

#[test]
fn fixed_usage_headers_update_their_keys() {
    let mut t = RateBudgetTracker::new();
    t.apply_fixed_usage_headers(Some("100"), None, Some("7"), 1_000);
    let w = t.lookup("weight").unwrap();
    assert_eq!(w.used, 100);
    assert_eq!(w.limit, 1200);
    assert_eq!(w.window_ms, 60_000);
    assert_eq!(w.reset_at_ms, 61_000);
    assert!(t.lookup("orders").is_none());
    let d = t.lookup("daily_orders").unwrap();
    assert_eq!(d.used, 7);
    assert_eq!(d.limit, 10000);
    assert_eq!(d.window_ms, 86_400_000);
}

#[test]
fn malformed_usage_headers_are_ignored() {
    let mut t = RateBudgetTracker::new();
    t.apply_fixed_usage_headers(Some("abc"), Some(""), None, 1_000);
    assert!(t.lookup("weight").is_none());
    assert!(t.lookup("orders").is_none());
    assert!(t.lookup("daily_orders").is_none());
}

#[test]
fn window_headers_track_used_and_reset() {
    let mut t = RateBudgetTracker::new();
    t.apply_window_headers("/v5/market/tickers", Some("100"), Some("40"), Some("100"), 40_000);
    let info = t.lookup("/v5/market/tickers").unwrap();
    assert_eq!(info.used, 60);
    assert_eq!(info.limit, 100);
    assert_eq!(info.reset_at_ms, 100_000);
    assert_eq!(info.window_ms, 60_000);
}

#[test]
fn incomplete_window_headers_are_ignored() {
    let mut t = RateBudgetTracker::new();
    t.apply_window_headers("k", Some("100"), None, Some("100"), 40_000);
    assert!(t.lookup("k").is_none());
    t.apply_window_headers("k", Some("0"), Some("0"), Some("100"), 40_000);
    assert!(t.lookup("k").is_none());
}
