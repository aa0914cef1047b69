use kline_feed::retry::AttemptOutcome;
use kline_feed::retry::MAX_RETRIES;
use kline_feed::retry::is_rate_limited_status;
use kline_feed::retry::is_transient_message;
use kline_feed::retry::retry_delay_ms;
use kline_feed::retry::should_retry;

#[test]
fn throttled_statuses_are_recognized() {
    assert!(is_rate_limited_status(429));
    assert!(is_rate_limited_status(418));
    assert!(!is_rate_limited_status(200));
    assert!(!is_rate_limited_status(500));
}

#[test]
fn transient_messages_are_recognized_case_insensitively() {
    assert!(is_transient_message("operation TIMEOUT while connecting"));
    assert!(is_transient_message("Connection RESET by peer"));
    assert!(!is_transient_message("dns error: name not found"));
}

#[test]
fn throttled_responses_are_retried_until_the_cap() {
    let o = AttemptOutcome::Response { status: 429, retry_after_secs: None };
    for k in 0..MAX_RETRIES {
        assert!(should_retry(&o, k, MAX_RETRIES));
    }
    assert!(!should_retry(&o, MAX_RETRIES, MAX_RETRIES));
    assert!(!should_retry(&o, MAX_RETRIES + 1, MAX_RETRIES));
}

#[test]
fn successful_responses_are_never_retried() {
    let o = AttemptOutcome::Response { status: 200, retry_after_secs: None };
    assert!(!should_retry(&o, 0, MAX_RETRIES));
}

#[test]
fn only_transient_errors_are_retried() {
    let t = AttemptOutcome::TransportError { transient: true };
    let f = AttemptOutcome::TransportError { transient: false };
    assert!(should_retry(&t, 0, MAX_RETRIES));
    assert!(!should_retry(&f, 0, MAX_RETRIES));
    assert!(!should_retry(&t, MAX_RETRIES, MAX_RETRIES));
}

#[test]
fn a_session_of_throttled_responses_stops_at_the_cap() {
    // the loop the caller runs: retry while the policy says so
    let mut retry_count: u32 = 0;
    let mut attempts: u32 = 0;
    loop {
        attempts += 1;
        let outcome = AttemptOutcome::Response { status: 429, retry_after_secs: None };
        if should_retry(&outcome, retry_count, MAX_RETRIES) {
            retry_count += 1;
        } else {
            break;
        }
    }
    assert_eq!(attempts, MAX_RETRIES + 1);
}

#[test]
fn retry_after_header_wins_over_backoff() {
    assert_eq!(retry_delay_ms(Some(7), 0, 1000), 7_000);
    assert_eq!(retry_delay_ms(Some(0), 3, 800), 0);
}

#[test]
fn backoff_is_exponential_with_jitter() {
    // 2^3 seconds at jitter factor 1.000
    assert_eq!(retry_delay_ms(None, 3, 1000), 8_000);
    // 2^0 seconds at jitter factor 0.750
    assert_eq!(retry_delay_ms(None, 0, 750), 750);
    // 2^4 seconds at jitter factor 1.249
    assert_eq!(retry_delay_ms(None, 4, 1249), 16 * 1249);
}
