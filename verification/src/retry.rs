//! The retry policy of the resilient fetch client: which outcomes are
//! retried, how long the backoff waits, and the proof that a retry session
//! never runs past the retry-count cap.
//!
//! The loop that performs requests and sleeps lives outside the library; it
//! feeds every attempt's outcome to these decision functions.

use vstd::prelude::*;

use crate::textnum::has_substring;
use crate::textnum::lower_of;
use crate::textnum::contains_str;
use crate::textnum::to_lower;

verus! {

/// How many times a failed request is retried before its outcome is
/// returned as-is.
pub const MAX_RETRIES: u32 = 5;

/// What one request attempt came back with: a response with its HTTP
/// status and optional `Retry-After` seconds, or a transport error already
/// classified as transient or not.
#[derive(Clone, Copy, PartialEq, Eq, Structural, Debug)]
pub enum AttemptOutcome {
    Response { status: u16, retry_after_secs: Option<u64> },
    TransportError { transient: bool },
}

/// Whether an HTTP status means the provider throttled or banned us.
pub fn is_rate_limited_status(status: u16) -> (r: bool)
    ensures
        r == (status == 429 || status == 418),
{
    status == 429 || status == 418
}

/// Whether a transport error message reads as transient: it mentions a
/// timeout or a connection reset, compared case-insensitively.
pub fn is_transient_message(msg: &str) -> (r: bool)
    ensures
        r == (has_substring(lower_of(msg@), "timeout"@) || has_substring(
            lower_of(msg@),
            "connection reset"@,
        )),
{
    let low = to_lower(msg);
    contains_str(low.as_str(), "timeout") || contains_str(low.as_str(), "connection reset")
}

/// Whether the outcome of attempt number `retry_count` is retried: only a
/// throttled response or a transient transport error, and only while the
/// retry budget lasts.
pub open spec fn spec_should_retry(o: AttemptOutcome, retry_count: u32, max_retries: u32) -> bool {
    match o {
        AttemptOutcome::Response { status, .. } => (status == 429 || status == 418) && retry_count
            < max_retries,
        AttemptOutcome::TransportError { transient } => transient && retry_count < max_retries,
    }
}

/// Decide whether to retry after `o`, the outcome of attempt
/// `retry_count`.
pub fn should_retry(o: &AttemptOutcome, retry_count: u32, max_retries: u32) -> (r: bool)
    ensures
        r == spec_should_retry(*o, retry_count, max_retries),
{
    match o {
        AttemptOutcome::Response { status, .. } => {
            (*status == 429 || *status == 418) && retry_count < max_retries
        },
        AttemptOutcome::TransportError { transient } => *transient && retry_count < max_retries,
    }
}

/// The backoff before retry number `retry_count + 1`: a provider-given
/// `Retry-After` in seconds when there is one (clamped into `u64`
/// milliseconds), else `2^retry_count` seconds scaled by the caller's
/// jitter factor in thousandths.
pub open spec fn spec_retry_delay_ms(
    retry_after_secs: Option<u64>,
    retry_count: u32,
    jitter_permille: u64,
) -> int {
    match retry_after_secs {
        Option::Some(s) => if s * 1000 <= u64::MAX {
            s * 1000
        } else {
            u64::MAX as int
        },
        Option::None => (1u64 << retry_count) * jitter_permille,
    }
}

/// Compute the backoff before the next retry. The jitter factor is drawn
/// by the caller, uniformly in `[750, 1250)` thousandths.
pub fn retry_delay_ms(retry_after_secs: Option<u64>, retry_count: u32, jitter_permille: u64) -> (r:
    u64)
    requires
        retry_count <= 32,
        750 <= jitter_permille < 1250,
    ensures
        r == spec_retry_delay_ms(retry_after_secs, retry_count, jitter_permille),
{
    match retry_after_secs {
        Some(s) => {
            if s > u64::MAX / 1000 {
                proof {
                    assert(s * 1000 > u64::MAX) by (nonlinear_arith)
                        requires
                            s >= u64::MAX / 1000 + 1,
                    ;
                }
                u64::MAX
            } else {
                proof {
                    assert(s * 1000 <= (u64::MAX / 1000) * 1000) by (nonlinear_arith)
                        requires
                            s <= u64::MAX / 1000,
                    ;
                    assert((u64::MAX / 1000) * 1000 <= u64::MAX) by (nonlinear_arith);
                }
                s * 1000
            }
        },
        None => {
            let base: u64 = 1u64 << retry_count;
            proof {
                assert(retry_count <= 32 ==> (1u64 << retry_count) <= 0x1_0000_0000u64)
                    by (bit_vector);
                assert(base * jitter_permille < 0x1_0000_0000u64 * 1250) by (nonlinear_arith)
                    requires
                        0 <= base <= 0x1_0000_0000u64,
                        jitter_permille < 1250,
                ;
            }
            base * jitter_permille
        },
    }
}

/// The attempt a retry session ends on, counting from attempt `k`: the
/// first whose outcome the policy does not retry, or the last provided
/// outcome.
pub open spec fn final_attempt_from(outcomes: Seq<AttemptOutcome>, k: int, max_retries: u32) -> int
    decreases outcomes.len() - k,
{
    if k >= outcomes.len() - 1 {
        k
    } else if !spec_should_retry(outcomes[k], k as u32, max_retries) {
        k
    } else {
        final_attempt_from(outcomes, k + 1, max_retries)
    }
}

/// The retry budget is a hard cap: however the attempts turn out, a session
/// ends on attempt `max_retries` at the latest — at most `max_retries + 1`
/// requests are made — and the outcome of the attempt it ends on is what
/// the caller gets back, unchanged.
pub proof fn lemma_retry_bounded(outcomes: Seq<AttemptOutcome>, k: int, max_retries: u32)
    requires
        0 <= k <= max_retries,
        max_retries < outcomes.len(),
    ensures
        k <= final_attempt_from(outcomes, k, max_retries) <= max_retries,
        !spec_should_retry(
            outcomes[final_attempt_from(outcomes, k, max_retries)],
            final_attempt_from(outcomes, k, max_retries) as u32,
            max_retries,
        ),
    decreases outcomes.len() - k,
{
    if k >= outcomes.len() - 1 {
        assert(k == max_retries);
    } else if !spec_should_retry(outcomes[k], k as u32, max_retries) {
    } else {
        assert(k < max_retries);
        lemma_retry_bounded(outcomes, k + 1, max_retries);
    }
}

} // verus!
