use rusty_request::retry::parse_retry_after;
use rusty_request::Backoff;
use rusty_request::Error;
use rusty_request::HeaderMap;
use rusty_request::Method;
use rusty_request::RetryPolicy;
use std::time::Duration;

#[test]
fn fixed_backoff_is_constant() {
    let b = Backoff::fixed(Duration::from_millis(50));
    assert_eq!(b.delay_for(0), Duration::from_millis(50));
    assert_eq!(b.delay_for(5), Duration::from_millis(50));
}

#[test]
fn exponential_backoff_without_jitter_doubles_and_caps() {
    let b = Backoff::exponential_no_jitter(Duration::from_millis(100), Duration::from_secs(1));
    assert_eq!(b.delay_for(0), Duration::from_millis(100));
    assert_eq!(b.delay_for(1), Duration::from_millis(200));
    assert_eq!(b.delay_for(2), Duration::from_millis(400));
    assert_eq!(b.delay_for(10), Duration::from_secs(1));
}

#[test]
fn exponential_backoff_with_jitter_never_exceeds_the_cap() {
    let b = Backoff::exponential(Duration::from_millis(100), Duration::from_secs(1));
    for attempt in 0..10 {
        assert!(b.delay_for(attempt) <= Duration::from_secs(1));
    }
}

#[test]
fn default_policy_retries_io_errors_and_default_statuses() {
    let policy = RetryPolicy::new(3);
    assert!(policy.should_retry_error(&Error::Io(std::io::Error::other("boom"))));
    assert!(policy.should_retry_status(429));
    assert!(policy.should_retry_status(503));
    assert!(!policy.should_retry_status(404));
}

#[test]
fn no_io_retry_disables_connection_error_retries() {
    let policy = RetryPolicy::new(3).no_io_retry();
    assert!(!policy.should_retry_error(&Error::Io(std::io::Error::other("boom"))));
}

#[test]
fn default_policy_only_allows_idempotent_methods() {
    let policy = RetryPolicy::new(3);
    assert!(policy.allows_method(&Method::Get));
    assert!(policy.allows_method(&Method::Put));
    assert!(policy.allows_method(&Method::Delete));
    assert!(!policy.allows_method(&Method::Post));
    assert!(!policy.allows_method(&Method::Patch));
}

#[test]
fn retry_non_idempotent_allows_post_and_patch() {
    let policy = RetryPolicy::new(3).retry_non_idempotent();
    assert!(policy.allows_method(&Method::Post));
    assert!(policy.allows_method(&Method::Patch));
}

#[test]
fn custom_retry_statuses_replace_the_default_set() {
    let policy = RetryPolicy::new(3).retry_statuses(vec![418]);
    assert!(policy.should_retry_status(418));
    assert!(!policy.should_retry_status(503));
}

#[test]
fn parses_delta_seconds_retry_after() {
    assert_eq!(parse_retry_after("120"), Some(Duration::from_secs(120)));
    assert_eq!(parse_retry_after("  5  "), Some(Duration::from_secs(5)));
}

#[test]
fn parses_http_date_retry_after_in_the_future() {
    // Far enough out that "now" during the test run can't catch up.
    let d = parse_retry_after("Wed, 01 Jan 2099 00:00:00 GMT").unwrap();
    assert!(d > Duration::from_secs(3600 * 24 * 365));
}

#[test]
fn past_http_date_retry_after_is_zero_not_negative() {
    assert_eq!(
        parse_retry_after("Thu, 01 Jan 1970 00:00:00 GMT"),
        Some(Duration::ZERO)
    );
}

#[test]
fn garbage_retry_after_is_ignored() {
    assert_eq!(parse_retry_after("not a date or a number"), None);
}

#[test]
fn max_retry_after_caps_a_large_delta_seconds_value() {
    let policy = RetryPolicy::new(3).max_retry_after(Duration::from_secs(30));
    let mut headers = HeaderMap::new();
    headers.insert("Retry-After", "3600").unwrap();
    assert_eq!(policy.retry_after(&headers), Some(Duration::from_secs(30)));
}

#[test]
fn ignore_retry_after_falls_back_to_backoff() {
    let policy = RetryPolicy::new(3).ignore_retry_after();
    let mut headers = HeaderMap::new();
    headers.insert("Retry-After", "5").unwrap();
    assert_eq!(policy.retry_after(&headers), None);
}

#[test]
fn missing_retry_after_header_returns_none() {
    let policy = RetryPolicy::new(3);
    let headers = HeaderMap::new();
    assert_eq!(policy.retry_after(&headers), None);
}

use rusty_request::retry::parse_retry_after_at;
use rusty_request::retry::RetryState;
use rusty_request::retry::RetryStep;
use rusty_request::Response;
use rusty_request::StatusCode;
use rusty_request::Url;

const SECOND: i128 = 1_000_000_000;

#[test]
fn jitter_scales_with_chance() {
    let b = Backoff::exponential(Duration::from_millis(100), Duration::from_secs(1));
    assert_eq!(b.delay_with(1, 0), Duration::ZERO);
    assert_eq!(b.delay_with(1, 1 << 63), Duration::from_millis(100));
    assert_eq!(b.delay_with(1, u64::MAX), Duration::from_nanos(199_999_999));
    let huge = Backoff::exponential_no_jitter(Duration::MAX, Duration::from_secs(7));
    assert_eq!(huge.delay_with(usize::MAX, 0), Duration::from_secs(7));
    let tiny = Backoff::exponential_no_jitter(Duration::from_nanos(1), Duration::from_secs(3600));
    assert_eq!(tiny.delay_for(20), Duration::from_nanos(1_048_576));
    assert_eq!(tiny.delay_for(30), Duration::from_nanos(1_073_741_824));
    assert_eq!(tiny.delay_for(31), Duration::from_nanos(2_147_483_648));
    assert_eq!(tiny.delay_for(41), Duration::from_nanos(2_199_023_255_552));
    assert_eq!(tiny.delay_for(42), Duration::from_secs(3600));
    assert_eq!(tiny.delay_for(usize::MAX), Duration::from_secs(3600));
    let zero = Backoff::exponential(Duration::ZERO, Duration::from_secs(7));
    assert_eq!(zero.delay_for(usize::MAX), Duration::ZERO);
    assert_eq!(zero.delay_for(3), Duration::ZERO);
}

#[test]
fn retry_after_at_a_known_time() {
    let date = "Sun, 06 Nov 1994 08:49:37 GMT";
    assert_eq!(
        parse_retry_after_at(date, 784_111_700 * SECOND),
        Some(Duration::from_secs(77))
    );
    assert_eq!(parse_retry_after_at(date, 784_111_777 * SECOND), Some(Duration::ZERO));
    assert_eq!(parse_retry_after_at("-1", 0), None);
    assert_eq!(
        parse_retry_after_at("18446744073709551615", 0),
        Some(Duration::from_secs(u64::MAX))
    );
    assert_eq!(
        parse_retry_after_at("a, 1 Jan 9223372036854775807 0:0:0 z", 0),
        Some(Duration::MAX)
    );
}

fn response(status: u16, retry_after: Option<&str>) -> rusty_request::Result<Response> {
    let mut headers = HeaderMap::new();
    if let Some(v) = retry_after {
        headers.insert("Retry-After", v).unwrap();
    }
    Ok(Response::new(
        StatusCode::from_u16(status),
        headers,
        Url::parse("http://h/").unwrap(),
        Vec::new(),
    ))
}

fn waits(step: RetryStep) -> Option<Duration> {
    match step {
        RetryStep::Finish => None,
        RetryStep::Wait(d) => Some(d),
    }
}

#[test]
fn retries_stop_where_the_policy_does() {
    let policy = RetryPolicy::new(2).backoff(Backoff::exponential_no_jitter(
        Duration::from_secs(1),
        Duration::from_secs(10),
    ));
    let mut state = RetryState::new(policy.clone());
    assert_eq!(waits(state.after(Method::Get, &response(200, None), 0, 0)), None);
    assert_eq!(
        waits(state.after(Method::Get, &response(503, None), 0, 0)),
        Some(Duration::from_secs(1))
    );
    assert_eq!(
        waits(state.after(Method::Get, &response(503, Some("7")), 0, 0)),
        Some(Duration::from_secs(7))
    );
    assert_eq!(state.attempt, 2);
    assert_eq!(waits(state.after(Method::Get, &response(503, None), 0, 0)), None);

    let mut state = RetryState::new(policy.clone());
    assert_eq!(waits(state.after(Method::Post, &response(503, None), 0, 0)), None);
    let io = Err(Error::Io(std::io::Error::other("boom")));
    assert_eq!(waits(state.after(Method::Put, &io, 0, 0)), Some(Duration::from_secs(1)));
    assert_eq!(waits(state.after(Method::Put, &Err(Error::Timeout), 0, 0)), None);

    let mut state = RetryState::new(policy.retry_non_idempotent().no_io_retry());
    assert_eq!(
        waits(state.after(Method::Post, &response(429, None), 0, 0)),
        Some(Duration::from_secs(1))
    );
    assert_eq!(waits(state.after(Method::Post, &io, 0, 0)), None);
}
