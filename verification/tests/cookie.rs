use rusty_request::cookie::CookieJar;
use rusty_request::date::days_from_civil;
use rusty_request::Url;

fn url(s: &str) -> Url {
    Url::parse(s).unwrap()
}

#[test]
fn stores_and_returns_a_simple_cookie() {
    let mut jar = CookieJar::new();
    jar.store_from_response(&url("http://example.com/a"), &["session=abc123"]);
    assert_eq!(
        jar.cookie_header_for(&url("http://example.com/a"))
            .as_deref(),
        Some("session=abc123")
    );
}

#[test]
fn host_only_cookie_does_not_match_other_hosts() {
    let mut jar = CookieJar::new();
    jar.store_from_response(&url("http://example.com/"), &["a=1"]);
    assert_eq!(jar.cookie_header_for(&url("http://other.com/")), None);
    assert_eq!(jar.cookie_header_for(&url("http://sub.example.com/")), None);
}

#[test]
fn domain_cookie_matches_subdomains() {
    let mut jar = CookieJar::new();
    jar.store_from_response(
        &url("http://example.com/"),
        &["a=1; Domain=example.com"],
    );
    assert_eq!(
        jar.cookie_header_for(&url("http://sub.example.com/"))
            .as_deref(),
        Some("a=1")
    );
    assert_eq!(
        jar.cookie_header_for(&url("http://example.com/"))
            .as_deref(),
        Some("a=1")
    );
}

#[test]
fn rejects_domain_outside_setting_host() {
    let mut jar = CookieJar::new();
    jar.store_from_response(
        &url("http://example.com/"),
        &["a=1; Domain=evil.com"],
    );
    assert_eq!(jar.cookie_header_for(&url("http://example.com/")), None);
    assert_eq!(jar.cookie_header_for(&url("http://evil.com/")), None);
}

#[test]
fn path_scoping_restricts_matches() {
    let mut jar = CookieJar::new();
    jar.store_from_response(
        &url("http://example.com/admin/login"),
        &["a=1; Path=/admin"],
    );
    assert_eq!(
        jar.cookie_header_for(&url("http://example.com/admin/x"))
            .as_deref(),
        Some("a=1")
    );
    assert_eq!(
        jar.cookie_header_for(&url("http://example.com/other")),
        None
    );
}

#[test]
fn default_path_is_request_directory() {
    let mut jar = CookieJar::new();
    jar.store_from_response(&url("http://example.com/a/b/c"), &["x=1"]);
    assert_eq!(
        jar.cookie_header_for(&url("http://example.com/a/b/z"))
            .as_deref(),
        Some("x=1")
    );
    assert_eq!(
        jar.cookie_header_for(&url("http://example.com/a/other")),
        None
    );
}

#[test]
fn secure_cookie_is_never_sent_over_plain_http() {
    let mut jar = CookieJar::new();
    jar.store_from_response(&url("http://example.com/"), &["a=1; Secure"]);
    assert_eq!(jar.cookie_header_for(&url("http://example.com/")), None);
}

#[test]
fn max_age_zero_or_negative_deletes_immediately() {
    let mut jar = CookieJar::new();
    jar.store_from_response(&url("http://example.com/"), &["a=1; Max-Age=-1"]);
    assert_eq!(jar.cookie_header_for(&url("http://example.com/")), None);
}

#[test]
fn max_age_in_the_future_is_kept() {
    let mut jar = CookieJar::new();
    jar.store_from_response(
        &url("http://example.com/"),
        &["a=1; Max-Age=3600"],
    );
    assert_eq!(
        jar.cookie_header_for(&url("http://example.com/"))
            .as_deref(),
        Some("a=1")
    );
}

#[test]
fn expires_in_the_past_is_dropped() {
    let mut jar = CookieJar::new();
    jar.store_from_response(
        &url("http://example.com/"),
        &["a=1; Expires=Thu, 01 Jan 1970 00:00:00 GMT"],
    );
    assert_eq!(jar.cookie_header_for(&url("http://example.com/")), None);
}

#[test]
fn expires_in_the_future_is_kept() {
    let mut jar = CookieJar::new();
    jar.store_from_response(
        &url("http://example.com/"),
        &["a=1; Expires=Wed, 01 Jan 2099 00:00:00 GMT"],
    );
    assert_eq!(
        jar.cookie_header_for(&url("http://example.com/"))
            .as_deref(),
        Some("a=1")
    );
}

#[test]
fn max_age_takes_precedence_over_expires() {
    let mut jar = CookieJar::new();
    jar.store_from_response(
        &url("http://example.com/"),
        &["a=1; Expires=Thu, 01 Jan 1970 00:00:00 GMT; Max-Age=3600"],
    );
    assert_eq!(
        jar.cookie_header_for(&url("http://example.com/"))
            .as_deref(),
        Some("a=1")
    );
}

#[test]
fn same_name_domain_path_replaces_previous_value() {
    let mut jar = CookieJar::new();
    let req = url("http://example.com/");
    jar.store_from_response(&req, &["a=1"]);
    jar.store_from_response(&req, &["a=2"]);
    assert_eq!(jar.cookie_header_for(&req).as_deref(), Some("a=2"));
}

#[test]
fn multiple_cookies_are_joined_with_semicolons() {
    let mut jar = CookieJar::new();
    let req = url("http://example.com/");
    jar.store_from_response(&req, &["a=1", "b=2"]);
    let header = jar.cookie_header_for(&req).unwrap();
    assert!(header.contains("a=1"));
    assert!(header.contains("b=2"));
}

#[test]
fn ignores_malformed_set_cookie() {
    let mut jar = CookieJar::new();
    jar.store_from_response(
        &url("http://example.com/"),
        &["no equals sign here"],
    );
    assert_eq!(jar.cookie_header_for(&url("http://example.com/")), None);
}

#[test]
fn days_from_civil_matches_hand_verified_epoch_offsets() {
    assert_eq!(days_from_civil(1970, 1, 1), 0);
    assert_eq!(days_from_civil(1970, 1, 2), 1);
    assert_eq!(days_from_civil(1969, 12, 31), -1);
}

use rusty_request::cookie::Cookie;
use rusty_request::date::parse_http_date;

const SECOND: i128 = 1_000_000_000;

#[test]
fn http_dates() {
    assert_eq!(parse_http_date("Sun, 06 Nov 1994 08:49:37 GMT"), Some(784_111_777));
    assert_eq!(parse_http_date("x, 1 JAN 1970 0:0:1 x"), Some(1));
    assert_eq!(parse_http_date("Wed, 31 Dec 1969 23:59:59 GMT"), Some(0));
    assert_eq!(parse_http_date("Sun, 06 Nov 1994 08:49 GMT"), None);
    assert_eq!(parse_http_date("Sun, 06 Foo 1994 08:49:37 GMT"), None);
    assert_eq!(parse_http_date("Sun, 06 Nov 1994 08:49:37"), None);
    assert_eq!(parse_http_date("Sun, 06 Nov 1994 08:-1:37 GMT"), None);
    assert_eq!(days_from_civil(2000, 2, 29) + 1, days_from_civil(2000, 3, 1));
    assert_eq!(days_from_civil(1900, 2, 28) + 1, days_from_civil(1900, 3, 1));
    assert_eq!(days_from_civil(2024, 12, 31) + 1, days_from_civil(2025, 1, 1));
    assert_eq!(days_from_civil(0, 3, 1), -719468);
}

#[test]
fn attributes_are_read() {
    let u = url("http://www.Example.com/a/b?q");
    let c = Cookie::parse(
        " n = v=w ; DOMAIN = ..Example.COM ; Path=/x; secure ; HttpOnly; SameSite=Lax;; Max-Age=5",
        &u,
        7 * SECOND,
    )
    .unwrap();
    assert_eq!(c.name, "n");
    assert_eq!(c.value, "v=w");
    assert_eq!(c.domain, "example.com");
    assert!(!c.host_only);
    assert_eq!(c.path, "/x");
    assert!(c.secure);
    assert!(c.http_only);
    assert_eq!(c.expires, Some(12 * SECOND));
    assert!(!c.is_expired(12 * SECOND - 1));
    assert!(c.is_expired(12 * SECOND));
    assert!(c.domain_matches("API.example.com"));
    assert!(!c.domain_matches("notexample.com"));

    let c = Cookie::parse("n=; Path=x; Domain=; Max-Age=soon", &u, 0).unwrap();
    assert_eq!(c.value, "");
    assert_eq!(c.domain, "www.example.com");
    assert!(c.host_only);
    assert_eq!(c.path, "/a");
    assert_eq!(c.expires, None);
    assert!(c.path_matches("/a/b"));
    assert!(!c.path_matches("/ab"));

    // A later attribute replaces an earlier one, even where it is of no use.
    let c = Cookie::parse("n=1; Domain=example.com; Domain", &u, 0).unwrap();
    assert!(c.host_only);
    assert!(Cookie::parse("=1", &u, 0).is_none());
}

#[test]
fn stored_cookies_follow_the_clock() {
    let u = url("http://example.com/");
    let mut jar = CookieJar::default();
    jar.store_at(&u, &["a=1; Max-Age=10", "b=2"], 100 * SECOND);
    assert_eq!(jar.cookie_header_at(&u, 109 * SECOND).as_deref(), Some("a=1; b=2"));
    assert_eq!(jar.cookie_header_at(&u, 110 * SECOND).as_deref(), Some("b=2"));
    // Expired cookies are gone for good.
    assert_eq!(jar.cookie_header_at(&u, 105 * SECOND).as_deref(), Some("b=2"));
    jar.store_at(&u, &["b=; Max-Age=0"], 105 * SECOND);
    assert_eq!(jar.cookie_header_at(&u, 105 * SECOND), None);
}

#[test]
fn longer_paths_come_first() {
    let u = url("http://example.com/a/b/c");
    let mut jar = CookieJar::new();
    jar.store_at(
        &u,
        &["r=1; Path=/", "ab=2; Path=/a/b", "s=3; Path=/", "a=4; Path=/a", "t=5; Path=/"],
        0,
    );
    assert_eq!(
        jar.cookie_header_at(&u, 0).as_deref(),
        Some("ab=2; a=4; r=1; s=3; t=5")
    );
}

#[test]
fn secure_cookies_go_out_over_https() {
    let mut jar = CookieJar::new();
    jar.store_at(&url("https://example.com/"), &["a=1; Secure"], 0);
    assert_eq!(jar.cookie_header_at(&url("http://example.com/"), 0), None);
    assert_eq!(
        jar.cookie_header_at(&url("https://example.com/"), 0).as_deref(),
        Some("a=1")
    );
}

#[test]
fn last_of_several_set_cookies_wins() {
    let at = url("http://example.com/");
    let mut jar = CookieJar::new();
    jar.store_at(&at, &["a=old", "keep=1", "gone=1", "also=2"], 0);
    jar.store_at(
        &at,
        &["a=1", "no equals sign", "gone=2", "a=2; Path=/sub", "a=3", "gone=; Max-Age=0"],
        0,
    );
    assert_eq!(
        jar.cookie_header_at(&at, 0).as_deref(),
        Some("keep=1; also=2; a=3")
    );
    assert_eq!(
        jar.cookie_header_at(&url("http://example.com/sub"), 0).as_deref(),
        Some("a=2; keep=1; also=2; a=3")
    );
}

#[test]
fn clocks_before_the_epoch_count_too() {
    let second: i128 = 1_000_000_000;
    let at = url("http://example.com/");
    let mut jar = CookieJar::new();
    jar.store_at(&at, &["a=1; Max-Age=10"], -100 * second);
    assert_eq!(jar.cookie_header_at(&at, -91 * second).as_deref(), Some("a=1"));
    assert_eq!(jar.cookie_header_at(&at, -90 * second), None);
    jar.store_at(&at, &["b=2; Expires=Thu, 01 Jan 1970 00:00:05 GMT"], -second);
    assert_eq!(jar.cookie_header_at(&at, 4 * second).as_deref(), Some("b=2"));
    assert_eq!(jar.cookie_header_at(&at, 5 * second), None);
    jar.store_at(&at, &["c=3; Max-Age=1"], i128::MAX);
    assert_eq!(jar.cookie_header_at(&at, i128::MAX - 1), None);
}
