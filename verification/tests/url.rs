use rusty_request::Url;

#[test]
fn parses_bare_host() {
    let u = Url::parse("http://example.com").unwrap();
    assert_eq!(u.host, "example.com");
    assert_eq!(u.port, 80);
    assert_eq!(u.path, "/");
    assert_eq!(u.query, None);
}

#[test]
fn parses_host_port_path_query() {
    let u = Url::parse("http://example.com:8080/a/b?x=1&y=2").unwrap();
    assert_eq!(u.host, "example.com");
    assert_eq!(u.port, 8080);
    assert_eq!(u.path, "/a/b");
    assert_eq!(u.query.as_deref(), Some("x=1&y=2"));
}

#[test]
fn strips_fragment() {
    let u = Url::parse("http://example.com/a#section").unwrap();
    assert_eq!(u.path, "/a");
}

#[test]
fn host_header_omits_default_port() {
    let u = Url::parse("http://example.com:80/").unwrap();
    assert_eq!(u.host_header(), "example.com");
    let u = Url::parse("http://example.com:8080/").unwrap();
    assert_eq!(u.host_header(), "example.com:8080");
}

#[test]
fn rejects_missing_scheme_separator() {
    assert!(Url::parse("example.com/a").is_err());
}

#[test]
fn rejects_unsupported_scheme() {
    assert!(Url::parse("ftp://example.com").is_err());
}

#[test]
fn query_pairs_are_percent_encoded_and_appended() {
    let u = Url::parse("http://example.com/search?existing=1").unwrap();
    let u = u.with_query_pairs(&[("q", "hello world"), ("n", "1")]);
    assert_eq!(u.query.as_deref(), Some("existing=1&q=hello%20world&n=1"));
}

use rusty_request::url::percent_encode;

fn message(input: &str) -> String {
    Url::parse(input).unwrap_err().to_string()
}

#[test]
fn refusals_say_why() {
    assert_eq!(message("example.com/a"), "invalid url: example.com/a");
    assert_eq!(
        message("ftp://example.com"),
        "invalid url: unrecognized scheme `ftp` in `ftp://example.com`"
    );
    assert_eq!(
        message("http://user:pw@host/"),
        "invalid url: userinfo (user:pass@host) is not supported in `http://user:pw@host/`"
    );
    assert_eq!(message("http:///path"), "invalid url: missing host in `http:///path`");
    assert_eq!(message("http://h:99999/"), "invalid url: bad port in `http://h:99999/`");
    assert_eq!(message("http://h:x/"), "invalid url: bad port in `http://h:x/`");
}

#[test]
fn odd_urls() {
    let u = Url::parse("HTTPS://Example.com?q").unwrap();
    assert_eq!(u.scheme, "https");
    assert_eq!(u.host, "Example.com");
    assert_eq!(u.port, 443);
    assert_eq!(u.path, "/");
    assert_eq!(u.query.as_deref(), Some("q"));
    assert_eq!(u.request_target(), "/?q");
    assert_eq!(u.host_header(), "Example.com");
    let u = Url::parse("http://:8080/x?").unwrap();
    assert_eq!(u.host, ":8080");
    assert_eq!(u.port, 80);
    assert_eq!(u.query.as_deref(), Some(""));
    assert_eq!(u.request_target(), "/x");
    let u = Url::parse("http://a:b:+81/p?x?y#f?g").unwrap();
    assert_eq!(u.host, "a:b");
    assert_eq!(u.port, 81);
    assert_eq!(u.query.as_deref(), Some("x?y"));
}

#[test]
fn absolute_form_reads_back() {
    for input in ["http://h/", "https://h:8443/a/b?c=d", "http://a:b:81/p"] {
        let u = Url::parse(input).unwrap();
        assert_eq!(u.absolute_form(), input);
        assert_eq!(Url::parse(&u.absolute_form()).unwrap(), u);
    }
    // A host with a colon at the scheme's own port is not read back.
    let u = Url::parse("http://a:b:80/").unwrap();
    assert_eq!(u.absolute_form(), "http://a:b/");
    assert!(Url::parse(&u.absolute_form()).is_err());
}

#[test]
fn percent_encoding() {
    assert_eq!(percent_encode("AZaz09-_.~"), "AZaz09-_.~");
    assert_eq!(percent_encode("a b&c=é/%"), "a%20b%26c%3D%C3%A9%2F%25");
    let u = Url::parse("http://h/").unwrap();
    assert_eq!(u.with_query_pairs(&[]).query, None);
    assert_eq!(
        u.with_query_pairs(&[("a b", "ü"), ("", "")]).query.as_deref(),
        Some("a%20b=%C3%BC&=")
    );
}
