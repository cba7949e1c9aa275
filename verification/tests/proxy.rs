use rusty_request::proxy::NoProxyRules;
use rusty_request::Error;
use rusty_request::Proxy;

#[test]
fn http_proxy_parses_host_and_port() {
    let p = Proxy::http("http://proxy.example:8080").unwrap();
    assert_eq!(p.host, "proxy.example");
    assert_eq!(p.port, 8080);
}

#[test]
fn http_proxy_rejects_https_scheme() {
    assert!(matches!(
        Proxy::http("https://proxy.example"),
        Err(Error::UnsupportedScheme(_))
    ));
}

#[test]
fn http_proxy_rejects_invalid_url() {
    assert!(Proxy::http("not a url").is_err());
}

#[test]
fn distinct_proxies_get_distinct_pool_keys() {
    let a = Proxy::http("http://a.example:8080").unwrap();
    let b = Proxy::http("http://b.example:8080").unwrap();
    assert_ne!(a.pool_key(), b.pool_key());
}

#[test]
fn no_proxy_rules_match_exact_host() {
    let rules = NoProxyRules::parse("example.com");
    assert!(rules.bypasses("example.com"));
    assert!(rules.bypasses("EXAMPLE.COM"));
    assert!(!rules.bypasses("other.com"));
}

#[test]
fn no_proxy_rules_match_subdomains() {
    let rules = NoProxyRules::parse("example.com");
    assert!(rules.bypasses("www.example.com"));
    assert!(!rules.bypasses("notexample.com"));
}

#[test]
fn no_proxy_rules_handle_leading_dot_and_whitespace() {
    let rules = NoProxyRules::parse(" .example.com , other.com ");
    assert!(rules.bypasses("example.com"));
    assert!(rules.bypasses("sub.other.com"));
}

#[test]
fn no_proxy_star_bypasses_everything() {
    let rules = NoProxyRules::parse("*");
    assert!(rules.bypasses("anything.at.all"));
}

#[test]
fn empty_no_proxy_rules_bypass_nothing() {
    let rules = NoProxyRules::default();
    assert!(!rules.bypasses("example.com"));
}

use rusty_request::proxy::pool_key;
use rusty_request::Url;

#[test]
fn keys_keep_connections_apart() {
    let p = Proxy::http("http://Proxy.example:8080").unwrap();
    let origin = Url::parse("https://Origin.example/").unwrap();
    assert_eq!(p.pool_key(), ("proxy".to_string(), "proxy.example".to_string(), 8080));
    assert_eq!(
        p.tunnel_pool_key(&origin),
        (
            "tunnel:proxy.example:8080".to_string(),
            "origin.example".to_string(),
            443
        )
    );
    assert_eq!(pool_key(&origin), ("https".to_string(), "origin.example".to_string(), 443));
    match Proxy::http("https://proxy.example") {
        Err(e) => assert_eq!(
            e.to_string(),
            "unsupported url scheme: https (only http:// and https:// are supported)"
        ),
        Ok(_) => panic!("an https proxy was accepted"),
    }
}

#[test]
fn rules_from_hosts() {
    let rules = NoProxyRules::from_hosts(&["", " . ", ".A.example", "10.0.0.1"]);
    assert_eq!(rules.entries, vec!["a.example".to_string(), "10.0.0.1".to_string()]);
    assert!(rules.bypasses("x.A.EXAMPLE"));
    assert!(!rules.bypasses("example"));
    assert!(rules.clone().bypasses("10.0.0.1"));
}
