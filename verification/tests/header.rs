use rusty_request::HeaderMap;

#[test]
fn insert_is_case_insensitive_and_replaces() {
    let mut h = HeaderMap::new();
    h.insert("Content-Type", "text/plain").unwrap();
    h.insert("content-type", "application/json").unwrap();
    assert_eq!(h.get("CONTENT-TYPE"), Some("application/json"));
    assert_eq!(h.len(), 1);
}

#[test]
fn append_keeps_both() {
    let mut h = HeaderMap::new();
    h.append("X-A", "1").unwrap();
    h.append("X-A", "2").unwrap();
    assert_eq!(h.len(), 2);
}

#[test]
fn rejects_crlf_injection_in_value() {
    let mut h = HeaderMap::new();
    assert!(h.insert("X-A", "evil\r\nX-Injected: yes").is_err());
}

#[test]
fn rejects_colon_in_name() {
    let mut h = HeaderMap::new();
    assert!(h.insert("X-A:", "1").is_err());
}

#[test]
fn names_and_values_are_validated() {
    let mut h = HeaderMap::new();
    h.insert("X-A", "1").unwrap();
    assert_eq!(
        h.insert("", "1").unwrap_err().to_string(),
        "invalid header: invalid header name ``"
    );
    assert_eq!(
        h.append("X A", "1").unwrap_err().to_string(),
        "invalid header: invalid header name `X A`"
    );
    assert_eq!(
        h.append("X-É", "1").unwrap_err().to_string(),
        "invalid header: invalid header name `X-É`"
    );
    assert_eq!(
        h.append("X-A", "a\nb").unwrap_err().to_string(),
        "invalid header: header value must not contain CR/LF: `a\nb`"
    );
    assert_eq!(h.len(), 1);
    assert!(!h.is_empty());
}

#[test]
fn removal_and_iteration() {
    let mut h = HeaderMap::new();
    assert!(h.is_empty());
    h.append("Set-Cookie", "a=1").unwrap();
    h.append("X-Other", "v").unwrap();
    h.append("set-cookie", "b=2").unwrap();
    assert_eq!(h.get_all("SET-COOKIE"), vec!["a=1", "b=2"]);
    assert_eq!(
        h.iter(),
        vec![("Set-Cookie", "a=1"), ("X-Other", "v"), ("set-cookie", "b=2")]
    );
    let copy = h.clone();
    h.remove("SET-cookie");
    assert_eq!(h.iter(), vec![("X-Other", "v")]);
    assert!(!h.contains("Set-Cookie"));
    assert!(copy.contains("Set-Cookie"));
    assert_eq!(copy.get("x-other"), Some("v"));
    assert_ne!(copy, h);
}
