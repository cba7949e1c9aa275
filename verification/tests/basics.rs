use rusty_request::base64;
use rusty_request::rand;
use rusty_request::Body;
use rusty_request::Error;
use rusty_request::HeaderMap;
use rusty_request::Method;
use rusty_request::Request;
use rusty_request::Response;
use rusty_request::StatusCode;
use rusty_request::Url;
use std::time::Duration;

#[test]
fn base64_groups_and_padding() {
    assert_eq!(base64::encode(b""), "");
    assert_eq!(base64::encode(b"f"), "Zg==");
    assert_eq!(base64::encode(b"fo"), "Zm8=");
    assert_eq!(base64::encode(b"foo"), "Zm9v");
    assert_eq!(base64::encode(b"foobar"), "Zm9vYmFy");
    assert_eq!(base64::encode(&[0xfb, 0xff, 0xfe]), "+//+");
    assert_eq!(base64::encode(b"Aladdin:open sesame"), "QWxhZGRpbjpvcGVuIHNlc2FtZQ==");
}

#[test]
fn random_numbers_differ() {
    let a = rand::next_u64();
    assert!((0..8).any(|_| rand::next_u64() != a));
}

#[test]
fn bodies() {
    assert_eq!(Body::from(Vec::new()), Body::Empty);
    assert_eq!(Body::from(&b"xy"[..]), Body::Bytes(vec![120, 121]));
    assert_eq!(Body::from("é").as_bytes(), &[0xc3, 0xa9]);
    assert_eq!(Body::from(String::new()), Body::default());
    assert!(Body::Empty.is_empty());
    assert_eq!(Body::Empty.content_length(), Some(0));
    assert_eq!(Body::from("abc").content_length(), Some(3));
    assert_eq!(Body::streaming(Some(9), 1).content_length(), Some(9));
    assert_eq!(Body::streaming(None, 1).content_length(), None);
    assert!(Body::streaming(None, 1).as_bytes().is_empty());
    assert_eq!(Body::from("abc").clone(), Body::from("abc"));
}

#[test]
fn error_messages() {
    let s = StatusCode::from_u16(407);
    let cases = vec![
        (Error::InvalidUrl("u".into()), "invalid url: u"),
        (
            Error::UnsupportedScheme("ftp".into()),
            "unsupported url scheme: ftp (only http:// and https:// are supported)",
        ),
        (Error::InvalidHeader("h".into()), "invalid header: h"),
        (Error::Io(std::io::Error::other("boom")), "io error: boom"),
        (Error::from(std::io::Error::other("bang")), "io error: bang"),
        (Error::Tls("no anchors".into()), "tls error: no anchors"),
        (
            Error::ProxyConnectFailed(s),
            "proxy rejected CONNECT tunnel with status 407",
        ),
        (Error::InvalidResponse("r".into()), "invalid http response: r"),
        (Error::Json("j".into()), "json error: j"),
        (Error::Timeout, "request timed out"),
        (Error::Status(s), "http error status 407"),
        (
            Error::TooManyRedirects(3),
            "exceeded the maximum number of redirects (3)",
        ),
    ];
    for (e, wanted) in cases {
        assert_eq!(e.to_string(), wanted);
    }
}

#[test]
fn methods_and_statuses() {
    let tokens: Vec<&str> = [
        Method::Get,
        Method::Post,
        Method::Put,
        Method::Patch,
        Method::Delete,
        Method::Head,
        Method::Options,
        Method::Connect,
    ]
    .iter()
    .map(|m| m.as_str())
    .collect();
    assert_eq!(
        tokens,
        vec!["GET", "POST", "PUT", "PATCH", "DELETE", "HEAD", "OPTIONS", "CONNECT"]
    );
    assert!(StatusCode::from_u16(204).is_success());
    assert!(!StatusCode::from_u16(300).is_success());
    assert!(StatusCode::from_u16(499).is_client_error());
    assert!(StatusCode::from_u16(500).is_server_error());
    assert_eq!(StatusCode::from_u16(7).to_string(), "7");
}

fn response(status: u16, body: &[u8]) -> Response {
    Response::new(
        StatusCode::from_u16(status),
        HeaderMap::new(),
        Url::parse("http://h/").unwrap(),
        body.to_vec(),
    )
}

#[test]
fn response_bodies() {
    let r = response(200, "{\"a\":\"é\"}".as_bytes());
    assert_eq!(r.text().unwrap(), "{\"a\":\"é\"}");
    assert_eq!(r.json().unwrap().get("a").unwrap().as_str(), Some("é"));
    assert_eq!(r.bytes().len(), 10);
    assert_eq!(r.status().as_u16(), 200);
    assert_eq!(r.url().host, "h");
    assert!(r.headers().is_empty());
    assert_eq!(r.into_bytes().len(), 10);

    let r = response(200, &[b'a', 0xff]);
    let reason = "response body is not valid UTF-8: invalid utf-8 sequence of 1 bytes from index 1";
    match r.text() {
        Err(Error::InvalidResponse(m)) => assert_eq!(m, reason),
        other => panic!("expected Error::InvalidResponse, got {other:?}"),
    }
    match r.json() {
        Err(Error::Json(m)) => assert_eq!(m, format!("invalid http response: {reason}")),
        other => panic!("expected Error::Json, got {other:?}"),
    }
    match response(200, b"{").json() {
        Err(Error::Json(m)) => assert_eq!(m, "expected `\"` at byte 1, found None"),
        other => panic!("expected Error::Json, got {other:?}"),
    }
}

#[test]
fn statuses_become_errors() {
    assert!(response(399, b"").error_for_status().is_ok());
    assert!(response(600, b"").error_for_status().is_ok());
    for status in [400, 499, 500, 599] {
        match response(status, b"").error_for_status() {
            Err(Error::Status(s)) => assert_eq!(s.as_u16(), status),
            other => panic!("expected Error::Status, got {other:?}"),
        }
    }
}

#[test]
fn request_accessors() {
    let request = Request {
        method: Method::Put,
        url: Url::parse("http://h/p").unwrap(),
        headers: HeaderMap::new(),
        body: Body::from("b"),
        timeout: Some(Duration::from_secs(1)),
    };
    assert_eq!(request.method(), Method::Put);
    assert_eq!(request.url().path, "/p");
    assert!(request.headers().is_empty());
    assert_eq!(request.body().as_bytes(), b"b");
    assert_eq!(request.timeout(), Some(Duration::from_secs(1)));
}

#[test]
fn copies_of_bodies_keep_their_variant() {
    let none = Body::Bytes(Vec::new());
    assert_eq!(none.clone(), none);
    assert_ne!(none.clone(), Body::Empty);
    assert_eq!(Body::Empty.clone(), Body::Empty);
    assert_eq!(Body::from(Vec::new()), Body::Empty);
    let stream = Body::streaming(Some(3), 9);
    assert_eq!(stream.clone(), stream);
}

#[test]
fn errors_in_place_of_a_text_become_json_errors() {
    let io = Error::Io(std::io::Error::other("gone"));
    match rusty_request::response::json_value(Err(io)) {
        Err(Error::Json(m)) => assert_eq!(m, "io error: gone"),
        other => panic!("expected Error::Json, got {other:?}"),
    }
    match rusty_request::response::json_value(Err(Error::Timeout)) {
        Err(Error::Json(m)) => assert_eq!(m, "request timed out"),
        other => panic!("expected Error::Json, got {other:?}"),
    }
}
