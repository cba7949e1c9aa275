use rusty_request::hop::after_attempt;
use rusty_request::hop::AttemptStep;
use rusty_request::hop::DialStep;
use rusty_request::hop::Dialing;
use rusty_request::hop::TunnelReply;
use rusty_request::hop::TunnelStep;
use rusty_request::hop::MAX_CONNECT_RESPONSE_LEN;
use rusty_request::http1::connection_says_close;
use rusty_request::http1::drain_body;
use rusty_request::http1::framing_for;
use rusty_request::http1::parse_header_line;
use rusty_request::http1::parse_status_line;
use rusty_request::http1::BodyStep;
use rusty_request::http1::BufReader;
use rusty_request::http1::DrainStep;
use rusty_request::http1::Framing;
use rusty_request::http1::HeadReader;
use rusty_request::http1::HeadStep;
use rusty_request::http1::LineStep;
use rusty_request::http1::StreamingBody;
use rusty_request::http1::MAX_LINE_LEN;
use rusty_request::http1::MAX_RESPONSE_HEAD_LEN;
use rusty_request::pool::ConnectionPool;
use rusty_request::wire;
use rusty_request::Body;
use rusty_request::Error;
use rusty_request::HeaderMap;
use rusty_request::Method;
use rusty_request::StatusCode;
use std::time::Duration;

fn message(e: Error) -> String {
    match e {
        Error::InvalidResponse(m) => m,
        other => panic!("expected Error::InvalidResponse, got {other:?}"),
    }
}

/// Reads a body piece by piece, with `step` bytes arriving at a time, and
/// gives what came before the end or the fault.
fn read_body(framing: Framing, mut bytes: &[u8], step: usize) -> (Vec<u8>, Option<String>) {
    let mut body = StreamingBody::new(BufReader::new(), framing, false);
    let mut out = Vec::new();
    let mut closed = false;
    loop {
        match body.next_chunk(closed) {
            BodyStep::Chunk(c) => {
                assert!(!c.is_empty() && c.len() <= 8192);
                out.extend_from_slice(&c);
            }
            BodyStep::Done => return (out, None),
            BodyStep::Failed(e) => return (out, Some(message(e))),
            BodyStep::NeedData => {
                let n = body.room().min(step).min(bytes.len());
                body.accept(&bytes[..n]);
                bytes = &bytes[n..];
                closed = n == 0;
            }
        }
    }
}

fn drain(framing: Framing, mut bytes: &[u8]) -> Result<Vec<u8>, String> {
    let mut drain = drain_body(BufReader::new(), framing);
    let mut closed = false;
    loop {
        match drain.step(closed) {
            DrainStep::Complete(out) => return Ok(out),
            DrainStep::Failed(e) => return Err(message(e)),
            DrainStep::NeedData => {
                let n = drain.room().min(11).min(bytes.len());
                drain.accept(&bytes[..n]);
                bytes = &bytes[n..];
                closed = n == 0;
            }
        }
    }
}

#[test]
fn pieces_do_not_depend_on_arrival() {
    let wire = b"5;ext=1\r\nhello\r\n +6 \r\n world\r\n0\r\nTrailer: x\r\n\r\nnext";
    for step in 1..60 {
        assert_eq!(read_body(Framing::Chunked, wire, step), (b"hello world".to_vec(), None));
        assert_eq!(read_body(Framing::ContentLength(5), b"helloX", step), (b"hello".to_vec(), None));
        assert_eq!(read_body(Framing::Close, b"to the end", step), (b"to the end".to_vec(), None));
        assert_eq!(read_body(Framing::NoBody, b"x", step), (Vec::new(), None));
    }
    assert_eq!(drain(Framing::Chunked, wire), Ok(b"hello world".to_vec()));
    assert_eq!(drain(Framing::ContentLength(0), b""), Ok(Vec::new()));
    assert_eq!(drain(Framing::Close, b"abc"), Ok(b"abc".to_vec()));
    assert_eq!(drain(Framing::NoBody, b"abc"), Ok(Vec::new()));
}

#[test]
fn faults_in_bodies() {
    let cases: Vec<(&[u8], &[u8], &str, &str)> = vec![
        (b"", b"", "connection closed reading chunk size", "connection closed reading chunk size"),
        (b"zz\r\n", b"", "invalid chunk size `zz`", "invalid chunk size `zz`"),
        (b"5", b"", "connection closed mid-line", "connection closed mid-line"),
        (
            b"5\r\nhel",
            b"hel",
            "connection closed reading chunk data",
            "connection closed before the full body arrived",
        ),
        (
            b"5\r\nhello",
            b"hello",
            "connection closed after chunk data",
            "connection closed after chunk data",
        ),
        (b"1\r\nab\r\n", b"a", "malformed chunk terminator", "malformed chunk terminator"),
        (
            b"0\r\nTrailer: x\r\n",
            b"",
            "connection closed reading chunk trailer",
            "connection closed reading chunk trailer",
        ),
        (b"\xff\r\n", b"", "non-UTF-8 response line", "non-UTF-8 response line"),
    ];
    for (wire, before, piecewise, whole) in cases {
        assert_eq!(
            read_body(Framing::Chunked, wire, 2),
            (before.to_vec(), Some(piecewise.to_string()))
        );
        assert_eq!(drain(Framing::Chunked, wire), Err(whole.to_string()));
    }
    let short = "connection closed before the full body arrived".to_string();
    assert_eq!(
        read_body(Framing::ContentLength(9), b"abc", 2),
        (b"abc".to_vec(), Some(short.clone()))
    );
    assert_eq!(drain(Framing::ContentLength(9), b"abc"), Err(short));
}

#[test]
fn written_chunks_read_back() {
    let mut wire = Vec::new();
    let mut wanted = Vec::new();
    for size in [1usize, 15, 16, 4096, 70000] {
        let piece = vec![(size % 251) as u8; size];
        wire.extend_from_slice(&wire::write_piece(false, &piece));
        wanted.extend_from_slice(&piece);
    }
    wire.extend_from_slice(&wire::write_ending(false));
    assert_eq!(read_body(Framing::Chunked, &wire, 1000), (wanted.clone(), None));
    assert_eq!(wire::write_piece(false, &[7; 31])[..4], *b"1f\r\n");
    assert_eq!(wire::write_piece(true, b"ab"), b"ab");
    assert!(wire::write_ending(true).is_empty());
    assert_eq!(wire::write_ending(false), b"0\r\n\r\n");
}

#[test]
fn lines_are_bounded() {
    let mut reader = BufReader::new();
    let piece = vec![b'x'; 65536];
    let mut held = 0;
    let outcome = loop {
        match reader.read_line(false) {
            LineStep::NeedData => {
                let n = reader.room().min(piece.len());
                assert!(n > 0);
                reader.accept(&piece[..n]);
                held += n;
            }
            LineStep::Failed(e) => break message(e),
            _ => panic!("a line ended"),
        }
    };
    assert_eq!(held, MAX_LINE_LEN);
    assert_eq!(reader.room(), 0);
    assert_eq!(outcome, "response line exceeded the maximum allowed length");
}

#[test]
fn lines_lose_their_ends() {
    let mut reader = BufReader::new();
    reader.room();
    reader.accept("é\r\n\nx\r\r\nrest".as_bytes());
    let mut lines = Vec::new();
    while let LineStep::Line(line) = reader.read_line(false) {
        lines.push(line);
    }
    assert_eq!(lines, vec!["é", "", "x\r"]);
    assert!(matches!(reader.read_line(true), LineStep::Failed(_)));
    assert!(matches!(BufReader::new().read_line(true), LineStep::Closed));
}

fn status_message(line: &str) -> String {
    message(parse_status_line(line).unwrap_err())
}

#[test]
fn status_lines() {
    let (status, reason) = parse_status_line("HTTP/1.1 404 Not Found").unwrap();
    assert_eq!(status.as_u16(), 404);
    assert_eq!(reason, "Not Found");
    let (status, reason) = parse_status_line("HTTP/1.0 200").unwrap();
    assert_eq!(status.as_u16(), 200);
    assert_eq!(reason, "");
    assert_eq!(status_message("HTTP/2 200"), "unsupported HTTP version `HTTP/2`");
    assert_eq!(status_message(""), "unsupported HTTP version ``");
    assert_eq!(status_message("HTTP/1.1"), "missing status code");
    assert_eq!(status_message("HTTP/1.1 2xx OK"), "invalid status code `2xx`");
    assert_eq!(status_message("HTTP/1.1  OK"), "invalid status code ``");
    assert_eq!(
        parse_header_line(" X-A : b: c ").unwrap(),
        ("X-A".to_string(), "b: c".to_string())
    );
    assert_eq!(
        message(parse_header_line("no colon").unwrap_err()),
        "malformed header line `no colon`"
    );
}

fn read_head(bytes: &[u8]) -> Result<(u16, String, usize), String> {
    let mut reader = HeadReader::new();
    let mut rest = bytes;
    let mut closed = false;
    loop {
        match reader.read_head(closed) {
            HeadStep::Head(head) => {
                return Ok((head.status.as_u16(), head.reason, head.headers.len()))
            }
            HeadStep::Failed(e) => return Err(e.to_string()),
            HeadStep::NeedData => {
                let n = reader.room().min(4).min(rest.len());
                reader.accept(&rest[..n]);
                rest = &rest[n..];
                closed = n == 0;
            }
        }
    }
}

#[test]
fn heads() {
    assert_eq!(
        read_head(b"HTTP/1.1 200 All Right\r\nA: 1\r\nB: 2\r\n\r\nbody"),
        Ok((200, "All Right".to_string(), 2))
    );
    assert_eq!(
        read_head(b""),
        Err("invalid http response: connection closed before any response".to_string())
    );
    assert_eq!(
        read_head(b"HTTP/1.1 200 OK\r\n"),
        Err("invalid http response: connection closed while reading headers".to_string())
    );
    assert_eq!(
        read_head(b"HTTP/1.1 200 OK\r\nbad name: x\r\n\r\n"),
        Err("invalid header: invalid header name `bad name`".to_string())
    );
}

fn headers(entries: &[(&str, &str)]) -> HeaderMap {
    let mut h = HeaderMap::new();
    for (name, value) in entries {
        h.append(name, value).unwrap();
    }
    h
}

#[test]
fn framing() {
    let status = StatusCode::from_u16;
    let both = headers(&[("Transfer-Encoding", "gzip, Chunked "), ("Content-Length", "5")]);
    assert_eq!(framing_for(&both, Method::Get, status(200)).unwrap(), Framing::Chunked);
    assert_eq!(framing_for(&both, Method::Head, status(200)).unwrap(), Framing::NoBody);
    for code in [100, 199, 204, 304] {
        assert_eq!(framing_for(&both, Method::Get, status(code)).unwrap(), Framing::NoBody);
    }
    let other = headers(&[("Transfer-Encoding", "chunked, gzip"), ("content-length", " 5 ")]);
    assert_eq!(
        framing_for(&other, Method::Get, status(200)).unwrap(),
        Framing::ContentLength(5)
    );
    assert_eq!(
        framing_for(&headers(&[]), Method::Get, status(200)).unwrap(),
        Framing::Close
    );
    assert_eq!(
        message(framing_for(&headers(&[("Content-Length", "-1")]), Method::Get, status(200)).unwrap_err()),
        "invalid Content-Length `-1`"
    );
    assert!(connection_says_close(&headers(&[("Connection", "keep-alive, CLOSE ")])));
    assert!(!connection_says_close(&headers(&[("Connection", "closed")])));
    assert!(!connection_says_close(&headers(&[])));
}

#[test]
fn request_heads() {
    let h = headers(&[("A", "1"), ("B", "é")]);
    assert_eq!(
        wire::write_request(Method::Post, "/p?q", "h:81", &h, &Body::from("xyz")),
        "POST /p?q HTTP/1.1\r\nHost: h:81\r\nA: 1\r\nB: é\r\n\r\nxyz".as_bytes()
    );
    assert_eq!(
        wire::write_request(Method::Get, "/", "h", &HeaderMap::new(), &Body::streaming(None, 1)),
        b"GET / HTTP/1.1\r\nHost: h\r\n\r\n"
    );
}

#[test]
fn idle_connections() {
    let key = |host: &str| ("http".to_string(), host.to_string(), 80u16);
    let mut pool: ConnectionPool<u32> = ConnectionPool::new(2, Duration::from_nanos(10));
    assert_eq!(pool.take(&key("a"), 0), None);
    pool.put(key("a"), 1, 0);
    pool.put(key("a"), 2, 5);
    pool.put(key("a"), 3, 5);
    pool.put(key("b"), 4, 0);
    assert_eq!(pool.take(&key("a"), 9), Some(2));
    assert_eq!(pool.take(&key("a"), 9), Some(1));
    assert_eq!(pool.take(&key("a"), 9), None);
    // What has been idle for the timeout is dropped.
    assert_eq!(pool.take(&key("b"), 10), None);
    assert_eq!(pool.take(&key("b"), 0), None);
    let mut none: ConnectionPool<u32> = ConnectionPool::new(0, Duration::from_secs(1));
    none.put(key("a"), 1, 0);
    assert_eq!(none.take(&key("a"), 0), None);
}

/// Asks for a tunnel, and says what is left of the bytes once it is open.
fn tunnel(mut bytes: &[u8]) -> Result<Vec<u8>, Error> {
    let mut reply = TunnelReply::new();
    let mut closed = false;
    loop {
        match reply.step(closed) {
            TunnelStep::Open => return Ok(bytes.to_vec()),
            TunnelStep::Failed(e) => return Err(e),
            TunnelStep::NeedByte => match bytes.split_first() {
                Some((byte, rest)) => {
                    reply.accept(*byte);
                    bytes = rest;
                }
                None => closed = true,
            },
        }
    }
}

#[test]
fn tunnels() {
    let answer = b"HTTP/1.1 200 Connection established\r\nVia: p\r\n\r\n\x16\x03\n";
    assert_eq!(tunnel(answer).unwrap(), b"\x16\x03\n");
    match tunnel(b"HTTP/1.1 403 Forbidden\r\n\r\nno") {
        Err(Error::ProxyConnectFailed(s)) => assert_eq!(s.as_u16(), 403),
        other => panic!("expected Error::ProxyConnectFailed, got {other:?}"),
    }
    assert_eq!(
        message(tunnel(b"HTTP/1.1 200 OK\r\n").unwrap_err()),
        "connection closed while reading headers"
    );
    let head = b"HTTP/1.1 200 OK\r\nA: ".to_vec();
    for (length, opens) in [
        (MAX_CONNECT_RESPONSE_LEN, true),
        (MAX_CONNECT_RESPONSE_LEN + 1, false),
    ] {
        let mut answer = head.clone();
        answer.resize(length - 4, b'x');
        answer.extend_from_slice(b"\r\n\r\n");
        let outcome = tunnel(&answer);
        if opens {
            assert!(outcome.unwrap().is_empty());
        } else {
            assert_eq!(
                message(outcome.unwrap_err()),
                "CONNECT response exceeded the maximum allowed length"
            );
        }
    }
}

#[test]
fn addresses_are_tried_in_turn() {
    let mut dialing = Dialing::new(3);
    assert!(matches!(dialing.after::<u8>(Err(Error::Timeout)), DialStep::Dial(1)));
    assert!(matches!(dialing.after::<u8>(Err(Error::Timeout)), DialStep::Dial(2)));
    match dialing.after::<u8>(Err(Error::TooManyRedirects(7))) {
        DialStep::Failed(Error::TooManyRedirects(7)) => {}
        _ => panic!("expected the last failure"),
    }
    assert!(matches!(Dialing::new(1).after(Ok(5u8)), DialStep::Connected(5)));
}

#[test]
fn pooled_connections_may_be_stale() {
    assert!(matches!(after_attempt(true, Ok(1u8)), AttemptStep::Respond(1)));
    assert!(matches!(after_attempt(false, Ok(1u8)), AttemptStep::Respond(1)));
    assert!(matches!(
        after_attempt::<u8>(true, Err(Error::Timeout)),
        AttemptStep::DialFresh
    ));
    assert!(matches!(
        after_attempt::<u8>(false, Err(Error::Timeout)),
        AttemptStep::Fail(Error::Timeout)
    ));
}

#[test]
fn heads_are_bounded() {
    // Many short lines, up to the bound and one byte past it.
    let line = b"A: 12345678901234567890123456789\r\n".to_vec();
    for (extra, fits) in [(0usize, true), (1, false)] {
        let mut head = b"HTTP/1.1 200 OK\r\n".to_vec();
        while head.len() + line.len() + 64 <= MAX_RESPONSE_HEAD_LEN {
            head.extend_from_slice(&line);
        }
        head.extend_from_slice(b"B: ");
        head.resize(MAX_RESPONSE_HEAD_LEN - 4 + extra, b'x');
        head.extend_from_slice(b"\r\n\r\n");
        assert_eq!(head.len(), MAX_RESPONSE_HEAD_LEN + extra);
        let mut reader = HeadReader::new();
        let mut rest = &head[..];
        let outcome = loop {
            match reader.read_head(false) {
                HeadStep::Head(_) => break Ok(()),
                HeadStep::Failed(e) => break Err(message(e)),
                HeadStep::NeedData => {
                    let n = reader.room().min(rest.len());
                    assert!(n > 0);
                    reader.accept(&rest[..n]);
                    rest = &rest[n..];
                }
            }
        };
        if fits {
            assert_eq!(outcome, Ok(()));
        } else {
            assert_eq!(
                outcome,
                Err("response head exceeded the maximum allowed length".to_string())
            );
        }
    }
}

#[test]
fn extensions_and_trailers_are_not_data() {
    let wire = "3;name=\"välue\"\r\nabc\r\n2\r\nde\r\n0;last\r\nX: ü\r\nY: 2\r\n\r\nGET";
    for step in [1usize, 2, 3, 100] {
        assert_eq!(
            read_body(Framing::Chunked, wire.as_bytes(), step),
            (b"abcde".to_vec(), None)
        );
    }
    assert_eq!(drain(Framing::Chunked, wire.as_bytes()), Ok(b"abcde".to_vec()));
}
