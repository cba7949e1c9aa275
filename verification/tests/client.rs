//! Whole requests over a network that lives in memory: servers are closures
//! from requests to response bytes, and connections hand the bytes over in
//! small pieces.

use rusty_request::client::ProxyEnv;
use rusty_request::cookie::CookieJar;
use rusty_request::exchange;
use rusty_request::hop;
use rusty_request::hop::AttemptStep;
use rusty_request::http1;
use rusty_request::http1::BodyStep;
use rusty_request::http1::HeadReader;
use rusty_request::http1::HeadStep;
use rusty_request::http1::RawResponse;
use rusty_request::http1::ResponseReader;
use rusty_request::http1::ResponseStep;
use rusty_request::pool::ConnectionPool;
use rusty_request::redirect::redirect_location;
use rusty_request::redirect::Decision;
use rusty_request::retry::RetryState;
use rusty_request::retry::RetryStep;
use rusty_request::wire;
use rusty_request::Backoff;
use rusty_request::Body;
use rusty_request::Client;
use rusty_request::Error;
use rusty_request::HeaderMap;
use rusty_request::Json;
use rusty_request::Multipart;
use rusty_request::Request;
use rusty_request::RequestBuilder;
use rusty_request::Response;
use rusty_request::Result;
use rusty_request::RetryPolicy;
use rusty_request::StreamingResponse;
use rusty_request::Url;
use std::cell::Cell;
use std::cell::RefCell;
use std::collections::HashMap;
use std::rc::Rc;
use std::time::Duration;

struct TestRequest {
    method: String,
    target: String,
    headers: Vec<(String, String)>,
    body: Vec<u8>,
}

impl TestRequest {
    fn header(&self, name: &str) -> Option<&str> {
        self.headers
            .iter()
            .find(|(k, _)| k.eq_ignore_ascii_case(name))
            .map(|(_, v)| v.as_str())
    }
}

fn read_request(bytes: &[u8]) -> TestRequest {
    let end = bytes.windows(4).position(|w| w == b"\r\n\r\n").unwrap();
    let head = std::str::from_utf8(&bytes[..end]).unwrap();
    let mut lines = head.split("\r\n");
    let mut first = lines.next().unwrap().split(' ');
    let mut request = TestRequest {
        method: first.next().unwrap().to_string(),
        target: first.next().unwrap().to_string(),
        headers: Vec::new(),
        body: Vec::new(),
    };
    assert_eq!(first.next(), Some("HTTP/1.1"));
    for line in lines {
        let (name, value) = line.split_once(": ").unwrap();
        request.headers.push((name.to_string(), value.to_string()));
    }
    let mut rest = &bytes[end + 4..];
    if request.header("transfer-encoding") == Some("chunked") {
        loop {
            let p = rest.windows(2).position(|w| w == b"\r\n").unwrap();
            let size = usize::from_str_radix(std::str::from_utf8(&rest[..p]).unwrap(), 16).unwrap();
            rest = &rest[p + 2..];
            request.body.extend_from_slice(&rest[..size]);
            assert_eq!(&rest[size..size + 2], b"\r\n");
            rest = &rest[size + 2..];
            if size == 0 {
                break;
            }
        }
        assert!(rest.is_empty());
    } else {
        request.body = rest.to_vec();
        let length = request.header("content-length").unwrap();
        assert_eq!(length, request.body.len().to_string());
    }
    request
}

type Handler = Box<dyn FnMut(&TestRequest) -> Vec<u8>>;

struct Server {
    handler: Handler,
    connections: usize,
    /// Whether the server hangs up after each response without saying so.
    hangs_up: bool,
    /// How many connections it refuses first.
    refusals: usize,
}

#[derive(Default)]
struct Network {
    servers: HashMap<u16, Server>,
    /// What streaming bodies read from, and in pieces of which size.
    sources: HashMap<u64, (Vec<u8>, usize)>,
    slept: Duration,
}

struct Conn {
    port: u16,
    dead: bool,
}

fn http_response(status: u16, reason: &str, headers: &[(&str, &str)], body: &[u8]) -> Vec<u8> {
    let mut out = format!("HTTP/1.1 {status} {reason}\r\n").into_bytes();
    for (k, v) in headers {
        out.extend_from_slice(format!("{k}: {v}\r\n").as_bytes());
    }
    out.extend_from_slice(format!("Content-Length: {}\r\n\r\n", body.len()).as_bytes());
    out.extend_from_slice(body);
    out
}

fn http_chunked_response(
    status: u16,
    reason: &str,
    headers: &[(&str, &str)],
    chunks: &[&[u8]],
) -> Vec<u8> {
    let mut out = format!("HTTP/1.1 {status} {reason}\r\n").into_bytes();
    for (k, v) in headers {
        out.extend_from_slice(format!("{k}: {v}\r\n").as_bytes());
    }
    out.extend_from_slice(b"Transfer-Encoding: chunked\r\n\r\n");
    for chunk in chunks {
        out.extend_from_slice(format!("{:x}\r\n", chunk.len()).as_bytes());
        out.extend_from_slice(chunk);
        out.extend_from_slice(b"\r\n");
    }
    out.extend_from_slice(b"0\r\n\r\n");
    out
}

impl Network {
    fn serve(&mut self, port: u16, handler: impl FnMut(&TestRequest) -> Vec<u8> + 'static) {
        self.servers.insert(
            port,
            Server {
                handler: Box::new(handler),
                connections: 0,
                hangs_up: false,
                refusals: 0,
            },
        );
    }

    fn connections(&self, port: u16) -> usize {
        self.servers[&port].connections
    }

    fn dial(&mut self, host: &str, port: u16) -> Result<Conn> {
        assert_eq!(host, "127.0.0.1", "no such host");
        let server = self.servers.get_mut(&port).unwrap();
        if server.refusals > 0 {
            server.refusals -= 1;
            return Err(Error::Io(std::io::Error::other("connection refused")));
        }
        server.connections += 1;
        Ok(Conn { port, dead: false })
    }

    /// Sends a request and gives back all that the server answers.
    fn answer(&mut self, conn: &mut Conn, request: &Request, target: &str) -> Result<Vec<u8>> {
        let mut bytes = hop::build_request_head(request, target)?;
        if let Body::Stream(s) = &request.body {
            let (data, step) = self.sources[&s.source].clone();
            let known = s.len().is_some();
            for piece in data.chunks(step) {
                bytes.extend_from_slice(&wire::write_piece(known, piece));
            }
            bytes.extend_from_slice(&wire::write_ending(known));
        }
        if conn.dead {
            return Ok(Vec::new());
        }
        let server = self.servers.get_mut(&conn.port).unwrap();
        conn.dead = server.hangs_up;
        Ok((server.handler)(&read_request(&bytes)))
    }

    fn attempt(&mut self, conn: &mut Conn, request: &Request, target: &str) -> Result<RawResponse> {
        let mut arriving = self.answer(conn, request, target)?;
        let mut reader = ResponseReader::new(request.method);
        let mut closed = false;
        loop {
            match reader.step(closed) {
                ResponseStep::Response(raw) => return Ok(raw),
                ResponseStep::Failed(e) => return Err(e),
                ResponseStep::NeedData => {
                    let n = reader.room().min(7).min(arriving.len());
                    reader.accept(&arriving[..n]);
                    arriving.drain(..n);
                    closed = n == 0;
                }
            }
        }
    }
}

struct Session {
    jar: CookieJar,
    pool: ConnectionPool<Conn>,
}

impl Session {
    fn new(client: &Client) -> Session {
        let pool = client.settings.pool;
        Session {
            jar: CookieJar::new(),
            pool: ConnectionPool::new(pool.max_idle_per_host, pool.idle_timeout),
        }
    }

    fn send(&mut self, net: &mut Network, builder: RequestBuilder) -> Result<Response> {
        let Some(policy) = &builder.settings.retry_policy else {
            return self.send_with_redirects(net, &builder);
        };
        let mut state = RetryState::new(policy.clone());
        loop {
            let outcome = self.send_with_redirects(net, &builder);
            match state.after(builder.method, &outcome, 0, 0) {
                RetryStep::Finish => return outcome,
                RetryStep::Wait(d) => net.slept += d,
            }
        }
    }

    fn send_with_redirects(&mut self, net: &mut Network, builder: &RequestBuilder) -> Result<Response> {
        let mut chain = exchange::begin(builder);
        loop {
            let settings = &builder.settings;
            let request = exchange::next_request(&chain, settings, &mut self.jar, 0)?;
            let raw = self.send_one_hop(net, &request, builder)?;
            let status = raw.status.as_u16();
            let decision = exchange::after_response(
                &chain,
                settings,
                &mut self.jar,
                raw.status,
                &raw.headers,
                0,
            );
            match decision {
                Decision::Finish => {
                    return Ok(Response::new(raw.status, raw.headers, chain.url, raw.body))
                }
                Decision::TooMany(max) => return Err(Error::TooManyRedirects(max)),
                Decision::Follow => {
                    let location = redirect_location(raw.status, &raw.headers)?;
                    let next = resolve(&chain.url, &location)?;
                    chain = chain.follow(status, next);
                }
            }
        }
    }

    fn send_one_hop(
        &mut self,
        net: &mut Network,
        request: &Request,
        builder: &RequestBuilder,
    ) -> Result<RawResponse> {
        let settings = &builder.settings;
        let target = exchange::route(settings, &request.url);
        let mut pooled = exchange::idle_connection(settings, &mut self.pool, &target, 0);
        loop {
            let from_pool = pooled.is_some();
            let mut conn = match pooled.take() {
                Some(conn) => conn,
                None => net.dial(&target.connect_host, target.connect_port)?,
            };
            let outcome = net.attempt(&mut conn, request, &target.request_target);
            match hop::after_attempt(from_pool, outcome) {
                AttemptStep::Respond(raw) => {
                    let keep_alive = raw.keep_alive;
                    exchange::keep_connection(settings, &mut self.pool, target, conn, keep_alive, 0);
                    return Ok(raw);
                }
                AttemptStep::DialFresh => {}
                AttemptStep::Fail(e) => return Err(e),
            }
        }
    }

    /// The response to a request, with what is still to arrive of it.
    fn send_streaming(
        &mut self,
        net: &mut Network,
        builder: RequestBuilder,
    ) -> Result<(StreamingResponse, Vec<u8>)> {
        let mut chain = exchange::begin(&builder);
        loop {
            let settings = &builder.settings;
            let request = exchange::next_request(&chain, settings, &mut self.jar, 0)?;
            let target = exchange::route(settings, &request.url);
            let mut conn = net.dial(&target.connect_host, target.connect_port)?;
            let mut arriving = net.answer(&mut conn, &request, &target.request_target)?;
            let mut reader = HeadReader::new();
            let mut closed = false;
            let head = loop {
                match reader.read_head(closed) {
                    HeadStep::Head(head) => break head,
                    HeadStep::Failed(e) => return Err(e),
                    HeadStep::NeedData => {
                        let n = reader.room().min(5).min(arriving.len());
                        reader.accept(&arriving[..n]);
                        arriving.drain(..n);
                        closed = n == 0;
                    }
                }
            };
            let raw = http1::streaming_response(head, reader.into_reader(), chain.method)?;
            let status = raw.status.as_u16();
            let decision = exchange::after_response(
                &chain,
                settings,
                &mut self.jar,
                raw.status,
                &raw.headers,
                0,
            );
            let mut response =
                StreamingResponse::new(raw.status, raw.headers, chain.url.clone(), raw.body);
            match decision {
                Decision::Finish => return Ok((response, arriving)),
                Decision::TooMany(max) => return Err(Error::TooManyRedirects(max)),
                Decision::Follow => {
                    collect(&mut response, &mut arriving)?;
                    let location = redirect_location(response.status(), response.headers())?;
                    let next = resolve(&chain.url, &location)?;
                    chain = chain.follow(status, next);
                }
            }
        }
    }
}

fn resolve(base: &Url, location: &str) -> Result<Url> {
    if location.starts_with('/') {
        let mut next = base.clone();
        next.path = location.to_string();
        next.query = None;
        Ok(next)
    } else {
        Url::parse(location)
    }
}

fn collect(response: &mut StreamingResponse, arriving: &mut Vec<u8>) -> Result<Vec<u8>> {
    let mut out = Vec::new();
    let mut closed = false;
    loop {
        match response.chunk(closed) {
            BodyStep::Chunk(chunk) => out.extend_from_slice(&chunk),
            BodyStep::Done => return Ok(out),
            BodyStep::Failed(e) => return Err(e),
            BodyStep::NeedData => {
                let n = response.body.room().min(3).min(arriving.len());
                response.body.accept(&arriving[..n]);
                arriving.drain(..n);
                closed = n == 0;
            }
        }
    }
}

fn url(port: u16, path: &str) -> String {
    format!("http://127.0.0.1:{port}{path}")
}

fn send(net: &mut Network, client: &Client, builder: RequestBuilder) -> Result<Response> {
    Session::new(client).send(net, builder)
}

fn get(net: &mut Network, url: &str) -> Result<Response> {
    let client = Client::new();
    let builder = client.get(url)?;
    send(net, &client, builder)
}

#[test]
fn get_returns_status_headers_and_text() {
    let mut net = Network::default();
    net.serve(80, |req| {
        assert_eq!(req.method, "GET");
        http_response(200, "OK", &[("X-Test", "yes")], b"hello world")
    });
    let resp = get(&mut net, &url(80, "/hello")).unwrap();
    assert_eq!(resp.status().as_u16(), 200);
    assert!(resp.status().is_success());
    assert_eq!(resp.headers().get("x-test"), Some("yes"));
    assert_eq!(resp.text().unwrap(), "hello world");
}

#[test]
fn post_json_body_round_trips() {
    let mut net = Network::default();
    net.serve(80, |req| {
        assert_eq!(req.method, "POST");
        assert_eq!(req.header("content-type"), Some("application/json"));
        let received = Json::parse(std::str::from_utf8(&req.body).unwrap()).unwrap();
        let mut echoed = Json::object();
        echoed.insert("you_sent", received);
        http_response(
            201,
            "Created",
            &[("Content-Type", "application/json")],
            echoed.to_json_string().as_bytes(),
        )
    });
    let mut body = Json::object();
    body.insert("name", Json::from("Ada"));
    body.insert("age", Json::from(36));
    let client = Client::new();
    let builder = client.post(&url(80, "/things")).unwrap().json(&body).unwrap();
    let resp = send(&mut net, &client, builder).unwrap();
    assert_eq!(resp.status().as_u16(), 201);
    let json = resp.json().unwrap();
    let sent = json.get("you_sent").unwrap();
    assert_eq!(sent.get("name").unwrap().as_str(), Some("Ada"));
    let age: f64 = sent.get("age").unwrap().as_number().unwrap().parse().unwrap();
    assert_eq!(age, 36.0);
}

#[test]
fn multipart_upload_reaches_the_server_with_a_matching_boundary_and_parts() {
    let mut net = Network::default();
    net.serve(80, |req| {
        assert_eq!(req.method, "POST");
        let content_type = req.header("content-type").unwrap().to_string();
        assert!(content_type.starts_with("multipart/form-data; boundary="));
        let boundary = content_type
            .strip_prefix("multipart/form-data; boundary=")
            .unwrap();
        let body = String::from_utf8_lossy(&req.body);
        assert!(body.contains(&format!("--{boundary}\r\n")));
        assert!(body.contains("Content-Disposition: form-data; name=\"title\"\r\n\r\nMy Upload"));
        assert!(body.contains(
            "Content-Disposition: form-data; name=\"file\"; filename=\"a.txt\"\r\n\
             Content-Type: text/plain\r\n\r\nhello file"
        ));
        assert!(body.ends_with(&format!("--{boundary}--\r\n")));
        http_response(200, "OK", &[], b"ok")
    });
    let form = Multipart::new()
        .text("title", "My Upload")
        .file_with_content_type("file", "a.txt", "text/plain", b"hello file".to_vec());
    let client = Client::new();
    let builder = client.post(&url(80, "/upload")).unwrap().multipart(form).unwrap();
    assert_eq!(send(&mut net, &client, builder).unwrap().status().as_u16(), 200);
}

#[test]
fn streaming_request_body_with_known_length_uses_content_length() {
    let payload = vec![b'x'; 20_000];
    let expected = payload.clone();
    let mut net = Network::default();
    net.sources.insert(1, (payload.clone(), 777));
    net.serve(80, move |req| {
        assert_eq!(req.method, "POST");
        assert_eq!(req.header("content-length"), Some("20000"));
        assert!(req.header("transfer-encoding").is_none());
        assert_eq!(req.body, expected);
        http_response(200, "OK", &[], b"ok")
    });
    let client = Client::new();
    let body = Body::streaming(Some(payload.len() as u64), 1);
    let builder = client.post(&url(80, "/")).unwrap().body(body);
    assert_eq!(send(&mut net, &client, builder).unwrap().status().as_u16(), 200);
}

#[test]
fn streaming_request_body_with_unknown_length_uses_chunked_encoding() {
    let payload = vec![b'y'; 20_000];
    let expected = payload.clone();
    let mut net = Network::default();
    net.sources.insert(1, (payload, 777));
    net.serve(80, move |req| {
        assert_eq!(req.method, "POST");
        assert_eq!(req.header("transfer-encoding"), Some("chunked"));
        assert!(req.header("content-length").is_none());
        assert_eq!(req.body, expected);
        http_response(200, "OK", &[], b"ok")
    });
    let client = Client::new();
    let builder = client.post(&url(80, "/")).unwrap().body(Body::streaming(None, 1));
    assert_eq!(send(&mut net, &client, builder).unwrap().status().as_u16(), 200);
}

#[test]
fn streaming_request_body_is_reopened_for_a_preserved_redirect_hop() {
    let calls = Rc::new(Cell::new(0));
    let counter = calls.clone();
    let mut net = Network::default();
    net.sources.insert(1, (b"reopen me".to_vec(), 3));
    net.serve(80, move |req| {
        assert_eq!(req.body, b"reopen me");
        counter.set(counter.get() + 1);
        if counter.get() == 1 {
            http_response(307, "Temporary Redirect", &[("Location", "/next")], b"")
        } else {
            http_response(200, "OK", &[], b"ok")
        }
    });
    let client = Client::new();
    let builder = client.post(&url(80, "/first")).unwrap().body(Body::streaming(Some(9), 1));
    assert_eq!(send(&mut net, &client, builder).unwrap().status().as_u16(), 200);
    assert_eq!(calls.get(), 2);
}

fn streamed(net: &mut Network, path: &str) -> (StreamingResponse, Vec<u8>) {
    let client = Client::new();
    let builder = client.get(&url(80, path)).unwrap();
    let (mut resp, mut arriving) = Session::new(&client).send_streaming(net, builder).unwrap();
    let collected = collect(&mut resp, &mut arriving).unwrap();
    (resp, collected)
}

#[test]
fn send_streaming_reassembles_a_content_length_response() {
    let mut net = Network::default();
    net.serve(80, |_| http_response(200, "OK", &[], b"hello streamed world"));
    let (resp, collected) = streamed(&mut net, "/");
    assert_eq!(resp.status().as_u16(), 200);
    assert_eq!(collected, b"hello streamed world");
}

#[test]
fn send_streaming_reassembles_a_chunked_response() {
    let mut net = Network::default();
    net.serve(80, |_| {
        http_chunked_response(200, "OK", &[], &[b"hello, ", b"chunked ", b"world"])
    });
    assert_eq!(streamed(&mut net, "/").1, b"hello, chunked world");
}

#[test]
fn send_streaming_reassembles_a_close_delimited_response() {
    let mut net = Network::default();
    net.serve(80, |_| {
        b"HTTP/1.1 200 OK\r\nX-No-Length: true\r\n\r\nno content-length, no chunking".to_vec()
    });
    assert_eq!(streamed(&mut net, "/").1, b"no content-length, no chunking");
}

#[test]
fn send_streaming_follows_redirects_to_the_final_hop() {
    let mut net = Network::default();
    net.serve(80, |req| {
        if req.target == "/start" {
            http_response(302, "Found", &[("Location", "/end")], b"")
        } else {
            http_response(200, "OK", &[], b"streamed after redirect")
        }
    });
    let (resp, collected) = streamed(&mut net, "/start");
    assert_eq!(resp.status().as_u16(), 200);
    assert_eq!(resp.url().path, "/end");
    assert_eq!(collected, b"streamed after redirect");
}

#[test]
fn query_params_are_appended_and_percent_encoded() {
    let mut net = Network::default();
    net.serve(80, |req| {
        assert_eq!(req.target, "/search?q=hello%20world&page=2");
        http_response(200, "OK", &[], b"ok")
    });
    let client = Client::new();
    let builder = client
        .get(&url(80, "/search"))
        .unwrap()
        .query(&[("q", "hello world"), ("page", "2")]);
    assert_eq!(send(&mut net, &client, builder).unwrap().status().as_u16(), 200);
}

#[test]
fn form_pairs_are_percent_encoded() {
    let mut net = Network::default();
    net.serve(80, |req| {
        assert_eq!(req.header("content-type"), Some("application/x-www-form-urlencoded"));
        assert_eq!(req.body, b"a=1%262&b=%20");
        http_response(200, "OK", &[], b"ok")
    });
    let client = Client::new();
    let builder = client
        .post(&url(80, "/"))
        .unwrap()
        .form(&[("a", "1&2"), ("b", " ")])
        .unwrap();
    send(&mut net, &client, builder).unwrap();
}

#[test]
fn custom_and_default_headers_are_sent() {
    let mut net = Network::default();
    net.serve(80, |req| {
        assert_eq!(req.header("x-api-key"), Some("secret"));
        assert!(req.header("user-agent").unwrap().starts_with("rusty_request/"));
        assert_eq!(req.header("accept"), Some("*/*"));
        assert_eq!(req.headers[0], ("Host".to_string(), "127.0.0.1".to_string()));
        http_response(200, "OK", &[], b"")
    });
    let client = Client::builder()
        .default_header("X-Api-Key", "secret")
        .unwrap()
        .build();
    let builder = client.get(&url(80, "/")).unwrap();
    send(&mut net, &client, builder).unwrap();
}

#[test]
fn put_patch_delete_reach_the_server_with_the_right_method() {
    let client = Client::new();
    let mut net = Network::default();
    net.serve(80, |req| http_response(200, "OK", &[], req.method.as_bytes()));
    for (method, builder) in [
        ("PUT", client.put(&url(80, "/")).unwrap()),
        ("PATCH", client.patch(&url(80, "/")).unwrap()),
        ("DELETE", client.delete(&url(80, "/")).unwrap()),
    ] {
        let resp = send(&mut net, &client, builder.body(Body::from("payload"))).unwrap();
        assert_eq!(resp.status().as_u16(), 200);
        assert_eq!(resp.text().unwrap(), method);
    }
}

#[test]
fn head_request_never_reads_a_body_even_if_headers_claim_one() {
    let mut net = Network::default();
    net.serve(80, |req| {
        assert_eq!(req.method, "HEAD");
        b"HTTP/1.1 200 OK\r\nContent-Length: 12345\r\n\r\n".to_vec()
    });
    let client = Client::new();
    let builder = client.head(&url(80, "/")).unwrap();
    let resp = send(&mut net, &client, builder).unwrap();
    assert_eq!(resp.status().as_u16(), 200);
    assert!(resp.bytes().is_empty());
}

#[test]
fn chunked_response_is_decoded() {
    let mut net = Network::default();
    net.serve(80, |_| {
        http_chunked_response(200, "OK", &[], &[b"hello, ", b"chunked ", b"world"])
    });
    let resp = get(&mut net, &url(80, "/")).unwrap();
    assert_eq!(resp.text().unwrap(), "hello, chunked world");
}

#[test]
fn close_delimited_body_without_content_length_is_read_to_eof() {
    let mut net = Network::default();
    net.serve(80, |_| {
        b"HTTP/1.1 200 OK\r\nX-No-Length: true\r\n\r\nno content-length, no chunking".to_vec()
    });
    let resp = get(&mut net, &url(80, "/")).unwrap();
    assert_eq!(resp.text().unwrap(), "no content-length, no chunking");
}

#[test]
fn error_for_status_rejects_4xx_and_5xx() {
    let mut net = Network::default();
    net.serve(80, |_| http_response(404, "Not Found", &[], b"nope"));
    let resp = get(&mut net, &url(80, "/missing")).unwrap();
    assert!(resp.status().is_client_error());
    match resp.error_for_status() {
        Err(Error::Status(s)) => assert_eq!(s.as_u16(), 404),
        other => panic!("expected Error::Status(404), got {other:?}"),
    }
}

#[test]
fn error_for_status_passes_through_2xx() {
    let mut net = Network::default();
    net.serve(80, |_| http_response(200, "OK", &[], b"fine"));
    let resp = get(&mut net, &url(80, "/")).unwrap();
    let resp = resp.error_for_status().unwrap();
    assert_eq!(resp.text().unwrap(), "fine");
}

#[test]
fn invalid_url_is_rejected() {
    let mut net = Network::default();
    let result = get(&mut net, "not a url");
    assert!(matches!(result, Err(Error::InvalidUrl(_))));
}

#[test]
fn request_level_basic_auth_sets_authorization_header() {
    let mut net = Network::default();
    net.serve(80, |req| {
        assert_eq!(
            req.header("authorization"),
            Some("Basic QWxhZGRpbjpvcGVuIHNlc2FtZQ==")
        );
        http_response(200, "OK", &[], b"ok")
    });
    let client = Client::new();
    let builder = client
        .get(&url(80, "/"))
        .unwrap()
        .basic_auth("Aladdin", "open sesame")
        .unwrap();
    assert_eq!(send(&mut net, &client, builder).unwrap().status().as_u16(), 200);
}

#[test]
fn request_level_bearer_auth_sets_authorization_header() {
    let mut net = Network::default();
    net.serve(80, |req| {
        assert_eq!(req.header("authorization"), Some("Bearer secret-token"));
        http_response(200, "OK", &[], b"ok")
    });
    let client = Client::new();
    let builder = client.get(&url(80, "/")).unwrap().bearer_auth("secret-token").unwrap();
    assert_eq!(send(&mut net, &client, builder).unwrap().status().as_u16(), 200);
    assert!(client.get(&url(80, "/")).unwrap().bearer_auth("a\r\nb").is_err());
}

#[test]
fn client_level_basic_auth_applies_to_every_request_but_request_level_overrides() {
    let mut net = Network::default();
    net.serve(80, |req| {
        let expected = if req.target == "/override" {
            "Basic Zm9vOmJhcg=="
        } else {
            "Basic QWxhZGRpbjpvcGVuIHNlc2FtZQ=="
        };
        assert_eq!(req.header("authorization"), Some(expected));
        http_response(200, "OK", &[], b"ok")
    });
    let client = Client::builder()
        .basic_auth("Aladdin", "open sesame")
        .unwrap()
        .build();
    let builder = client.get(&url(80, "/")).unwrap();
    send(&mut net, &client, builder).unwrap();
    let builder = client
        .get(&url(80, "/override"))
        .unwrap()
        .basic_auth("foo", "bar")
        .unwrap();
    send(&mut net, &client, builder).unwrap();
}

#[test]
fn client_level_bearer_auth_applies_to_every_request() {
    let mut net = Network::default();
    net.serve(80, |req| {
        assert_eq!(req.header("authorization"), Some("Bearer client-token"));
        http_response(200, "OK", &[], b"ok")
    });
    let client = Client::builder().bearer_auth("client-token").unwrap().build();
    for path in ["/", "/again"] {
        let builder = client.get(&url(80, path)).unwrap();
        send(&mut net, &client, builder).unwrap();
    }
}

#[test]
fn redirect_301_get_is_followed() {
    let mut net = Network::default();
    net.serve(80, |req| match req.target.as_str() {
        "/start" => http_response(301, "Moved Permanently", &[("Location", "/end")], b""),
        "/end" => http_response(200, "OK", &[], b"final"),
        other => panic!("unexpected request to {other}"),
    });
    let resp = get(&mut net, &url(80, "/start")).unwrap();
    assert_eq!(resp.status().as_u16(), 200);
    assert_eq!(resp.text().unwrap(), "final");
    assert_eq!(resp.url().path, "/end");
}

#[test]
fn redirect_303_downgrades_post_to_bodyless_get() {
    let mut net = Network::default();
    net.serve(80, |req| match req.target.as_str() {
        "/start" => {
            assert_eq!(req.method, "POST");
            http_response(303, "See Other", &[("Location", "/end")], b"")
        }
        "/end" => {
            assert_eq!(req.method, "GET");
            assert!(req.body.is_empty());
            http_response(200, "OK", &[], b"ok")
        }
        other => panic!("unexpected request to {other}"),
    });
    let client = Client::new();
    let builder = client
        .post(&url(80, "/start"))
        .unwrap()
        .body(Body::from("original payload"));
    assert_eq!(send(&mut net, &client, builder).unwrap().status().as_u16(), 200);
}

#[test]
fn redirect_301_downgrades_non_get_head_to_bodyless_get() {
    let mut net = Network::default();
    net.serve(80, |req| match req.target.as_str() {
        "/start" => {
            assert_eq!(req.method, "POST");
            http_response(301, "Moved Permanently", &[("Location", "/end")], b"")
        }
        "/end" => {
            assert_eq!(req.method, "GET");
            assert!(req.body.is_empty());
            http_response(200, "OK", &[], b"ok")
        }
        other => panic!("unexpected request to {other}"),
    });
    let client = Client::new();
    let builder = client.post(&url(80, "/start")).unwrap().body(Body::from("payload"));
    send(&mut net, &client, builder).unwrap();
}

#[test]
fn redirect_307_preserves_method_and_body() {
    let mut net = Network::default();
    net.serve(80, |req| match req.target.as_str() {
        "/start" => {
            assert_eq!(req.method, "POST");
            http_response(307, "Temporary Redirect", &[("Location", "/end")], b"")
        }
        "/end" => {
            assert_eq!(req.method, "POST");
            assert_eq!(req.body, b"payload");
            http_response(200, "OK", &[], b"ok")
        }
        other => panic!("unexpected request to {other}"),
    });
    let client = Client::new();
    let builder = client.post(&url(80, "/start")).unwrap().body(Body::from("payload"));
    send(&mut net, &client, builder).unwrap();
}

#[test]
fn too_many_redirects_returns_error() {
    let mut net = Network::default();
    net.serve(80, |_| http_response(302, "Found", &[("Location", "/loop")], b""));
    let client = Client::new();
    let builder = client.get(&url(80, "/loop")).unwrap().max_redirects(3);
    match send(&mut net, &client, builder) {
        Err(Error::TooManyRedirects(3)) => {}
        other => panic!("expected Error::TooManyRedirects(3), got {other:?}"),
    }
}

#[test]
fn no_redirects_returns_the_raw_3xx_response() {
    let mut net = Network::default();
    net.serve(80, |_| http_response(302, "Found", &[("Location", "/end")], b""));
    let client = Client::new();
    let builder = client.get(&url(80, "/start")).unwrap().no_redirects();
    let resp = send(&mut net, &client, builder).unwrap();
    assert_eq!(resp.status().as_u16(), 302);
    assert_eq!(resp.headers().get("location"), Some("/end"));
}

#[test]
fn redirect_without_location_is_an_error() {
    let mut net = Network::default();
    net.serve(80, |_| http_response(308, "Permanent Redirect", &[], b""));
    match get(&mut net, &url(80, "/")) {
        Err(Error::InvalidResponse(m)) => {
            assert_eq!(m, "308 redirect response had no Location header")
        }
        other => panic!("expected Error::InvalidResponse, got {other:?}"),
    }
}

#[test]
fn cross_origin_redirect_strips_authorization_header() {
    let mut net = Network::default();
    net.serve(8001, |req| {
        assert_eq!(req.header("authorization"), None);
        assert_eq!(req.header("x-kept"), Some("yes"));
        http_response(200, "OK", &[], b"ok")
    });
    net.serve(80, |req| {
        assert_eq!(
            req.header("authorization"),
            Some("Basic QWxhZGRpbjpvcGVuIHNlc2FtZQ==")
        );
        http_response(302, "Found", &[("Location", "http://127.0.0.1:8001/end")], b"")
    });
    let client = Client::new();
    let builder = client
        .get(&url(80, "/start"))
        .unwrap()
        .basic_auth("Aladdin", "open sesame")
        .unwrap()
        .header("X-Kept", "yes")
        .unwrap();
    assert_eq!(send(&mut net, &client, builder).unwrap().status().as_u16(), 200);
}

fn login_server(set_cookie: &'static str, wanted: Option<&'static str>) -> Network {
    let mut net = Network::default();
    net.serve(80, move |req| match req.target.as_str() {
        "/login" => http_response(200, "OK", &[("Set-Cookie", set_cookie)], b""),
        "/profile" => {
            assert_eq!(req.header("cookie"), wanted);
            http_response(200, "OK", &[], b"")
        }
        other => panic!("unexpected request to {other}"),
    });
    net
}

fn log_in_and_out(net: &mut Network, client: &Client) {
    let mut session = Session::new(client);
    session.send(net, client.get(&url(80, "/login")).unwrap()).unwrap();
    session.send(net, client.get(&url(80, "/profile")).unwrap()).unwrap();
}

#[test]
fn cookie_set_on_one_request_is_sent_on_the_next_through_the_same_client() {
    let mut net = login_server("session=abc123", Some("session=abc123"));
    log_in_and_out(&mut net, &Client::new());
}

#[test]
fn cookies_are_not_shared_across_different_clients() {
    let mut net = login_server("session=abc123", None);
    get(&mut net, &url(80, "/login")).unwrap();
    get(&mut net, &url(80, "/profile")).unwrap();
}

#[test]
fn cookie_set_on_a_redirect_hop_is_sent_on_the_next_hop() {
    let mut net = Network::default();
    net.serve(80, |req| match req.target.as_str() {
        "/start" => http_response(
            302,
            "Found",
            &[("Set-Cookie", "session=abc123"), ("Location", "/end")],
            b"",
        ),
        "/end" => {
            assert_eq!(req.header("cookie"), Some("session=abc123"));
            http_response(200, "OK", &[], b"ok")
        }
        other => panic!("unexpected request to {other}"),
    });
    assert_eq!(get(&mut net, &url(80, "/start")).unwrap().status().as_u16(), 200);
}

#[test]
fn callers_cookies_are_merged_with_the_jars() {
    let mut net = login_server("session=abc123", Some("own=1; session=abc123"));
    let client = Client::builder().default_header("Cookie", "own=1").unwrap().build();
    log_in_and_out(&mut net, &client);
}

#[test]
fn no_cookie_store_disables_cookie_persistence() {
    let mut net = login_server("session=abc123", None);
    log_in_and_out(&mut net, &Client::builder().no_cookie_store().build());
}

#[test]
fn secure_cookie_is_never_sent_over_plain_http_end_to_end() {
    let mut net = login_server("session=abc123; Secure", None);
    log_in_and_out(&mut net, &Client::new());
}

fn two_requests(net: &mut Network, client: &Client) {
    let mut session = Session::new(client);
    for path in ["/a", "/b"] {
        let resp = session.send(net, client.get(&url(80, path)).unwrap()).unwrap();
        assert_eq!(resp.status().as_u16(), 200);
    }
}

#[test]
fn connection_is_reused_for_a_second_request_to_the_same_origin() {
    let mut net = Network::default();
    net.serve(80, |_| http_response(200, "OK", &[], b"ok"));
    two_requests(&mut net, &Client::new());
    assert_eq!(net.connections(80), 1);
}

#[test]
fn connection_is_not_reused_when_response_says_close() {
    let mut net = Network::default();
    net.serve(80, |_| http_response(200, "OK", &[("Connection", "close")], b"ok"));
    two_requests(&mut net, &Client::new());
    assert_eq!(net.connections(80), 2);
}

#[test]
fn no_pool_never_reuses_a_connection() {
    let mut net = Network::default();
    net.serve(80, |req| {
        assert_eq!(req.header("connection"), Some("close"));
        http_response(200, "OK", &[], b"ok")
    });
    two_requests(&mut net, &Client::builder().no_pool().build());
    assert_eq!(net.connections(80), 2);
}

#[test]
fn stale_pooled_connection_is_retried_on_a_fresh_connection() {
    let mut net = Network::default();
    net.serve(80, |_| http_response(200, "OK", &[], b"ok"));
    net.servers.get_mut(&80).unwrap().hangs_up = true;
    two_requests(&mut net, &Client::new());
    assert_eq!(net.connections(80), 2);
}

fn counting(net: &mut Network, failures: usize, headers: &'static [(&'static str, &'static str)]) -> Rc<Cell<usize>> {
    let calls = Rc::new(Cell::new(0));
    let counter = calls.clone();
    net.serve(80, move |_| {
        counter.set(counter.get() + 1);
        if counter.get() <= failures {
            http_response(503, "Service Unavailable", headers, b"")
        } else {
            http_response(200, "OK", &[], b"ok")
        }
    });
    calls
}

fn quick(max_retries: usize) -> RetryPolicy {
    RetryPolicy::new(max_retries).backoff(Backoff::fixed(Duration::from_millis(1)))
}

#[test]
fn retry_recovers_from_a_retryable_status_code() {
    let mut net = Network::default();
    let calls = counting(&mut net, 1, &[]);
    let client = Client::new();
    let builder = client.get(&url(80, "/")).unwrap().retry(quick(2));
    assert_eq!(send(&mut net, &client, builder).unwrap().status().as_u16(), 200);
    assert_eq!(calls.get(), 2);
    assert_eq!(net.slept, Duration::from_millis(1));
}

#[test]
fn retry_exhausts_and_returns_the_last_retryable_response() {
    let mut net = Network::default();
    let calls = counting(&mut net, usize::MAX, &[]);
    let client = Client::new();
    let builder = client.get(&url(80, "/")).unwrap().retry(quick(2));
    assert_eq!(send(&mut net, &client, builder).unwrap().status().as_u16(), 503);
    assert_eq!(calls.get(), 3);
}

#[test]
fn non_idempotent_requests_are_not_retried_by_default() {
    let mut net = Network::default();
    let calls = counting(&mut net, usize::MAX, &[]);
    let client = Client::new();
    let builder = client.post(&url(80, "/")).unwrap().retry(quick(3));
    assert_eq!(send(&mut net, &client, builder).unwrap().status().as_u16(), 503);
    assert_eq!(calls.get(), 1);
}

#[test]
fn retry_non_idempotent_opts_a_post_into_retrying() {
    let mut net = Network::default();
    let calls = counting(&mut net, 1, &[]);
    let client = Client::new();
    let builder = client
        .post(&url(80, "/"))
        .unwrap()
        .retry(quick(2).retry_non_idempotent());
    assert_eq!(send(&mut net, &client, builder).unwrap().status().as_u16(), 200);
    assert_eq!(calls.get(), 2);
}

#[test]
fn no_retry_policy_never_retries() {
    let mut net = Network::default();
    let calls = counting(&mut net, usize::MAX, &[]);
    assert_eq!(get(&mut net, &url(80, "/")).unwrap().status().as_u16(), 503);
    assert_eq!(calls.get(), 1);
    let client = Client::builder().retry(quick(5)).no_retry().build();
    let builder = client.get(&url(80, "/")).unwrap().retry(quick(5)).no_retry();
    assert_eq!(send(&mut net, &client, builder).unwrap().status().as_u16(), 503);
    assert_eq!(calls.get(), 2);
}

#[test]
fn connection_refused_is_retried_on_a_fresh_connection() {
    let mut net = Network::default();
    net.serve(80, |_| http_response(200, "OK", &[], b"ok"));
    net.servers.get_mut(&80).unwrap().refusals = 1;
    let policy = RetryPolicy::new(1).backoff(Backoff::fixed(Duration::from_millis(60)));
    let client = Client::new();
    let builder = client.get(&url(80, "/")).unwrap().retry(policy);
    assert_eq!(send(&mut net, &client, builder).unwrap().status().as_u16(), 200);
    assert_eq!(net.slept, Duration::from_millis(60));
}

#[test]
fn retry_respects_the_retry_after_header() {
    let mut net = Network::default();
    counting(&mut net, 1, &[("Retry-After", "1")]);
    let client = Client::new();
    let builder = client.get(&url(80, "/")).unwrap().retry(quick(1));
    assert_eq!(send(&mut net, &client, builder).unwrap().status().as_u16(), 200);
    assert!(net.slept >= Duration::from_millis(900));
}

#[test]
fn proxy_routes_the_connection_and_sends_an_absolute_form_target() {
    let mut net = Network::default();
    net.serve(3128, |req| {
        assert_eq!(req.target, "http://internal.example.test/data?x=1");
        assert_eq!(req.header("host"), Some("internal.example.test"));
        http_response(200, "OK", &[], b"via proxy")
    });
    let client = Client::builder().proxy(&url(3128, "")).unwrap().build();
    let builder = client.get("http://internal.example.test/data?x=1").unwrap();
    let resp = send(&mut net, &client, builder).unwrap();
    assert_eq!(resp.status().as_u16(), 200);
    assert_eq!(resp.text().unwrap(), "via proxy");
}

fn origin_and_proxy() -> Network {
    let mut net = Network::default();
    net.serve(80, |req| {
        assert_eq!(req.target, "/direct");
        http_response(200, "OK", &[], b"direct")
    });
    net.serve(3128, |_| http_response(200, "OK", &[], b"via proxy"));
    net
}

fn goes_direct(client: &Client) {
    let mut net = origin_and_proxy();
    let builder = client.get(&url(80, "/direct")).unwrap();
    let resp = send(&mut net, client, builder).unwrap();
    assert_eq!(resp.text().unwrap(), "direct");
    assert_eq!(net.connections(3128), 0);
    assert_eq!(net.connections(80), 1);
}

#[test]
fn proxy_bypass_connects_directly_for_matching_hosts() {
    goes_direct(
        &Client::builder()
            .proxy(&url(3128, ""))
            .unwrap()
            .proxy_bypass(&["127.0.0.1"])
            .build(),
    );
}

#[test]
fn proxy_bypass_star_disables_proxying_entirely() {
    goes_direct(
        &Client::builder()
            .proxy(&url(3128, ""))
            .unwrap()
            .proxy_bypass(&["*"])
            .build(),
    );
}

#[test]
fn no_proxy_disables_a_previously_configured_proxy() {
    goes_direct(&Client::builder().proxy(&url(3128, "")).unwrap().no_proxy().build());
}

#[test]
fn request_level_proxy_overrides_the_client_default() {
    let mut net = Network::default();
    net.serve(3128, |_| http_response(200, "OK", &[], b"client proxy"));
    net.serve(3129, |_| http_response(200, "OK", &[], b"request proxy"));
    let client = Client::builder().proxy(&url(3128, "")).unwrap().build();
    let builder = client
        .get("http://some.unresolvable.example/")
        .unwrap()
        .proxy(&url(3129, ""))
        .unwrap();
    let resp = send(&mut net, &client, builder).unwrap();
    assert_eq!(resp.text().unwrap(), "request proxy");
    assert_eq!(net.connections(3128), 0);
    assert_eq!(net.connections(3129), 1);
}

#[test]
fn proxy_connection_is_reused_across_different_origins() {
    let mut net = Network::default();
    net.serve(3128, |_| http_response(200, "OK", &[], b"ok"));
    let client = Client::builder().proxy(&url(3128, "")).unwrap().build();
    let mut session = Session::new(&client);
    for origin in [
        "http://first.unresolvable.example/",
        "http://second.unresolvable.example/",
    ] {
        session.send(&mut net, client.get(origin).unwrap()).unwrap();
    }
    assert_eq!(net.connections(3128), 1);
}

fn env(in_cgi: bool, upper: Option<&str>, lower: Option<&str>) -> ProxyEnv {
    ProxyEnv {
        in_cgi,
        upper_proxy: upper.map(String::from),
        lower_proxy: lower.map(String::from),
        upper_no_proxy: None,
        lower_no_proxy: None,
    }
}

fn proxy_host(env: &ProxyEnv) -> Option<String> {
    let client = Client::builder().proxy_from_env(env).unwrap().build();
    client.settings.proxy.map(|p| p.host)
}

#[test]
fn environment_names_a_proxy() {
    assert_eq!(proxy_host(&env(false, None, None)), None);
    assert_eq!(proxy_host(&env(false, Some("http://up"), Some("http://low"))), Some("up".into()));
    assert_eq!(proxy_host(&env(false, Some(""), Some("http://low"))), Some("low".into()));
    assert_eq!(proxy_host(&env(true, Some("http://up"), Some("http://low"))), Some("low".into()));
    assert_eq!(proxy_host(&env(true, Some("http://up"), Some(""))), None);
    assert!(Client::builder()
        .proxy_from_env(&env(false, Some("https://up"), None))
        .is_err());
    let mut e = env(false, None, None);
    e.lower_no_proxy = Some("a, b".to_string());
    let client = Client::builder().proxy_from_env(&e).unwrap().build();
    assert!(client.settings.proxy_bypass.bypasses("x.a"));
    e.upper_no_proxy = Some(String::new());
    let client = Client::builder().proxy_from_env(&e).unwrap().build();
    assert!(!client.settings.proxy_bypass.bypasses("x.a"));
}

#[test]
fn settings_of_a_client() {
    let client = Client::default();
    assert_eq!(client.settings.timeout, Some(Duration::from_secs(30)));
    assert_eq!(client.settings.pool.max_idle_per_host, 8);
    assert_eq!(client.settings.pool.idle_timeout, Duration::from_secs(90));
    let client = Client::builder()
        .timeout(Duration::from_secs(1))
        .no_timeout()
        .pool_max_idle_per_host(2)
        .pool_idle_timeout(Duration::from_secs(3))
        .max_redirects(1)
        .no_redirects()
        .trust_policy(rusty_request::TrustPolicy::DangerNoVerification)
        .build();
    let client = client.clone();
    assert_eq!(client.settings.timeout, None);
    assert_eq!(client.settings.pool.max_idle_per_host, 2);
    assert_eq!(client.settings.pool.idle_timeout, Duration::from_secs(3));
    let builder = client
        .get("http://h/")
        .unwrap()
        .timeout(Duration::from_secs(9))
        .trust_policy(rusty_request::TrustPolicy::System);
    assert_eq!(builder.settings.timeout, Some(Duration::from_secs(9)));
    assert!(matches!(
        builder.settings.trust_policy,
        rusty_request::TrustPolicy::System
    ));
    assert!(builder.header("bad name", "x").is_err());
}

#[test]
fn https_hops() {
    let client = Client::builder().proxy("http://proxy:3128").unwrap().build();
    let origin = Url::parse("https://Origin.example:8443/p?q").unwrap();
    let direct = hop::hop_target(&origin, None);
    assert_eq!(direct.connect_host, "Origin.example");
    assert_eq!(direct.connect_port, 8443);
    assert_eq!(direct.connect_tunnel, None);
    assert_eq!(direct.tls_server_name.as_deref(), Some("Origin.example"));
    assert_eq!(direct.request_target, "/p?q");
    let tunneled = hop::hop_target(&origin, client.settings.proxy.as_ref());
    assert_eq!(tunneled.connect_host, "proxy");
    assert_eq!(tunneled.connect_port, 3128);
    assert_eq!(tunneled.connect_tunnel, Some(("Origin.example".to_string(), 8443)));
    assert_eq!(tunneled.tls_server_name.as_deref(), Some("Origin.example"));
    assert_eq!(tunneled.request_target, "/p?q");
    assert_eq!(
        hop::connect_request("Origin.example", 8443).unwrap(),
        b"CONNECT Origin.example:8443 HTTP/1.1\r\nHost: Origin.example:8443\r\n\r\n"
    );
    assert!(hop::connect_request("a\r\nb", 1).is_err());
    assert!(hop::tunnel_outcome(rusty_request::StatusCode::from_u16(200)).is_ok());
    match hop::tunnel_outcome(rusty_request::StatusCode::from_u16(407)) {
        Err(Error::ProxyConnectFailed(s)) => assert_eq!(s.as_u16(), 407),
        other => panic!("expected Error::ProxyConnectFailed, got {other:?}"),
    }
}

#[test]
fn unusable_schemes_and_hosts_are_refused() {
    let client = Client::new();
    let mut builder = client.get("http://h/").unwrap();
    builder.url.scheme = "gopher".to_string();
    match exchange::begin(&builder).check_scheme() {
        Err(Error::UnsupportedScheme(s)) => assert_eq!(s, "gopher"),
        other => panic!("expected Error::UnsupportedScheme, got {other:?}"),
    }
    let chain = exchange::begin(&client.get("http://a\nb/").unwrap());
    let jar = &mut CookieJar::new();
    let request = exchange::next_request(&chain, &builder.settings, jar, 0).unwrap();
    match hop::build_request_head(&request, "/") {
        Err(Error::InvalidHeader(m)) => {
            assert_eq!(m, "header value must not contain CR/LF: `a\nb`")
        }
        other => panic!("expected Error::InvalidHeader, got {other:?}"),
    }
    match hop::build_wire_headers(&chain.headers, Some("a=\r"), true, &Body::Empty) {
        Err(Error::InvalidHeader(_)) => {}
        other => panic!("expected Error::InvalidHeader, got {other:?}"),
    }
}

fn values(headers: &HeaderMap, name: &str) -> Vec<String> {
    headers.get_all(name).into_iter().map(String::from).collect()
}

fn misframed() -> HeaderMap {
    let mut headers = HeaderMap::new();
    headers.append("content-length", "999").unwrap();
    headers.append("Content-Length", "1").unwrap();
    headers.append("transfer-encoding", "gzip").unwrap();
    headers.append("Transfer-Encoding", "chunked").unwrap();
    headers
}

#[test]
fn known_length_is_the_only_framing() {
    let sent = hop::build_wire_headers(&misframed(), None, true, &Body::from("four")).unwrap();
    assert_eq!(values(&sent, "Content-Length"), vec!["4"]);
    assert!(!sent.contains("Transfer-Encoding"));
    let stream = Body::streaming(Some(7), 0);
    let sent = hop::build_wire_headers(&misframed(), None, false, &stream).unwrap();
    assert_eq!(values(&sent, "Content-Length"), vec!["7"]);
    assert!(!sent.contains("Transfer-Encoding"));
    let sent = hop::build_wire_headers(&misframed(), None, true, &Body::Empty).unwrap();
    assert_eq!(values(&sent, "Content-Length"), vec!["0"]);
    assert!(!sent.contains("Transfer-Encoding"));
}

#[test]
fn chunks_are_the_only_framing() {
    let body = Body::streaming(None, 0);
    let sent = hop::build_wire_headers(&misframed(), Some("a=b"), false, &body).unwrap();
    assert_eq!(values(&sent, "Transfer-Encoding"), vec!["chunked"]);
    assert!(!sent.contains("Content-Length"));
    assert_eq!(values(&sent, "Connection"), vec!["close"]);
}

#[test]
fn streaming_takes_the_same_course() {
    let site = |net: &mut Network| {
        let requests = Rc::new(RefCell::new(Vec::new()));
        let seen = requests.clone();
        net.serve(80, move |req| {
            seen.borrow_mut().push((req.method.clone(), req.target.clone(), req.headers.clone()));
            match req.target.as_str() {
                "/start" => http_response(
                    302,
                    "Found",
                    &[("Set-Cookie", "a=1"), ("Location", "/next")],
                    b"ignored",
                ),
                "/next" => http_response(
                    303,
                    "See Other",
                    &[("Set-Cookie", "b=2"), ("Location", "/end")],
                    b"",
                ),
                _ => http_chunked_response(200, "OK", &[("X-End", "yes")], &[b"the ", b"end"]),
            }
        });
        requests
    };
    let client = Client::builder().no_pool().build();
    let request = || client.post(&url(80, "/start")).unwrap().body(Body::from("payload"));

    let mut net = Network::default();
    let whole = site(&mut net);
    let mut session = Session::new(&client);
    let buffered = session.send(&mut net, request()).unwrap();
    let kept = session.jar.cookie_header_at(buffered.url(), 0);

    let mut net = Network::default();
    let piecewise = site(&mut net);
    let mut session = Session::new(&client);
    let (mut streamed, mut arriving) = session.send_streaming(&mut net, request()).unwrap();
    let body = collect(&mut streamed, &mut arriving).unwrap();

    assert_eq!(*whole.borrow(), *piecewise.borrow());
    assert_eq!(whole.borrow().len(), 3);
    assert_eq!(kept.as_deref(), Some("a=1; b=2"));
    assert_eq!(session.jar.cookie_header_at(streamed.url(), 0), kept);
    assert_eq!(streamed.status(), buffered.status());
    assert_eq!(streamed.headers(), buffered.headers());
    assert_eq!(streamed.url(), buffered.url());
    assert_eq!(body, buffered.bytes());
    // After the end of a body there is only its end.
    assert!(matches!(streamed.chunk(false), BodyStep::Done));
    assert!(matches!(streamed.chunk(true), BodyStep::Done));
}
