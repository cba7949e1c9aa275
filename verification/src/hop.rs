//! One hop of a request: the headers that go out on it, where its connection
//! leads, the bytes that are sent, and what a failed attempt means.

use crate::body;
use crate::body::Body;
use crate::cookie;
use crate::cookie::CookieJar;
use crate::error::Error;
use crate::error::ErrorView;
use crate::error::Result;
use crate::header;
use crate::header::HeaderMap;
use crate::http1;
use crate::http1::HeadReader;
use crate::http1::HeadStep;
use crate::http1::HeadView;
use crate::method::Method;
use crate::pool;
use crate::pool::PoolKey;
use crate::proxy;
use crate::proxy::NoProxyRules;
use crate::proxy::Proxy;
use crate::proxy::ProxyView;
use crate::request::Request;
use crate::status::StatusCode;
use crate::text;
use crate::url;
use crate::url::Url;
use crate::url::UrlView;
use crate::wire;
use vstd::prelude::*;

verus! {

/// Whether a proxy is used for a request to this host.
pub open spec fn proxy_in_use(
    proxy: Option<ProxyView>,
    bypass: Seq<Seq<char>>,
    host: Seq<char>,
) -> Option<ProxyView> {
    if proxy::bypassed(bypass, host) {
        None
    } else {
        proxy
    }
}

/// What an optional proxy stands for.
pub open spec fn proxy_view(proxy: Option<Proxy>) -> Option<ProxyView> {
    match proxy {
        Some(p) => Some(p@),
        None => None,
    }
}

/// The proxy for a request to `url`, if one is used: this is looked up anew
/// for every hop.
pub fn active_proxy<'a>(proxy: &'a Option<Proxy>, bypass: &NoProxyRules, url: &Url) -> (active:
    Option<&'a Proxy>)
    ensures
        match active {
            Some(p) => proxy_in_use(proxy_view(*proxy), bypass@, url@.host) == Some(p@),
            None => proxy_in_use(proxy_view(*proxy), bypass@, url@.host) is None,
        },
{
    match proxy {
        Some(p) => if bypass.bypasses(url.host.as_str()) {
            None
        } else {
            Some(p)
        },
        None => None,
    }
}

/// The headers with a default `Accept`.
pub open spec fn with_accept(headers: Seq<(Seq<char>, Seq<char>)>) -> Seq<(Seq<char>, Seq<char>)> {
    if header::lookup(headers, "Accept"@) is Some {
        headers
    } else {
        header::with_header(headers, "Accept"@, "*/*"@)
    }
}

/// The `Cookie` header: cookies that the caller has set, then those of the
/// jar.
pub open spec fn merged_cookies(headers: Seq<(Seq<char>, Seq<char>)>, jar: Seq<char>) -> Seq<char> {
    match header::lookup(headers, "Cookie"@) {
        Some(own) => own + "; "@ + jar,
        None => jar,
    }
}

/// The headers with the jar's cookies.
pub open spec fn with_cookies(
    headers: Seq<(Seq<char>, Seq<char>)>,
    jar: Option<Seq<char>>,
) -> Seq<(Seq<char>, Seq<char>)> {
    match jar {
        Some(j) => header::with_header(headers, "Cookie"@, merged_cookies(headers, j)),
        None => headers,
    }
}

/// The headers with the one that tells how the body is framed, and without
/// the one that would tell otherwise.
pub open spec fn with_framing(
    headers: Seq<(Seq<char>, Seq<char>)>,
    length: Option<nat>,
) -> Seq<(Seq<char>, Seq<char>)> {
    match length {
        Some(n) => header::with_header(
            header::without(headers, "Transfer-Encoding"@),
            "Content-Length"@,
            text::decimal(n),
        ),
        None => header::with_header(
            header::without(headers, "Content-Length"@),
            "Transfer-Encoding"@,
            "chunked"@,
        ),
    }
}

/// The headers that go out on a hop.
pub open spec fn wire_headers(
    headers: Seq<(Seq<char>, Seq<char>)>,
    jar: Option<Seq<char>>,
    pooling: bool,
    length: Option<nat>,
) -> Seq<(Seq<char>, Seq<char>)> {
    let cookied = with_cookies(with_accept(headers), jar);
    with_framing(
        if pooling {
            cookied
        } else {
            header::with_header(cookied, "Connection"@, "close"@)
        },
        length,
    )
}

/// What an optional text stands for.
pub open spec fn str_view(t: Option<&str>) -> Option<Seq<char>> {
    match t {
        Some(s) => Some(s@),
        None => None,
    }
}

/// The headers that go out on a hop: a default `Accept`, the jar's cookies
/// after those that the caller has set, `Connection: close` where
/// connections are not kept, and the one header that frames the body. How it
/// is framed comes from the body alone, never from the caller's headers.
pub fn build_wire_headers(
    hop_headers: &HeaderMap,
    jar_cookies: Option<&str>,
    pooling_enabled: bool,
    body: &Body,
) -> (outcome: Result<HeaderMap>)
    ensures
        match outcome {
            Ok(headers) => headers@ == wire_headers(
                hop_headers@,
                str_view(jar_cookies),
                pooling_enabled,
                body::length(body@),
            ),
            Err(e) => jar_cookies matches Some(jar) && e@ == header::refusal(
                "Cookie"@,
                merged_cookies(with_accept(hop_headers@), jar@),
            ),
        },
        outcome is Err <==> (jar_cookies matches Some(jar) && !header::valid_value(
            merged_cookies(with_accept(hop_headers@), jar@),
        )),
{
    proof {
        lemma_own_headers_are_valid();
    }
    let mut headers = hop_headers.clone();
    if !headers.contains("Accept") {
        headers.insert("Accept", "*/*")?;
    }
    if let Some(jar) = jar_cookies {
        let merged = match headers.get("Cookie") {
            Some(own) => {
                let mut m = text::owned(own);
                m.push_str("; ");
                m.push_str(jar);
                m
            },
            None => text::owned(jar),
        };
        headers.insert("Cookie", merged.as_str())?;
    }
    if !pooling_enabled {
        headers.insert("Connection", "close")?;
    }
    match body.content_length() {
        Some(n) => {
            let length = text::decimal_text(n as u128);
            proof {
                text::lemma_decimal_digits(n as nat);
                assert forall|i: int| 0 <= i < length@.len() implies #[trigger] length@[i] != '\r'
                    && length@[i] != '\n' by {
                    assert('0' <= text::decimal(n as nat)[i]);
                }
            }
            headers.remove("Transfer-Encoding");
            headers.insert("Content-Length", length.as_str())?;
        },
        None => {
            headers.remove("Content-Length");
            headers.insert("Transfer-Encoding", "chunked")?;
        },
    }
    Ok(headers)
}

proof fn lemma_own_headers_are_valid()
    ensures
        header::valid_name("Accept"@),
        header::valid_value("*/*"@),
        header::valid_name("Cookie"@),
        header::valid_name("Connection"@),
        header::valid_value("close"@),
        header::valid_name("Content-Length"@),
        header::valid_name("Transfer-Encoding"@),
        header::valid_value("chunked"@),
        header::valid_name("Host"@),
{
    reveal_strlit("Accept");
    reveal_strlit("*/*");
    reveal_strlit("Cookie");
    reveal_strlit("Connection");
    reveal_strlit("close");
    reveal_strlit("Content-Length");
    reveal_strlit("Transfer-Encoding");
    reveal_strlit("chunked");
    reveal_strlit("Host");
}

/// The names of the two headers that frame a body differ.
proof fn lemma_framings_differ()
    ensures
        !text::same_ignoring_case("Content-Length"@, "Transfer-Encoding"@),
        !text::same_ignoring_case("Transfer-Encoding"@, "Content-Length"@),
{
    reveal_strlit("Content-Length");
    reveal_strlit("Transfer-Encoding");
    assert(text::lowered("Content-Length"@).len() == 14);
    assert(text::lowered("Transfer-Encoding"@).len() == 17);
}

/// Framing a body leaves the headers that do not frame it alone.
pub proof fn lemma_framing_leaves_others(
    headers: Seq<(Seq<char>, Seq<char>)>,
    length: Option<nat>,
    name: Seq<char>,
)
    requires
        !text::same_ignoring_case("Content-Length"@, name),
        !text::same_ignoring_case("Transfer-Encoding"@, name),
    ensures
        header::lookup(with_framing(headers, length), name) == header::lookup(headers, name),
{
    match length {
        Some(n) => {
            header::law_lookup_after_removal(headers, "Transfer-Encoding"@, name);
            header::law_lookup_after_setting(
                header::without(headers, "Transfer-Encoding"@),
                "Content-Length"@,
                text::decimal(n),
                name,
            );
        },
        None => {
            header::law_lookup_after_removal(headers, "Content-Length"@, name);
            header::law_lookup_after_setting(
                header::without(headers, "Content-Length"@),
                "Transfer-Encoding"@,
                "chunked"@,
                name,
            );
        },
    }
}

/// A body of known length goes out with exactly one `Content-Length`, its
/// real length, and with no `Transfer-Encoding`, whatever the caller has set.
pub proof fn law_content_length_is_the_body_length(
    headers: Seq<(Seq<char>, Seq<char>)>,
    jar: Option<Seq<char>>,
    pooling: bool,
    length: nat,
)
    ensures
        ({
            let sent = wire_headers(headers, jar, pooling, Some(length));
            &&& header::lookup(sent, "Content-Length"@) == Some(text::decimal(length))
            &&& header::all_values(sent, "Content-Length"@) == seq![text::decimal(length)]
            &&& header::lookup(sent, "Transfer-Encoding"@) is None
            &&& header::all_values(sent, "Transfer-Encoding"@) == Seq::<Seq<char>>::empty()
        }),
{
    let cookied = with_cookies(with_accept(headers), jar);
    let before = if pooling {
        cookied
    } else {
        header::with_header(cookied, "Connection"@, "close"@)
    };
    let (own, other) = ("Content-Length"@, "Transfer-Encoding"@);
    let (value, cleared) = (text::decimal(length), header::without(before, other));
    lemma_framings_differ();
    header::law_lookup_after_setting(cleared, own, value, own);
    header::law_lookup_after_setting(cleared, own, value, other);
    header::law_lookup_after_removal(before, other, other);
    header::law_values_after_setting(cleared, own, value, own);
    header::law_values_after_setting(cleared, own, value, other);
    header::law_values_after_removal(before, other, other);
}

/// A body whose length is not known goes out in chunks: with exactly one
/// `Transfer-Encoding`, `chunked`, and with no `Content-Length`, whatever the
/// caller has set.
pub proof fn law_unknown_length_goes_in_chunks(
    headers: Seq<(Seq<char>, Seq<char>)>,
    jar: Option<Seq<char>>,
    pooling: bool,
)
    ensures
        ({
            let sent = wire_headers(headers, jar, pooling, None);
            &&& header::lookup(sent, "Transfer-Encoding"@) == Some("chunked"@)
            &&& header::all_values(sent, "Transfer-Encoding"@) == seq!["chunked"@]
            &&& header::lookup(sent, "Content-Length"@) is None
            &&& header::all_values(sent, "Content-Length"@) == Seq::<Seq<char>>::empty()
        }),
{
    let cookied = with_cookies(with_accept(headers), jar);
    let before = if pooling {
        cookied
    } else {
        header::with_header(cookied, "Connection"@, "close"@)
    };
    let (own, other) = ("Transfer-Encoding"@, "Content-Length"@);
    let (value, cleared) = ("chunked"@, header::without(before, other));
    lemma_framings_differ();
    header::law_lookup_after_setting(cleared, own, value, own);
    header::law_lookup_after_setting(cleared, own, value, other);
    header::law_lookup_after_removal(before, other, other);
    header::law_values_after_setting(cleared, own, value, own);
    header::law_values_after_setting(cleared, own, value, other);
    header::law_values_after_removal(before, other, other);
}

/// Where connections are not kept, the server is told so, whatever
/// `Connection` the caller has set.
pub proof fn law_unpooled_requests_say_close(
    headers: Seq<(Seq<char>, Seq<char>)>,
    jar: Option<Seq<char>>,
    length: Option<nat>,
)
    ensures
        header::lookup(wire_headers(headers, jar, false, length), "Connection"@) == Some("close"@),
{
    reveal_strlit("Connection");
    reveal_strlit("Content-Length");
    reveal_strlit("Transfer-Encoding");
    let name = "Connection"@;
    let cookied = with_cookies(with_accept(headers), jar);
    header::law_lookup_after_setting(cookied, name, "close"@, name);
    let before = header::with_header(cookied, name, "close"@);
    assert(text::lowered(name).len() == 10);
    assert(text::lowered("Content-Length"@).len() == 14);
    assert(text::lowered("Transfer-Encoding"@).len() == 17);
    lemma_framing_leaves_others(before, length, name);
}

/// A header that the caller has set goes out as it is, except for those that
/// a hop sets itself.
pub proof fn law_callers_headers_go_out(
    headers: Seq<(Seq<char>, Seq<char>)>,
    jar: Option<Seq<char>>,
    pooling: bool,
    length: Option<nat>,
    name: Seq<char>,
)
    requires
        !text::same_ignoring_case("Accept"@, name),
        !text::same_ignoring_case("Cookie"@, name),
        !text::same_ignoring_case("Connection"@, name),
        !text::same_ignoring_case("Content-Length"@, name),
        !text::same_ignoring_case("Transfer-Encoding"@, name),
    ensures
        header::lookup(wire_headers(headers, jar, pooling, length), name) == header::lookup(
            headers,
            name,
        ),
{
    let accepted = with_accept(headers);
    header::law_lookup_after_setting(headers, "Accept"@, "*/*"@, name);
    let cookied = with_cookies(accepted, jar);
    if let Some(j) = jar {
        header::law_lookup_after_setting(
            accepted,
            "Cookie"@,
            merged_cookies(accepted, j),
            name,
        );
    }
    header::law_lookup_after_setting(cookied, "Connection"@, "close"@, name);
    let before = if pooling {
        cookied
    } else {
        header::with_header(cookied, "Connection"@, "close"@)
    };
    lemma_framing_leaves_others(before, length, name);
}

/// An `Accept` of the caller's goes out as it is; without one, everything is
/// accepted.
pub proof fn law_accept_has_a_default(
    headers: Seq<(Seq<char>, Seq<char>)>,
    jar: Option<Seq<char>>,
    pooling: bool,
    length: Option<nat>,
)
    ensures
        header::lookup(wire_headers(headers, jar, pooling, length), "Accept"@) == match header::lookup(
            headers,
            "Accept"@,
        ) {
            Some(own) => Some(own),
            None => Some("*/*"@),
        },
{
    reveal_strlit("Accept");
    reveal_strlit("Cookie");
    reveal_strlit("Connection");
    reveal_strlit("Content-Length");
    reveal_strlit("Transfer-Encoding");
    let name = "Accept"@;
    let accepted = with_accept(headers);
    header::law_lookup_after_setting(headers, name, "*/*"@, name);
    let cookied = with_cookies(accepted, jar);
    assert(text::lowered("Cookie"@).len() == 6 && text::lowered(name).len() == 6);
    assert(text::lowered("Cookie"@)[0] == 'c' && text::lowered(name)[0] == 'a');
    assert(text::lowered("Connection"@).len() == 10);
    assert(text::lowered("Content-Length"@).len() == 14);
    assert(text::lowered("Transfer-Encoding"@).len() == 17);
    if let Some(j) = jar {
        header::law_lookup_after_setting(
            accepted,
            "Cookie"@,
            merged_cookies(accepted, j),
            name,
        );
    }
    header::law_lookup_after_setting(cookied, "Connection"@, "close"@, name);
    let before = if pooling {
        cookied
    } else {
        header::with_header(cookied, "Connection"@, "close"@)
    };
    lemma_framing_leaves_others(before, length, name);
}

/// Stores the cookies that a response from `url` sets that arrived at `now`.
pub fn store_cookies(jar: &mut CookieJar, url: &Url, headers: &HeaderMap, now: i128)
    ensures
        final(jar)@ == cookie::stored(
            old(jar)@,
            url@,
            header::all_values(headers@, "set-cookie"@),
            now,
        ),
{
    let values = headers.get_all("set-cookie");
    jar.store_at(url, values.as_slice(), now);
}

/// Where a hop's connection leads, and what has to happen on it before the
/// request is sent.
#[derive(Debug)]
pub struct HopTarget {
    pub connect_host: String,
    pub connect_port: u16,
    /// The origin that a proxy is asked to open a tunnel to.
    pub connect_tunnel: Option<(String, u16)>,
    /// The name that the server's certificate has to carry, where the
    /// connection is encrypted.
    pub tls_server_name: Option<String>,
    pub pool_key: PoolKey,
    pub request_target: String,
}

/// What a [`HopTarget`] stands for.
#[verifier::ext_equal]
pub struct HopTargetView {
    pub connect_host: Seq<char>,
    pub connect_port: u16,
    pub connect_tunnel: Option<(Seq<char>, u16)>,
    pub tls_server_name: Option<Seq<char>>,
    pub pool_key: (Seq<char>, Seq<char>, u16),
    pub request_target: Seq<char>,
}

impl View for HopTarget {
    type V = HopTargetView;

    open spec fn view(&self) -> HopTargetView {
        HopTargetView {
            connect_host: self.connect_host@,
            connect_port: self.connect_port,
            connect_tunnel: match self.connect_tunnel {
                Some((host, port)) => Some((host@, port)),
                None => None,
            },
            tls_server_name: url::text_view(self.tls_server_name),
            pool_key: pool::key_view(self.pool_key),
            request_target: self.request_target@,
        }
    }
}

/// Where a hop to `origin` leads. Through a proxy, a plain request is
/// forwarded in absolute form on a connection that is kept by the proxy; an
/// encrypted one goes through a tunnel that is kept by proxy and origin.
pub open spec fn target_of(origin: UrlView, proxy: Option<ProxyView>) -> HopTargetView {
    let encrypted = origin.scheme == "https"@;
    match proxy {
        Some(p) => HopTargetView {
            connect_host: p.host,
            connect_port: p.port,
            connect_tunnel: if encrypted {
                Some((origin.host, origin.port))
            } else {
                None
            },
            tls_server_name: if encrypted {
                Some(origin.host)
            } else {
                None
            },
            pool_key: if encrypted {
                proxy::tunnel_key(p, origin)
            } else {
                proxy::proxy_key(p)
            },
            request_target: if encrypted {
                url::target_text(origin)
            } else {
                url::absolute_text(origin)
            },
        },
        None => HopTargetView {
            connect_host: origin.host,
            connect_port: origin.port,
            connect_tunnel: None,
            tls_server_name: if encrypted {
                Some(origin.host)
            } else {
                None
            },
            pool_key: proxy::origin_key(origin),
            request_target: url::target_text(origin),
        },
    }
}

/// Where a hop to `url` leads.
pub fn hop_target(url: &Url, proxy: Option<&Proxy>) -> (target: HopTarget)
    ensures
        target@ == target_of(
            url@,
            match proxy {
                Some(p) => Some(p@),
                None => None,
            },
        ),
{
    let encrypted = text::same_text(url.scheme.as_str(), "https");
    let target = match proxy {
        Some(p) if encrypted => HopTarget {
            connect_host: p.host.clone(),
            connect_port: p.port,
            connect_tunnel: Some((url.host.clone(), url.port)),
            tls_server_name: Some(url.host.clone()),
            pool_key: p.tunnel_pool_key(url),
            request_target: url.request_target(),
        },
        Some(p) => HopTarget {
            connect_host: p.host.clone(),
            connect_port: p.port,
            connect_tunnel: None,
            tls_server_name: None,
            pool_key: p.pool_key(),
            request_target: url.absolute_form(),
        },
        None => HopTarget {
            connect_host: url.host.clone(),
            connect_port: url.port,
            connect_tunnel: None,
            tls_server_name: if encrypted {
                Some(url.host.clone())
            } else {
                None
            },
            pool_key: proxy::pool_key(url),
            request_target: url.request_target(),
        },
    };
    assert(target@ =~= target_of(
        url@,
        match proxy {
            Some(p) => Some(p@),
            None => None,
        },
    ));
    target
}

/// A request that is encrypted is so on every way: its connection has a
/// server name to check exactly if the scheme is `https`, and a proxy sees
/// its origin and nothing else.
pub proof fn law_https_is_encrypted_end_to_end(origin: UrlView, proxy: Option<ProxyView>)
    ensures
        target_of(origin, proxy).tls_server_name is Some <==> origin.scheme == "https"@,
        origin.scheme == "https"@ && proxy is Some ==> target_of(origin, proxy).connect_tunnel
            == Some((origin.host, origin.port)),
{
}

/// The bytes of a request's head and of its body as far as it is in memory,
/// or why it cannot be sent: its `Host` header has to be one that can go on
/// the wire.
pub open spec fn request_bytes(
    request: Request,
    target: Seq<char>,
) -> std::result::Result<Seq<u8>, ErrorView> {
    let host = url::host_text(request.url@);
    if header::valid_value(host) {
        Ok(
            vstd::utf8::encode_utf8(
                wire::head_text(request.method, target, host, request.headers@),
            ) + body::in_memory(request.body@),
        )
    } else {
        Err(header::refusal("Host"@, host))
    }
}

/// The bytes to send for a request: `Host` first, then the other headers in
/// order.
pub fn build_request_head(request: &Request, request_target: &str) -> (outcome: Result<Vec<u8>>)
    ensures
        match outcome {
            Ok(bytes) => request_bytes(*request, request_target@) == Ok::<Seq<u8>, ErrorView>(
                bytes@,
            ),
            Err(e) => request_bytes(*request, request_target@) == Err::<Seq<u8>, ErrorView>(e@),
        },
{
    proof {
        lemma_own_headers_are_valid();
    }
    let host = request.url.host_header();
    let mut named = HeaderMap::new();
    named.insert("Host", host.as_str())?;
    Ok(
        wire::write_request(
            request.method,
            request_target,
            host.as_str(),
            &request.headers,
            &request.body,
        ),
    )
}

/// The authority that a tunnel leads to.
pub open spec fn authority_text(host: Seq<char>, port: u16) -> Seq<char> {
    host + ":"@ + text::decimal(port as nat)
}

/// The bytes that ask a proxy for a tunnel, or why it cannot be asked.
pub open spec fn tunnel_bytes(host: Seq<char>, port: u16) -> std::result::Result<
    Seq<u8>,
    ErrorView,
> {
    let authority = authority_text(host, port);
    if header::valid_value(authority) {
        Ok(
            vstd::utf8::encode_utf8(
                wire::head_text(Method::Connect, authority, authority, seq![]),
            ),
        )
    } else {
        Err(header::refusal("Host"@, authority))
    }
}

/// The bytes that ask a proxy for a tunnel.
pub fn connect_request(host: &str, port: u16) -> (outcome: Result<Vec<u8>>)
    ensures
        match outcome {
            Ok(bytes) => tunnel_bytes(host@, port) == Ok::<Seq<u8>, ErrorView>(bytes@),
            Err(e) => tunnel_bytes(host@, port) == Err::<Seq<u8>, ErrorView>(e@),
        },
{
    proof {
        lemma_own_headers_are_valid();
    }
    let mut authority = text::owned(host);
    authority.push_str(":");
    authority.push_str(text::decimal_text(port as u128).as_str());
    let mut named = HeaderMap::new();
    named.insert("Host", authority.as_str())?;
    let bytes = wire::write_request(
        Method::Connect,
        authority.as_str(),
        authority.as_str(),
        &HeaderMap::new(),
        &Body::Empty,
    );
    assert(bytes@ =~= vstd::utf8::encode_utf8(
        wire::head_text(Method::Connect, authority@, authority@, seq![]),
    ));
    Ok(bytes)
}

/// Whether a proxy has opened the tunnel that it was asked for.
pub fn tunnel_outcome(status: StatusCode) -> (outcome: Result<()>)
    ensures
        match outcome {
            Ok(_) => 200 <= status.code < 300,
            Err(e) => !(200 <= status.code < 300) && e@ == ErrorView::ProxyConnectFailed(status),
        },
{
    if status.is_success() {
        Ok(())
    } else {
        Err(Error::ProxyConnectFailed(status))
    }
}

/// How many bytes the head of a proxy's answer may have.
pub const MAX_CONNECT_RESPONSE_LEN: usize = 65536;

/// Why a tunnel is not open, given the head of the proxy's answer.
pub open spec fn tunnel_fault(answer: std::result::Result<HeadView, ErrorView>) -> Option<
    ErrorView,
> {
    match answer {
        Ok(head) => if 200 <= head.status.code < 300 {
            None
        } else {
            Some(ErrorView::ProxyConnectFailed(head.status))
        },
        Err(e) => Some(e),
    }
}

/// Reads a proxy's answer to a request for a tunnel. It takes one byte at a
/// time, since what follows the head belongs to the tunnel.
pub struct TunnelReply {
    head: HeadReader,
    taken: usize,
}

/// The outcome of reading a proxy's answer.
pub enum TunnelStep {
    NeedByte,
    /// The tunnel is open, and none of its bytes have been read.
    Open,
    Failed(Error),
}

impl TunnelReply {
    /// What the answer's head comes to if `more` still arrives.
    pub closed spec fn result(self, more: Seq<u8>) -> std::result::Result<HeadView, ErrorView> {
        self.head.result(more)
    }

    /// The bytes that have arrived and are not read yet.
    pub closed spec fn unread(self) -> Seq<u8> {
        self.head.unread()
    }

    /// Whether nothing can be made of the bytes that have arrived.
    pub closed spec fn starved(self) -> bool {
        self.head.starved()
    }

    /// Whether no byte has arrived behind the end of the next line.
    pub closed spec fn within_line(self) -> bool {
        self.head.within_line()
    }

    /// How many bytes have arrived.
    pub closed spec fn taken(self) -> nat {
        self.taken as nat
    }

    pub fn new() -> (reply: Self)
        ensures
            reply.taken() == 0,
            reply.unread() == Seq::<u8>::empty(),
            reply.within_line(),
            forall|more: Seq<u8>| #[trigger] reply.result(more) == http1::head_of(more),
    {
        TunnelReply { head: HeadReader::new(), taken: 0 }
    }

    /// Takes over a byte that has arrived.
    pub fn accept(&mut self, byte: u8)
        requires
            old(self).starved(),
            old(self).taken() < MAX_CONNECT_RESPONSE_LEN,
        ensures
            final(self).taken() == old(self).taken() + 1,
            final(self).unread() == old(self).unread().push(byte),
            final(self).within_line(),
            forall|more: Seq<u8>| #[trigger]
                final(self).result(more) == old(self).result(seq![byte] + more),
    {
        let mut one: Vec<u8> = Vec::new();
        one.push(byte);
        assert(one@ =~= seq![byte]);
        self.head.room();
        self.head.accept(one.as_slice());
        self.taken = self.taken + 1;
        assert(self.unread() =~= old(self).unread().push(byte));
    }

    /// Reads on until it is known whether the tunnel is open, or a byte is
    /// needed. An answer whose head is too long opens no tunnel.
    pub fn step(&mut self, closed: bool) -> (step: TunnelStep)
        ensures
            final(self).taken() == old(self).taken(),
            match step {
                TunnelStep::NeedByte => {
                    &&& !closed
                    &&& final(self).starved()
                    &&& final(self).taken() < MAX_CONNECT_RESPONSE_LEN
                    &&& forall|more: Seq<u8>| #[trigger]
                        final(self).result(more) == old(self).result(more)
                },
                TunnelStep::Open => {
                    &&& old(self).within_line() ==> final(self).unread().len() == 0
                    &&& forall|more: Seq<u8>| #[trigger]
                        http1::can_follow(closed, more) ==> tunnel_fault(old(self).result(more))
                            is None
                },
                TunnelStep::Failed(e) => {
                    ||| forall|more: Seq<u8>| #[trigger]
                        http1::can_follow(closed, more) ==> tunnel_fault(old(self).result(more))
                            == Some(e@)
                    ||| {
                        &&& !closed
                        &&& final(self).starved()
                        &&& final(self).taken() >= MAX_CONNECT_RESPONSE_LEN
                        &&& forall|more: Seq<u8>| #[trigger]
                            final(self).result(more) == old(self).result(more)
                        &&& e@ == ErrorView::InvalidResponse(
                            "CONNECT response exceeded the maximum allowed length"@,
                        )
                    }
                },
            },
    {
        match self.head.read_head(closed) {
            HeadStep::NeedData => {
                assert forall|more: Seq<u8>| #[trigger] self.result(more) == old(self).result(
                    more,
                ) by {
                    assert(http1::can_follow(closed, more));
                }
                if self.taken < MAX_CONNECT_RESPONSE_LEN {
                    TunnelStep::NeedByte
                } else {
                    TunnelStep::Failed(
                        Error::InvalidResponse(
                            text::owned("CONNECT response exceeded the maximum allowed length"),
                        ),
                    )
                }
            },
            HeadStep::Head(head) => match tunnel_outcome(head.status) {
                Ok(_) => TunnelStep::Open,
                Err(e) => TunnelStep::Failed(e),
            },
            HeadStep::Failed(e) => TunnelStep::Failed(e),
        }
    }
}

/// The addresses of a host, tried in turn until one connects.
pub struct Dialing {
    count: usize,
    tried: usize,
}

/// What to do next to reach a host.
pub enum DialStep<T> {
    /// Dial the address at this index.
    Dial(usize),
    Connected(T),
    Failed(Error),
}

/// What follows once the address at index `at` of `count` has connected or
/// failed.
pub open spec fn dial_step<T>(at: nat, count: nat, outcome: Result<T>) -> DialStep<T> {
    match outcome {
        Ok(connection) => DialStep::Connected(connection),
        Err(e) => if at + 1 < count {
            DialStep::Dial((at + 1) as usize)
        } else {
            DialStep::Failed(e)
        },
    }
}

impl Dialing {
    /// How many addresses there are.
    pub closed spec fn count(self) -> nat {
        self.count as nat
    }

    /// The index of the address that is dialed.
    pub closed spec fn tried(self) -> nat {
        self.tried as nat
    }

    /// Starts with the first address.
    pub fn new(count: usize) -> (dialing: Self)
        ensures
            dialing.count() == count,
            dialing.tried() == 0,
    {
        Dialing { count, tried: 0 }
    }

    /// What follows once the address has connected or failed: the failure of
    /// the last address is the failure of them all.
    pub fn after<T>(&mut self, outcome: Result<T>) -> (step: DialStep<T>)
        requires
            old(self).tried() < old(self).count(),
        ensures
            final(self).count() == old(self).count(),
            final(self).tried() == match step {
                DialStep::Dial(_) => old(self).tried() + 1,
                _ => old(self).tried(),
            },
            step == dial_step(old(self).tried(), old(self).count(), outcome),
            step == match outcome {
                Ok(connection) => DialStep::Connected(connection),
                Err(e) => if old(self).tried() + 1 < old(self).count() {
                    DialStep::Dial((old(self).tried() + 1) as usize)
                } else {
                    DialStep::Failed(e)
                },
            },
    {
        match outcome {
            Ok(connection) => DialStep::Connected(connection),
            Err(e) => if self.tried + 1 < self.count {
                self.tried = self.tried + 1;
                DialStep::Dial(self.tried)
            } else {
                DialStep::Failed(e)
            },
        }
    }
}

/// What to do after sending a request on a connection.
pub enum AttemptStep<T> {
    /// There is a response.
    Respond(T),
    /// Try once more, on a fresh connection.
    DialFresh,
    /// The request has failed.
    Fail(Error),
}

/// What the outcome of sending a request means.
pub open spec fn attempt_step<T>(from_pool: bool, outcome: Result<T>) -> AttemptStep<T> {
    match outcome {
        Ok(response) => AttemptStep::Respond(response),
        Err(e) => if from_pool {
            AttemptStep::DialFresh
        } else {
            AttemptStep::Fail(e)
        },
    }
}

/// What the outcome of sending a request means: a failure on a connection
/// from the pool may only mean that the server had closed it, and is not
/// final.
pub fn after_attempt<T>(from_pool: bool, outcome: Result<T>) -> (step: AttemptStep<T>)
    ensures
        step == attempt_step(from_pool, outcome),
        step == match outcome {
            Ok(response) => AttemptStep::Respond(response),
            Err(e) => if from_pool {
                AttemptStep::DialFresh
            } else {
                AttemptStep::Fail(e)
            },
        },
{
    match outcome {
        Ok(response) => AttemptStep::Respond(response),
        Err(e) => if from_pool {
            AttemptStep::DialFresh
        } else {
            AttemptStep::Fail(e)
        },
    }
}

} // verus!
