//! What a hop promises: where it leads, what goes out on it, and which
//! connections it can use again.

use crate::body;
use crate::body::BodyView;
use crate::cookie;
use crate::cookie::CookieView;
use crate::error::Error;
use crate::error::ErrorView;
use crate::exchange;
use crate::header;
use crate::hop;
use crate::hop::AttemptStep;
use crate::hop::DialStep;
use crate::http1;
use crate::method::Method;
use crate::proxy;
use crate::proxy::ProxyView;
use crate::redirect::ChainView;
use crate::request::Request;
use crate::response_laws;
use crate::text;
use crate::text_laws;
use crate::url;
use crate::url::UrlView;
use crate::url_laws;
use crate::wire;
use vstd::prelude::*;

verus! {

/// The path and the query of a URL as they stand on a request line.
pub open spec fn path_and_query(u: UrlView) -> Seq<char> {
    match u.query {
        Some(q) if q.len() > 0 => u.path + seq!['?'] + q,
        _ => u.path,
    }
}

/// Without a proxy a request goes straight to the origin and names the path and
/// the query there.
pub proof fn law_direct_hop(origin: UrlView)
    ensures
        ({
            let hop = hop::target_of(origin, None);
            &&& hop.connect_host == origin.host
            &&& hop.connect_port == origin.port
            &&& hop.connect_tunnel is None
            &&& origin.scheme == "https"@ ==> hop.tls_server_name == Some(origin.host)
            &&& origin.scheme == "http"@ ==> hop.tls_server_name is None
            &&& hop.request_target == path_and_query(origin)
        }),
{
    reveal_strlit("?");
    assert("?"@ =~= seq!['?']);
    reveal_strlit("http");
    reveal_strlit("https");
    assert("http"@.len() != "https"@.len());
}

/// Through a proxy an `http` request goes to the proxy, without a tunnel, and
/// names the whole URL there.
pub proof fn law_forwarded_hop(origin: UrlView, p: ProxyView)
    requires
        origin.scheme == "http"@,
    ensures
        ({
            let hop = hop::target_of(origin, Some(p));
            &&& hop.connect_host == p.host
            &&& hop.connect_port == p.port
            &&& hop.connect_tunnel is None
            &&& hop.tls_server_name is None
            &&& hop.request_target == "http://"@ + (if origin.port == 80 {
                origin.host
            } else {
                origin.host + seq![':'] + text::decimal(origin.port as nat)
            }) + path_and_query(origin)
        }),
{
    reveal_strlit("?");
    reveal_strlit(":");
    reveal_strlit("://");
    reveal_strlit("http");
    reveal_strlit("https");
    reveal_strlit("http://");
    assert("?"@ =~= seq!['?']);
    assert(":"@ =~= seq![':']);
    assert("http"@.len() != "https"@.len());
    assert("http"@ + "://"@ =~= "http://"@);
}

/// Through a proxy an `https` request goes to the proxy, through a tunnel to
/// the origin, and is encrypted for the origin.
pub proof fn law_tunnelled_hop(origin: UrlView, p: ProxyView)
    requires
        origin.scheme == "https"@,
    ensures
        ({
            let hop = hop::target_of(origin, Some(p));
            &&& hop.connect_host == p.host
            &&& hop.connect_port == p.port
            &&& hop.connect_tunnel == Some((origin.host, origin.port))
            &&& hop.tls_server_name == Some(origin.host)
            &&& hop.request_target == path_and_query(origin)
        }),
{
    reveal_strlit("?");
    assert("?"@ =~= seq!['?']);
}

/// Two hops can share a connection exactly if they lead the same way: straight
/// to the same host and port by the same scheme, or by way of the same proxy,
/// there for `http`, and through it to the same host and port for `https`. The
/// case of hosts makes no difference.
pub proof fn law_hops_that_share_connections(
    a: UrlView,
    p: Option<ProxyView>,
    b: UrlView,
    q: Option<ProxyView>,
)
    requires
        a.scheme == "http"@ || a.scheme == "https"@,
        b.scheme == "http"@ || b.scheme == "https"@,
    ensures
        hop::target_of(a, p).pool_key == hop::target_of(b, q).pool_key <==> match (p, q) {
            (None, None) => a.scheme == b.scheme && text::same_ignoring_case(a.host, b.host)
                && a.port == b.port,
            (Some(p), Some(q)) => a.scheme == b.scheme && text::same_ignoring_case(p.host, q.host)
                && p.port == q.port && (a.scheme == "https"@ ==> text::same_ignoring_case(
                a.host,
                b.host,
            ) && a.port == b.port),
            _ => false,
        },
{
    match (p, q) {
        (Some(p), Some(q)) => {
            proxy::law_kinds_of_connections_are_kept_apart(p, q, b, a);
            proxy::law_kinds_of_connections_are_kept_apart(q, p, a, b);
            if proxy::tunnel_key(p, a) == proxy::tunnel_key(q, b) {
                proxy::law_tunnels_belong_to_their_proxy_and_origin(p, a, q, b);
            }
        },
        (Some(p), None) => {
            proxy::law_kinds_of_connections_are_kept_apart(p, p, a, b);
        },
        (None, Some(q)) => {
            proxy::law_kinds_of_connections_are_kept_apart(q, q, b, a);
        },
        (None, None) => {},
    }
}

/// A host is reached without a proxy if one of the exempted names is `*`, is the
/// host, or is what the host ends with after a dot, and through the proxy
/// otherwise.
pub proof fn law_proxy_is_used_unless_exempted(
    p: ProxyView,
    entries: Seq<Seq<char>>,
    host: Seq<char>,
)
    ensures
        ({
            let exempted = exists|i: int|
                0 <= i < entries.len() && exempts(#[trigger] entries[i], host);
            hop::proxy_in_use(Some(p), entries, host) == if exempted {
                None
            } else {
                Some(p)
            }
        }),
        hop::proxy_in_use(None, entries, host) is None,
{
    assert forall|i: int| 0 <= i < entries.len() implies exempts(#[trigger] entries[i], host)
        == proxy::entry_covers(entries[i], host) by {
        lemma_exempts(entries[i], host);
    }
    if proxy::bypassed(entries, host) {
        let i = choose|i: int|
            0 <= i < entries.len() && proxy::entry_covers(#[trigger] entries[i], host);
        assert(exempts(entries[i], host));
    }
    if exists|i: int| 0 <= i < entries.len() && exempts(#[trigger] entries[i], host) {
        let i = choose|i: int| 0 <= i < entries.len() && exempts(#[trigger] entries[i], host);
        assert(proxy::entry_covers(entries[i], host));
    }
}

/// Whether a name exempts a host: it is `*`, the host itself, or what the host
/// ends with after a dot.
pub open spec fn exempts(entry: Seq<char>, host: Seq<char>) -> bool {
    ||| entry == seq!['*']
    ||| text::lowered(host) == entry
    ||| exists|below: Seq<char>| text::lowered(host) == #[trigger] (below + seq!['.']) + entry
}

proof fn lemma_exempts(entry: Seq<char>, host: Seq<char>)
    ensures
        exempts(entry, host) == proxy::entry_covers(entry, host),
{
    reveal_strlit("*");
    assert("*"@ =~= seq!['*']);
    let name = text::lowered(host);
    let suffix = seq!['.'] + entry;
    if text::ends_with(name, suffix) {
        let below = name.take(name.len() - suffix.len());
        assert(name =~= below + suffix);
        assert(below + suffix =~= (below + seq!['.']) + entry);
    }
    if exists|below: Seq<char>| name == #[trigger] (below + seq!['.']) + entry {
        let below = choose|below: Seq<char>| name == #[trigger] (below + seq!['.']) + entry;
        assert(name =~= below + suffix);
        assert(name.skip(name.len() - suffix.len()) =~= suffix);
    }
}

/// An exempted name is read in lower case, without the white space around it
/// and without the dots before it; an empty one is passed over.
pub proof fn law_exempted_name_is_read(
    before: Seq<char>,
    dots: Seq<char>,
    name: Seq<char>,
    after: Seq<char>,
    hosts: Seq<Seq<char>>,
)
    requires
        forall|i: int| 0 <= i < dots.len() ==> #[trigger] dots[i] == '.',
        text_laws::is_blank(before),
        text_laws::is_blank(after),
        name.len() > 0,
        name[0] != '.',
        text_laws::is_trim(name),
    ensures
        proxy::rule_entries(hosts.push(before + (dots + name) + after)) == proxy::rule_entries(
            hosts,
        ).push(text::lowered(name)),
        proxy::rule_entries(hosts.push(before)) == proxy::rule_entries(hosts),
{
    let none = Seq::<char>::empty();
    let dotted = dots + name;
    assert(dotted.last() == name.last());
    assert(dotted[0] == if dots.len() > 0 {
        dots[0]
    } else {
        name[0]
    });
    text_laws::law_leading_dots_are_taken_away(dots, name);
    text_laws::law_trimming_takes_what_is_around(before, dotted, after);
    text_laws::law_trimming_takes_what_is_around(before, none, none);
    assert(before + none + none =~= before);
    assert(text::without_leading_dots(none) == none);
    assert(hosts.push(before + dotted + after).drop_last() =~= hosts);
    assert(hosts.push(before).drop_last() =~= hosts);
    assert(text::lowered(name).len() == name.len());
    assert(text::lowered(none).len() == 0);
}

/// The `Cookie` header that goes out: the caller's, the jar's, or the caller's
/// followed by a semicolon, a space and the jar's.
pub proof fn law_cookies_that_go_out(
    headers: Seq<(Seq<char>, Seq<char>)>,
    jar: Option<Seq<char>>,
    pooling: bool,
    length: Option<nat>,
)
    ensures
        header::lookup(hop::wire_headers(headers, jar, pooling, length), "Cookie"@) == match (
            header::lookup(headers, "Cookie"@),
            jar,
        ) {
            (Some(own), Some(j)) => Some(own + seq![';', ' '] + j),
            (Some(own), None) => Some(own),
            (None, Some(j)) => Some(j),
            (None, None) => None,
        },
{
    reveal_strlit("; ");
    assert("; "@ =~= seq![';', ' ']);
    lemma_names();
    let name = "Cookie"@;
    let accepted = hop::with_accept(headers);
    header::law_lookup_after_setting(headers, "Accept"@, "*/*"@, name);
    let cookied = hop::with_cookies(accepted, jar);
    if let Some(j) = jar {
        header::law_lookup_after_setting(
            accepted,
            name,
            hop::merged_cookies(accepted, j),
            name,
        );
    }
    header::law_lookup_after_setting(cookied, "Connection"@, "close"@, name);
    hop::lemma_framing_leaves_others(
        if pooling {
            cookied
        } else {
            header::with_header(cookied, "Connection"@, "close"@)
        },
        length,
        name,
    );
}

/// Where connections are kept, the `Connection` header is the caller's.
pub proof fn law_pooled_requests_keep_their_connection_header(
    headers: Seq<(Seq<char>, Seq<char>)>,
    jar: Option<Seq<char>>,
    length: Option<nat>,
)
    ensures
        header::lookup(hop::wire_headers(headers, jar, true, length), "Connection"@)
            == header::lookup(headers, "Connection"@),
{
    lemma_names();
    let name = "Connection"@;
    let accepted = hop::with_accept(headers);
    header::law_lookup_after_setting(headers, "Accept"@, "*/*"@, name);
    if let Some(j) = jar {
        header::law_lookup_after_setting(
            accepted,
            "Cookie"@,
            hop::merged_cookies(accepted, j),
            name,
        );
    }
    hop::lemma_framing_leaves_others(hop::with_cookies(accepted, jar), length, name);
}

proof fn lemma_names()
    ensures
        !text::same_ignoring_case("Accept"@, "Cookie"@),
        !text::same_ignoring_case("Connection"@, "Cookie"@),
        !text::same_ignoring_case("Content-Length"@, "Cookie"@),
        !text::same_ignoring_case("Transfer-Encoding"@, "Cookie"@),
        !text::same_ignoring_case("Accept"@, "Connection"@),
        !text::same_ignoring_case("Cookie"@, "Connection"@),
        !text::same_ignoring_case("Content-Length"@, "Connection"@),
        !text::same_ignoring_case("Transfer-Encoding"@, "Connection"@),
{
    reveal_strlit("Accept");
    reveal_strlit("Cookie");
    reveal_strlit("Connection");
    reveal_strlit("Content-Length");
    reveal_strlit("Transfer-Encoding");
    assert(text::lowered("Accept"@).len() == 6 && text::lowered("Accept"@)[0] == 'a');
    assert(text::lowered("Cookie"@).len() == 6 && text::lowered("Cookie"@)[0] == 'c');
    assert(text::lowered("Connection"@).len() == 10);
    assert(text::lowered("Content-Length"@).len() == 14);
    assert(text::lowered("Transfer-Encoding"@).len() == 17);
}

/// A request says how long its body is: that of a body in memory is the number
/// of its bytes, nothing at all is of length zero, and a body that is still to
/// be read has the length that was given for it, or goes out in chunks if none
/// was.
pub proof fn law_request_announces_its_body(
    chain: ChainView,
    jar_cookies: Option<Seq<char>>,
    pooling: bool,
)
    ensures
        exchange::headers_sent(chain, jar_cookies, pooling) matches Ok(sent) ==> {
            let announced = header::lookup(sent, "Content-Length"@);
            let coding = header::lookup(sent, "Transfer-Encoding"@);
            match chain.body {
                BodyView::Empty => announced == Some(text::decimal(0)) && coding is None,
                BodyView::Bytes(b) => announced == Some(text::decimal(b.len())) && coding is None,
                BodyView::Stream(s) => match s.len {
                    Some(n) => announced == Some(text::decimal(n as nat)) && coding is None,
                    None => announced is None && coding == Some("chunked"@),
                },
            }
        },
{
    match body::length(chain.body) {
        Some(n) => hop::law_content_length_is_the_body_length(
            chain.headers,
            jar_cookies,
            pooling,
            n,
        ),
        None => hop::law_unknown_length_goes_in_chunks(chain.headers, jar_cookies, pooling),
    }
}

/// The cookies of a request are those of the jar that have not expired and are
/// for its host and its path; a jar that is not used adds none.
pub proof fn law_cookies_of_a_request(
    jar: Seq<CookieView>,
    u: UrlView,
    now: i128,
    c: CookieView,
)
    ensures
        exchange::cookies_sent(jar, u, false, now) is None,
        exchange::cookies_sent(jar, u, true, now) is None <==> !exists|k: CookieView| #[trigger]
            jar.contains(k) && !cookie::expired(k, now) && cookie::goes_to(k, u),
        exchange::jar_on_sending(jar, u, true, now).contains(c) ==> jar.contains(c),
        exchange::jar_on_sending(jar, u, false, now) == jar,
        jar.contains(c) && !cookie::expired(c, now) ==> exchange::jar_on_sending(
            jar,
            u,
            true,
            now,
        ).contains(c),
{
    let live = |k: CookieView| !cookie::expired(k, now);
    let goes = |k: CookieView| cookie::goes_to(k, u);
    let fresh = cookie::fresh(jar, now);
    let out = cookie::matching(fresh, u);
    if exists|k: CookieView| #[trigger]
        jar.contains(k) && !cookie::expired(k, now) && cookie::goes_to(k, u) {
        let k = choose|k: CookieView| #[trigger]
            jar.contains(k) && !cookie::expired(k, now) && cookie::goes_to(k, u);
        let i = choose|i: int| 0 <= i < jar.len() && jar[i] == k;
        jar.lemma_filter_contains(live, i);
        let j = choose|j: int| 0 <= j < fresh.len() && fresh[j] == k;
        fresh.lemma_filter_contains(goes, j);
        assert(out.len() > 0);
    }
    if out.len() > 0 {
        fresh.lemma_filter_pred(goes, 0);
        let k = out[0];
        assert(out.contains(k));
        fresh.lemma_filter_contains_rev(goes, k);
        let j = choose|j: int| 0 <= j < fresh.len() && fresh[j] == k;
        jar.lemma_filter_pred(live, j);
        jar.lemma_filter_contains_rev(live, k);
        assert(jar.contains(k) && !cookie::expired(k, now) && cookie::goes_to(k, u));
    }
    if fresh.contains(c) {
        jar.lemma_filter_contains_rev(live, c);
    }
    if jar.contains(c) && !cookie::expired(c, now) {
        let i = choose|i: int| 0 <= i < jar.len() && jar[i] == c;
        jar.lemma_filter_contains(live, i);
    }
}

/// The tokens of the methods.
pub proof fn law_method_tokens(method: Method)
    ensures
        match method {
            Method::Get => method.token() == seq!['G', 'E', 'T'],
            Method::Post => method.token() == seq!['P', 'O', 'S', 'T'],
            Method::Put => method.token() == seq!['P', 'U', 'T'],
            Method::Patch => method.token() == seq!['P', 'A', 'T', 'C', 'H'],
            Method::Delete => method.token() == seq!['D', 'E', 'L', 'E', 'T', 'E'],
            Method::Head => method.token() == seq!['H', 'E', 'A', 'D'],
            Method::Options => method.token() == seq!['O', 'P', 'T', 'I', 'O', 'N', 'S'],
            Method::Connect => method.token() == seq!['C', 'O', 'N', 'N', 'E', 'C', 'T'],
        },
{
    reveal_strlit("GET");
    reveal_strlit("POST");
    reveal_strlit("PUT");
    reveal_strlit("PATCH");
    reveal_strlit("DELETE");
    reveal_strlit("HEAD");
    reveal_strlit("OPTIONS");
    reveal_strlit("CONNECT");
}

/// The lines of a request head: the request line, the `Host` line, and one line
/// for each header, in their order.
pub open spec fn request_lines(
    method: Method,
    target: Seq<char>,
    host: Seq<char>,
    headers: Seq<(Seq<char>, Seq<char>)>,
) -> Seq<Seq<char>> {
    seq![method.token() + seq![' '] + target + " HTTP/1.1"@, "Host: "@ + host]
        + response_laws::field_lines(headers)
}

/// What goes out for a request is the lines of its head, each ended by CR and
/// LF, a blank line, and its body as far as that is in memory. It goes out
/// unless its host has a line break.
pub proof fn law_bytes_of_a_request(request: Request, target: Seq<char>)
    ensures
        ({
            let host = url::host_text(request.url@);
            match hop::request_bytes(request, target) {
                Ok(bytes) => {
                    &&& !host.contains('\r') && !host.contains('\n')
                    &&& bytes == wire::all_line_bytes(
                        request_lines(request.method, target, host, request.headers@),
                    ) + wire::line_bytes(seq![]) + match request.body@ {
                        BodyView::Bytes(b) => b,
                        _ => seq![],
                    }
                },
                Err(_) => host.contains('\r') || host.contains('\n'),
            }
        }),
{
    let host = url::host_text(request.url@);
    header::law_what_can_go_on_the_wire(seq![], host);
    lemma_head_bytes(request.method, target, host, request.headers@);
}

proof fn lemma_head_bytes(
    method: Method,
    target: Seq<char>,
    host: Seq<char>,
    headers: Seq<(Seq<char>, Seq<char>)>,
)
    ensures
        vstd::utf8::encode_utf8(wire::head_text(method, target, host, headers))
            == wire::all_line_bytes(request_lines(method, target, host, headers))
            + wire::line_bytes(seq![]),
{
    reveal_strlit("\r\n");
    reveal_strlit(" ");
    reveal_strlit(" HTTP/1.1\r\n");
    reveal_strlit(" HTTP/1.1");
    assert(" "@ =~= seq![' ']);
    assert(" HTTP/1.1\r\n"@ =~= " HTTP/1.1"@ + "\r\n"@);
    let first = method.token() + seq![' '] + target + " HTTP/1.1"@;
    let second = "Host: "@ + host;
    let fields = response_laws::field_lines(headers);
    let lines = request_lines(method, target, host, headers);
    let end = "\r\n"@;
    let tail = wire::fields_text(headers) + end;
    assert(wire::head_text(method, target, host, headers) =~= first + end + (second + end + tail));
    lemma_line(first, second + end + tail);
    lemma_line(second, tail);
    lemma_fields(headers, end);
    lemma_line(seq![], seq![]);
    assert(Seq::<char>::empty() + end + Seq::<char>::empty() =~= end);
    assert(vstd::utf8::encode_utf8(Seq::<char>::empty()) =~= Seq::<u8>::empty());
    assert(lines[0] == first);
    assert(lines.skip(1)[0] == second);
    assert(lines.skip(1).skip(1) =~= fields);
    assert(wire::all_line_bytes(lines.skip(1)) == wire::line_bytes(second) + wire::all_line_bytes(
        fields,
    ));
    assert(wire::all_line_bytes(lines) + wire::line_bytes(seq![]) =~= wire::line_bytes(first) + (
    wire::line_bytes(second) + (wire::all_line_bytes(fields) + wire::line_bytes(seq![]))));
}

/// The bytes of a line and what follows it.
proof fn lemma_line(line: Seq<char>, rest: Seq<char>)
    ensures
        vstd::utf8::encode_utf8(line + "\r\n"@ + rest) == wire::line_bytes(line)
            + vstd::utf8::encode_utf8(rest),
{
    reveal_strlit("\r\n");
    text_laws::lemma_encode_concat(line + "\r\n"@, rest);
    text_laws::lemma_encode_concat(line, "\r\n"@);
    vstd::utf8::is_ascii_chars_encode_utf8("\r\n"@);
    assert(vstd::utf8::encode_utf8("\r\n"@) =~= seq![13u8, 10u8]);
}

proof fn lemma_fields(headers: Seq<(Seq<char>, Seq<char>)>, rest: Seq<char>)
    ensures
        vstd::utf8::encode_utf8(wire::fields_text(headers) + rest) == wire::all_line_bytes(
            response_laws::field_lines(headers),
        ) + vstd::utf8::encode_utf8(rest),
    decreases headers.len(),
{
    let fields = response_laws::field_lines(headers);
    if headers.len() == 0 {
        assert(fields =~= Seq::<Seq<char>>::empty());
        assert(wire::fields_text(headers) + rest =~= rest);
        assert(wire::all_line_bytes(fields) + vstd::utf8::encode_utf8(rest)
            =~= vstd::utf8::encode_utf8(rest));
    } else {
        reveal_strlit(": ");
        assert(": "@ =~= seq![':', ' ']);
        let front = headers.drop_last();
        let (name, value) = headers.last();
        let line = name + seq![':', ' '] + value;
        let more = line + "\r\n"@ + rest;
        assert(wire::fields_text(headers) + rest =~= wire::fields_text(front) + more);
        lemma_fields(front, more);
        lemma_line(line, rest);
        assert(fields =~= response_laws::field_lines(front).push(line));
        lemma_lines_push(response_laws::field_lines(front), line);
        assert(wire::all_line_bytes(response_laws::field_lines(front)) + (wire::line_bytes(line)
            + vstd::utf8::encode_utf8(rest)) =~= wire::all_line_bytes(fields)
            + vstd::utf8::encode_utf8(rest));
    }
}

proof fn lemma_lines_push(lines: Seq<Seq<char>>, line: Seq<char>)
    ensures
        wire::all_line_bytes(lines.push(line)) == wire::all_line_bytes(lines) + wire::line_bytes(
            line,
        ),
    decreases lines.len(),
{
    let more = lines.push(line);
    if lines.len() == 0 {
        assert(more.skip(1) =~= Seq::<Seq<char>>::empty());
        assert(wire::all_line_bytes(more.skip(1)) =~= Seq::<u8>::empty());
        assert(more[0] == line);
        assert(wire::all_line_bytes(more) =~= wire::all_line_bytes(lines) + wire::line_bytes(
            line,
        ));
    } else {
        assert(more.skip(1) =~= lines.skip(1).push(line));
        lemma_lines_push(lines.skip(1), line);
        assert(wire::all_line_bytes(more) =~= wire::all_line_bytes(lines) + wire::line_bytes(
            line,
        ));
    }
}

/// What asks a proxy for a tunnel: a `CONNECT` line and a `Host` line, both
/// with the host and the port of the origin, and a blank line.
pub proof fn law_bytes_that_ask_for_a_tunnel(host: Seq<char>, port: u16)
    requires
        !host.contains('\r'),
        !host.contains('\n'),
    ensures
        ({
            let authority = host + seq![':'] + text::decimal(port as nat);
            hop::tunnel_bytes(host, port) == Ok::<Seq<u8>, ErrorView>(
                wire::line_bytes("CONNECT "@ + authority + " HTTP/1.1"@) + wire::line_bytes(
                    "Host: "@ + authority,
                ) + wire::line_bytes(seq![]),
            )
        }),
{
    reveal_strlit(":");
    reveal_strlit("CONNECT");
    reveal_strlit("CONNECT ");
    assert(":"@ =~= seq![':']);
    assert("CONNECT"@ + seq![' '] =~= "CONNECT "@);
    let digits = text::decimal(port as nat);
    let authority = host + seq![':'] + digits;
    text::lemma_decimal_digits(port as nat);
    header::law_what_can_go_on_the_wire(seq![], host);
    assert(header::valid_value(authority)) by {
        assert forall|i: int| 0 <= i < authority.len() implies #[trigger] authority[i] != '\r'
            && authority[i] != '\n' by {
            if i < host.len() {
                assert(authority[i] == host[i]);
            } else if i > host.len() {
                assert(authority[i] == digits[i - host.len() - 1]);
            }
        }
    }
    let none = Seq::<(Seq<char>, Seq<char>)>::empty();
    lemma_head_bytes(Method::Connect, authority, authority, none);
    let lines = request_lines(Method::Connect, authority, authority, none);
    assert(response_laws::field_lines(none) =~= Seq::<Seq<char>>::empty());
    assert(lines.skip(1).skip(1) =~= Seq::<Seq<char>>::empty());
    assert(lines[0] =~= "CONNECT "@ + authority + " HTTP/1.1"@);
    assert(lines.skip(1)[0] =~= "Host: "@ + authority);
    assert(wire::all_line_bytes(lines.skip(1).skip(1)) =~= Seq::<u8>::empty());
    assert(wire::all_line_bytes(lines.skip(1)) =~= wire::line_bytes(lines.skip(1)[0]));
    assert(wire::all_line_bytes(lines) =~= wire::line_bytes(lines[0]) + wire::line_bytes(
        lines.skip(1)[0],
    ));
}

/// A tunnel is open exactly if the proxy answers with a status from 200 to 299;
/// any other answer is an error that carries its status.
pub proof fn law_answers_that_open_a_tunnel(
    minor: Seq<char>,
    code: u16,
    reason: Seq<char>,
    headers: Seq<(Seq<char>, Seq<char>)>,
    after: Seq<u8>,
)
    requires
        response_laws::head_fits(minor, code, reason, headers),
    ensures
        ({
            let answer = http1::head_of(
                response_laws::head_bytes(minor, code, reason, headers) + after,
            );
            match hop::tunnel_fault(answer) {
                None => 200 <= code <= 299,
                Some(e) => !(200 <= code <= 299) && (e matches ErrorView::ProxyConnectFailed(s)
                    && s.code == code),
            }
        }),
{
    response_laws::law_head_reads_back(minor, code, reason, headers, after);
}

/// What dialing comes to from the address at index `at` on, where the address
/// at index `i` would come to `outcomes[i]`.
pub open spec fn dialed<T>(
    outcomes: Seq<std::result::Result<T, Error>>,
    at: int,
) -> DialStep<T>
    decreases outcomes.len() - at,
{
    match hop::dial_step(at as nat, outcomes.len(), outcomes[at]) {
        DialStep::Dial(next) if at < next < outcomes.len() => dialed(outcomes, next as int),
        step => step,
    }
}

/// The addresses of a host are tried in their order: the first that connects is
/// the connection, and if none does, the failure of the last is the failure.
pub proof fn law_addresses_are_tried_in_turn<T>(
    outcomes: Seq<std::result::Result<T, Error>>,
    k: int,
)
    requires
        0 <= k < outcomes.len() <= usize::MAX,
        forall|i: int| 0 <= i < k ==> (#[trigger] outcomes[i]) is Err,
    ensures
        outcomes[k] matches Ok(connection) ==> dialed(outcomes, 0) == DialStep::Connected(
            connection,
        ),
        k + 1 == outcomes.len() ==> (outcomes[k] matches Err(e) ==> dialed(outcomes, 0)
            == DialStep::<T>::Failed(e)),
{
    lemma_dialed_from(outcomes, 0, k);
}

proof fn lemma_dialed_from<T>(
    outcomes: Seq<std::result::Result<T, Error>>,
    at: int,
    k: int,
)
    requires
        0 <= at <= k < outcomes.len() <= usize::MAX,
        forall|i: int| 0 <= i < k ==> (#[trigger] outcomes[i]) is Err,
    ensures
        outcomes[k] matches Ok(connection) ==> dialed(outcomes, at) == DialStep::Connected(
            connection,
        ),
        k + 1 == outcomes.len() ==> (outcomes[k] matches Err(e) ==> dialed(outcomes, at)
            == DialStep::<T>::Failed(e)),
    decreases k - at,
{
    if at < k {
        assert(outcomes[at] is Err);
        lemma_dialed_from(outcomes, at + 1, k);
    }
}

/// A request that fails on a connection that was kept is tried on a fresh one,
/// and one that fails there has failed, with the error that it failed with. A
/// response is a response on either.
pub proof fn law_kept_connections_may_fail<T>(
    kept: std::result::Result<T, Error>,
    fresh: std::result::Result<T, Error>,
)
    ensures
        kept is Err ==> hop::attempt_step(true, kept) == AttemptStep::<T>::DialFresh,
        fresh matches Err(e) ==> hop::attempt_step(false, fresh) == AttemptStep::<T>::Fail(e),
        kept matches Ok(response) ==> hop::attempt_step(true, kept) == AttemptStep::Respond(
            response,
        ),
        fresh matches Ok(response) ==> hop::attempt_step(false, fresh) == AttemptStep::Respond(
            response,
        ),
{
}

/// A proxy is named by an `http` URL and found at its host and port, or at port
/// 80 if it names none; an `https` URL names no proxy.
pub proof fn law_proxy_is_read(
    host: Seq<char>,
    port: Option<u16>,
    path: Seq<char>,
    query: Option<Seq<char>>,
)
    requires
        host.len() > 0,
        text_laws::lacks(host, '/') && text_laws::lacks(host, '?') && text_laws::lacks(host, '#')
            && text_laws::lacks(host, '@'),
        port is None ==> text_laws::lacks(host, ':'),
        path.len() > 0 ==> path[0] == '/',
        text_laws::lacks(path, '?') && text_laws::lacks(path, '#') && text_laws::lacks(path, '@'),
        query matches Some(q) ==> text_laws::lacks(q, '#') && text_laws::lacks(q, '@'),
    ensures
        proxy::proxy_of(url_laws::spelled("http"@, host, port, path, query, None)) == Ok::<
            ProxyView,
            ErrorView,
        >(
            ProxyView {
                host,
                port: match port {
                    Some(p) => p,
                    None => 80,
                },
            },
        ),
        proxy::proxy_of(url_laws::spelled("https"@, host, port, path, query, None)) == Err::<
            ProxyView,
            ErrorView,
        >(ErrorView::UnsupportedScheme("https"@)),
{
    reveal_strlit("http");
    reveal_strlit("https");
    assert(text::lowered("http"@).len() == 4);
    assert(text::lowered("https"@).len() == 5);
    assert("http"@.len() == 4 && "https"@.len() == 5);
    url_laws::law_url_is_read("http"@, host, port, path, query, None);
    url_laws::law_url_is_read("https"@, host, port, path, query, None);
}

/// A request can be sent by `http` and by `https` alone; it then goes out unless
/// the cookies of the jar cannot go on the wire.
pub proof fn law_requests_that_can_be_sent(
    chain: ChainView,
    jar_cookies: Option<Seq<char>>,
    pooling: bool,
)
    ensures
        chain.url.scheme != "http"@ && chain.url.scheme != "https"@ ==> exchange::headers_sent(
            chain,
            jar_cookies,
            pooling,
        ) == Err::<Seq<(Seq<char>, Seq<char>)>, ErrorView>(
            ErrorView::UnsupportedScheme(chain.url.scheme),
        ),
        (chain.url.scheme == "http"@ || chain.url.scheme == "https"@) && jar_cookies is None
            ==> exchange::headers_sent(chain, jar_cookies, pooling) is Ok,
        (chain.url.scheme == "http"@ || chain.url.scheme == "https"@) && header::lookup(
            chain.headers,
            "Cookie"@,
        ) is None ==> (jar_cookies matches Some(j) ==> (exchange::headers_sent(
            chain,
            jar_cookies,
            pooling,
        ) is Ok <==> !j.contains('\r') && !j.contains('\n'))),
{
    lemma_names();
    header::law_lookup_after_setting(chain.headers, "Accept"@, "*/*"@, "Cookie"@);
    if let Some(j) = jar_cookies {
        header::law_what_can_go_on_the_wire(seq![], j);
    }
}

/// All the values of a header that the caller has set go out, in their order,
/// except for the headers that a hop sets itself.
pub proof fn law_all_the_callers_values_go_out(
    headers: Seq<(Seq<char>, Seq<char>)>,
    jar: Option<Seq<char>>,
    pooling: bool,
    length: Option<nat>,
    name: Seq<char>,
)
    requires
        !text::same_ignoring_case("Accept"@, name),
        !text::same_ignoring_case("Cookie"@, name),
        !text::same_ignoring_case("Connection"@, name),
        !text::same_ignoring_case("Content-Length"@, name),
        !text::same_ignoring_case("Transfer-Encoding"@, name),
    ensures
        header::all_values(hop::wire_headers(headers, jar, pooling, length), name)
            == header::all_values(headers, name),
{
    let accepted = hop::with_accept(headers);
    header::law_values_after_setting(headers, "Accept"@, "*/*"@, name);
    let cookied = hop::with_cookies(accepted, jar);
    if let Some(j) = jar {
        header::law_values_after_setting(
            accepted,
            "Cookie"@,
            hop::merged_cookies(accepted, j),
            name,
        );
    }
    header::law_values_after_setting(cookied, "Connection"@, "close"@, name);
    let before = if pooling {
        cookied
    } else {
        header::with_header(cookied, "Connection"@, "close"@)
    };
    match length {
        Some(n) => {
            header::law_values_after_removal(before, "Transfer-Encoding"@, name);
            header::law_values_after_setting(
                header::without(before, "Transfer-Encoding"@),
                "Content-Length"@,
                text::decimal(n),
                name,
            );
        },
        None => {
            header::law_values_after_removal(before, "Content-Length"@, name);
            header::law_values_after_setting(
                header::without(before, "Content-Length"@),
                "Transfer-Encoding"@,
                "chunked"@,
                name,
            );
        },
    }
}

} // verus!
