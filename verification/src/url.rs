//! A minimal `http(s)://host[:port]/path?query` URL parser: just enough to
//! build an HTTP/1.1 request line and a `Host` header.

use crate::error::Error;
use crate::error::ErrorView;
use crate::error::Result;
use crate::text;
use vstd::prelude::*;

verus! {

/// A parsed URL.
#[derive(Debug, PartialEq, Eq)]
pub struct Url {
    pub scheme: String,
    pub host: String,
    pub port: u16,
    /// Starts with `/` in every parsed URL.
    pub path: String,
    /// The query string, encoded, without the leading `?`.
    pub query: Option<String>,
}

/// What a [`Url`] stands for.
#[verifier::ext_equal]
pub struct UrlView {
    pub scheme: Seq<char>,
    pub host: Seq<char>,
    pub port: u16,
    pub path: Seq<char>,
    pub query: Option<Seq<char>>,
}

/// What an optional text stands for.
pub open spec fn text_view(t: Option<String>) -> Option<Seq<char>> {
    match t {
        Some(s) => Some(s@),
        None => None,
    }
}

impl View for Url {
    type V = UrlView;

    open spec fn view(&self) -> UrlView {
        UrlView {
            scheme: self.scheme@,
            host: self.host@,
            port: self.port,
            path: self.path@,
            query: text_view(self.query),
        }
    }
}

/// The port that a scheme stands for.
pub open spec fn default_port(scheme: Seq<char>) -> u16 {
    if scheme == "https"@ {
        443
    } else {
        80
    }
}

/// The host and the port of an authority, if its port is a number: the part
/// after the last colon, unless nothing stands before it.
pub open spec fn split_authority(authority: Seq<char>, fallback: u16) -> Option<(Seq<char>, u16)> {
    let colon = text::last_position(authority, ':');
    if colon <= 0 {
        Some((authority, fallback))
    } else {
        match text::bounded_value(authority.skip(colon + 1), 10, 65535) {
            Some(port) => Some((authority.take(colon), port as u16)),
            None => None,
        }
    }
}

/// Where the authority ends: at the first `/` or `?`.
pub open spec fn authority_end(rest: Seq<char>) -> int {
    let slash = text::position(rest, '/');
    let mark = text::position(rest, '?');
    if slash < mark {
        slash
    } else {
        mark
    }
}

/// The URL that a text spells, or why it spells none. The scheme is read
/// without regard to case, a fragment is dropped, and an empty path becomes
/// `/`.
pub open spec fn parsed(input: Seq<char>) -> std::result::Result<UrlView, ErrorView> {
    let p = text::text_position(input, "://"@);
    let scheme = text::lowered(input.take(p));
    let tail = input.skip(p + 3);
    let rest = tail.take(text::position(tail, '#'));
    let end = authority_end(rest);
    let authority = rest.take(end);
    let path_and_query = rest.skip(end);
    let mark = text::position(path_and_query, '?');
    let path = path_and_query.take(mark);
    if p == input.len() {
        Err(ErrorView::InvalidUrl(input))
    } else if scheme != "http"@ && scheme != "https"@ {
        Err(
            ErrorView::InvalidUrl(
                "unrecognized scheme `"@ + scheme + "` in `"@ + input + "`"@,
            ),
        )
    } else if text::position(rest, '@') < rest.len() {
        Err(
            ErrorView::InvalidUrl(
                "userinfo (user:pass@host) is not supported in `"@ + input + "`"@,
            ),
        )
    } else if authority.len() == 0 {
        Err(ErrorView::InvalidUrl("missing host in `"@ + input + "`"@))
    } else {
        match split_authority(authority, default_port(scheme)) {
            None => Err(ErrorView::InvalidUrl("bad port in `"@ + input + "`"@)),
            Some((host, port)) => Ok(
                UrlView {
                    scheme,
                    host,
                    port,
                    path: if path.len() == 0 {
                        "/"@
                    } else {
                        path
                    },
                    query: if mark < path_and_query.len() {
                        Some(path_and_query.skip(mark + 1))
                    } else {
                        None
                    },
                },
            ),
        }
    }
}

/// The `Host` header value: the host, with the port unless it is the
/// scheme's own.
pub open spec fn host_text(url: UrlView) -> Seq<char> {
    if url.port == default_port(url.scheme) {
        url.host
    } else {
        url.host + ":"@ + text::decimal(url.port as nat)
    }
}

/// The request-target: the path, with the query unless it is empty.
pub open spec fn target_text(url: UrlView) -> Seq<char> {
    match url.query {
        Some(q) if q.len() > 0 => url.path + "?"@ + q,
        _ => url.path,
    }
}

/// The request-target for a forward proxy: scheme, host and target.
pub open spec fn absolute_text(url: UrlView) -> Seq<char> {
    url.scheme + "://"@ + host_text(url) + target_text(url)
}

/// Letters, digits, `-`, `_`, `.` and `~`.
pub open spec fn is_unreserved(b: u8) -> bool {
    ||| 65 <= b <= 90
    ||| 97 <= b <= 122
    ||| 48 <= b <= 57
    ||| b == 45
    ||| b == 95
    ||| b == 46
    ||| b == 126
}

/// The upper case hexadecimal digit for a number below sixteen.
pub open spec fn hex_digit(d: int) -> char {
    if d < 10 {
        ((48 + d) as u32) as char
    } else {
        ((55 + d) as u32) as char
    }
}

/// How a byte is spelled in a query: itself if it is unreserved, otherwise
/// `%` and its two hexadecimal digits.
pub open spec fn encoded_byte(b: u8) -> Seq<char> {
    if is_unreserved(b) {
        seq![b as char]
    } else {
        seq!['%', hex_digit(b as int / 16), hex_digit(b as int % 16)]
    }
}

pub open spec fn encoded_bytes(bytes: Seq<u8>) -> Seq<char>
    decreases bytes.len(),
{
    if bytes.len() == 0 {
        seq![]
    } else {
        encoded_bytes(bytes.drop_last()) + encoded_byte(bytes.last())
    }
}

/// The percent-encoding of a text.
pub open spec fn percent_encoded(s: Seq<char>) -> Seq<char> {
    encoded_bytes(vstd::utf8::encode_utf8(s))
}

/// A query with pairs appended, each as `key=value`, joined by `&`.
pub open spec fn with_pairs(query: Seq<char>, pairs: Seq<(Seq<char>, Seq<char>)>) -> Seq<char>
    decreases pairs.len(),
{
    if pairs.len() == 0 {
        query
    } else {
        let before = with_pairs(query, pairs.drop_last());
        let (k, v) = pairs.last();
        let pair = percent_encoded(k) + "="@ + percent_encoded(v);
        if before.len() == 0 {
            pair
        } else {
            before + "&"@ + pair
        }
    }
}

/// What pairs of texts stand for.
pub open spec fn pair_views(pairs: Seq<(&str, &str)>) -> Seq<(Seq<char>, Seq<char>)> {
    pairs.map_values(|p: (&str, &str)| (p.0@, p.1@))
}

/// Encoding keeps bytes apart.
pub proof fn law_percent_encoding_is_injective(a: Seq<char>, b: Seq<char>)
    requires
        percent_encoded(a) == percent_encoded(b),
    ensures
        a == b,
{
    lemma_encoded_bytes_injective(vstd::utf8::encode_utf8(a), vstd::utf8::encode_utf8(b));
    vstd::utf8::encode_utf8_decode_utf8(a);
    vstd::utf8::encode_utf8_decode_utf8(b);
}

proof fn lemma_encoded_bytes_first(bytes: Seq<u8>)
    requires
        bytes.len() > 0,
    ensures
        encoded_bytes(bytes) == encoded_byte(bytes[0]) + encoded_bytes(bytes.skip(1)),
    decreases bytes.len(),
{
    if bytes.len() == 1 {
        assert(bytes.drop_last() == Seq::<u8>::empty());
        assert(bytes.skip(1) == Seq::<u8>::empty());
    } else {
        lemma_encoded_bytes_first(bytes.drop_last());
        assert(bytes.drop_last().skip(1) == bytes.skip(1).drop_last());
    }
}

proof fn lemma_encoded_bytes_injective(a: Seq<u8>, b: Seq<u8>)
    requires
        encoded_bytes(a) == encoded_bytes(b),
    ensures
        a == b,
    decreases a.len(),
{
    if a.len() == 0 {
        if b.len() > 0 {
            lemma_encoded_bytes_first(b);
        }
        assert(a == b);
    } else {
        lemma_encoded_bytes_first(a);
        if b.len() == 0 {
            assert(encoded_bytes(a)[0] == encoded_byte(a[0])[0]);
        } else {
            lemma_encoded_bytes_first(b);
            let x = encoded_byte(a[0]);
            let y = encoded_byte(b[0]);
            let whole = encoded_bytes(a);
            assert(whole[0] == x[0]);
            assert(whole[0] == y[0]);
            assert(x.len() == y.len());
            if x.len() == 3 {
                assert(whole[1] == x[1] && whole[2] == x[2]);
                assert(whole[1] == y[1] && whole[2] == y[2]);
            }
            assert(a[0] == b[0]);
            assert(whole.skip(x.len() as int) == encoded_bytes(a.skip(1)));
            assert(whole.skip(y.len() as int) == encoded_bytes(b.skip(1)));
            lemma_encoded_bytes_injective(a.skip(1), b.skip(1));
            assert(a == seq![a[0]] + a.skip(1));
            assert(b == seq![b[0]] + b.skip(1));
        }
    }
}

proof fn lemma_percent_encoded_clean(s: Seq<char>)
    ensures
        forall|i: int|
            0 <= i < percent_encoded(s).len() ==> '%' <= #[trigger] percent_encoded(s)[i] <= '~'
                && percent_encoded(s)[i] != '&' && percent_encoded(s)[i] != '='
                && percent_encoded(s)[i] != '#' && percent_encoded(s)[i] != '?',
{
    lemma_encoded_bytes_clean(vstd::utf8::encode_utf8(s));
}

proof fn lemma_encoded_bytes_clean(bytes: Seq<u8>)
    ensures
        forall|i: int|
            0 <= i < encoded_bytes(bytes).len() ==> '%' <= #[trigger] encoded_bytes(bytes)[i] <= '~'
                && encoded_bytes(bytes)[i] != '&' && encoded_bytes(bytes)[i] != '='
                && encoded_bytes(bytes)[i] != '#' && encoded_bytes(bytes)[i] != '?',
    decreases bytes.len(),
{
    if bytes.len() > 0 {
        lemma_encoded_bytes_clean(bytes.drop_last());
        let front = encoded_bytes(bytes.drop_last());
        let e = encoded_byte(bytes.last());
        assert forall|i: int| 0 <= i < encoded_bytes(bytes).len() implies '%'
            <= #[trigger] encoded_bytes(bytes)[i] <= '~' && encoded_bytes(bytes)[i] != '&'
            && encoded_bytes(bytes)[i] != '=' && encoded_bytes(bytes)[i] != '#'
            && encoded_bytes(bytes)[i] != '?' by {
            if i < front.len() {
                assert(encoded_bytes(bytes)[i] == front[i]);
            } else {
                assert(encoded_bytes(bytes)[i] == e[i - front.len()]);
            }
        }
    }
}

/// A percent-encoded text is visible ASCII and holds none of the characters
/// that separate the parts of a query.
pub proof fn law_percent_encoded_text_separates_nothing(s: Seq<char>, i: int)
    requires
        0 <= i < percent_encoded(s).len(),
    ensures
        ' ' < percent_encoded(s)[i] <= '~',
        percent_encoded(s)[i] != '&',
        percent_encoded(s)[i] != '=',
        percent_encoded(s)[i] != '#',
        percent_encoded(s)[i] != '?',
{
    lemma_percent_encoded_clean(s);
}

/// A parsed URL has one of the two schemes in lower case, a host that holds
/// no user name and no other part of the URL, and a path that starts with
/// `/`.
pub proof fn law_parsed_url_is_well_formed(input: Seq<char>)
    ensures
        parsed(input) matches Ok(url) ==> (url.scheme == "http"@ || url.scheme == "https"@)
            && url.host.len() > 0 && url.path.len() > 0 && url.path[0] == '/',
        parsed(input) matches Ok(url) ==> forall|i: int|
            0 <= i < url.host.len() ==> {
                &&& #[trigger] url.host[i] != '@'
                &&& url.host[i] != '/'
                &&& url.host[i] != '?'
                &&& url.host[i] != '#'
            },
{
    if let Ok(url) = parsed(input) {
        reveal_strlit("/");
        let p = text::text_position(input, "://"@);
        let tail = input.skip(p + 3);
        let rest = tail.take(text::position(tail, '#'));
        let end = authority_end(rest);
        let authority = rest.take(end);
        let path_and_query = rest.skip(end);
        text::lemma_position(tail, '#');
        text::lemma_position(rest, '/');
        text::lemma_position(rest, '?');
        text::lemma_position(path_and_query, '?');
        text::lemma_last_position(authority, ':');
        let path = path_and_query.take(text::position(path_and_query, '?'));
        if path.len() > 0 {
            assert(path[0] == path_and_query[0]);
            assert(path_and_query[0] == rest[end]);
        }
        text::lemma_position(rest, '@');
        assert forall|i: int| 0 <= i < url.host.len() implies {
            &&& #[trigger] url.host[i] != '@'
            &&& url.host[i] != '/'
            &&& url.host[i] != '?'
            &&& url.host[i] != '#'
        } by {
            assert(url.host[i] == rest[i] && rest[i] == tail[i]);
        }
    }
}

impl Url {
    pub fn parse(input: &str) -> (outcome: Result<Url>)
        ensures
            match outcome {
                Ok(url) => parsed(input@) == Ok::<UrlView, ErrorView>(url@),
                Err(e) => parsed(input@) == Err::<UrlView, ErrorView>(e@),
            },
    {
        proof {
            reveal_strlit("://");
            reveal_strlit("http");
            reveal_strlit("https");
        }
        let chars = text::chars_of(input);
        let p = text::find_text(chars.as_slice(), text::chars_of("://").as_slice());
        if p == chars.len() {
            return Err(Error::InvalidUrl(text::owned(input)));
        }
        let scheme = text::text_of(
            text::lower_chars(text::part(chars.as_slice(), 0, p)).as_slice(),
        );
        assert(chars@.subrange(0, p as int) == chars@.take(p as int));
        let fallback: u16 = if text::same_text(scheme.as_str(), "http") {
            80
        } else if text::same_text(scheme.as_str(), "https") {
            443
        } else {
            let mut m = text::owned("unrecognized scheme `");
            m.push_str(scheme.as_str());
            m.push_str("` in `");
            m.push_str(input);
            m.push_str("`");
            return Err(Error::InvalidUrl(m));
        };
        let tail = text::part(chars.as_slice(), p + 3, chars.len());
        assert(tail@ == chars@.skip(p + 3));
        // Fragments never reach the wire; drop them before anything else.
        let rest = text::part(tail, 0, text::find(tail, '#'));
        assert(rest@ == tail@.take(text::position(tail@, '#')));
        if text::find(rest, '@') < rest.len() {
            return Err(
                Error::InvalidUrl(
                    about("userinfo (user:pass@host) is not supported in `", input),
                ),
            );
        }
        let slash = text::find(rest, '/');
        let mark = text::find(rest, '?');
        let end = if slash < mark {
            slash
        } else {
            mark
        };
        let authority = text::part(rest, 0, end);
        assert(authority@ == rest@.take(end as int));
        if authority.len() == 0 {
            return Err(Error::InvalidUrl(about("missing host in `", input)));
        }
        let path_and_query = text::part(rest, end, rest.len());
        assert(path_and_query@ == rest@.skip(end as int));
        let (host, port) = parse_authority(authority, fallback, input)?;
        let mark = text::find(path_and_query, '?');
        let path_chars = text::part(path_and_query, 0, mark);
        assert(path_chars@ == path_and_query@.take(mark as int));
        let query = if mark < path_and_query.len() {
            let q = text::part(path_and_query, mark + 1, path_and_query.len());
            assert(q@ == path_and_query@.skip(mark + 1));
            Some(text::text_of(q))
        } else {
            None
        };
        let path = if path_chars.len() == 0 {
            text::owned("/")
        } else {
            text::text_of(path_chars)
        };
        let url = Url { scheme, host, port, path, query };
        assert(parsed(input@) is Ok);
        assert(url@ =~= parsed(input@)->Ok_0);
        Ok(url)
    }

    /// The `Host` header value.
    pub fn host_header(&self) -> (s: String)
        ensures
            s@ == host_text(self@),
    {
        let own_port: u16 = if text::same_text(self.scheme.as_str(), "https") {
            443
        } else {
            80
        };
        if self.port == own_port {
            self.host.clone()
        } else {
            let mut s = self.host.clone();
            s.push_str(":");
            s.push_str(text::decimal_text(self.port as u128).as_str());
            s
        }
    }

    /// The request-target for the request line.
    pub fn request_target(&self) -> (s: String)
        ensures
            s@ == target_text(self@),
    {
        match &self.query {
            Some(q) if text::chars_of(q.as_str()).len() > 0 => {
                let mut s = self.path.clone();
                s.push_str("?");
                s.push_str(q.as_str());
                s
            },
            _ => self.path.clone(),
        }
    }

    /// The request-target for a request to a forward proxy.
    pub fn absolute_form(&self) -> (s: String)
        ensures
            s@ == absolute_text(self@),
    {
        let mut s = self.scheme.clone();
        s.push_str("://");
        s.push_str(self.host_header().as_str());
        s.push_str(self.request_target().as_str());
        s
    }

    /// A copy with `pairs` appended to the query string, each key and value
    /// percent-encoded.
    pub fn with_query_pairs(&self, pairs: &[(&str, &str)]) -> (url: Url)
        ensures
            ({
                let query = with_pairs(
                    match self@.query {
                        Some(q) => q,
                        None => seq![],
                    },
                    pair_views(pairs@),
                );
                url@ == (UrlView {
                    query: if query.len() == 0 {
                        None
                    } else {
                        Some(query)
                    },
                    ..self@
                })
            }),
    {
        let start = match &self.query {
            Some(q) => q.clone(),
            None => String::new(),
        };
        let query = append_pairs(start, pairs);
        let none = text::chars_of(query.as_str()).len() == 0;
        Url {
            scheme: self.scheme.clone(),
            host: self.host.clone(),
            port: self.port,
            path: self.path.clone(),
            query: if none {
                None
            } else {
                Some(query)
            },
        }
    }
}

impl Clone for Url {
    fn clone(&self) -> (copy: Url)
        ensures
            copy@ == self@,
    {
        Url {
            scheme: self.scheme.clone(),
            host: self.host.clone(),
            port: self.port,
            path: self.path.clone(),
            query: match &self.query {
                Some(q) => Some(q.clone()),
                None => None,
            },
        }
    }
}

/// Appends pairs to a query string, each key and value percent-encoded.
pub fn append_pairs(start: String, pairs: &[(&str, &str)]) -> (query: String)
    ensures
        query@ == with_pairs(start@, pair_views(pairs@)),
{
    let ghost views = pair_views(pairs@);
    let ghost begun = start@;
    let mut query = start;
    for i in 0..pairs.len()
        invariant
            views == pair_views(pairs@),
            query@ == with_pairs(begun, views.take(i as int)),
    {
        proof {
            assert(views.take(i + 1).drop_last() == views.take(i as int));
            assert(views.take(i + 1).last() == views[i as int]);
        }
        let ghost before = query@;
        if text::chars_of(query.as_str()).len() > 0 {
            query.push_str("&");
        }
        query.push_str(percent_encode(pairs[i].0).as_str());
        query.push_str("=");
        query.push_str(percent_encode(pairs[i].1).as_str());
        proof {
            let (k, v) = views[i as int];
            let pair = percent_encoded(k) + "="@ + percent_encoded(v);
            if before.len() == 0 {
                assert(query@ == pair);
            } else {
                assert(query@ == before + "&"@ + pair);
            }
        }
    }
    assert(views.take(views.len() as int) == views);
    query
}

fn about(what: &str, input: &str) -> (m: String)
    ensures
        m@ == what@ + input@ + "`"@,
{
    let mut m = text::owned(what);
    m.push_str(input);
    m.push_str("`");
    m
}

fn parse_authority(authority: &[char], fallback: u16, original: &str) -> (outcome: Result<
    (String, u16),
>)
    ensures
        match outcome {
            Ok((host, port)) => split_authority(authority@, fallback) == Some((host@, port)),
            Err(e) => split_authority(authority@, fallback) is None && e@ == ErrorView::InvalidUrl(
                "bad port in `"@ + original@ + "`"@,
            ),
        },
{
    match text::find_last(authority, ':') {
        Some(colon) if colon > 0 => {
            let digits = text::part(authority, colon + 1, authority.len());
            assert(digits@ == authority@.skip(colon + 1));
            match text::read_unsigned(digits, 10, 65535) {
                Some(port) => {
                    let host = text::part(authority, 0, colon);
                    assert(host@ == authority@.take(colon as int));
                    Ok((text::text_of(host), port as u16))
                },
                None => Err(Error::InvalidUrl(about("bad port in `", original))),
            }
        },
        _ => Ok((text::text_of(authority), fallback)),
    }
}

fn hex_digit_char(d: u8) -> (c: char)
    requires
        d < 16,
    ensures
        c == hex_digit(d as int),
{
    if d < 10 {
        (48u8 + d) as char
    } else {
        (55u8 + d) as char
    }
}

/// Percent-encodes everything except the unreserved characters.
pub fn percent_encode(input: &str) -> (out: String)
    ensures
        out@ == percent_encoded(input@),
{
    let bytes = text::utf8_bytes(input);
    let mut out = String::new();
    for i in 0..bytes.len()
        invariant
            bytes@ == vstd::utf8::encode_utf8(input@),
            out@ == encoded_bytes(bytes@.take(i as int)),
    {
        proof {
            assert(bytes@.take(i + 1).drop_last() == bytes@.take(i as int));
        }
        let b = bytes[i];
        if (65 <= b && b <= 90) || (97 <= b && b <= 122) || (48 <= b && b <= 57) || b == 45 || b
            == 95 || b == 46 || b == 126 {
            out.push(b as char);
        } else {
            out.push('%');
            out.push(hex_digit_char(b / 16));
            out.push(hex_digit_char(b % 16));
        }
        assert(out@ == encoded_bytes(bytes@.take(i as int)) + encoded_byte(bytes@[i as int]));
    }
    assert(bytes@.take(bytes@.len() as int) == bytes@);
    out
}

} // verus!
