//! What URLs promise.

use crate::error::ErrorView;
use crate::header;
use crate::text;
use crate::text_laws;
use crate::url;
use crate::url::UrlView;
use vstd::prelude::*;

verus! {

/// Whether none of these characters is `c`.
spec fn lacks(s: Seq<char>, c: char) -> bool {
    forall|i: int| 0 <= i < s.len() ==> s[i] != c
}

proof fn lemma_lacks_concat(a: Seq<char>, b: Seq<char>, c: char)
    requires
        lacks(a, c),
        lacks(b, c),
    ensures
        lacks(a + b, c),
{
    let s = a + b;
    assert forall|i: int| 0 <= i < s.len() implies s[i] != c by {
        if i < a.len() {
            assert(s[i] == a[i]);
        } else {
            assert(s[i] == b[i - a.len()]);
        }
    }
}

proof fn lemma_lacks_part(s: Seq<char>, c: char, from: int, to: int)
    requires
        lacks(s, c),
        0 <= from <= to <= s.len(),
    ensures
        lacks(s.subrange(from, to), c),
{
    assert forall|i: int| 0 <= i < to - from implies s.subrange(from, to)[i] != c by {
        assert(s.subrange(from, to)[i] == s[from + i]);
    }
}

proof fn lemma_lacking_position(s: Seq<char>, c: char)
    requires
        lacks(s, c),
    ensures
        text::position(s, c) == s.len(),
{
    text::lemma_position_unique(s, c, s.len() as int);
}

/// What holds of the parts of every parsed URL.
proof fn lemma_parsed_parts(input: Seq<char>, url: UrlView)
    requires
        url::parsed(input) == Ok::<UrlView, ErrorView>(url),
    ensures
        url.scheme == "http"@ || url.scheme == "https"@,
        url.host.len() > 0,
        url.path.len() > 0,
        url.path[0] == '/',
        lacks(url.host, '/') && lacks(url.host, '?') && lacks(url.host, '#') && lacks(url.host, '@'),
        lacks(url.path, '?') && lacks(url.path, '#') && lacks(url.path, '@'),
        url.query matches Some(q) ==> lacks(q, '#') && lacks(q, '@'),
        header::valid_value(input) ==> header::valid_value(url.host) && header::valid_value(
            url.path,
        ) && (url.query matches Some(q) ==> header::valid_value(q)),
{
    url::law_parsed_url_is_well_formed(input);
    reveal_strlit("/");
    let p = text::text_position(input, "://"@);
    reveal_strlit("://");
    lemma_text_position(input, "://"@);
    let tail = input.skip(p + 3);
    let hash = text::position(tail, '#');
    text::lemma_position(tail, '#');
    let rest = tail.take(hash);
    assert(lacks(rest, '#')) by {
        assert forall|i: int| 0 <= i < rest.len() implies rest[i] != '#' by {
            assert(rest[i] == tail[i]);
        }
    }
    text::lemma_position(rest, '@');
    assert(lacks(rest, '@'));
    let end = url::authority_end(rest);
    text::lemma_position(rest, '/');
    text::lemma_position(rest, '?');
    let authority = rest.take(end);
    assert(lacks(authority, '/')) by {
        assert forall|i: int| 0 <= i < authority.len() implies authority[i] != '/' by {
            assert(authority[i] == rest[i]);
        }
    }
    assert(lacks(authority, '?')) by {
        assert forall|i: int| 0 <= i < authority.len() implies authority[i] != '?' by {
            assert(authority[i] == rest[i]);
        }
    }
    assert(authority =~= rest.subrange(0, end));
    lemma_lacks_part(rest, '#', 0, end);
    lemma_lacks_part(rest, '@', 0, end);
    let colon = text::last_position(authority, ':');
    text::lemma_last_position(authority, ':');
    if colon > 0 {
        assert(url.host =~= authority.subrange(0, colon));
        lemma_lacks_part(authority, '/', 0, colon);
        lemma_lacks_part(authority, '?', 0, colon);
        lemma_lacks_part(authority, '#', 0, colon);
        lemma_lacks_part(authority, '@', 0, colon);
    }
    let after = rest.skip(end);
    let mark = text::position(after, '?');
    text::lemma_position(after, '?');
    assert(after =~= rest.subrange(end, rest.len() as int));
    lemma_lacks_part(rest, '#', end, rest.len() as int);
    lemma_lacks_part(rest, '@', end, rest.len() as int);
    let path = after.take(mark);
    assert(path =~= after.subrange(0, mark));
    lemma_lacks_part(after, '#', 0, mark);
    lemma_lacks_part(after, '@', 0, mark);
    assert(lacks(path, '?')) by {
        assert forall|i: int| 0 <= i < path.len() implies path[i] != '?' by {
            assert(path[i] == after[i]);
        }
    }
    if mark < after.len() {
        let q = after.skip(mark + 1);
        assert(q =~= after.subrange(mark + 1, after.len() as int));
        lemma_lacks_part(after, '#', mark + 1, after.len() as int);
        lemma_lacks_part(after, '@', mark + 1, after.len() as int);
    }
    if header::valid_value(input) {
        lemma_valid_part(input, p + 3, input.len() as int);
        assert(tail =~= input.subrange(p + 3, input.len() as int));
        lemma_valid_part(tail, 0, hash);
        assert(rest =~= tail.subrange(0, hash));
        lemma_valid_part(rest, 0, end);
        if colon > 0 {
            lemma_valid_part(authority, 0, colon);
        }
        lemma_valid_part(rest, end, rest.len() as int);
        lemma_valid_part(after, 0, mark);
        if mark < after.len() {
            lemma_valid_part(after, mark + 1, after.len() as int);
            assert(after.skip(mark + 1) =~= after.subrange(mark + 1, after.len() as int));
        }
    }
}

proof fn lemma_valid_part(s: Seq<char>, from: int, to: int)
    requires
        header::valid_value(s),
        0 <= from <= to <= s.len(),
    ensures
        header::valid_value(s.subrange(from, to)),
{
    let t = s.subrange(from, to);
    assert forall|i: int| 0 <= i < t.len() implies #[trigger] t[i] != '\r' && t[i] != '\n' by {
        assert(t[i] == s[from + i]);
    }
}

proof fn lemma_text_position(s: Seq<char>, pattern: Seq<char>)
    requires
        pattern.len() > 0,
    ensures
        0 <= text::text_position(s, pattern) <= s.len(),
        text::text_position(s, pattern) < s.len() ==> text::text_position(s, pattern)
            + pattern.len() <= s.len(),
    decreases s.len(),
{
    if s.len() > 0 && !text::starts_with(s, pattern) {
        lemma_text_position(s.skip(1), pattern);
    }
}

/// A URL without CR and LF gives a request-target and a `Host` header without
/// them, so that it cannot add a line to a request head.
pub proof fn law_clean_urls_stay_clean(input: Seq<char>, url: UrlView)
    requires
        url::parsed(input) == Ok::<UrlView, ErrorView>(url),
        header::valid_value(input),
    ensures
        header::valid_value(url::target_text(url)),
        header::valid_value(url::absolute_text(url)),
        header::valid_value(url::host_text(url)),
{
    lemma_parsed_parts(input, url);
    reveal_strlit("http");
    reveal_strlit("https");
    reveal_strlit("://");
    reveal_strlit("?");
    reveal_strlit(":");
    text::lemma_decimal_digits(url.port as nat);
    let port = text::decimal(url.port as nat);
    assert(header::valid_value(port)) by {
        assert forall|i: int| 0 <= i < port.len() implies #[trigger] port[i] != '\r' && port[i]
            != '\n' by {
            assert('0' <= port[i]);
        }
    }
    header::lemma_valid_concat(url.host, ":"@);
    header::lemma_valid_concat(url.host + ":"@, port);
    if let Some(q) = url.query {
        header::lemma_valid_concat(url.path, "?"@);
        header::lemma_valid_concat(url.path + "?"@, q);
    }
    header::lemma_valid_concat(url.scheme, "://"@);
    header::lemma_valid_concat(url.scheme + "://"@, url::host_text(url));
    header::lemma_valid_concat(
        url.scheme + "://"@ + url::host_text(url),
        url::target_text(url),
    );
}

proof fn lemma_separator_found(scheme: Seq<char>, tail: Seq<char>)
    requires
        lacks(scheme, ':'),
    ensures
        text::text_position(scheme + "://"@ + tail, "://"@) == scheme.len(),
    decreases scheme.len(),
{
    reveal_strlit("://");
    let s = scheme + "://"@ + tail;
    if scheme.len() == 0 {
        assert(s.take(3) =~= "://"@);
    } else {
        assert(s[0] == scheme[0]);
        if text::starts_with(s, "://"@) {
            assert(s.take(3)[0] == ':');
        }
        let rest = scheme.skip(1);
        assert(s.skip(1) =~= rest + "://"@ + tail);
        assert(lacks(rest, ':')) by {
            assert forall|i: int| 0 <= i < rest.len() implies rest[i] != ':' by {
                assert(rest[i] == scheme[i + 1]);
            }
        }
        lemma_separator_found(rest, tail);
    }
}

/// The absolute form of a URL, which a proxy is handed, names that URL again.
/// This leaves out an empty query, which the absolute form does not show, and
/// a host with a colon inside that is reached at its scheme's own port, which
/// would be read as a host and a port.
pub proof fn law_absolute_form_reads_back(input: Seq<char>, url: UrlView)
    requires
        url::parsed(input) == Ok::<UrlView, ErrorView>(url),
        url.query != Some(Seq::<char>::empty()),
        url.port == url::default_port(url.scheme) ==> text::last_position(url.host, ':') <= 0,
    ensures
        url::parsed(url::absolute_text(url)) == Ok::<UrlView, ErrorView>(url),
{
    lemma_parsed_parts(input, url);
    let s = url::absolute_text(url);
    let host = url::host_text(url);
    let target = url::target_text(url);
    let tail = host + target;
    let p = url.scheme.len() as int;
    assert(s.take(p) == url.scheme && text::lowered(url.scheme) == url.scheme && s.skip(p + 3)
        == tail && text::text_position(s, "://"@) == p && p < s.len()) by {
        reveal_strlit("http");
        reveal_strlit("https");
        reveal_strlit("://");
        assert(s =~= url.scheme + "://"@ + tail);
        lemma_separator_found(url.scheme, tail);
        assert(s.take(p) =~= url.scheme);
        assert(text::lowered(url.scheme) =~= url.scheme);
        assert(s.skip(p + 3) =~= tail);
    }
    lemma_clean_parts(url);
    lemma_lacking_position(tail, '#');
    lemma_lacking_position(tail, '@');
    assert(tail.take(tail.len() as int) =~= tail);
    lemma_authority_ends(url);
    lemma_authority_back(url);
    lemma_target_back(url);
    assert(url::parsed(s) is Ok);
    assert(url::parsed(s)->Ok_0 =~= url);
}

/// The authority ends where the path starts.
proof fn lemma_authority_ends(url: UrlView)
    requires
        url.path.len() > 0,
        url.path[0] == '/',
        lacks(url::host_text(url), '/'),
        lacks(url::host_text(url), '?'),
    ensures
        ({
            let host = url::host_text(url);
            let tail = host + url::target_text(url);
            &&& url::authority_end(tail) == host.len()
            &&& tail.take(host.len() as int) == host
            &&& tail.skip(host.len() as int) == url::target_text(url)
        }),
{
    let host = url::host_text(url);
    let target = url::target_text(url);
    let tail = host + target;
    let n = host.len() as int;
    assert(target[0] == '/');
    assert(tail[n] == '/');
    assert forall|i: int| 0 <= i < n implies tail[i] != '/' by {
        assert(tail[i] == host[i]);
    }
    text::lemma_position_unique(tail, '/', n);
    text::lemma_position(tail, '?');
    let mark = text::position(tail, '?');
    if mark < n {
        assert(tail[mark] == host[mark]);
    }
    assert(tail.take(n) =~= host);
    assert(tail.skip(n) =~= target);
}

/// The host and the port come apart where they were put together.
proof fn lemma_authority_back(url: UrlView)
    requires
        url.host.len() > 0,
        url.port == url::default_port(url.scheme) ==> text::last_position(url.host, ':') <= 0,
    ensures
        url::split_authority(url::host_text(url), url::default_port(url.scheme)) == Some(
            (url.host, url.port),
        ),
{
    reveal_strlit(":");
    let host = url::host_text(url);
    if url.port != url::default_port(url.scheme) {
        let digits = text::decimal(url.port as nat);
        text::lemma_decimal_digits(url.port as nat);
        let h = url.host.len() as int;
        assert(host[h] == ':');
        assert forall|i: int| h < i < host.len() implies host[i] != ':' by {
            assert(host[i] == digits[i - h - 1]);
        }
        text::lemma_last_position_unique(host, ':', h);
        assert(host.skip(h + 1) =~= digits);
        assert(host.take(h) =~= url.host);
        assert(digits[0] != '+');
    }
}

/// The path and the query come apart where they were put together.
proof fn lemma_target_back(url: UrlView)
    requires
        lacks(url.path, '?'),
        url.query != Some(Seq::<char>::empty()),
    ensures
        ({
            let target = url::target_text(url);
            let mark = text::position(target, '?');
            &&& target.take(mark) == url.path
            &&& match url.query {
                Some(q) => mark < target.len() && target.skip(mark + 1) == q,
                None => mark == target.len(),
            }
        }),
{
    reveal_strlit("?");
    let target = url::target_text(url);
    let m = url.path.len() as int;
    match url.query {
        Some(q) => {
            if q.len() == 0 {
                assert(q =~= Seq::<char>::empty());
            }
            assert(target[m] == '?');
            assert forall|i: int| 0 <= i < m implies target[i] != '?' by {
                assert(target[i] == url.path[i]);
            }
            text::lemma_position_unique(target, '?', m);
            assert(target.skip(m + 1) =~= q);
        },
        None => {
            lemma_lacking_position(target, '?');
        },
    }
    assert(target.take(m) =~= url.path);
}

proof fn lemma_clean_parts(url: UrlView)
    requires
        lacks(url.host, '/') && lacks(url.host, '?') && lacks(url.host, '#') && lacks(url.host, '@'),
        lacks(url.path, '?') && lacks(url.path, '#') && lacks(url.path, '@'),
        url.query matches Some(q) ==> lacks(q, '#') && lacks(q, '@'),
    ensures
        ({
            let host = url::host_text(url);
            let tail = host + url::target_text(url);
            lacks(host, '/') && lacks(host, '?') && lacks(tail, '#') && lacks(tail, '@')
        }),
{
    reveal_strlit("?");
    reveal_strlit(":");
    let digits = text::decimal(url.port as nat);
    text::lemma_decimal_digits(url.port as nat);
    let host = url::host_text(url);
    let target = url::target_text(url);
    assert forall|i: int| 0 <= i < host.len() implies host[i] != '/' && host[i] != '?' && host[i]
        != '#' && host[i] != '@' by {
        let h = url.host.len();
        if i < h {
            assert(host[i] == url.host[i]);
        } else if i > h {
            assert(host[i] == digits[i - h - 1]);
        }
    }
    assert forall|i: int| 0 <= i < target.len() implies target[i] != '#' && target[i] != '@' by {
        let m = url.path.len();
        if i < m {
            assert(target[i] == url.path[i]);
        } else if i > m {
            assert(target[i] == url.query->0[i - m - 1]);
        }
    }
    lemma_lacks_concat(host, target, '#');
    lemma_lacks_concat(host, target, '@');
}

/// An optional part of a URL, with the mark that goes before it.
pub open spec fn marked(mark: char, part: Option<Seq<char>>) -> Seq<char> {
    match part {
        Some(p) => seq![mark] + p,
        None => seq![],
    }
}

/// A URL put together from its parts.
pub open spec fn spelled(
    scheme: Seq<char>,
    host: Seq<char>,
    port: Option<u16>,
    path: Seq<char>,
    query: Option<Seq<char>>,
    fragment: Option<Seq<char>>,
) -> Seq<char> {
    let digits = match port {
        Some(p) => Some(text::decimal(p as nat)),
        None => None,
    };
    scheme + seq![':', '/', '/'] + (host + marked(':', digits) + (path + marked('?', query))
        + marked('#', fragment))
}

/// A URL is read as it was put together: scheme (in any case), host, port (or
/// the scheme's own: 80 for `http`, 443 for `https`), path (`/` if there is
/// none) and query. A fragment is dropped.
pub proof fn law_url_is_read(
    scheme: Seq<char>,
    host: Seq<char>,
    port: Option<u16>,
    path: Seq<char>,
    query: Option<Seq<char>>,
    fragment: Option<Seq<char>>,
)
    requires
        text::same_ignoring_case(scheme, "http"@) || text::same_ignoring_case(scheme, "https"@),
        host.len() > 0,
        text_laws::lacks(host, '/') && text_laws::lacks(host, '?') && text_laws::lacks(host, '#')
            && text_laws::lacks(host, '@'),
        port is None ==> text_laws::lacks(host, ':'),
        path.len() > 0 ==> path[0] == '/',
        text_laws::lacks(path, '?') && text_laws::lacks(path, '#') && text_laws::lacks(path, '@'),
        query matches Some(q) ==> text_laws::lacks(q, '#') && text_laws::lacks(q, '@'),
    ensures
        ({
            &&& url::parsed(spelled(scheme, host, port, path, query, fragment)) matches Ok(u)
            &&& text::same_ignoring_case(scheme, "http"@) ==> u.scheme == "http"@
            &&& text::same_ignoring_case(scheme, "https"@) ==> u.scheme == "https"@
            &&& u.host == host
            &&& match port {
                Some(p) => u.port == p,
                None => u.port == if text::same_ignoring_case(scheme, "https"@) {
                    443u16
                } else {
                    80u16
                },
            }
            &&& u.path == if path.len() > 0 {
                path
            } else {
                seq!['/']
            }
            &&& u.query == query
        }),
{
    let input = spelled(scheme, host, port, path, query, fragment);
    let digits = match port {
        Some(p) => Some(text::decimal(p as nat)),
        None => None,
    };
    let authority = host + marked(':', digits);
    let target = path + marked('?', query);
    let rest = authority + target;
    let tail = rest + marked('#', fragment);
    lemma_scheme_ends(scheme, tail);
    lemma_spelled_authority(host, port, url::default_port(text::lowered(scheme)));
    assert(text_laws::lacks(target, '#') && text_laws::lacks(target, '@')) by {
        assert forall|i: int| 0 <= i < target.len() implies #[trigger] target[i] != '#' && target[i]
            != '@' by {
            if i < path.len() {
                assert(target[i] == path[i]);
            } else if i > path.len() {
                assert(target[i] == query->0[i - path.len() - 1]);
            }
        }
    }
    lemma_lacks_both(authority, target, '#');
    lemma_lacks_both(authority, target, '@');
    assert(tail.take(text::position(tail, '#')) == rest) by {
        match fragment {
            Some(f) => {
                assert(tail =~= rest + seq!['#'] + f);
                text_laws::law_separator_is_found(rest, '#', f);
            },
            None => {
                assert(tail =~= rest);
                text_laws::law_missing_separator_is_not_found(rest, '#');
                assert(rest.take(rest.len() as int) =~= rest);
            },
        }
    }
    text_laws::law_missing_separator_is_not_found(rest, '@');
    lemma_spelled_end(authority, path, query);
    lemma_spelled_target(path, query);
    reveal_strlit("/");
    assert("/"@ =~= seq!['/']);
    assert(input =~= scheme + seq![':', '/', '/'] + tail);
    assert(url::authority_end(rest) == authority.len());
    assert(rest.take(authority.len() as int) == authority);
    assert(rest.skip(authority.len() as int) == target);
}

proof fn lemma_lacks_both(a: Seq<char>, b: Seq<char>, c: char)
    requires
        text_laws::lacks(a, c),
        text_laws::lacks(b, c),
    ensures
        text_laws::lacks(a + b, c),
{
    assert forall|i: int| 0 <= i < (a + b).len() implies #[trigger] (a + b)[i] != c by {
        if i < a.len() {
            assert((a + b)[i] == a[i]);
        } else {
            assert((a + b)[i] == b[i - a.len()]);
        }
    }
}

proof fn lemma_scheme_ends(scheme: Seq<char>, tail: Seq<char>)
    requires
        text::same_ignoring_case(scheme, "http"@) || text::same_ignoring_case(scheme, "https"@),
    ensures
        ({
            let input = scheme + seq![':', '/', '/'] + tail;
            let p = text::text_position(input, "://"@);
            &&& p == scheme.len()
            &&& p < input.len()
            &&& input.take(p) == scheme
            &&& input.skip(p + 3) == tail
        }),
        text::same_ignoring_case(scheme, "http"@) ==> text::lowered(scheme) == "http"@,
        text::same_ignoring_case(scheme, "https"@) ==> text::lowered(scheme) == "https"@,
        "http"@ != "https"@,
{
    reveal_strlit("http");
    reveal_strlit("https");
    reveal_strlit("://");
    assert("://"@ =~= seq![':', '/', '/']);
    assert(text::lowered("http"@) =~= "http"@);
    assert(text::lowered("https"@) =~= "https"@);
    assert("http"@.len() != "https"@.len());
    assert(text::lowered(scheme).len() == scheme.len());
    assert(lacks(scheme, ':')) by {
        assert forall|i: int| 0 <= i < scheme.len() implies scheme[i] != ':' by {
            assert(text::lowered(scheme)[i] == text::lower(scheme[i]));
        }
    }
    lemma_separator_found(scheme, tail);
    let input = scheme + seq![':', '/', '/'] + tail;
    assert(input.take(scheme.len() as int) =~= scheme);
    assert(input.skip(scheme.len() as int + 3) =~= tail);
}

proof fn lemma_spelled_authority(host: Seq<char>, port: Option<u16>, fallback: u16)
    requires
        host.len() > 0,
        text_laws::lacks(host, '/') && text_laws::lacks(host, '?') && text_laws::lacks(host, '#')
            && text_laws::lacks(host, '@'),
        port is None ==> text_laws::lacks(host, ':'),
    ensures
        ({
            let digits = match port {
                Some(p) => Some(text::decimal(p as nat)),
                None => None,
            };
            let authority = host + marked(':', digits);
            &&& authority.len() > 0
            &&& text_laws::lacks(authority, '/') && text_laws::lacks(authority, '?')
                && text_laws::lacks(authority, '#') && text_laws::lacks(authority, '@')
            &&& url::split_authority(authority, fallback) == match port {
                Some(p) => Some((host, p)),
                None => Some((host, fallback)),
            }
        }),
{
    match port {
        Some(p) => {
            let digits = text::decimal(p as nat);
            let authority = host + marked(':', Some(digits));
            text::lemma_decimal_digits(p as nat);
            text_laws::law_decimal_reads_back(p as nat, 65535);
            let h = host.len() as int;
            assert forall|i: int| 0 <= i < authority.len() implies #[trigger] authority[i] != '/'
                && authority[i] != '?' && authority[i] != '#' && authority[i] != '@' by {
                if i < h {
                    assert(authority[i] == host[i]);
                } else if i > h {
                    assert(authority[i] == digits[i - h - 1]);
                }
            }
            assert forall|i: int| h < i < authority.len() implies authority[i] != ':' by {
                assert(authority[i] == digits[i - h - 1]);
            }
            text::lemma_last_position_unique(authority, ':', h);
            assert(authority.skip(h + 1) =~= digits);
            assert(authority.take(h) =~= host);
        },
        None => {
            let authority = host + marked(':', None);
            assert(authority =~= host);
            text::lemma_last_position_unique(host, ':', -1);
        },
    }
}

proof fn lemma_spelled_end(authority: Seq<char>, path: Seq<char>, query: Option<Seq<char>>)
    requires
        text_laws::lacks(authority, '/') && text_laws::lacks(authority, '?'),
        path.len() > 0 ==> path[0] == '/',
    ensures
        ({
            let target = path + marked('?', query);
            let rest = authority + target;
            &&& url::authority_end(rest) == authority.len()
            &&& rest.take(authority.len() as int) == authority
            &&& rest.skip(authority.len() as int) == target
        }),
{
    let target = path + marked('?', query);
    let rest = authority + target;
    let n = authority.len() as int;
    text::lemma_position(rest, '/');
    text::lemma_position(rest, '?');
    let slash = text::position(rest, '/');
    let mark = text::position(rest, '?');
    if slash < n {
        assert(rest[slash] == authority[slash]);
    }
    if mark < n {
        assert(rest[mark] == authority[mark]);
    }
    if target.len() > 0 {
        assert(rest[n] == target[0]);
        assert(target[0] == '/' || target[0] == '?');
        if slash > n && mark > n {
            assert(rest[n] != '/');
        }
    }
    assert(rest.take(n) =~= authority);
    assert(rest.skip(n) =~= target);
}

proof fn lemma_spelled_target(path: Seq<char>, query: Option<Seq<char>>)
    requires
        text_laws::lacks(path, '?'),
    ensures
        ({
            let target = path + marked('?', query);
            let mark = text::position(target, '?');
            &&& target.take(mark) == path
            &&& match query {
                Some(q) => mark < target.len() && target.skip(mark + 1) == q,
                None => mark == target.len(),
            }
        }),
{
    let target = path + marked('?', query);
    match query {
        Some(q) => {
            assert(target =~= path + seq!['?'] + q);
            text_laws::law_separator_is_found(path, '?', q);
        },
        None => {
            assert(target =~= path);
            text_laws::law_missing_separator_is_not_found(path, '?');
            assert(path.take(path.len() as int) =~= path);
        },
    }
}

/// What is refused: a text without `://`, a scheme other than `http` and
/// `https`, an `@` before the fragment, and a missing host.
pub proof fn law_bad_urls_are_refused(scheme: Seq<char>, tail: Seq<char>, input: Seq<char>)
    requires
        text_laws::lacks(scheme, ':'),
        text_laws::lacks(input, ':'),
    ensures
        url::parsed(input) is Err,
        ({
            let spelled = scheme + seq![':', '/', '/'] + tail;
            &&& !text::same_ignoring_case(scheme, "http"@) && !text::same_ignoring_case(
                scheme,
                "https"@,
            ) ==> url::parsed(spelled) is Err
            &&& text_laws::lacks(tail, '#') && tail.contains('@') ==> url::parsed(spelled) is Err
            &&& tail.len() == 0 || tail[0] == '/' || tail[0] == '?' || tail[0] == '#' ==> url::parsed(
                spelled,
            ) is Err
        }),
{
    reveal_strlit("://");
    reveal_strlit("http");
    reveal_strlit("https");
    assert("://"@ =~= seq![':', '/', '/']);
    assert(text::lowered("http"@) =~= "http"@);
    assert(text::lowered("https"@) =~= "https"@);
    lemma_pattern_absent(input);
    let spelled = scheme + seq![':', '/', '/'] + tail;
    lemma_separator_found(scheme, tail);
    assert(spelled.take(scheme.len() as int) =~= scheme);
    assert(spelled.skip(scheme.len() as int + 3) =~= tail);
    text::lemma_position(tail, '#');
    let rest = tail.take(text::position(tail, '#'));
    if text_laws::lacks(tail, '#') && tail.contains('@') {
        text_laws::law_missing_separator_is_not_found(tail, '#');
        assert(rest =~= tail);
        text::lemma_position(tail, '@');
        let i = choose|i: int| 0 <= i < tail.len() && tail[i] == '@';
        assert(tail[i] == '@');
    }
    if tail.len() == 0 || tail[0] == '/' || tail[0] == '?' || tail[0] == '#' {
        text::lemma_position(rest, '/');
        text::lemma_position(rest, '?');
        if rest.len() > 0 {
            assert(rest[0] == tail[0]);
        }
        assert(url::authority_end(rest) == 0);
        assert(rest.take(0) =~= Seq::<char>::empty());
    }
}

proof fn lemma_pattern_absent(s: Seq<char>)
    requires
        text_laws::lacks(s, ':'),
    ensures
        text::text_position(s, "://"@) == s.len(),
    decreases s.len(),
{
    reveal_strlit("://");
    if s.len() > 0 {
        if text::starts_with(s, "://"@) {
            assert(s.take(3)[0] == ':');
            assert(s[0] == ':');
        }
        assert(text_laws::lacks(s.skip(1), ':')) by {
            assert forall|i: int| 0 <= i < s.skip(1).len() implies #[trigger] s.skip(1)[i] != ':' by {
                assert(s[i + 1] != ':');
            }
        }
        lemma_pattern_absent(s.skip(1));
    }
}

/// A port that is no number, or one above 65535, is refused.
pub proof fn law_bad_ports_are_refused(host: Seq<char>, port: Seq<char>, path: Seq<char>)
    requires
        host.len() > 0,
        text_laws::lacks(host, '/') && text_laws::lacks(host, '?') && text_laws::lacks(host, '#')
            && text_laws::lacks(host, '@'),
        text_laws::lacks(port, '/') && text_laws::lacks(port, '?') && text_laws::lacks(port, '#')
            && text_laws::lacks(port, '@') && text_laws::lacks(port, ':'),
        path.len() > 0 ==> path[0] == '/',
        text_laws::lacks(path, '?') && text_laws::lacks(path, '#') && text_laws::lacks(path, '@'),
        forall|n: nat| n <= 65535 ==> text::unsigned_value(port, 10) != Some(n),
    ensures
        url::parsed("http://"@ + (host + seq![':'] + port + path)) is Err,
{
    reveal_strlit("http://");
    reveal_strlit("http");
    let authority = host + seq![':'] + port;
    let target = path + marked('?', None);
    let rest = authority + target;
    assert("http://"@ + (host + seq![':'] + port + path) =~= "http"@ + seq![':', '/', '/'] + rest);
    assert(text::lowered("http"@) =~= "http"@);
    lemma_scheme_ends("http"@, rest);
    let h = host.len() as int;
    assert forall|i: int| 0 <= i < authority.len() implies #[trigger] authority[i] != '/'
        && authority[i] != '?' && authority[i] != '#' && authority[i] != '@' by {
        if i < h {
            assert(authority[i] == host[i]);
        } else if i > h {
            assert(authority[i] == port[i - h - 1]);
        }
    }
    assert forall|i: int| h < i < authority.len() implies authority[i] != ':' by {
        assert(authority[i] == port[i - h - 1]);
    }
    text::lemma_last_position_unique(authority, ':', h);
    assert(authority.skip(h + 1) =~= port);
    assert(target =~= path);
    lemma_lacks_both(authority, target, '#');
    text_laws::law_missing_separator_is_not_found(rest, '#');
    assert(rest.take(rest.len() as int) =~= rest);
    lemma_spelled_end(authority, path, None);
}

/// What a request says of a URL: the `Host` header leaves out a scheme's own
/// port, 80 or 443, and no other; the target is the path, with `?` and the
/// query if that is not empty; the absolute form puts the scheme and the host
/// before it.
pub proof fn law_texts_of_a_url(u: UrlView)
    requires
        u.scheme == "http"@ || u.scheme == "https"@,
    ensures
        ({
            let own = if u.scheme == "https"@ {
                443u16
            } else {
                80u16
            };
            &&& u.port == own ==> url::host_text(u) == u.host
            &&& u.port != own ==> url::host_text(u) == u.host + seq![':'] + text::decimal(
                u.port as nat,
            )
            &&& u.query is None || u.query == Some(Seq::<char>::empty()) ==> url::target_text(u)
                == u.path
            &&& u.query matches Some(q) ==> q.len() > 0 ==> url::target_text(u) == u.path
                + seq!['?'] + q
            &&& url::absolute_text(u) == u.scheme + seq![':', '/', '/'] + url::host_text(u)
                + url::target_text(u)
        }),
{
    reveal_strlit(":");
    reveal_strlit("?");
    reveal_strlit("://");
    assert(":"@ =~= seq![':']);
    assert("?"@ =~= seq!['?']);
    assert("://"@ =~= seq![':', '/', '/']);
}

/// The bytes that a percent-encoded text stands for: `%` and two hexadecimal
/// digits for one byte, any other character for its own.
pub open spec fn percent_decoded(s: Seq<char>) -> Seq<u8>
    decreases s.len(),
{
    if s.len() == 0 {
        seq![]
    } else if s[0] == '%' {
        if s.len() < 3 {
            seq![]
        } else {
            seq![
                (text::position("0123456789ABCDEF"@, s[1]) * 16 + text::position(
                    "0123456789ABCDEF"@,
                    s[2],
                )) as u8,
            ] + percent_decoded(s.skip(3))
        }
    } else {
        seq![s[0] as u8] + percent_decoded(s.skip(1))
    }
}

/// The letters, the digits and the four marks that stand for themselves in a
/// query.
pub open spec fn unreserved() -> Seq<char> {
    "ABCDEFGHIJKLMNOPQRSTUVWXYZabcdefghijklmnopqrstuvwxyz0123456789-_.~"@
}

/// How one byte is spelled: as the character itself where that is unreserved,
/// otherwise as `%` and its two hexadecimal digits, in capital letters.
pub proof fn law_spelling_of_a_byte(b: u8)
    ensures
        url::encoded_byte(b) == if unreserved().contains(b as char) {
            seq![b as char]
        } else {
            seq![
                '%',
                "0123456789ABCDEF"@[b as int / 16],
                "0123456789ABCDEF"@[b as int % 16],
            ]
        },
{
    reveal_strlit("0123456789ABCDEF");
    reveal_strlit("ABCDEFGHIJKLMNOPQRSTUVWXYZabcdefghijklmnopqrstuvwxyz0123456789-_.~");
    let all = unreserved();
    let n = b as int;
    if url::is_unreserved(b) {
        let i = if 65 <= n <= 90 {
            n - 65
        } else if 97 <= n <= 122 {
            n - 97 + 26
        } else if 48 <= n <= 57 {
            n - 48 + 52
        } else if n == 45 {
            62
        } else if n == 95 {
            63
        } else if n == 46 {
            64
        } else {
            65
        };
        assert(all[i] == b as char);
    } else if all.contains(b as char) {
        let i = choose|i: int| 0 <= i < all.len() && all[i] == b as char;
        assert(0 <= i < 66);
        assert(false);
    }
}

/// A text is encoded byte after byte.
pub proof fn law_encoding_goes_byte_by_byte(a: Seq<u8>, b: Seq<u8>)
    ensures
        url::encoded_bytes(a + b) == url::encoded_bytes(a) + url::encoded_bytes(b),
        b.len() == 1 ==> url::encoded_bytes(b) == url::encoded_byte(b[0]),
    decreases b.len(),
{
    if b.len() == 0 {
        assert(a + b =~= a);
        assert(url::encoded_bytes(a) + url::encoded_bytes(b) =~= url::encoded_bytes(a));
    } else {
        law_encoding_goes_byte_by_byte(a, b.drop_last());
        assert((a + b).drop_last() =~= a + b.drop_last());
        if b.len() == 1 {
            assert(url::encoded_bytes(b.drop_last()) =~= Seq::<char>::empty());
        }
    }
}

/// What a percent-encoded text stands for is the text.
pub proof fn law_percent_encoding_reads_back(s: Seq<char>)
    ensures
        percent_decoded(url::percent_encoded(s)) == vstd::utf8::encode_utf8(s),
{
    lemma_bytes_read_back(vstd::utf8::encode_utf8(s));
}

proof fn lemma_bytes_read_back(bytes: Seq<u8>)
    ensures
        percent_decoded(url::encoded_bytes(bytes)) == bytes,
    decreases bytes.len(),
{
    if bytes.len() > 0 {
        let b = bytes[0];
        let rest = bytes.skip(1);
        let spelled = url::encoded_byte(b);
        law_encoding_goes_byte_by_byte(seq![b], rest);
        assert(seq![b] + rest =~= bytes);
        law_encoding_goes_byte_by_byte(seq![], seq![b]);
        let s = spelled + url::encoded_bytes(rest);
        lemma_bytes_read_back(rest);
        law_spelling_of_a_byte(b);
        if url::is_unreserved(b) {
            assert(s[0] == b as char);
            assert(s.skip(1) =~= url::encoded_bytes(rest));
            assert((b as char) as u8 == b);
        } else {
            assert(s[0] == '%');
            reveal_strlit("0123456789ABCDEF");
            let hex = "0123456789ABCDEF"@;
            let (h, l) = (b as int / 16, b as int % 16);
            assert(s[1] == url::hex_digit(h) && s[2] == url::hex_digit(l));
            assert(hex[h] == url::hex_digit(h)) by {}
            assert(hex[l] == url::hex_digit(l)) by {}
            assert forall|i: int| 0 <= i < h implies hex[i] != hex[h] by {}
            assert forall|i: int| 0 <= i < l implies hex[i] != hex[l] by {}
            text::lemma_position_unique(hex, s[1], h);
            text::lemma_position_unique(hex, s[2], l);
            assert(s.skip(3) =~= url::encoded_bytes(rest));
        }
        assert(percent_decoded(s) == seq![b] + rest);
    } else {
        assert(url::encoded_bytes(bytes) =~= Seq::<char>::empty());
        assert(bytes =~= Seq::<u8>::empty());
    }
}

/// A pair of a query: `key=value`, both percent-encoded.
pub open spec fn pair_text(pair: (Seq<char>, Seq<char>)) -> Seq<char> {
    url::percent_encoded(pair.0) + seq!['='] + url::percent_encoded(pair.1)
}

/// Pairs are appended to a query in their order, separated by `&`, also from
/// the query that was there.
pub proof fn law_pairs_are_appended(query: Seq<char>, pairs: Seq<(Seq<char>, Seq<char>)>)
    ensures
        ({
            let texts = pairs.map_values(|p: (Seq<char>, Seq<char>)| pair_text(p));
            &&& query.len() == 0 ==> url::with_pairs(query, pairs) == text::joined(
                texts,
                seq!['&'],
            )
            &&& query.len() > 0 ==> url::with_pairs(query, pairs) == text::joined(
                seq![query] + texts,
                seq!['&'],
            )
        }),
        pairs.len() > 0 ==> url::with_pairs(query, pairs).len() > 0,
    decreases pairs.len(),
{
    let spell = |p: (Seq<char>, Seq<char>)| pair_text(p);
    let texts = pairs.map_values(spell);
    if pairs.len() == 0 {
        assert(texts =~= Seq::<Seq<char>>::empty());
        assert(seq![query] + texts =~= seq![query]);
        if query.len() == 0 {
            assert(query =~= Seq::<char>::empty());
        }
    } else {
        reveal_strlit("=");
        reveal_strlit("&");
        assert("="@ =~= seq!['=']);
        assert("&"@ =~= seq!['&']);
        let front = pairs.drop_last();
        law_pairs_are_appended(query, front);
        assert(texts.drop_last() =~= front.map_values(spell));
        assert((seq![query] + texts).drop_last() =~= seq![query] + front.map_values(spell));
        assert(texts.last() == pair_text(pairs.last()));
        assert((seq![query] + texts).last() == pair_text(pairs.last()));
    }
}

} // verus!
