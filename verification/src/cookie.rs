//! A minimal RFC 6265 cookie jar: parses `Set-Cookie` response headers,
//! stores them scoped by domain and path, and builds the `Cookie` header for
//! later requests.
//!
//! A response may only set a `Domain` that the host that sent it lies in.
//! There is no list of public suffixes.
//!
//! Instants are given in nanoseconds since the Unix epoch, negative before it.

use crate::date;
use crate::platform;
use crate::text;
use crate::url::Url;
use crate::url::UrlView;
use vstd::prelude::*;

verus! {

/// A stored cookie.
#[derive(Debug)]
pub struct Cookie {
    pub name: String,
    pub value: String,
    /// Lower case, without a leading dot.
    pub domain: String,
    /// Whether the cookie is for the host that set it alone, and not for
    /// names below it.
    pub host_only: bool,
    pub path: String,
    pub secure: bool,
    pub http_only: bool,
    /// When the cookie expires; a cookie without this stays.
    pub expires: Option<i128>,
}

/// What a [`Cookie`] stands for.
#[verifier::ext_equal]
pub struct CookieView {
    pub name: Seq<char>,
    pub value: Seq<char>,
    pub domain: Seq<char>,
    pub host_only: bool,
    pub path: Seq<char>,
    pub secure: bool,
    pub http_only: bool,
    pub expires: Option<i128>,
}

impl View for Cookie {
    type V = CookieView;

    open spec fn view(&self) -> CookieView {
        CookieView {
            name: self.name@,
            value: self.value@,
            domain: self.domain@,
            host_only: self.host_only,
            path: self.path@,
            secure: self.secure,
            http_only: self.http_only,
            expires: self.expires,
        }
    }
}

/// What the attributes of a `Set-Cookie` header say.
#[verifier::ext_equal]
pub struct Attributes {
    pub domain: Option<Seq<char>>,
    pub path: Option<Seq<char>>,
    pub max_age: Option<int>,
    pub expires: Option<nat>,
    pub secure: bool,
    pub http_only: bool,
}

/// No attributes.
pub open spec fn no_attributes() -> Attributes {
    Attributes {
        domain: None,
        path: None,
        max_age: None,
        expires: None,
        secure: false,
        http_only: false,
    }
}

/// The attributes with one more, whose text has no white space around it. A
/// later attribute replaces an earlier one of its kind, also where its value
/// is of no use; unknown ones are passed over.
pub open spec fn with_attribute(a: Attributes, attribute: Seq<char>) -> Attributes {
    let eq = text::position(attribute, '=');
    let key = if eq < attribute.len() {
        text::trimmed(attribute.take(eq))
    } else {
        attribute
    };
    let value = if eq < attribute.len() {
        Some(text::trimmed(attribute.skip(eq + 1)))
    } else {
        None
    };
    let kind = text::lowered(key);
    if attribute.len() == 0 {
        a
    } else if kind == "domain"@ {
        Attributes {
            domain: match value {
                Some(v) if text::without_leading_dots(v).len() > 0 => Some(
                    text::lowered(text::without_leading_dots(v)),
                ),
                _ => None,
            },
            ..a
        }
    } else if kind == "path"@ {
        Attributes {
            path: match value {
                Some(v) if v.len() > 0 && v[0] == '/' => Some(v),
                _ => None,
            },
            ..a
        }
    } else if kind == "max-age"@ {
        Attributes {
            max_age: match value {
                Some(v) => text::signed_value(v),
                None => None,
            },
            ..a
        }
    } else if kind == "expires"@ {
        Attributes {
            expires: match value {
                Some(v) => date::http_date(v),
                None => None,
            },
            ..a
        }
    } else if kind == "secure"@ {
        Attributes { secure: true, ..a }
    } else if kind == "httponly"@ {
        Attributes { http_only: true, ..a }
    } else {
        a
    }
}

/// What a list of attributes says.
pub open spec fn attributes_of(pieces: Seq<Seq<char>>) -> Attributes
    decreases pieces.len(),
{
    if pieces.len() == 0 {
        no_attributes()
    } else {
        with_attribute(attributes_of(pieces.drop_last()), text::trimmed(pieces.last()))
    }
}

/// The directory of a request path: what stands before its last `/`, or `/`
/// where that is nothing.
pub open spec fn directory(path: Seq<char>) -> Seq<char> {
    let slash = text::last_position(path, '/');
    if slash <= 0 {
        "/"@
    } else {
        path.take(slash)
    }
}

/// When a cookie expires: `Max-Age` wins over `Expires`, and one that is not
/// positive is over at once.
pub open spec fn expiry(a: Attributes, now: i128) -> Option<i128> {
    match a.max_age {
        Some(secs) => if secs <= 0 {
            Some(0)
        } else if now + secs * 1_000_000_000 > i128::MAX {
            Some(i128::MAX)
        } else {
            Some((now + secs * 1_000_000_000) as i128)
        },
        None => match a.expires {
            Some(seconds) => Some((seconds * 1_000_000_000) as i128),
            None => None,
        },
    }
}

/// The cookie that a `Set-Cookie` header sets, in a response from `url` that
/// arrived at `now`; none if the header is malformed or names a domain that
/// the host does not lie in.
pub open spec fn parsed(raw: Seq<char>, url: UrlView, now: i128) -> Option<CookieView> {
    let pieces = text::split(raw, ';');
    let eq = text::position(pieces[0], '=');
    let name = text::trimmed(pieces[0].take(eq));
    let a = attributes_of(pieces.skip(1));
    let host = text::lowered(url.host);
    if eq == pieces[0].len() || name.len() == 0 {
        None
    } else if a.domain is Some && !text::within_domain(host, a.domain->0) {
        None
    } else {
        Some(
            CookieView {
                name,
                value: text::trimmed(pieces[0].skip(eq + 1)),
                domain: match a.domain {
                    Some(d) => d,
                    None => host,
                },
                host_only: a.domain is None,
                path: match a.path {
                    Some(p) => p,
                    None => directory(url.path),
                },
                secure: a.secure,
                http_only: a.http_only,
                expires: expiry(a, now),
            },
        )
    }
}

pub open spec fn expired(c: CookieView, now: i128) -> bool {
    c.expires matches Some(e) && e <= now
}

/// Whether a cookie is for this host.
pub open spec fn for_host(c: CookieView, host: Seq<char>) -> bool {
    if c.host_only {
        text::lowered(host) == c.domain
    } else {
        text::within_domain(text::lowered(host), c.domain)
    }
}

/// Whether a cookie is for this path: its own path, or one below it.
pub open spec fn for_path(c: CookieView, path: Seq<char>) -> bool {
    path == c.path || (text::starts_with(path, c.path) && ((c.path.len() > 0 && c.path.last()
        == '/') || (path.len() > c.path.len() && path[c.path.len() as int] == '/')))
}

/// Whether a cookie goes out with a request to `url`.
pub open spec fn goes_to(c: CookieView, url: UrlView) -> bool {
    for_host(c, url.host) && for_path(c, url.path) && (c.secure ==> url.scheme == "https"@)
}

/// Whether two cookies have the same name, domain and path.
pub open spec fn same_cookie(a: CookieView, b: CookieView) -> bool {
    a.name == b.name && a.domain == b.domain && a.path == b.path
}

/// The jar without the cookies that one replaces.
pub open spec fn without_same(jar: Seq<CookieView>, c: CookieView) -> Seq<CookieView> {
    jar.filter(|k: CookieView| !same_cookie(k, c))
}

/// The jar after one `Set-Cookie` header.
pub open spec fn stored_one(jar: Seq<CookieView>, url: UrlView, raw: Seq<char>, now: i128) -> Seq<
    CookieView,
> {
    match parsed(raw, url, now) {
        None => jar,
        Some(c) => if expired(c, now) {
            without_same(jar, c)
        } else {
            without_same(jar, c).push(c)
        },
    }
}

/// The jar after the `Set-Cookie` headers of a response.
pub open spec fn stored(
    jar: Seq<CookieView>,
    url: UrlView,
    raws: Seq<Seq<char>>,
    now: i128,
) -> Seq<CookieView>
    decreases raws.len(),
{
    if raws.len() == 0 {
        jar
    } else {
        stored_one(stored(jar, url, raws.drop_last(), now), url, raws.last(), now)
    }
}

/// The cookies that have not expired.
pub open spec fn fresh(jar: Seq<CookieView>, now: i128) -> Seq<CookieView> {
    jar.filter(|c: CookieView| !expired(c, now))
}

/// The cookies that go out with a request to `url`.
pub open spec fn matching(jar: Seq<CookieView>, url: UrlView) -> Seq<CookieView> {
    jar.filter(|c: CookieView| goes_to(c, url))
}

/// How specific a cookie's path is: its length in bytes.
pub open spec fn rank(c: CookieView) -> nat {
    vstd::utf8::encode_utf8(c.path).len()
}

/// Where a cookie goes among ranked ones: before the first with a shorter
/// path.
pub open spec fn rank_position(ranked: Seq<CookieView>, c: CookieView) -> int
    decreases ranked.len(),
{
    if ranked.len() == 0 || rank(ranked[0]) < rank(c) {
        0
    } else {
        1 + rank_position(ranked.skip(1), c)
    }
}

/// The cookies with longer paths first; those with paths of one length keep
/// their order.
pub open spec fn ranked(cookies: Seq<CookieView>) -> Seq<CookieView>
    decreases cookies.len(),
{
    if cookies.len() == 0 {
        seq![]
    } else {
        let front = ranked(cookies.drop_last());
        front.insert(rank_position(front, cookies.last()), cookies.last())
    }
}

/// A cookie as it stands in a `Cookie` header.
pub open spec fn pair_text(c: CookieView) -> Seq<char> {
    c.name + "="@ + c.value
}

/// The `Cookie` header for a request to `url`, if there is one.
pub open spec fn header_text(jar: Seq<CookieView>, url: UrlView) -> Option<Seq<char>> {
    let cookies = matching(jar, url);
    if cookies.len() == 0 {
        None
    } else {
        Some(
            text::joined(
                ranked(cookies).map_values(|c: CookieView| pair_text(c)),
                "; "@,
            ),
        )
    }
}

/// What stored cookies stand for.
pub open spec fn cookie_views(cookies: Seq<Cookie>) -> Seq<CookieView> {
    cookies.map_values(|c: Cookie| c@)
}

/// Whether no two cookies have the same name, domain and path.
pub open spec fn all_distinct(jar: Seq<CookieView>) -> bool {
    forall|i: int, j: int| 0 <= i < j < jar.len() ==> !same_cookie(jar[i], jar[j])
}

proof fn lemma_filter_next(s: Seq<CookieView>, p: spec_fn(CookieView) -> bool, i: int)
    requires
        0 <= i < s.len(),
    ensures
        s.take(i + 1).filter(p) == if p(s[i]) {
            s.take(i).filter(p).push(s[i])
        } else {
            s.take(i).filter(p)
        },
{
    reveal(Seq::filter);
    assert(s.take(i + 1).drop_last() =~= s.take(i));
    assert(s.take(i + 1).last() == s[i]);
}

impl Clone for Cookie {
    fn clone(&self) -> (copy: Cookie)
        ensures
            copy@ == self@,
    {
        Cookie {
            name: self.name.clone(),
            value: self.value.clone(),
            domain: self.domain.clone(),
            host_only: self.host_only,
            path: self.path.clone(),
            secure: self.secure,
            http_only: self.http_only,
            expires: self.expires,
        }
    }
}

/// The attributes read so far.
struct AttributeReader {
    domain: Option<Vec<char>>,
    path: Option<Vec<char>>,
    max_age: Option<i64>,
    expires: Option<u128>,
    secure: bool,
    http_only: bool,
}

spec fn chars_view(t: Option<Vec<char>>) -> Option<Seq<char>> {
    match t {
        Some(s) => Some(s@),
        None => None,
    }
}

impl AttributeReader {
    spec fn says(self) -> Attributes {
        Attributes {
            domain: chars_view(self.domain),
            path: chars_view(self.path),
            max_age: match self.max_age {
                Some(n) => Some(n as int),
                None => None,
            },
            expires: match self.expires {
                Some(n) => Some(n as nat),
                None => None,
            },
            secure: self.secure,
            http_only: self.http_only,
        }
    }

    spec fn well_formed(self) -> bool {
        self.expires matches Some(n) ==> n < 0x1_0000_0000_0000_0000_0000_0000
    }

    fn read(&mut self, attribute: &[char])
        requires
            old(self).well_formed(),
        ensures
            final(self).well_formed(),
            final(self).says() == with_attribute(old(self).says(), attribute@),
    {
        if attribute.len() == 0 {
            return ;
        }
        let eq = text::find(attribute, '=');
        let has_value = eq < attribute.len();
        let key = if has_value {
            let k = text::part(attribute, 0, eq);
            assert(k@ == attribute@.take(eq as int));
            text::trim(k)
        } else {
            attribute
        };
        let value = if has_value {
            let v = text::part(attribute, eq + 1, attribute.len());
            assert(v@ == attribute@.skip(eq + 1));
            text::trim(v)
        } else {
            attribute
        };
        let lower = text::lower_chars(key);
        let kind = lower.as_slice();
        proof {
            reveal_strlit("domain");
            reveal_strlit("path");
            reveal_strlit("max-age");
            reveal_strlit("expires");
            reveal_strlit("secure");
            reveal_strlit("httponly");
        }
        if text::spells(kind, "domain") {
            self.domain = None;
            if has_value {
                let domain = text::trim_dots(value);
                if domain.len() > 0 {
                    self.domain = Some(text::lower_chars(domain));
                }
            }
        } else if text::spells(kind, "path") {
            self.path = None;
            if has_value && value.len() > 0 && value[0] == '/' {
                self.path = Some(text::copied(value));
            }
        } else if text::spells(kind, "max-age") {
            self.max_age = if has_value {
                text::read_signed(value)
            } else {
                None
            };
        } else if text::spells(kind, "expires") {
            self.expires = if has_value {
                date::parse_http_date(text::text_of(value).as_str())
            } else {
                None
            };
        } else if text::spells(kind, "secure") {
            self.secure = true;
        } else if text::spells(kind, "httponly") {
            self.http_only = true;
        }
        assert(self.says() =~= with_attribute(old(self).says(), attribute@));
    }
}

/// The directory of a request path.
fn default_path(path: &[char]) -> (out: String)
    ensures
        out@ == directory(path@),
{
    match text::find_last(path, '/') {
        Some(slash) if slash > 0 => {
            let front = text::part(path, 0, slash);
            assert(front@ == path@.take(slash as int));
            text::text_of(front)
        },
        _ => text::owned("/"),
    }
}

impl Cookie {
    /// Parses a `Set-Cookie` header of a response from `request_url` that
    /// arrived at `now`.
    pub fn parse(raw: &str, request_url: &Url, now: i128) -> (cookie: Option<Cookie>)
        ensures
            match cookie {
                Some(c) => parsed(raw@, request_url@, now) == Some(c@),
                None => parsed(raw@, request_url@, now) is None,
            },
    {
        let chars = text::chars_of(raw);
        let pieces = text::split_chars(chars.as_slice(), ';');
        let ghost views = pieces@.map_values(|p: &[char]| p@);
        let first = pieces[0];
        assert(views[0] == first@);
        let eq = text::find(first, '=');
        if eq == first.len() {
            return None;
        }
        let before = text::part(first, 0, eq);
        let after = text::part(first, eq + 1, first.len());
        assert(before@ == first@.take(eq as int));
        assert(after@ == first@.skip(eq + 1));
        let name = text::trim(before);
        let value = text::trim(after);
        if name.len() == 0 {
            return None;
        }
        let mut attributes = AttributeReader {
            domain: None,
            path: None,
            max_age: None,
            expires: None,
            secure: false,
            http_only: false,
        };
        let ghost rest = views.skip(1);
        assert(attributes.says() =~= attributes_of(rest.take(0)));
        for i in 1..pieces.len()
            invariant
                views == pieces@.map_values(|p: &[char]| p@),
                rest == views.skip(1),
                1 <= i,
                attributes.well_formed(),
                attributes.says() == attributes_of(rest.take(i - 1)),
        {
            proof {
                assert(rest.take(i as int).drop_last() =~= rest.take(i - 1));
                assert(rest.take(i as int).last() == pieces@[i as int]@);
            }
            attributes.read(text::trim(pieces[i]));
        }
        assert(rest.take(rest.len() as int) =~= rest);
        let ghost a = attributes.says();
        let host_chars = text::lower_chars(text::chars_of(request_url.host.as_str()).as_slice());
        let (domain, host_only) = match attributes.domain {
            Some(d) => {
                if !text::is_within_domain(host_chars.as_slice(), d.as_slice()) {
                    return None;
                }
                (text::text_of(d.as_slice()), false)
            },
            None => (text::text_of(host_chars.as_slice()), true),
        };
        let path = match attributes.path {
            Some(p) => text::text_of(p.as_slice()),
            None => default_path(text::chars_of(request_url.path.as_str()).as_slice()),
        };
        let expires: Option<i128> = match attributes.max_age {
            Some(secs) => if secs <= 0 {
                Some(0)
            } else {
                let age: i128 = secs as i128 * 1_000_000_000;
                if now > i128::MAX - age {
                    Some(i128::MAX)
                } else {
                    Some(now + age)
                }
            },
            None => match attributes.expires {
                Some(seconds) => Some((seconds * 1_000_000_000) as i128),
                None => None,
            },
        };
        let cookie = Cookie {
            name: text::text_of(name),
            value: text::text_of(value),
            domain,
            host_only,
            path,
            secure: attributes.secure,
            http_only: attributes.http_only,
            expires,
        };
        assert(cookie@.expires == expiry(a, now));
        assert(parsed(raw@, request_url@, now) is Some);
        assert(cookie@ =~= parsed(raw@, request_url@, now)->0);
        Some(cookie)
    }

    /// Whether the cookie has expired at `now`.
    pub fn is_expired(&self, now: i128) -> (yes: bool)
        ensures
            yes == expired(self@, now),
    {
        match self.expires {
            Some(e) => e <= now,
            None => false,
        }
    }

    /// Whether the cookie is for this host.
    pub fn domain_matches(&self, host: &str) -> (yes: bool)
        ensures
            yes == for_host(self@, host@),
    {
        let host_chars = text::lower_chars(text::chars_of(host).as_slice());
        let domain = text::chars_of(self.domain.as_str());
        if self.host_only {
            text::same_chars(host_chars.as_slice(), domain.as_slice())
        } else {
            text::is_within_domain(host_chars.as_slice(), domain.as_slice())
        }
    }

    /// Whether the cookie is for this path.
    pub fn path_matches(&self, path: &str) -> (yes: bool)
        ensures
            yes == for_path(self@, path@),
    {
        let asked = text::chars_of(path);
        let own = text::chars_of(self.path.as_str());
        if text::same_chars(asked.as_slice(), own.as_slice()) {
            return true;
        }
        text::has_prefix(asked.as_slice(), own.as_slice()) && ((own.len() > 0 && own[own.len() - 1]
            == '/') || (asked.len() > own.len() && asked[own.len()] == '/'))
    }

    fn goes_with(&self, url: &Url) -> (yes: bool)
        ensures
            yes == goes_to(self@, url@),
    {
        self.domain_matches(url.host.as_str()) && self.path_matches(url.path.as_str()) && (
        !self.secure || text::same_text(url.scheme.as_str(), "https"))
    }
}

/// Cookies by the order in which they were stored.
#[derive(Debug)]
pub struct CookieJar {
    cookies: Vec<Cookie>,
}

impl View for CookieJar {
    type V = Seq<CookieView>;

    closed spec fn view(&self) -> Seq<CookieView> {
        cookie_views(self.cookies@)
    }
}

impl Default for CookieJar {
    fn default() -> (jar: Self)
        ensures
            jar@ == Seq::<CookieView>::empty(),
    {
        CookieJar::new()
    }
}

/// What a list of texts stands for.
pub open spec fn text_views(texts: Seq<&str>) -> Seq<Seq<char>> {
    texts.map_values(|t: &str| t@)
}

/// What [`CookieJar::cookie_header_for`] does if the clock shows `now`.
pub open spec fn header_built(
    before: Seq<CookieView>,
    after: Seq<CookieView>,
    url: UrlView,
    now: i128,
    header: Option<String>,
) -> bool {
    &&& after == fresh(before, now)
    &&& match header {
        Some(h) => header_text(after, url) == Some(h@),
        None => header_text(after, url) is None,
    }
}

impl CookieJar {
    pub fn new() -> (jar: Self)
        ensures
            jar@ == Seq::<CookieView>::empty(),
    {
        let cookies: Vec<Cookie> = Vec::new();
        assert(cookie_views(cookies@) =~= seq![]);
        CookieJar { cookies }
    }

    /// Stores the cookies that a response from `request_url` sets, as of the
    /// clock's time.
    pub fn store_from_response(&mut self, request_url: &Url, set_cookie_values: &[&str])
        ensures
            exists|now: i128|
                platform::clock_shows(now) && final(self)@ == #[trigger] stored(
                    old(self)@,
                    request_url@,
                    text_views(set_cookie_values@),
                    now,
                ),
    {
        let now = platform::unix_nanos();
        self.store_at(request_url, set_cookie_values, now);
    }

    /// Stores the cookies that a response from `request_url` sets that
    /// arrived at `now`.
    pub fn store_at(&mut self, request_url: &Url, set_cookie_values: &[&str], now: i128)
        ensures
            final(self)@ == stored(
                old(self)@,
                request_url@,
                text_views(set_cookie_values@),
                now,
            ),
    {
        let ghost raws = text_views(set_cookie_values@);
        for i in 0..set_cookie_values.len()
            invariant
                raws == text_views(set_cookie_values@),
                self@ == stored(old(self)@, request_url@, raws.take(i as int), now),
        {
            proof {
                assert(raws.take(i + 1).drop_last() =~= raws.take(i as int));
                assert(raws.take(i + 1).last() == set_cookie_values@[i as int]@);
            }
            if let Some(cookie) = Cookie::parse(set_cookie_values[i], request_url, now) {
                self.remove_same(&cookie);
                if !cookie.is_expired(now) {
                    let ghost before = self.cookies@;
                    let ghost c = cookie@;
                    self.cookies.push(cookie);
                    assert(cookie_views(self.cookies@) =~= cookie_views(before).push(c));
                }
            }
        }
        assert(raws.take(raws.len() as int) =~= raws);
    }

    fn remove_same(&mut self, cookie: &Cookie)
        ensures
            final(self)@ == without_same(old(self)@, cookie@),
    {
        let ghost all = self@;
        let ghost keep = |k: CookieView| !same_cookie(k, cookie@);
        let mut kept: Vec<Cookie> = Vec::new();
        reveal(Seq::filter);
        assert(all.take(0).filter(keep) =~= seq![]);
        for i in 0..self.cookies.len()
            invariant
                all == self@,
                keep == (|k: CookieView| !same_cookie(k, cookie@)),
                cookie_views(kept@) == all.take(i as int).filter(keep),
        {
            let k = &self.cookies[i];
            proof {
                lemma_filter_next(all, keep, i as int);
                assert(all[i as int] == k@);
            }
            if !(k.name == cookie.name && k.domain == cookie.domain && k.path == cookie.path) {
                let ghost before = kept@;
                kept.push(k.clone());
                assert(cookie_views(kept@) =~= cookie_views(before).push(k@));
            }
        }
        assert(all.take(all.len() as int) =~= all);
        self.cookies = kept;
    }

    fn remove_expired(&mut self, now: i128)
        ensures
            final(self)@ == fresh(old(self)@, now),
    {
        let ghost all = self@;
        let ghost keep = |k: CookieView| !expired(k, now);
        let mut kept: Vec<Cookie> = Vec::new();
        reveal(Seq::filter);
        assert(all.take(0).filter(keep) =~= seq![]);
        for i in 0..self.cookies.len()
            invariant
                all == self@,
                keep == (|k: CookieView| !expired(k, now)),
                cookie_views(kept@) == all.take(i as int).filter(keep),
        {
            let k = &self.cookies[i];
            proof {
                lemma_filter_next(all, keep, i as int);
                assert(all[i as int] == k@);
            }
            if !k.is_expired(now) {
                let ghost before = kept@;
                kept.push(k.clone());
                assert(cookie_views(kept@) =~= cookie_views(before).push(k@));
            }
        }
        assert(all.take(all.len() as int) =~= all);
        self.cookies = kept;
    }

    /// The `Cookie` header for a request to `url` as of the clock's time, if
    /// any cookies go out with it. Drops cookies that have expired.
    pub fn cookie_header_for(&mut self, url: &Url) -> (header: Option<String>)
        ensures
            exists|now: i128|
                platform::clock_shows(now) && #[trigger] header_built(
                    old(self)@,
                    final(self)@,
                    url@,
                    now,
                    header,
                ),
    {
        let now = platform::unix_nanos();
        let header = self.cookie_header_at(url, now);
        assert(header_built(old(self)@, self@, url@, now, header));
        header
    }

    /// The `Cookie` header for a request to `url` at `now`, if any cookies go
    /// out with it. Drops cookies that have expired.
    pub fn cookie_header_at(&mut self, url: &Url, now: i128) -> (header: Option<String>)
        ensures
            header_built(old(self)@, final(self)@, url@, now, header),
    {
        self.remove_expired(now);
        let ghost jar = self@;
        let ghost goes = |c: CookieView| goes_to(c, url@);
        let mut sorted: Vec<Cookie> = Vec::new();
        reveal(Seq::filter);
        assert(jar.take(0).filter(goes) =~= seq![]);
        assert(cookie_views(sorted@) =~= ranked(seq![]));
        for i in 0..self.cookies.len()
            invariant
                jar == self@,
                goes == (|c: CookieView| goes_to(c, url@)),
                cookie_views(sorted@) == ranked(jar.take(i as int).filter(goes)),
        {
            let c = &self.cookies[i];
            proof {
                lemma_filter_next(jar, goes, i as int);
                assert(jar[i as int] == c@);
            }
            if c.goes_with(url) {
                let ghost chosen = jar.take(i as int).filter(goes);
                proof {
                    assert(chosen.push(c@).drop_last() =~= chosen);
                }
                insert_ranked(&mut sorted, c.clone());
            }
        }
        assert(jar.take(jar.len() as int) =~= jar);
        proof {
            lemma_ranked_length(matching(jar, url@));
        }
        if sorted.len() == 0 {
            return None;
        }
        let ghost parts = cookie_views(sorted@).map_values(|c: CookieView| pair_text(c));
        let mut out = String::new();
        assert(out@ =~= text::joined(parts.take(0), "; "@));
        for i in 0..sorted.len()
            invariant
                parts == cookie_views(sorted@).map_values(|c: CookieView| pair_text(c)),
                out@ == text::joined(parts.take(i as int), "; "@),
        {
            let ghost before = out@;
            if i > 0 {
                out.push_str("; ");
            }
            out.push_str(sorted[i].name.as_str());
            out.push_str("=");
            out.push_str(sorted[i].value.as_str());
            proof {
                text::lemma_joined_next(parts, "; "@, i as int);
                assert(parts[i as int] == pair_text(sorted@[i as int]@));
                if i == 0 {
                    assert(before =~= seq![]);
                    assert(out@ =~= parts[0]);
                } else {
                    assert(out@ =~= before + "; "@ + parts[i as int]);
                }
            }
        }
        assert(parts.take(parts.len() as int) =~= parts);
        Some(out)
    }
}

/// Puts a cookie in its place among ranked ones.
fn insert_ranked(sorted: &mut Vec<Cookie>, cookie: Cookie)
    ensures
        cookie_views(final(sorted)@) == cookie_views(old(sorted)@).insert(
            rank_position(cookie_views(old(sorted)@), cookie@),
            cookie@,
        ),
{
    let ghost views = cookie_views(sorted@);
    let ghost c = cookie@;
    let weight = text::byte_count(text::chars_of(cookie.path.as_str()).as_slice());
    let mut p: usize = 0;
    assert(views.skip(0) =~= views);
    while p < sorted.len() && text::byte_count(
        text::chars_of(sorted[p].path.as_str()).as_slice(),
    ) >= weight
        invariant
            p <= sorted@.len(),
            views == cookie_views(sorted@),
            weight == rank(c),
            rank_position(views, c) == p + rank_position(views.skip(p as int), c),
        decreases sorted@.len() - p,
    {
        assert(views.skip(p as int).skip(1) =~= views.skip(p + 1));
        assert(views.skip(p as int)[0] == sorted@[p as int]@);
        p = p + 1;
    }
    proof {
        if p < sorted@.len() {
            assert(views.skip(p as int)[0] == sorted@[p as int]@);
        }
    }
    sorted.insert(p, cookie);
    assert(cookie_views(sorted@) =~= views.insert(p as int, c));
}

pub proof fn lemma_rank_position(ranked: Seq<CookieView>, c: CookieView)
    ensures
        0 <= rank_position(ranked, c) <= ranked.len(),
        forall|i: int|
            0 <= i < rank_position(ranked, c) ==> rank(#[trigger] ranked[i]) >= rank(c),
        rank_position(ranked, c) < ranked.len() ==> rank(ranked[rank_position(ranked, c)]) < rank(
            c,
        ),
    decreases ranked.len(),
{
    if ranked.len() > 0 && rank(ranked[0]) >= rank(c) {
        let rest = ranked.skip(1);
        lemma_rank_position(rest, c);
        assert forall|i: int| 0 <= i < rank_position(ranked, c) implies rank(#[trigger] ranked[i])
            >= rank(c) by {
            if i > 0 {
                assert(ranked[i] == rest[i - 1]);
            }
        }
    }
}

proof fn lemma_ranked_length(cookies: Seq<CookieView>)
    ensures
        ranked(cookies).len() == cookies.len(),
    decreases cookies.len(),
{
    if cookies.len() > 0 {
        lemma_ranked_length(cookies.drop_last());
        lemma_rank_position(ranked(cookies.drop_last()), cookies.last());
    }
}

} // verus!
