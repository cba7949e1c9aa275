//! Forward proxies, and the hosts that are reached without one.

use crate::error::Error;
use crate::error::ErrorView;
use crate::error::Result;
use crate::pool::PoolKey;
use crate::pool;
use crate::text;
use crate::url;
use crate::url::Url;
use crate::url::UrlView;
use vstd::prelude::*;

verus! {

/// An HTTP forward proxy: requests go to `host:port` instead of to their own
/// origin.
#[derive(Debug)]
pub struct Proxy {
    pub host: String,
    pub port: u16,
}

/// What a [`Proxy`] stands for.
#[verifier::ext_equal]
pub struct ProxyView {
    pub host: Seq<char>,
    pub port: u16,
}

impl View for Proxy {
    type V = ProxyView;

    open spec fn view(&self) -> ProxyView {
        ProxyView { host: self.host@, port: self.port }
    }
}

impl Clone for Proxy {
    fn clone(&self) -> (copy: Proxy)
        ensures
            copy@ == self@,
    {
        Proxy { host: self.host.clone(), port: self.port }
    }
}

/// The proxy that a URL names, or why it names none: it has to be an
/// `http` URL.
pub open spec fn proxy_of(input: Seq<char>) -> std::result::Result<ProxyView, ErrorView> {
    match url::parsed(input) {
        Err(e) => Err(e),
        Ok(u) => if u.scheme != "http"@ {
            Err(ErrorView::UnsupportedScheme(u.scheme))
        } else {
            Ok(ProxyView { host: u.host, port: u.port })
        },
    }
}

/// What connections to a proxy are kept by.
pub open spec fn proxy_key(p: ProxyView) -> (Seq<char>, Seq<char>, u16) {
    ("proxy"@, text::lowered(p.host), p.port)
}

/// What tunnels through a proxy to an origin are kept by.
pub open spec fn tunnel_key(p: ProxyView, origin: UrlView) -> (Seq<char>, Seq<char>, u16) {
    (
        "tunnel:"@ + text::lowered(p.host) + ":"@ + text::decimal(p.port as nat),
        text::lowered(origin.host),
        origin.port,
    )
}

/// What direct connections to an origin are kept by.
pub open spec fn origin_key(origin: UrlView) -> (Seq<char>, Seq<char>, u16) {
    (origin.scheme, text::lowered(origin.host), origin.port)
}

impl Proxy {
    /// The proxy at an `http` URL.
    pub fn http(proxy_url: &str) -> (outcome: Result<Proxy>)
        ensures
            match outcome {
                Ok(p) => proxy_of(proxy_url@) == Ok::<ProxyView, ErrorView>(p@),
                Err(e) => proxy_of(proxy_url@) == Err::<ProxyView, ErrorView>(e@),
            },
    {
        match Url::parse(proxy_url) {
            Err(e) => Err(e),
            Ok(u) => {
                if !text::same_text(u.scheme.as_str(), "http") {
                    return Err(Error::UnsupportedScheme(u.scheme));
                }
                Ok(Proxy { host: u.host, port: u.port })
            },
        }
    }

    /// What connections to this proxy are kept by. No URL scheme is called
    /// `proxy`, so that this is no origin's key.
    pub fn pool_key(&self) -> (key: PoolKey)
        ensures
            pool::key_view(key) == proxy_key(self@),
    {
        (text::owned("proxy"), text::lower_text(self.host.as_str()), self.port)
    }

    /// What tunnels through this proxy to an origin are kept by: a tunnel is
    /// private to its origin.
    pub fn tunnel_pool_key(&self, origin: &Url) -> (key: PoolKey)
        ensures
            pool::key_view(key) == tunnel_key(self@, origin@),
    {
        let mut scheme = text::owned("tunnel:");
        scheme.push_str(text::lower_text(self.host.as_str()).as_str());
        scheme.push_str(":");
        scheme.push_str(text::decimal_text(self.port as u128).as_str());
        (scheme, text::lower_text(origin.host.as_str()), origin.port)
    }
}

/// What direct connections to an origin are kept by.
pub fn pool_key(origin: &Url) -> (key: PoolKey)
    ensures
        pool::key_view(key) == origin_key(origin@),
{
    (origin.scheme.clone(), text::lower_text(origin.host.as_str()), origin.port)
}

/// Connections to a proxy, tunnels through a proxy, and direct connections
/// are never mistaken for each other.
pub proof fn law_kinds_of_connections_are_kept_apart(
    p: ProxyView,
    q: ProxyView,
    tunneled: UrlView,
    direct: UrlView,
)
    requires
        direct.scheme == "http"@ || direct.scheme == "https"@,
    ensures
        proxy_key(p) != tunnel_key(q, tunneled),
        proxy_key(p) != origin_key(direct),
        tunnel_key(q, tunneled) != origin_key(direct),
{
    reveal_strlit("proxy");
    reveal_strlit("tunnel:");
    reveal_strlit("http");
    reveal_strlit("https");
    let t = tunnel_key(q, tunneled).0;
    assert(t[0] == 't');
    assert("proxy"@[0] == 'p');
    assert("http"@[0] == 'h');
    assert("https"@[0] == 'h');
}

/// A tunnel is found again only for the proxy and the origin that it was
/// opened for.
pub proof fn law_tunnels_belong_to_their_proxy_and_origin(
    p: ProxyView,
    a: UrlView,
    q: ProxyView,
    b: UrlView,
)
    requires
        tunnel_key(p, a) == tunnel_key(q, b),
    ensures
        text::lowered(p.host) == text::lowered(q.host),
        p.port == q.port,
        text::lowered(a.host) == text::lowered(b.host),
        a.port == b.port,
{
    reveal_strlit("tunnel:");
    reveal_strlit(":");
    let (h, k) = (text::lowered(p.host), text::lowered(q.host));
    let (m, n) = (text::decimal(p.port as nat), text::decimal(q.port as nat));
    let t = tunnel_key(p, a).0;
    text::lemma_decimal_digits(p.port as nat);
    text::lemma_decimal_digits(q.port as nat);
    // The last colon parts the host from the port.
    let c = 7 + h.len();
    let e = 7 + k.len();
    assert(t[c as int] == ':');
    assert(t[e as int] == ':');
    assert forall|i: int| c < i < t.len() implies t[i] != ':' by {
        assert(t[i] == m[i - c - 1]);
    }
    assert forall|i: int| e < i < t.len() implies t[i] != ':' by {
        assert(t[i] == n[i - e - 1]);
    }
    assert(c == e);
    assert(t.subrange(7, c as int) =~= h);
    assert(t.subrange(7, e as int) =~= k);
    assert(t.skip(c + 1int) =~= m);
    assert(t.skip(e + 1int) =~= n);
}

/// Hosts that are reached without a proxy: each entry stands for a host and
/// the names below it, except `*`, which stands for every host.
#[derive(Debug)]
pub struct NoProxyRules {
    pub entries: Vec<String>,
}

impl View for NoProxyRules {
    type V = Seq<Seq<char>>;

    open spec fn view(&self) -> Seq<Seq<char>> {
        self.entries@.map_values(|e: String| e@)
    }
}

/// The entry for a host as it was given.
pub open spec fn rule_entry(host: Seq<char>) -> Seq<char> {
    text::lowered(text::without_leading_dots(text::trimmed(host)))
}

/// The entries for hosts as they were given, without the empty ones.
pub open spec fn rule_entries(hosts: Seq<Seq<char>>) -> Seq<Seq<char>>
    decreases hosts.len(),
{
    if hosts.len() == 0 {
        seq![]
    } else if rule_entry(hosts.last()).len() == 0 {
        rule_entries(hosts.drop_last())
    } else {
        rule_entries(hosts.drop_last()).push(rule_entry(hosts.last()))
    }
}

/// Whether an entry stands for this host.
pub open spec fn entry_covers(entry: Seq<char>, host: Seq<char>) -> bool {
    entry == "*"@ || text::within_domain(text::lowered(host), entry)
}

/// Whether a host is reached without a proxy.
pub open spec fn bypassed(entries: Seq<Seq<char>>, host: Seq<char>) -> bool {
    exists|i: int| 0 <= i < entries.len() && entry_covers(#[trigger] entries[i], host)
}

impl Default for NoProxyRules {
    fn default() -> (rules: Self)
        ensures
            rules@ == Seq::<Seq<char>>::empty(),
    {
        let rules = NoProxyRules { entries: Vec::new() };
        assert(rules@ =~= seq![]);
        rules
    }
}

impl Clone for NoProxyRules {
    fn clone(&self) -> (copy: Self)
        ensures
            copy@ == self@,
    {
        let mut entries: Vec<String> = Vec::new();
        for i in 0..self.entries.len()
            invariant
                entries@.map_values(|e: String| e@) == self@.take(i as int),
        {
            let ghost before = entries@;
            entries.push(self.entries[i].clone());
            assert(entries@.map_values(|e: String| e@) =~= before.map_values(
                |e: String| e@,
            ).push(self.entries@[i as int]@));
        }
        assert(self@.take(self@.len() as int) =~= self@);
        NoProxyRules { entries }
    }
}

impl NoProxyRules {
    fn add_entry(&mut self, host: &[char])
        ensures
            final(self)@ == if rule_entry(host@).len() == 0 {
                old(self)@
            } else {
                old(self)@.push(rule_entry(host@))
            },
    {
        let entry = text::lower_chars(text::trim_dots(text::trim(host)));
        if entry.len() > 0 {
            let ghost before = self.entries@;
            self.entries.push(text::text_of(entry.as_slice()));
            assert(self@ =~= before.map_values(|e: String| e@).push(entry@));
        }
    }

    /// Rules for these hosts.
    pub fn from_hosts(hosts: &[&str]) -> (rules: Self)
        ensures
            rules@ == rule_entries(hosts@.map_values(|h: &str| h@)),
    {
        let ghost views = hosts@.map_values(|h: &str| h@);
        let mut rules = NoProxyRules::default();
        for i in 0..hosts.len()
            invariant
                views == hosts@.map_values(|h: &str| h@),
                rules@ == rule_entries(views.take(i as int)),
        {
            proof {
                assert(views.take(i + 1).drop_last() =~= views.take(i as int));
                assert(views.take(i + 1).last() == hosts@[i as int]@);
            }
            rules.add_entry(text::chars_of(hosts[i]).as_slice());
        }
        assert(views.take(views.len() as int) =~= views);
        rules
    }

    /// Rules for hosts in a list with commas.
    pub fn parse(spec_text: &str) -> (rules: Self)
        ensures
            rules@ == rule_entries(text::split(spec_text@, ',')),
    {
        let chars = text::chars_of(spec_text);
        let hosts = text::split_chars(chars.as_slice(), ',');
        let ghost views = hosts@.map_values(|h: &[char]| h@);
        let mut rules = NoProxyRules::default();
        for i in 0..hosts.len()
            invariant
                views == hosts@.map_values(|h: &[char]| h@),
                rules@ == rule_entries(views.take(i as int)),
        {
            proof {
                assert(views.take(i + 1).drop_last() =~= views.take(i as int));
                assert(views.take(i + 1).last() == hosts@[i as int]@);
            }
            rules.add_entry(hosts[i]);
        }
        assert(views.take(views.len() as int) =~= views);
        rules
    }

    /// Whether a host is reached without a proxy.
    pub fn bypasses(&self, host: &str) -> (yes: bool)
        ensures
            yes == bypassed(self@, host@),
    {
        let lower = text::lower_chars(text::chars_of(host).as_slice());
        for i in 0..self.entries.len()
            invariant
                lower@ == text::lowered(host@),
                forall|j: int| 0 <= j < i ==> !entry_covers(#[trigger] self@[j], host@),
        {
            let entry = text::chars_of(self.entries[i].as_str());
            assert(self@[i as int] == entry@);
            if text::spells(entry.as_slice(), "*") || text::is_within_domain(
                lower.as_slice(),
                entry.as_slice(),
            ) {
                return true;
            }
        }
        false
    }
}

/// An entry stands for the names below it as well, whatever their case.
pub proof fn law_entries_cover_names_below(entry: Seq<char>, below: Seq<char>)
    requires
        text::lowered(entry) == entry,
    ensures
        entry_covers(entry, entry),
        entry_covers(entry, below + seq!['.'] + entry),
{
    let host = below + seq!['.'] + entry;
    let lower = text::lowered(host);
    let suffix = seq!['.'] + entry;
    assert(lower =~= text::lowered(below) + seq!['.'] + text::lowered(entry));
    assert(lower.skip(lower.len() - suffix.len()) =~= suffix);
}

/// The case of a host does not matter.
pub proof fn law_bypass_ignores_case(entries: Seq<Seq<char>>, a: Seq<char>, b: Seq<char>)
    requires
        text::same_ignoring_case(a, b),
    ensures
        bypassed(entries, a) == bypassed(entries, b),
{
    assert forall|i: int| 0 <= i < entries.len() implies entry_covers(#[trigger] entries[i], a)
        == entry_covers(entries[i], b) by {}
    if bypassed(entries, a) {
        let i = choose|i: int| 0 <= i < entries.len() && entry_covers(#[trigger] entries[i], a);
        assert(entry_covers(entries[i], b));
    }
    if bypassed(entries, b) {
        let i = choose|i: int| 0 <= i < entries.len() && entry_covers(#[trigger] entries[i], b);
        assert(entry_covers(entries[i], a));
    }
}

} // verus!
