//! Clients and requests under construction.
//!
//! A [`Client`] is configuration: default headers, and how requests built
//! from it are sent. Sockets, the shared cookie jar and the shared pool
//! belong to whoever sends them.

use crate::base64;
use crate::body;
use crate::body::Body;
use crate::error::ErrorView;
use crate::error::Result;
use crate::header;
use crate::header::HeaderMap;
use crate::hop;
use crate::json;
use crate::json::Value;
use crate::method::Method;
use crate::multipart;
use crate::multipart::Multipart;
use crate::platform;
use crate::proxy;
use crate::proxy::NoProxyRules;
use crate::proxy::Proxy;
use crate::proxy::ProxyView;
use crate::redirect::RedirectPolicy;
use crate::retry::RetryPolicy;
use crate::retry::RetryView;
use crate::text;
use crate::text_laws;
use crate::tls::TrustPolicy;
use crate::tls::TrustView;
use crate::url;
use crate::url::Url;
use crate::url::UrlView;
use std::time::Duration;
use vstd::prelude::*;

verus! {

/// How many idle connections are kept per origin, and how long.
#[derive(Debug, Clone, Copy)]
pub struct PoolSettings {
    pub max_idle_per_host: usize,
    pub idle_timeout: Duration,
}

/// How requests are sent.
#[derive(Debug)]
pub struct Settings {
    /// How long a request may take, redirects and retries included.
    pub timeout: Option<Duration>,
    pub redirect_policy: RedirectPolicy,
    /// Whether cookies are stored and sent.
    pub cookies: bool,
    /// How connections are kept.
    pub pool: PoolSettings,
    /// Whether connections are kept at all.
    pub pool_enabled: bool,
    pub retry_policy: Option<RetryPolicy>,
    pub proxy: Option<Proxy>,
    pub proxy_bypass: NoProxyRules,
    pub trust_policy: TrustPolicy,
}

/// What [`Settings`] stand for.
#[verifier::ext_equal]
pub struct SettingsView {
    pub timeout: Option<Duration>,
    pub redirect_policy: RedirectPolicy,
    pub cookies: bool,
    pub pool: PoolSettings,
    pub pool_enabled: bool,
    pub retry_policy: Option<RetryView>,
    pub proxy: Option<ProxyView>,
    pub proxy_bypass: Seq<Seq<char>>,
    pub trust_policy: TrustView,
}

/// What an optional retry policy stands for.
pub open spec fn retry_view(policy: Option<RetryPolicy>) -> Option<RetryView> {
    match policy {
        Some(p) => Some(p@),
        None => None,
    }
}

impl View for Settings {
    type V = SettingsView;

    open spec fn view(&self) -> SettingsView {
        SettingsView {
            timeout: self.timeout,
            redirect_policy: self.redirect_policy,
            cookies: self.cookies,
            pool: self.pool,
            pool_enabled: self.pool_enabled,
            retry_policy: retry_view(self.retry_policy),
            proxy: hop::proxy_view(self.proxy),
            proxy_bypass: self.proxy_bypass@,
            trust_policy: self.trust_policy@,
        }
    }
}

impl Clone for Settings {
    fn clone(&self) -> (copy: Self)
        ensures
            copy@ == self@,
    {
        let copy = Settings {
            timeout: self.timeout,
            redirect_policy: self.redirect_policy,
            cookies: self.cookies,
            pool: self.pool,
            pool_enabled: self.pool_enabled,
            retry_policy: match &self.retry_policy {
                Some(p) => Some(p.clone()),
                None => None,
            },
            proxy: match &self.proxy {
                Some(p) => Some(p.clone()),
                None => None,
            },
            proxy_bypass: self.proxy_bypass.clone(),
            trust_policy: self.trust_policy.clone(),
        };
        assert(copy@ =~= self@);
        copy
    }
}

/// Whether settings are those that a client starts with: 30 seconds, 30
/// redirects, cookies, eight idle connections per origin for 90 seconds, no
/// retries, no proxy, and the system's trust store.
pub open spec fn is_default(s: SettingsView) -> bool {
    &&& s.timeout matches Some(d) && platform::duration_nanos(d) == 30_000_000_000
    &&& s.redirect_policy == RedirectPolicy::Follow(30)
    &&& s.cookies
    &&& s.pool.max_idle_per_host == 8
    &&& platform::duration_nanos(s.pool.idle_timeout) == 90_000_000_000
    &&& s.pool_enabled
    &&& s.retry_policy is None
    &&& s.proxy is None
    &&& s.proxy_bypass == Seq::<Seq<char>>::empty()
    &&& s.trust_policy is System
}

impl Default for Settings {
    fn default() -> (settings: Self)
        ensures
            is_default(settings@),
    {
        Settings {
            timeout: Some(Duration::from_secs(30)),
            redirect_policy: RedirectPolicy::Follow(30),
            cookies: true,
            pool: PoolSettings { max_idle_per_host: 8, idle_timeout: Duration::from_secs(90) },
            pool_enabled: true,
            retry_policy: None,
            proxy: None,
            proxy_bypass: NoProxyRules::default(),
            trust_policy: TrustPolicy::System,
        }
    }
}

/// The value of an `Authorization` header for a name and a password (RFC
/// 7617).
pub open spec fn basic_text(username: Seq<char>, password: Seq<char>) -> Seq<char> {
    "Basic "@ + base64::encoded(vstd::utf8::encode_utf8(username + ":"@ + password))
}

/// The value of an `Authorization` header for a token.
pub open spec fn bearer_text(token: Seq<char>) -> Seq<char> {
    "Bearer "@ + token
}

fn basic_auth_header(username: &str, password: &str) -> (value: String)
    ensures
        value@ == basic_text(username@, password@),
{
    let mut credentials = text::owned(username);
    credentials.push_str(":");
    credentials.push_str(password);
    let mut value = text::owned("Basic ");
    value.push_str(
        base64::encode(text::utf8_bytes(credentials.as_str()).as_slice()).as_str(),
    );
    value
}

fn bearer_auth_header(token: &str) -> (value: String)
    ensures
        value@ == bearer_text(token@),
{
    let mut value = text::owned("Bearer ");
    value.push_str(token);
    value
}

proof fn lemma_basic_text_is_valid(username: Seq<char>, password: Seq<char>)
    ensures
        header::valid_value(basic_text(username, password)),
{
    reveal_strlit("Basic ");
    let bytes = vstd::utf8::encode_utf8(username + ":"@ + password);
    lemma_base64_is_clean(bytes);
    let t = basic_text(username, password);
    assert forall|i: int| 0 <= i < t.len() implies #[trigger] t[i] != '\r' && t[i] != '\n' by {
        if i < 6 {
            assert(t[i] == "Basic "@[i]);
        } else {
            assert(t[i] == base64::encoded(bytes)[i - 6]);
        }
    }
}

proof fn lemma_base64_is_clean(bytes: Seq<u8>)
    ensures
        forall|i: int|
            0 <= i < base64::encoded(bytes).len() ==> '+' <= #[trigger] base64::encoded(bytes)[i]
                <= 'z',
    decreases bytes.len(),
{
    let e = base64::encoded(bytes);
    if bytes.len() >= 3 {
        lemma_base64_is_clean(bytes.skip(3));
        let rest = base64::encoded(bytes.skip(3));
        assert forall|i: int| 0 <= i < e.len() implies '+' <= #[trigger] e[i] <= 'z' by {
            if i >= 4 {
                assert(e[i] == rest[i - 4]);
            }
        }
    }
}

/// The environment variables that name a proxy.
#[derive(Debug)]
pub struct ProxyEnv {
    /// Whether `REQUEST_METHOD` is set, as it is for a CGI program.
    pub in_cgi: bool,
    /// `HTTP_PROXY`.
    pub upper_proxy: Option<String>,
    /// `http_proxy`.
    pub lower_proxy: Option<String>,
    /// `NO_PROXY`.
    pub upper_no_proxy: Option<String>,
    /// `no_proxy`.
    pub lower_no_proxy: Option<String>,
}

/// The text, unless it is empty.
pub open spec fn non_empty(t: Option<Seq<char>>) -> Option<Seq<char>> {
    match t {
        Some(s) if s.len() > 0 => Some(s),
        _ => None,
    }
}

/// The proxy that the environment names. `HTTP_PROXY` is not trusted in a CGI
/// program, where a request's `Proxy` header could have set it; `http_proxy`
/// always is.
pub open spec fn env_proxy(env: ProxyEnv) -> Option<Seq<char>> {
    let upper = non_empty(url::text_view(env.upper_proxy));
    if !env.in_cgi && upper is Some {
        upper
    } else {
        non_empty(url::text_view(env.lower_proxy))
    }
}

/// The hosts that the environment exempts from the proxy.
pub open spec fn env_bypass(env: ProxyEnv) -> Option<Seq<char>> {
    non_empty(
        match env.upper_no_proxy {
            Some(s) => Some(s@),
            None => url::text_view(env.lower_no_proxy),
        },
    )
}

/// In a CGI program, `HTTP_PROXY` has no effect.
pub proof fn law_cgi_requests_cannot_name_a_proxy(a: ProxyEnv, b: ProxyEnv)
    requires
        a.in_cgi,
        b.in_cgi,
        a.lower_proxy == b.lower_proxy,
    ensures
        env_proxy(a) == env_proxy(b),
{
}

fn given(t: &Option<String>) -> (found: Option<String>)
    ensures
        url::text_view(found) == non_empty(url::text_view(*t)),
{
    match t {
        Some(s) => if text::chars_of(s.as_str()).len() > 0 {
            Some(s.clone())
        } else {
            None
        },
        None => None,
    }
}

/// The proxy that the environment names.
pub fn env_http_proxy(env: &ProxyEnv) -> (found: Option<String>)
    ensures
        url::text_view(found) == env_proxy(*env),
{
    if !env.in_cgi {
        if let Some(v) = given(&env.upper_proxy) {
            return Some(v);
        }
    }
    given(&env.lower_proxy)
}

/// The hosts that the environment exempts from the proxy.
pub fn env_no_proxy(env: &ProxyEnv) -> (found: Option<String>)
    ensures
        url::text_view(found) == env_bypass(*env),
{
    match &env.upper_no_proxy {
        Some(_) => given(&env.upper_no_proxy),
        None => given(&env.lower_no_proxy),
    }
}

/// The settings that the environment's proxy leads to, or why it leads to
/// none.
pub open spec fn with_env(s: SettingsView, env: ProxyEnv) -> std::result::Result<
    SettingsView,
    ErrorView,
> {
    let bypass = match env_bypass(env) {
        Some(hosts) => proxy::rule_entries(text::split(hosts, ',')),
        None => s.proxy_bypass,
    };
    match env_proxy(env) {
        None => Ok(SettingsView { proxy_bypass: bypass, ..s }),
        Some(u) => match proxy::proxy_of(u) {
            Ok(p) => Ok(SettingsView { proxy: Some(p), proxy_bypass: bypass, ..s }),
            Err(e) => Err(e),
        },
    }
}

/// A reusable request configuration.
#[derive(Debug)]
pub struct Client {
    pub default_headers: HeaderMap,
    pub settings: Settings,
}

impl Client {
    pub fn new() -> (client: Self)
        ensures
            client.default_headers@ == seq![("User-Agent"@, "rusty_request/0.1.0"@)],
            is_default(client.settings@),
    {
        ClientBuilder::new().build()
    }

    pub fn builder() -> (builder: ClientBuilder)
        ensures
            builder.default_headers@ == seq![("User-Agent"@, "rusty_request/0.1.0"@)],
            is_default(builder.settings@),
    {
        ClientBuilder::new()
    }

    /// A request with the client's headers and settings, and no body.
    pub fn request(&self, method: Method, url: &str) -> (outcome: Result<RequestBuilder>)
        ensures
            match outcome {
                Ok(b) => {
                    &&& url::parsed(url@) == Ok::<UrlView, ErrorView>(b.url@)
                    &&& b.method == method
                    &&& b.headers@ == self.default_headers@
                    &&& b.body == Body::Empty
                    &&& b.settings@ == self.settings@
                },
                Err(e) => url::parsed(url@) == Err::<UrlView, ErrorView>(e@),
            },
    {
        match Url::parse(url) {
            Ok(parsed) => Ok(
                RequestBuilder {
                    method,
                    url: parsed,
                    headers: self.default_headers.clone(),
                    body: Body::Empty,
                    settings: self.settings.clone(),
                },
            ),
            Err(e) => Err(e),
        }
    }

    pub fn get(&self, url: &str) -> (outcome: Result<RequestBuilder>)
        ensures
            match outcome {
                Ok(b) => {
                    &&& url::parsed(url@) == Ok::<UrlView, ErrorView>(b.url@)
                    &&& b.method == Method::Get
                    &&& b.headers@ == self.default_headers@
                    &&& b.body == Body::Empty
                    &&& b.settings@ == self.settings@
                },
                Err(e) => url::parsed(url@) == Err::<UrlView, ErrorView>(e@),
            },
    {
        self.request(Method::Get, url)
    }

    pub fn post(&self, url: &str) -> (outcome: Result<RequestBuilder>)
        ensures
            match outcome {
                Ok(b) => {
                    &&& url::parsed(url@) == Ok::<UrlView, ErrorView>(b.url@)
                    &&& b.method == Method::Post
                    &&& b.headers@ == self.default_headers@
                    &&& b.body == Body::Empty
                    &&& b.settings@ == self.settings@
                },
                Err(e) => url::parsed(url@) == Err::<UrlView, ErrorView>(e@),
            },
    {
        self.request(Method::Post, url)
    }

    pub fn put(&self, url: &str) -> (outcome: Result<RequestBuilder>)
        ensures
            match outcome {
                Ok(b) => {
                    &&& url::parsed(url@) == Ok::<UrlView, ErrorView>(b.url@)
                    &&& b.method == Method::Put
                    &&& b.headers@ == self.default_headers@
                    &&& b.body == Body::Empty
                    &&& b.settings@ == self.settings@
                },
                Err(e) => url::parsed(url@) == Err::<UrlView, ErrorView>(e@),
            },
    {
        self.request(Method::Put, url)
    }

    pub fn patch(&self, url: &str) -> (outcome: Result<RequestBuilder>)
        ensures
            match outcome {
                Ok(b) => {
                    &&& url::parsed(url@) == Ok::<UrlView, ErrorView>(b.url@)
                    &&& b.method == Method::Patch
                    &&& b.headers@ == self.default_headers@
                    &&& b.body == Body::Empty
                    &&& b.settings@ == self.settings@
                },
                Err(e) => url::parsed(url@) == Err::<UrlView, ErrorView>(e@),
            },
    {
        self.request(Method::Patch, url)
    }

    pub fn delete(&self, url: &str) -> (outcome: Result<RequestBuilder>)
        ensures
            match outcome {
                Ok(b) => {
                    &&& url::parsed(url@) == Ok::<UrlView, ErrorView>(b.url@)
                    &&& b.method == Method::Delete
                    &&& b.headers@ == self.default_headers@
                    &&& b.body == Body::Empty
                    &&& b.settings@ == self.settings@
                },
                Err(e) => url::parsed(url@) == Err::<UrlView, ErrorView>(e@),
            },
    {
        self.request(Method::Delete, url)
    }

    pub fn head(&self, url: &str) -> (outcome: Result<RequestBuilder>)
        ensures
            match outcome {
                Ok(b) => {
                    &&& url::parsed(url@) == Ok::<UrlView, ErrorView>(b.url@)
                    &&& b.method == Method::Head
                    &&& b.headers@ == self.default_headers@
                    &&& b.body == Body::Empty
                    &&& b.settings@ == self.settings@
                },
                Err(e) => url::parsed(url@) == Err::<UrlView, ErrorView>(e@),
            },
    {
        self.request(Method::Head, url)
    }
}

impl Clone for Client {
    fn clone(&self) -> (copy: Self)
        ensures
            copy.default_headers@ == self.default_headers@,
            copy.settings@ == self.settings@,
    {
        Client { default_headers: self.default_headers.clone(), settings: self.settings.clone() }
    }
}

impl Default for Client {
    fn default() -> (client: Self)
        ensures
            client.default_headers@ == seq![("User-Agent"@, "rusty_request/0.1.0"@)],
            is_default(client.settings@),
    {
        Client::new()
    }
}

/// A client under construction.
#[derive(Debug)]
pub struct ClientBuilder {
    pub default_headers: HeaderMap,
    pub settings: Settings,
}

impl Default for ClientBuilder {
    fn default() -> (builder: Self)
        ensures
            builder.default_headers@ == seq![("User-Agent"@, "rusty_request/0.1.0"@)],
            is_default(builder.settings@),
    {
        ClientBuilder::new()
    }
}

/// Whether a header was set as it should have been: the outcome of setting
/// `name` to `value` in `before` is `after`, or the error.
pub open spec fn header_set(
    before: Seq<(Seq<char>, Seq<char>)>,
    name: Seq<char>,
    value: Seq<char>,
) -> std::result::Result<Seq<(Seq<char>, Seq<char>)>, ErrorView> {
    if header::valid_name(name) && header::valid_value(value) {
        Ok(header::with_header(before, name, value))
    } else {
        Err(header::refusal(name, value))
    }
}

impl ClientBuilder {
    pub fn new() -> (builder: Self)
        ensures
            builder.default_headers@ == seq![("User-Agent"@, "rusty_request/0.1.0"@)],
            is_default(builder.settings@),
    {
        let mut default_headers = HeaderMap::new();
        proof {
            reveal_strlit("User-Agent");
            reveal_strlit("rusty_request/0.1.0");
        }
        let outcome = default_headers.insert("User-Agent", "rusty_request/0.1.0");
        assert(header::valid_name("User-Agent"@));
        assert(header::valid_value("rusty_request/0.1.0"@));
        assert(default_headers@ =~= seq![("User-Agent"@, "rusty_request/0.1.0"@)]);
        ClientBuilder { default_headers, settings: Settings::default() }
    }

    /// Sets a header that is sent on every request unless the request sets
    /// its own.
    pub fn default_header(self, name: &str, value: &str) -> (outcome: Result<Self>)
        ensures
            match outcome {
                Ok(b) => header_set(self.default_headers@, name@, value@) == Ok::<
                    Seq<(Seq<char>, Seq<char>)>,
                    ErrorView,
                >(b.default_headers@) && b.settings == self.settings,
                Err(e) => header_set(self.default_headers@, name@, value@) == Err::<
                    Seq<(Seq<char>, Seq<char>)>,
                    ErrorView,
                >(e@),
            },
    {
        let mut default_headers = self.default_headers;
        match default_headers.insert(name, value) {
            Ok(_) => Ok(ClientBuilder { default_headers, settings: self.settings }),
            Err(e) => Err(e),
        }
    }

    /// Sets `Authorization` for a name and a password on every request. This never
    /// fails: any name and password can be encoded.
    pub fn basic_auth(self, username: &str, password: &str) -> (outcome: Result<Self>)
        ensures
            outcome matches Ok(b) && b == (Self { default_headers: b.default_headers, ..self }) && b.default_headers@
                == header::with_header(
                self.default_headers@,
                "Authorization"@,
                basic_text(username@, password@),
            ),
    {
        let mut default_headers = self.default_headers;
        proof {
            reveal_strlit("Authorization");
            lemma_basic_text_is_valid(username@, password@);
            assert(header::valid_name("Authorization"@));
        }
        match default_headers.insert("Authorization", basic_auth_header(username, password).as_str()) {
            Ok(_) => Ok(ClientBuilder { default_headers, settings: self.settings }),
            Err(e) => Err(e),
        }
    }

    /// Sets `Authorization` for a token on every request.
    pub fn bearer_auth(self, token: &str) -> (outcome: Result<Self>)
        ensures
            match outcome {
                Ok(b) => b == (Self { default_headers: b.default_headers, ..self }) && header_set(
                    self.default_headers@,
                    "Authorization"@,
                    bearer_text(token@),
                ) == Ok::<Seq<(Seq<char>, Seq<char>)>, ErrorView>(b.default_headers@),
                Err(e) => header_set(
                    self.default_headers@,
                    "Authorization"@,
                    bearer_text(token@),
                ) == Err::<Seq<(Seq<char>, Seq<char>)>, ErrorView>(e@),
            },
    {
        let mut default_headers = self.default_headers;
        match default_headers.insert("Authorization", bearer_auth_header(token).as_str()) {
            Ok(_) => Ok(ClientBuilder { default_headers, settings: self.settings }),
            Err(e) => Err(e),
        }
    }

    /// How long a request may take.
    pub fn timeout(self, timeout: Duration) -> (b: Self)
        ensures
            b.default_headers == self.default_headers,
            b.settings@ == (SettingsView { timeout: Some(timeout), ..self.settings@ }),
    {
        let settings = Settings { timeout: Some(timeout), ..self.settings };
        assert(settings@ =~= (SettingsView { timeout: Some(timeout), ..self.settings@ }));
        ClientBuilder { default_headers: self.default_headers, settings }
    }

    /// Lets requests take as long as they do.
    pub fn no_timeout(self) -> (b: Self)
        ensures
            b.default_headers == self.default_headers,
            b.settings@ == (SettingsView { timeout: None, ..self.settings@ }),
    {
        let settings = Settings { timeout: None, ..self.settings };
        assert(settings@ =~= (SettingsView { timeout: None, ..self.settings@ }));
        ClientBuilder { default_headers: self.default_headers, settings }
    }

    /// How many redirects are followed.
    pub fn max_redirects(self, max: usize) -> (b: Self)
        ensures
            b.default_headers == self.default_headers,
            b.settings@ == (SettingsView { redirect_policy: RedirectPolicy::Follow(max), ..self.settings@ }),
    {
        let settings = Settings { redirect_policy: RedirectPolicy::Follow(max), ..self.settings };
        assert(settings@ =~= (SettingsView { redirect_policy: RedirectPolicy::Follow(max), ..self.settings@ }));
        ClientBuilder { default_headers: self.default_headers, settings }
    }

    /// Follows no redirects: the redirect itself is the response.
    pub fn no_redirects(self) -> (b: Self)
        ensures
            b.default_headers == self.default_headers,
            b.settings@ == (SettingsView { redirect_policy: RedirectPolicy::Stop, ..self.settings@ }),
    {
        let settings = Settings { redirect_policy: RedirectPolicy::Stop, ..self.settings };
        assert(settings@ =~= (SettingsView { redirect_policy: RedirectPolicy::Stop, ..self.settings@ }));
        ClientBuilder { default_headers: self.default_headers, settings }
    }

    /// Neither stores nor sends cookies.
    pub fn no_cookie_store(self) -> (b: Self)
        ensures
            b.default_headers == self.default_headers,
            b.settings@ == (SettingsView { cookies: false, ..self.settings@ }),
    {
        let settings = Settings { cookies: false, ..self.settings };
        assert(settings@ =~= (SettingsView { cookies: false, ..self.settings@ }));
        ClientBuilder { default_headers: self.default_headers, settings }
    }

    /// How many idle connections are kept per origin.
    pub fn pool_max_idle_per_host(self, max: usize) -> (b: Self)
        ensures
            b.default_headers == self.default_headers,
            b.settings@ == (SettingsView { pool: (PoolSettings { max_idle_per_host: max, ..self.settings@.pool }), ..self.settings@ }),
    {
        let settings = Settings { pool: PoolSettings { max_idle_per_host: max, ..self.settings.pool }, ..self.settings };
        assert(settings@ =~= (SettingsView { pool: (PoolSettings { max_idle_per_host: max, ..self.settings@.pool }), ..self.settings@ }));
        ClientBuilder { default_headers: self.default_headers, settings }
    }

    /// How long an idle connection is kept.
    pub fn pool_idle_timeout(self, timeout: Duration) -> (b: Self)
        ensures
            b.default_headers == self.default_headers,
            b.settings@ == (SettingsView { pool: (PoolSettings { idle_timeout: timeout, ..self.settings@.pool }), ..self.settings@ }),
    {
        let settings = Settings { pool: PoolSettings { idle_timeout: timeout, ..self.settings.pool }, ..self.settings };
        assert(settings@ =~= (SettingsView { pool: (PoolSettings { idle_timeout: timeout, ..self.settings@.pool }), ..self.settings@ }));
        ClientBuilder { default_headers: self.default_headers, settings }
    }

    /// Keeps no connections: each request has its own.
    pub fn no_pool(self) -> (b: Self)
        ensures
            b.default_headers == self.default_headers,
            b.settings@ == (SettingsView { pool_enabled: false, ..self.settings@ }),
    {
        let settings = Settings { pool_enabled: false, ..self.settings };
        assert(settings@ =~= (SettingsView { pool_enabled: false, ..self.settings@ }));
        ClientBuilder { default_headers: self.default_headers, settings }
    }

    /// Retries requests built from the client.
    pub fn retry(self, policy: RetryPolicy) -> (b: Self)
        ensures
            b.default_headers == self.default_headers,
            b.settings@ == (SettingsView { retry_policy: Some(policy@), ..self.settings@ }),
    {
        let settings = Settings { retry_policy: Some(policy), ..self.settings };
        assert(settings@ =~= (SettingsView { retry_policy: Some(policy@), ..self.settings@ }));
        ClientBuilder { default_headers: self.default_headers, settings }
    }

    /// Does not retry requests built from the client.
    pub fn no_retry(self) -> (b: Self)
        ensures
            b.default_headers == self.default_headers,
            b.settings@ == (SettingsView { retry_policy: None, ..self.settings@ }),
    {
        let settings = Settings { retry_policy: None, ..self.settings };
        assert(settings@ =~= (SettingsView { retry_policy: None, ..self.settings@ }));
        ClientBuilder { default_headers: self.default_headers, settings }
    }

    /// Sends requests through a forward proxy.
    pub fn proxy(self, proxy_url: &str) -> (outcome: Result<Self>)
        ensures
            match outcome {
                Ok(b) => proxy::proxy_of(proxy_url@) is Ok && b.default_headers == self.default_headers && b.settings@ == (
                SettingsView {
                    proxy: Some(proxy::proxy_of(proxy_url@)->Ok_0),
                    ..self.settings@
                }),
                Err(e) => proxy::proxy_of(proxy_url@) == Err::<ProxyView, ErrorView>(e@),
            },
    {
        match Proxy::http(proxy_url) {
            Ok(p) => {
                let ghost seen = p@;
                let settings = Settings { proxy: Some(p), ..self.settings };
                assert(settings@ =~= (SettingsView { proxy: Some(seen), ..self.settings@ }));
                Ok(ClientBuilder { default_headers: self.default_headers, settings })
            },
            Err(e) => Err(e),
        }
    }

    /// The hosts that are reached without the proxy.
    pub fn proxy_bypass(self, hosts: &[&str]) -> (b: Self)
        ensures
            b.default_headers == self.default_headers,
            b.settings@ == (SettingsView { proxy_bypass: proxy::rule_entries(hosts@.map_values(|h: &str| h@)), ..self.settings@ }),
    {
        let settings = Settings { proxy_bypass: NoProxyRules::from_hosts(hosts), ..self.settings };
        assert(settings@ =~= (SettingsView { proxy_bypass: proxy::rule_entries(hosts@.map_values(|h: &str| h@)), ..self.settings@ }));
        ClientBuilder { default_headers: self.default_headers, settings }
    }

    /// Uses no proxy.
    pub fn no_proxy(self) -> (b: Self)
        ensures
            b.default_headers == self.default_headers,
            b.settings@ == (SettingsView { proxy: None, ..self.settings@ }),
    {
        let settings = Settings { proxy: None, ..self.settings };
        assert(settings@ =~= (SettingsView { proxy: None, ..self.settings@ }));
        ClientBuilder { default_headers: self.default_headers, settings }
    }

    /// Which servers are trusted over `https`.
    pub fn trust_policy(self, policy: TrustPolicy) -> (b: Self)
        ensures
            b.default_headers == self.default_headers,
            b.settings@ == (SettingsView { trust_policy: policy@, ..self.settings@ }),
    {
        let settings = Settings { trust_policy: policy, ..self.settings };
        assert(settings@ =~= (SettingsView { trust_policy: policy@, ..self.settings@ }));
        ClientBuilder { default_headers: self.default_headers, settings }
    }

    /// Takes the proxy and its exemptions from the environment; what the
    /// environment does not name stays as it is.
    pub fn proxy_from_env(self, env: &ProxyEnv) -> (outcome: Result<Self>)
        ensures
            match outcome {
                Ok(b) => b.default_headers == self.default_headers && with_env(
                    self.settings@,
                    *env,
                ) == Ok::<SettingsView, ErrorView>(b.settings@),
                Err(e) => with_env(self.settings@, *env) == Err::<SettingsView, ErrorView>(e@),
            },
    {
        let ghost before = self.settings@;
        let mut settings = self.settings;
        if let Some(u) = env_http_proxy(env) {
            match Proxy::http(u.as_str()) {
                Ok(p) => {
                    settings.proxy = Some(p);
                },
                Err(e) => {
                    return Err(e);
                },
            }
        }
        if let Some(hosts) = env_no_proxy(env) {
            settings.proxy_bypass = NoProxyRules::parse(hosts.as_str());
        }
        assert(with_env(before, *env) is Ok);
        assert(settings@ =~= with_env(before, *env)->Ok_0);
        Ok(ClientBuilder { default_headers: self.default_headers, settings })
    }

    pub fn build(self) -> (client: Client)
        ensures
            client == (Client { default_headers: self.default_headers, settings: self.settings }),
    {
        Client { default_headers: self.default_headers, settings: self.settings }
    }
}

/// A request under construction.
#[derive(Debug)]
pub struct RequestBuilder {
    pub method: Method,
    pub url: Url,
    pub headers: HeaderMap,
    pub body: Body,
    pub settings: Settings,
}

/// The headers of a request with a body of this type.
pub open spec fn with_type(
    headers: Seq<(Seq<char>, Seq<char>)>,
    content_type: Seq<char>,
) -> Seq<(Seq<char>, Seq<char>)> {
    header::with_header(headers, "Content-Type"@, content_type)
}

/// What [`RequestBuilder::multipart`] makes of a form for the boundary of two
/// numbers.
pub open spec fn form_attached(
    before: RequestBuilder,
    after: RequestBuilder,
    parts: Seq<multipart::PartView>,
    a: u64,
    b: u64,
) -> bool {
    let boundary = multipart::boundary_text(a, b);
    &&& after == (RequestBuilder { headers: after.headers, body: after.body, ..before })
    &&& after.headers@ == with_type(before.headers@, multipart::form_type(boundary))
    &&& after.body@ == body::made_of(multipart::form_bytes(boundary, parts))
}

impl RequestBuilder {
    /// Sets a header.
    pub fn header(self, name: &str, value: &str) -> (outcome: Result<Self>)
        ensures
            match outcome {
                Ok(b) => b == (RequestBuilder { headers: b.headers, ..self }) && header_set(
                    self.headers@,
                    name@,
                    value@,
                ) == Ok::<Seq<(Seq<char>, Seq<char>)>, ErrorView>(b.headers@),
                Err(e) => header_set(self.headers@, name@, value@) == Err::<
                    Seq<(Seq<char>, Seq<char>)>,
                    ErrorView,
                >(e@),
            },
    {
        let mut headers = self.headers;
        match headers.insert(name, value) {
            Ok(_) => Ok(RequestBuilder { headers, ..self }),
            Err(e) => Err(e),
        }
    }

    /// Sets `Authorization` for a name and a password on this request. This never
    /// fails: any name and password can be encoded.
    pub fn basic_auth(self, username: &str, password: &str) -> (outcome: Result<Self>)
        ensures
            outcome matches Ok(b) && b == (Self { headers: b.headers, ..self }) && b.headers@
                == header::with_header(
                self.headers@,
                "Authorization"@,
                basic_text(username@, password@),
            ),
    {
        let mut headers = self.headers;
        proof {
            reveal_strlit("Authorization");
            lemma_basic_text_is_valid(username@, password@);
            assert(header::valid_name("Authorization"@));
        }
        match headers.insert("Authorization", basic_auth_header(username, password).as_str()) {
            Ok(_) => Ok(RequestBuilder { headers, ..self }),
            Err(e) => Err(e),
        }
    }

    /// Sets `Authorization` for a token on this request.
    pub fn bearer_auth(self, token: &str) -> (outcome: Result<Self>)
        ensures
            match outcome {
                Ok(b) => b == (Self { headers: b.headers, ..self }) && header_set(
                    self.headers@,
                    "Authorization"@,
                    bearer_text(token@),
                ) == Ok::<Seq<(Seq<char>, Seq<char>)>, ErrorView>(b.headers@),
                Err(e) => header_set(
                    self.headers@,
                    "Authorization"@,
                    bearer_text(token@),
                ) == Err::<Seq<(Seq<char>, Seq<char>)>, ErrorView>(e@),
            },
    {
        let mut headers = self.headers;
        match headers.insert("Authorization", bearer_auth_header(token).as_str()) {
            Ok(_) => Ok(RequestBuilder { headers, ..self }),
            Err(e) => Err(e),
        }
    }

    /// Appends query parameters, each key and value percent-encoded.
    pub fn query(self, pairs: &[(&str, &str)]) -> (b: Self)
        ensures
            b == (RequestBuilder { url: b.url, ..self }),
            ({
                let query = url::with_pairs(
                    match self.url@.query {
                        Some(q) => q,
                        None => seq![],
                    },
                    url::pair_views(pairs@),
                );
                b.url@ == (UrlView {
                    query: if query.len() == 0 {
                        None
                    } else {
                        Some(query)
                    },
                    ..self.url@
                })
            }),
    {
        let url = self.url.with_query_pairs(pairs);
        RequestBuilder { url, ..self }
    }

    pub fn body(self, body: Body) -> (b: Self)
        ensures
            b == (RequestBuilder { body, ..self }),
    {
        RequestBuilder { body, ..self }
    }

    fn with_content(self, content_type: &str, body: Body) -> (outcome: Result<Self>)
        requires
            header::valid_value(content_type@),
        ensures
            outcome matches Ok(b) && b == (RequestBuilder { headers: b.headers, body, ..self })
                && b.headers@ == with_type(self.headers@, content_type@),
    {
        let mut headers = self.headers;
        proof {
            reveal_strlit("Content-Type");
            assert(header::valid_name("Content-Type"@));
        }
        match headers.insert("Content-Type", content_type) {
            Ok(_) => Ok(RequestBuilder { headers, body, ..self }),
            Err(e) => Err(e),
        }
    }

    /// Sends `value` as JSON.
    pub fn json(self, value: &Value) -> (outcome: Result<Self>)
        ensures
            outcome matches Ok(b) && b == (RequestBuilder {
                headers: b.headers,
                body: b.body,
                ..self
            }) && b.headers@ == with_type(self.headers@, "application/json"@) && b.body@
                == body::made_of(vstd::utf8::encode_utf8(json::rendered(value@))),
    {
        proof {
            reveal_strlit("application/json");
            assert(header::valid_value("application/json"@));
        }
        self.with_content("application/json", Body::from(value.to_json_string()))
    }

    /// Sends pairs as a form.
    pub fn form(self, pairs: &[(&str, &str)]) -> (outcome: Result<Self>)
        ensures
            outcome matches Ok(b) && b == (RequestBuilder {
                headers: b.headers,
                body: b.body,
                ..self
            }) && b.headers@ == with_type(self.headers@, "application/x-www-form-urlencoded"@)
                && b.body@ == body::made_of(
                vstd::utf8::encode_utf8(url::with_pairs(seq![], url::pair_views(pairs@))),
            ),
    {
        proof {
            reveal_strlit("application/x-www-form-urlencoded");
            assert(header::valid_value("application/x-www-form-urlencoded"@));
        }
        let start = String::new();
        assert(start@ =~= seq![]);
        let encoded = url::append_pairs(start, pairs);
        self.with_content("application/x-www-form-urlencoded", Body::from(encoded))
    }

    /// Sends a form with files.
    pub fn multipart(self, form: Multipart) -> (outcome: Result<Self>)
        ensures
            outcome matches Ok(after) && exists|a: u64, b: u64| #[trigger]
                form_attached(self, after, form@, a, b),
    {
        let ghost before = self;
        let (bytes, content_type) = form.encode();
        let ghost (a, b) = choose|a: u64, b: u64| #[trigger]
            multipart::encoded_with(form@, a, b, (bytes, content_type));
        proof {
            multipart::law_boundary_is_alphanumeric(a, b);
            reveal_strlit("multipart/form-data; boundary=");
            assert forall|i: int| 0 <= i < content_type@.len() implies #[trigger] content_type@[i]
                != '\r' && content_type@[i] != '\n' by {
                if i < 30 {
                    assert(content_type@[i] == "multipart/form-data; boundary="@[i]);
                } else {
                    assert(content_type@[i] == multipart::boundary_text(a, b)[i - 30]);
                }
            }
        }
        let body = Body::from(bytes.as_slice());
        let outcome = self.with_content(content_type.as_str(), body);
        assert(form_attached(before, outcome->Ok_0, form@, a, b));
        outcome
    }

    /// How long this request may take.
    pub fn timeout(self, timeout: Duration) -> (b: Self)
        ensures
            b == (RequestBuilder { settings: b.settings, ..self }),
            b.settings@ == (SettingsView { timeout: Some(timeout), ..self.settings@ }),
    {
        let settings = Settings { timeout: Some(timeout), ..self.settings };
        assert(settings@ =~= (SettingsView { timeout: Some(timeout), ..self.settings@ }));
        RequestBuilder { settings, ..self }
    }

    /// How many redirects are followed.
    pub fn max_redirects(self, max: usize) -> (b: Self)
        ensures
            b == (RequestBuilder { settings: b.settings, ..self }),
            b.settings@ == (SettingsView { redirect_policy: RedirectPolicy::Follow(max), ..self.settings@ }),
    {
        let settings = Settings { redirect_policy: RedirectPolicy::Follow(max), ..self.settings };
        assert(settings@ =~= (SettingsView { redirect_policy: RedirectPolicy::Follow(max), ..self.settings@ }));
        RequestBuilder { settings, ..self }
    }

    /// Follows no redirects: the redirect itself is the response.
    pub fn no_redirects(self) -> (b: Self)
        ensures
            b == (RequestBuilder { settings: b.settings, ..self }),
            b.settings@ == (SettingsView { redirect_policy: RedirectPolicy::Stop, ..self.settings@ }),
    {
        let settings = Settings { redirect_policy: RedirectPolicy::Stop, ..self.settings };
        assert(settings@ =~= (SettingsView { redirect_policy: RedirectPolicy::Stop, ..self.settings@ }));
        RequestBuilder { settings, ..self }
    }

    /// Retries this request.
    pub fn retry(self, policy: RetryPolicy) -> (b: Self)
        ensures
            b == (RequestBuilder { settings: b.settings, ..self }),
            b.settings@ == (SettingsView { retry_policy: Some(policy@), ..self.settings@ }),
    {
        let settings = Settings { retry_policy: Some(policy), ..self.settings };
        assert(settings@ =~= (SettingsView { retry_policy: Some(policy@), ..self.settings@ }));
        RequestBuilder { settings, ..self }
    }

    /// Does not retry this request.
    pub fn no_retry(self) -> (b: Self)
        ensures
            b == (RequestBuilder { settings: b.settings, ..self }),
            b.settings@ == (SettingsView { retry_policy: None, ..self.settings@ }),
    {
        let settings = Settings { retry_policy: None, ..self.settings };
        assert(settings@ =~= (SettingsView { retry_policy: None, ..self.settings@ }));
        RequestBuilder { settings, ..self }
    }

    /// Sends this request through a forward proxy.
    pub fn proxy(self, proxy_url: &str) -> (outcome: Result<Self>)
        ensures
            match outcome {
                Ok(b) => proxy::proxy_of(proxy_url@) is Ok && b == (RequestBuilder { settings: b.settings, ..self }) && b.settings@ == (
                SettingsView {
                    proxy: Some(proxy::proxy_of(proxy_url@)->Ok_0),
                    ..self.settings@
                }),
                Err(e) => proxy::proxy_of(proxy_url@) == Err::<ProxyView, ErrorView>(e@),
            },
    {
        match Proxy::http(proxy_url) {
            Ok(p) => {
                let ghost seen = p@;
                let settings = Settings { proxy: Some(p), ..self.settings };
                assert(settings@ =~= (SettingsView { proxy: Some(seen), ..self.settings@ }));
                Ok(RequestBuilder { settings, ..self })
            },
            Err(e) => Err(e),
        }
    }

    /// The hosts that are reached without the proxy.
    pub fn proxy_bypass(self, hosts: &[&str]) -> (b: Self)
        ensures
            b == (RequestBuilder { settings: b.settings, ..self }),
            b.settings@ == (SettingsView { proxy_bypass: proxy::rule_entries(hosts@.map_values(|h: &str| h@)), ..self.settings@ }),
    {
        let settings = Settings { proxy_bypass: NoProxyRules::from_hosts(hosts), ..self.settings };
        assert(settings@ =~= (SettingsView { proxy_bypass: proxy::rule_entries(hosts@.map_values(|h: &str| h@)), ..self.settings@ }));
        RequestBuilder { settings, ..self }
    }

    /// Uses no proxy.
    pub fn no_proxy(self) -> (b: Self)
        ensures
            b == (RequestBuilder { settings: b.settings, ..self }),
            b.settings@ == (SettingsView { proxy: None, ..self.settings@ }),
    {
        let settings = Settings { proxy: None, ..self.settings };
        assert(settings@ =~= (SettingsView { proxy: None, ..self.settings@ }));
        RequestBuilder { settings, ..self }
    }

    /// Which servers are trusted over `https`.
    pub fn trust_policy(self, policy: TrustPolicy) -> (b: Self)
        ensures
            b == (RequestBuilder { settings: b.settings, ..self }),
            b.settings@ == (SettingsView { trust_policy: policy@, ..self.settings@ }),
    {
        let settings = Settings { trust_policy: policy, ..self.settings };
        assert(settings@ =~= (SettingsView { trust_policy: policy@, ..self.settings@ }));
        RequestBuilder { settings, ..self }
    }
}

/// The credentials of basic authentication are the name, a colon and the
/// password, in base64 after `Basic` and a space. Those of a token are the
/// token itself after `Bearer` and a space.
pub proof fn law_credentials_are_spelled(
    username: Seq<char>,
    password: Seq<char>,
    other_name: Seq<char>,
    other_password: Seq<char>,
)
    ensures
        basic_text(username, password) == seq!['B', 'a', 's', 'i', 'c', ' '] + base64::encoded(
            vstd::utf8::encode_utf8(username) + seq![58u8] + vstd::utf8::encode_utf8(password),
        ),
        bearer_text(username) == seq!['B', 'e', 'a', 'r', 'e', 'r', ' '] + username,
        basic_text(username, password) == basic_text(other_name, other_password) ==> username
            + seq![':'] + password == other_name + seq![':'] + other_password,
{
    reveal_strlit("Basic ");
    reveal_strlit("Bearer ");
    reveal_strlit(":");
    assert("Basic "@ =~= seq!['B', 'a', 's', 'i', 'c', ' ']);
    assert("Bearer "@ =~= seq!['B', 'e', 'a', 'r', 'e', 'r', ' ']);
    assert(":"@ =~= seq![':']);
    text_laws::lemma_encode_concat(username + ":"@, password);
    text_laws::lemma_encode_concat(username, ":"@);
    assert(vstd::utf8::encode_utf8(":"@) =~= seq![58u8]) by {
        vstd::utf8::is_ascii_chars_encode_utf8(":"@);
    }
    let one = username + ":"@ + password;
    let two = other_name + ":"@ + other_password;
    if basic_text(username, password) == basic_text(other_name, other_password) {
        let (a, b) = (vstd::utf8::encode_utf8(one), vstd::utf8::encode_utf8(two));
        assert(basic_text(username, password).skip(6) =~= base64::encoded(a));
        assert(basic_text(other_name, other_password).skip(6) =~= base64::encoded(b));
        base64::law_encoding_is_injective(a, b);
        vstd::utf8::encode_utf8_decode_utf8(one);
        vstd::utf8::encode_utf8_decode_utf8(two);
    }
}

/// Which variable names the proxy: `HTTP_PROXY` if it is set to something and
/// the program does not run as CGI, otherwise `http_proxy` if it is set to
/// something. Which exempts hosts: `NO_PROXY` if it is set at all, otherwise
/// `no_proxy`; an empty list is none.
pub proof fn law_variables_that_count(env: ProxyEnv)
    ensures
        ({
            let named = env_proxy(env);
            let exempted = env_bypass(env);
            &&& env.upper_proxy matches Some(u) ==> u@.len() > 0 && !env.in_cgi ==> named == Some(
                u@,
            )
            &&& env.in_cgi || env.upper_proxy is None || (env.upper_proxy matches Some(u) && u@.len()
                == 0) ==> match env.lower_proxy {
                Some(l) => if l@.len() > 0 {
                    named == Some(l@)
                } else {
                    named is None
                },
                None => named is None,
            }
            &&& match (env.upper_no_proxy, env.lower_no_proxy) {
                (Some(u), _) => if u@.len() > 0 {
                    exempted == Some(u@)
                } else {
                    exempted is None
                },
                (None, Some(l)) => if l@.len() > 0 {
                    exempted == Some(l@)
                } else {
                    exempted is None
                },
                (None, None) => exempted is None,
            }
        }),
{
}

/// The environment sets the proxy and the exempted hosts, and nothing else;
/// what it does not name stays as it was.
pub proof fn law_environment_sets_the_proxy(s: SettingsView, env: ProxyEnv)
    ensures
        with_env(s, env) matches Ok(after) ==> {
            &&& after == (SettingsView {
                proxy: after.proxy,
                proxy_bypass: after.proxy_bypass,
                ..s
            })
            &&& env_proxy(env) is None ==> after.proxy == s.proxy
            &&& env_proxy(env) matches Some(u) ==> (after.proxy matches Some(p)
                && proxy::proxy_of(u) == Ok::<ProxyView, ErrorView>(p))
            &&& env_bypass(env) is None ==> after.proxy_bypass == s.proxy_bypass
            &&& env_bypass(env) matches Some(hosts) ==> after.proxy_bypass == proxy::rule_entries(
                text::split(hosts, ','),
            )
        },
        with_env(s, env) is Err <==> (env_proxy(env) matches Some(u) && proxy::proxy_of(u) is Err),
{
}

/// A header is set if it can go on the wire: then it is the only one of its
/// name, and the others are as they were. Otherwise nothing is set.
pub proof fn law_header_is_set(
    before: Seq<(Seq<char>, Seq<char>)>,
    name: Seq<char>,
    value: Seq<char>,
    other: Seq<char>,
)
    ensures
        match header_set(before, name, value) {
            Ok(after) => {
                &&& header::valid_name(name) && !value.contains('\r') && !value.contains('\n')
                &&& header::all_values(after, name) == seq![value]
                &&& !text::same_ignoring_case(name, other) ==> header::all_values(after, other)
                    == header::all_values(before, other)
            },
            Err(_) => !header::valid_name(name) || value.contains('\r') || value.contains('\n'),
        },
{
    header::law_what_can_go_on_the_wire(name, value);
    header::law_values_after_setting(before, name, value, name);
    header::law_values_after_setting(before, name, value, other);
}

/// A body's type is the one `Content-Type` that goes out with it; the other
/// headers are as they were.
pub proof fn law_type_is_announced(
    headers: Seq<(Seq<char>, Seq<char>)>,
    content_type: Seq<char>,
    other: Seq<char>,
)
    ensures
        header::all_values(with_type(headers, content_type), "Content-Type"@) == seq![content_type],
        !text::same_ignoring_case("Content-Type"@, other) ==> header::all_values(
            with_type(headers, content_type),
            other,
        ) == header::all_values(headers, other),
{
    header::law_values_after_setting(headers, "Content-Type"@, content_type, "Content-Type"@);
    header::law_values_after_setting(headers, "Content-Type"@, content_type, other);
}

/// What a client does unless it is told otherwise: it gives up after half a
/// minute, follows thirty redirects, stores cookies, keeps up to eight idle
/// connections per origin for a minute and a half, retries nothing, uses no
/// proxy, and trusts what the system trusts.
pub proof fn law_settings_to_start_with(s: SettingsView)
    requires
        is_default(s),
    ensures
        s.timeout matches Some(d) && platform::duration_nanos(d) == 30 * 1_000_000_000,
        s.redirect_policy matches RedirectPolicy::Follow(max) && max == 30,
        s.cookies && s.pool_enabled,
        s.pool.max_idle_per_host == 8,
        platform::duration_nanos(s.pool.idle_timeout) == 90 * 1_000_000_000,
        s.retry_policy is None,
        s.proxy is None,
        forall|host: Seq<char>| !#[trigger] proxy::bypassed(s.proxy_bypass, host),
        s.trust_policy is System,
{
}

} // verus!
