//! The course of a request: what goes out on each hop, where to, and what
//! becomes of the response.

use crate::body;
use crate::client::RequestBuilder;
use crate::client::Settings;
use crate::cookie;
use crate::cookie::CookieJar;
use crate::cookie::CookieView;
use crate::error::ErrorView;
use crate::error::Result;
use crate::header;
use crate::header::HeaderMap;
use crate::hop;
use crate::hop::HopTarget;
use crate::platform;
use crate::pool;
use crate::pool::ConnectionPool;
use crate::pool::Idle;
use crate::redirect;
use crate::redirect::Chain;
use crate::redirect::ChainView;
use crate::redirect::Decision;
use crate::redirect::Hop;
use crate::request::Request;
use crate::status::StatusCode;
use crate::text;
use crate::url::Url;
use crate::url::UrlView;
use vstd::prelude::*;

verus! {

/// The chain that a request starts.
pub fn begin(request: &RequestBuilder) -> (chain: Chain)
    ensures
        chain@ == (ChainView {
            method: request.method,
            url: request.url@,
            headers: request.headers@,
            body: request.body@,
            policy: request.settings.redirect_policy,
            hop: 0,
        }),
{
    Chain::new(
        request.method,
        request.url.clone(),
        request.headers.clone(),
        request.body.clone(),
        request.settings.redirect_policy,
    )
}

/// Whether a URL's scheme is one that a request can be sent by.
pub open spec fn usable(url: UrlView) -> bool {
    url.scheme == "http"@ || url.scheme == "https"@
}

/// The jar once the next request of a chain is built: where cookies are
/// used, those that have expired are gone.
pub open spec fn jar_on_sending(
    jar: Seq<CookieView>,
    url: UrlView,
    cookies: bool,
    now: i128,
) -> Seq<CookieView> {
    if cookies && usable(url) {
        cookie::fresh(jar, now)
    } else {
        jar
    }
}

/// The jar's part of the `Cookie` header of a request to `url`.
pub open spec fn cookies_sent(
    jar: Seq<CookieView>,
    url: UrlView,
    cookies: bool,
    now: i128,
) -> Option<Seq<char>> {
    if cookies {
        cookie::header_text(cookie::fresh(jar, now), url)
    } else {
        None
    }
}

/// The headers of the next request of a chain, or why it cannot be sent.
pub open spec fn headers_sent(
    chain: ChainView,
    jar_cookies: Option<Seq<char>>,
    pooling: bool,
) -> std::result::Result<Seq<(Seq<char>, Seq<char>)>, ErrorView> {
    let merged = hop::merged_cookies(hop::with_accept(chain.headers), jar_cookies->0);
    if !usable(chain.url) {
        Err(ErrorView::UnsupportedScheme(chain.url.scheme))
    } else if jar_cookies is Some && !header::valid_value(merged) {
        Err(header::refusal("Cookie"@, merged))
    } else {
        Ok(hop::wire_headers(chain.headers, jar_cookies, pooling, body::length(chain.body)))
    }
}

/// The next request of a chain, to be sent at `now`.
pub fn next_request(chain: &Chain, settings: &Settings, jar: &mut CookieJar, now: i128) -> (outcome:
    Result<Request>)
    ensures
        final(jar)@ == jar_on_sending(old(jar)@, chain@.url, settings.cookies, now),
        ({
            let headers = headers_sent(
                chain@,
                cookies_sent(old(jar)@, chain@.url, settings.cookies, now),
                settings.pool_enabled,
            );
            match outcome {
                Ok(request) => {
                    &&& request.method == chain.method
                    &&& request.url@ == chain@.url
                    &&& request.body@ == chain@.body
                    &&& request.timeout is None
                    &&& headers == Ok::<Seq<(Seq<char>, Seq<char>)>, ErrorView>(request.headers@)
                },
                Err(e) => headers == Err::<Seq<(Seq<char>, Seq<char>)>, ErrorView>(e@),
            }
        }),
{
    chain.check_scheme()?;
    let cookies = if settings.cookies {
        jar.cookie_header_at(&chain.url, now)
    } else {
        None
    };
    let jar_cookies = match &cookies {
        Some(c) => Some(c.as_str()),
        None => None,
    };
    let headers = hop::build_wire_headers(
        &chain.headers,
        jar_cookies,
        settings.pool_enabled,
        &chain.body,
    )?;
    Ok(
        Request {
            method: chain.method,
            url: chain.url.clone(),
            headers,
            body: chain.body.clone(),
            timeout: None,
        },
    )
}

/// Where a request to `url` leads under these settings.
pub fn route(settings: &Settings, url: &Url) -> (target: HopTarget)
    ensures
        target@ == hop::target_of(
            url@,
            hop::proxy_in_use(settings@.proxy, settings@.proxy_bypass, url@.host),
        ),
{
    hop::hop_target(url, hop::active_proxy(&settings.proxy, &settings.proxy_bypass, url))
}

/// An idle connection for a request, if connections are kept and there is
/// one.
pub fn idle_connection<T>(
    settings: &Settings,
    pool: &mut ConnectionPool<T>,
    target: &HopTarget,
    now: u128,
) -> (connection: Option<T>)
    ensures
        !settings.pool_enabled ==> connection is None && *final(pool) == *old(pool),
        settings.pool_enabled ==> {
            &&& final(pool).max_idle_per_origin == old(pool).max_idle_per_origin
            &&& final(pool).idle_timeout == old(pool).idle_timeout
            &&& (connection, final(pool).idle_for(target@.pool_key)) == pool::newest(
                old(pool).idle_for(target@.pool_key),
                now,
                platform::duration_nanos(old(pool).idle_timeout),
            )
            &&& forall|other: (Seq<char>, Seq<char>, u16)|
                other != target@.pool_key ==> #[trigger] final(pool).idle_for(other) == old(
                    pool,
                ).idle_for(other)
        },
        old(pool).within_capacity() ==> final(pool).within_capacity(),
        old(pool).keys_distinct() ==> final(pool).keys_distinct(),
{
    if settings.pool_enabled {
        pool.take(&target.pool_key, now)
    } else {
        None
    }
}

/// Keeps the connection of a response for reuse, if connections are kept and
/// it stays open.
pub fn keep_connection<T>(
    settings: &Settings,
    pool: &mut ConnectionPool<T>,
    target: HopTarget,
    connection: T,
    keep_alive: bool,
    now: u128,
)
    ensures
        !(settings.pool_enabled && keep_alive) ==> *final(pool) == *old(pool),
        settings.pool_enabled && keep_alive ==> {
            &&& final(pool).max_idle_per_origin == old(pool).max_idle_per_origin
            &&& final(pool).idle_timeout == old(pool).idle_timeout
            &&& final(pool).idle_for(target@.pool_key) == if old(pool).idle_for(
                target@.pool_key,
            ).len() < old(pool).max_idle_per_origin {
                old(pool).idle_for(target@.pool_key).push(
                    (Idle { stream: connection, since: now }),
                )
            } else {
                old(pool).idle_for(target@.pool_key)
            }
            &&& forall|other: (Seq<char>, Seq<char>, u16)|
                other != target@.pool_key ==> #[trigger] final(pool).idle_for(other) == old(
                    pool,
                ).idle_for(other)
        },
        old(pool).within_capacity() ==> final(pool).within_capacity(),
        old(pool).keys_distinct() ==> final(pool).keys_distinct(),
{
    if settings.pool_enabled && keep_alive {
        pool.put(target.pool_key, connection, now);
    }
}

/// What becomes of the response to the last request of a chain, which arrived
/// at `now`: its cookies are stored, whether or not it is a redirect.
pub fn after_response(
    chain: &Chain,
    settings: &Settings,
    jar: &mut CookieJar,
    status: StatusCode,
    headers: &HeaderMap,
    now: i128,
) -> (decision: Decision)
    ensures
        decision == redirect::decision(chain@, status.code),
        final(jar)@ == if settings.cookies {
            cookie::stored(
                old(jar)@,
                chain@.url,
                header::all_values(headers@, "set-cookie"@),
                now,
            )
        } else {
            old(jar)@
        },
{
    if settings.cookies {
        hop::store_cookies(jar, &chain.url, headers, now);
    }
    chain.decide(status.as_u16())
}

/// Credentials never go out to an origin other than the one that they were
/// meant for: a request that carries `Authorization` has not been redirected
/// to another host or port.
pub proof fn law_credentials_go_to_no_other_origin(
    chain: ChainView,
    hops: Seq<Hop>,
    jar_cookies: Option<Seq<char>>,
    pooling: bool,
)
    ensures
        headers_sent(redirect::after_hops(chain, hops), jar_cookies, pooling) matches Ok(sent)
            && header::lookup(sent, "Authorization"@) is Some ==> forall|i: int|
            0 <= i < hops.len() ==> !redirect::changes_origin(
                redirect::after_hops(chain, hops.take(i)).url,
                (#[trigger] hops[i]).next,
            ),
{
    let last = redirect::after_hops(chain, hops);
    let name = "Authorization"@;
    reveal_strlit("Authorization");
    reveal_strlit("Accept");
    reveal_strlit("Cookie");
    reveal_strlit("Connection");
    reveal_strlit("Content-Length");
    reveal_strlit("Transfer-Encoding");
    assert(text::lowered(name).len() == 13);
    assert(text::lowered("Accept"@).len() == 6);
    assert(text::lowered("Cookie"@).len() == 6);
    assert(text::lowered("Connection"@).len() == 10);
    assert(text::lowered("Content-Length"@).len() == 14);
    assert(text::lowered("Transfer-Encoding"@).len() == 17);
    hop::law_callers_headers_go_out(
        last.headers,
        jar_cookies,
        pooling,
        body::length(last.body),
        name,
    );
    redirect::law_credentials_stay_with_their_origin(chain, hops);
}

/// Without cookie storage, the jar stays as it is and the `Cookie` header is
/// the caller's.
pub proof fn law_without_storage_cookies_are_the_callers(
    chain: ChainView,
    jar: Seq<CookieView>,
    pooling: bool,
    now: i128,
)
    ensures
        jar_on_sending(jar, chain.url, false, now) == jar,
        headers_sent(chain, cookies_sent(jar, chain.url, false, now), pooling) matches Ok(sent)
            ==> header::lookup(sent, "Cookie"@) == header::lookup(chain.headers, "Cookie"@),
{
    let name = "Cookie"@;
    reveal_strlit("Accept");
    reveal_strlit("Cookie");
    reveal_strlit("Connection");
    reveal_strlit("Content-Length");
    reveal_strlit("Transfer-Encoding");
    assert(text::lowered(name).len() == 6 && text::lowered("Accept"@).len() == 6);
    assert(text::lowered(name)[0] == 'c' && text::lowered("Accept"@)[0] == 'a');
    assert(text::lowered("Connection"@).len() == 10);
    assert(text::lowered("Content-Length"@).len() == 14);
    assert(text::lowered("Transfer-Encoding"@).len() == 17);
    let accepted = hop::with_accept(chain.headers);
    header::law_lookup_after_setting(chain.headers, "Accept"@, "*/*"@, name);
    header::law_lookup_after_setting(accepted, "Connection"@, "close"@, name);
    let before = if pooling {
        accepted
    } else {
        header::with_header(accepted, "Connection"@, "close"@)
    };
    hop::lemma_framing_leaves_others(before, body::length(chain.body), name);
}

} // verus!
