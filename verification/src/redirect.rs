//! Following redirects: which responses are followed and how far, and what
//! the next request looks like.

use crate::body::Body;
use crate::body::BodyView;
use crate::error::Error;
use crate::error::ErrorView;
use crate::error::Result;
use crate::header;
use crate::header::HeaderMap;
use crate::method::Method;
use crate::status::StatusCode;
use crate::text;
use crate::url::Url;
use crate::url::UrlView;
use vstd::prelude::*;

verus! {

/// How redirects are handled.
#[derive(Debug, Clone, Copy, PartialEq, Eq, Structural)]
pub enum RedirectPolicy {
    /// Up to so many are followed; the next is an error.
    Follow(usize),
    /// None is followed: the redirect itself is the response.
    Stop,
}

/// Statuses that redirect.
pub open spec fn redirects(status: u16) -> bool {
    status == 301 || status == 302 || status == 303 || status == 307 || status == 308
}

pub fn is_redirect_status(status: u16) -> (yes: bool)
    ensures
        yes == redirects(status),
{
    match status {
        301 | 302 | 303 | 307 | 308 => true,
        _ => false,
    }
}

/// Whether the next request is a `GET` without a body: always after 303,
/// never after 307 and 308, and otherwise unless the method is `GET` or
/// `HEAD`.
pub open spec fn downgrades(status: u16, method: Method) -> bool {
    status == 303 || (status != 307 && status != 308 && !(method is Get || method is Head))
}

/// The method and the body of the request after a redirect (RFC 9110,
/// section 15.4).
pub fn redirect_method_and_body(status: u16, method: Method, body: Body) -> (next: (Method, Body))
    ensures
        next == if downgrades(status, method) {
            (Method::Get, Body::Empty)
        } else {
            (method, body)
        },
{
    match status {
        303 => (Method::Get, Body::Empty),
        307 | 308 => (method, body),
        _ => match method {
            Method::Get | Method::Head => (method, body),
            _ => (Method::Get, Body::Empty),
        },
    }
}

/// Whether two URLs differ in host or port.
pub open spec fn changes_origin(from: UrlView, to: UrlView) -> bool {
    !text::same_ignoring_case(to.host, from.host) || to.port != from.port
}

/// A chain of requests that redirects have led along so far.
#[derive(Debug)]
pub struct Chain {
    pub method: Method,
    pub url: Url,
    pub headers: HeaderMap,
    pub body: Body,
    pub policy: RedirectPolicy,
    /// How many redirects have been followed.
    pub hop: usize,
}

/// What a [`Chain`] stands for.
#[verifier::ext_equal]
pub struct ChainView {
    pub method: Method,
    pub url: UrlView,
    pub headers: Seq<(Seq<char>, Seq<char>)>,
    pub body: BodyView,
    pub policy: RedirectPolicy,
    pub hop: int,
}

impl View for Chain {
    type V = ChainView;

    open spec fn view(&self) -> ChainView {
        ChainView {
            method: self.method,
            url: self.url@,
            headers: self.headers@,
            body: self.body@,
            policy: self.policy,
            hop: self.hop as int,
        }
    }
}

/// What becomes of a response.
#[derive(Debug, Clone, Copy, PartialEq, Eq, Structural)]
pub enum Decision {
    /// It is the response to the request.
    Finish,
    /// It is one redirect too many.
    TooMany(usize),
    /// The redirect is followed.
    Follow,
}

/// What becomes of a response with this status.
pub open spec fn decision(c: ChainView, status: u16) -> Decision {
    match c.policy {
        RedirectPolicy::Follow(max) if redirects(status) => if c.hop >= max {
            Decision::TooMany(max)
        } else {
            Decision::Follow
        },
        _ => Decision::Finish,
    }
}

/// Where a redirect leads, as the response gives it.
pub open spec fn location(
    status: StatusCode,
    headers: Seq<(Seq<char>, Seq<char>)>,
) -> std::result::Result<Seq<char>, ErrorView> {
    match header::lookup(headers, "location"@) {
        Some(l) => Ok(l),
        None => Err(
            ErrorView::InvalidResponse(
                text::decimal(status.code as nat) + " redirect response had no Location header"@,
            ),
        ),
    }
}

/// The chain after following a redirect with this status to `next`.
pub open spec fn followed(c: ChainView, status: u16, next: UrlView) -> ChainView {
    ChainView {
        method: if downgrades(status, c.method) {
            Method::Get
        } else {
            c.method
        },
        url: next,
        headers: if changes_origin(c.url, next) {
            header::without(c.headers, "Authorization"@)
        } else {
            c.headers
        },
        body: if downgrades(status, c.method) {
            BodyView::Empty
        } else {
            c.body
        },
        policy: c.policy,
        hop: c.hop + 1,
    }
}

impl Chain {
    /// A chain of one request.
    pub fn new(
        method: Method,
        url: Url,
        headers: HeaderMap,
        body: Body,
        policy: RedirectPolicy,
    ) -> (chain: Self)
        ensures
            chain == (Chain { method, url, headers, body, policy, hop: 0 }),
    {
        Chain { method, url, headers, body, policy, hop: 0 }
    }

    /// Whether the request can be sent at all: its scheme has to be `http`
    /// or `https`.
    pub fn check_scheme(&self) -> (outcome: Result<()>)
        ensures
            match outcome {
                Ok(_) => self@.url.scheme == "http"@ || self@.url.scheme == "https"@,
                Err(e) => self@.url.scheme != "http"@ && self@.url.scheme != "https"@ && e@
                    == ErrorView::UnsupportedScheme(self@.url.scheme),
            },
    {
        if text::same_text(self.url.scheme.as_str(), "http") || text::same_text(
            self.url.scheme.as_str(),
            "https",
        ) {
            Ok(())
        } else {
            Err(Error::UnsupportedScheme(self.url.scheme.clone()))
        }
    }

    /// What becomes of a response with this status.
    pub fn decide(&self, status: u16) -> (d: Decision)
        ensures
            d == decision(self@, status),
    {
        if !is_redirect_status(status) {
            return Decision::Finish;
        }
        match self.policy {
            RedirectPolicy::Stop => Decision::Finish,
            RedirectPolicy::Follow(max) => if self.hop >= max {
                Decision::TooMany(max)
            } else {
                Decision::Follow
            },
        }
    }

    /// Goes on to `next` after a response with this status.
    pub fn follow(self, status: u16, next: Url) -> (chain: Self)
        requires
            decision(self@, status) is Follow,
        ensures
            chain@ == followed(self@, status, next@),
    {
        let mut headers = self.headers;
        if !text::same_text_ignoring_case(next.host.as_str(), self.url.host.as_str()) || next.port
            != self.url.port {
            headers.remove("Authorization");
        }
        let (method, body) = redirect_method_and_body(status, self.method, self.body);
        let chain = Chain {
            method,
            url: next,
            headers,
            body,
            policy: self.policy,
            hop: self.hop + 1,
        };
        assert(chain@ =~= followed(self@, status, next@));
        chain
    }
}

/// Where a redirect leads, as the response gives it.
pub fn redirect_location(status: StatusCode, headers: &HeaderMap) -> (outcome: Result<String>)
    ensures
        match outcome {
            Ok(l) => location(status, headers@) == Ok::<Seq<char>, ErrorView>(l@),
            Err(e) => location(status, headers@) == Err::<Seq<char>, ErrorView>(e@),
        },
{
    match headers.get("location") {
        Some(l) => Ok(text::owned(l)),
        None => {
            let mut m = status.to_string();
            m.push_str(" redirect response had no Location header");
            Err(Error::InvalidResponse(m))
        },
    }
}

/// A redirect: the status of the response, and where it leads.
pub struct Hop {
    pub status: u16,
    pub next: UrlView,
}

/// The chain after following redirects.
pub open spec fn after_hops(c: ChainView, hops: Seq<Hop>) -> ChainView
    decreases hops.len(),
{
    if hops.len() == 0 {
        c
    } else {
        followed(after_hops(c, hops.drop_last()), hops.last().status, hops.last().next)
    }
}

/// Whether each of the redirects is followed.
pub open spec fn all_followed(c: ChainView, hops: Seq<Hop>) -> bool {
    forall|i: int|
        0 <= i < hops.len() ==> decision(after_hops(c, hops.take(i)), (#[trigger] hops[i]).status)
            is Follow
}

proof fn lemma_hops_counted(c: ChainView, hops: Seq<Hop>)
    ensures
        after_hops(c, hops).hop == c.hop + hops.len(),
        after_hops(c, hops).policy == c.policy,
    decreases hops.len(),
{
    if hops.len() > 0 {
        lemma_hops_counted(c, hops.drop_last());
    }
}

/// No more redirects are followed than the policy allows: a request with the
/// policy `Follow(max)` is sent to at most `max + 1` places.
pub proof fn law_redirects_are_capped(c: ChainView, hops: Seq<Hop>)
    requires
        c.hop == 0,
        all_followed(c, hops),
    ensures
        match c.policy {
            RedirectPolicy::Follow(max) => hops.len() <= max,
            RedirectPolicy::Stop => hops.len() == 0,
        },
{
    if hops.len() > 0 {
        let n = hops.len() - 1;
        lemma_hops_counted(c, hops.take(n));
        assert(decision(after_hops(c, hops.take(n)), hops[n].status) is Follow);
    }
}

/// Credentials never reach an origin other than the one that they were meant
/// for: once a redirect has changed host or port, no later request of the
/// chain carries `Authorization`, not even back at the first origin.
pub proof fn law_credentials_stay_with_their_origin(c: ChainView, hops: Seq<Hop>)
    ensures
        header::lookup(after_hops(c, hops).headers, "Authorization"@) is Some ==> (forall|i: int|
            0 <= i < hops.len() ==> !changes_origin(
                after_hops(c, hops.take(i)).url,
                (#[trigger] hops[i]).next,
            )) && after_hops(c, hops).headers == c.headers,
    decreases hops.len(),
{
    if hops.len() > 0 {
        let front = hops.drop_last();
        let before = after_hops(c, front);
        law_credentials_stay_with_their_origin(c, front);
        header::law_lookup_after_removal(
            before.headers,
            "Authorization"@,
            "Authorization"@,
        );
        if header::lookup(after_hops(c, hops).headers, "Authorization"@) is Some {
            assert(!changes_origin(before.url, hops.last().next));
            assert forall|i: int| 0 <= i < hops.len() implies !changes_origin(
                after_hops(c, hops.take(i)).url,
                (#[trigger] hops[i]).next,
            ) by {
                if i < front.len() {
                    assert(hops.take(i) =~= front.take(i));
                    assert(hops[i] == front[i]);
                } else {
                    assert(hops.take(i) =~= front);
                }
            }
        }
    }
}

/// Redirects change no header but `Authorization`.
pub proof fn law_other_headers_are_kept(c: ChainView, hops: Seq<Hop>, name: Seq<char>)
    requires
        !text::same_ignoring_case("Authorization"@, name),
    ensures
        header::lookup(after_hops(c, hops).headers, name) == header::lookup(c.headers, name),
    decreases hops.len(),
{
    if hops.len() > 0 {
        law_other_headers_are_kept(c, hops.drop_last(), name);
        header::law_lookup_after_removal(
            after_hops(c, hops.drop_last()).headers,
            "Authorization"@,
            name,
        );
    }
}

/// A chain of 307 and 308 redirects keeps method and body.
pub proof fn law_preserving_redirects_keep_the_request(c: ChainView, hops: Seq<Hop>)
    requires
        forall|i: int|
            0 <= i < hops.len() ==> (#[trigger] hops[i]).status == 307 || hops[i].status == 308,
    ensures
        after_hops(c, hops).method == c.method,
        after_hops(c, hops).body == c.body,
    decreases hops.len(),
{
    if hops.len() > 0 {
        let front = hops.drop_last();
        assert forall|i: int| 0 <= i < front.len() implies (#[trigger] front[i]).status == 307
            || front[i].status == 308 by {
            assert(front[i] == hops[i]);
        }
        law_preserving_redirects_keep_the_request(c, front);
        assert(hops[hops.len() - 1].status == 307 || hops[hops.len() - 1].status == 308);
    }
}

/// What the next request of a chain is. After a 301, a 302 or a 303 it is a
/// `GET` without a body, unless a `GET` or a `HEAD` was answered with a 301 or
/// a 302; then, and after a 307 or a 308, it has the method and the body that
/// it had. It goes to where the redirect leads, under the policy that it had.
pub proof fn law_next_request_of_a_chain(c: ChainView, hops: Seq<Hop>, status: u16, next: UrlView)
    ensures
        ({
            let before = after_hops(c, hops);
            let after = after_hops(c, hops.push(Hop { status, next }));
            &&& (status == 301 || status == 302 || status == 303) && before.method != Method::Get
                && before.method != Method::Head ==> after.method == Method::Get && after.body
                == BodyView::Empty
            &&& status == 303 ==> after.method == Method::Get && after.body == BodyView::Empty
            &&& (status == 301 || status == 302) && (before.method == Method::Get || before.method
                == Method::Head) ==> after.method == before.method && after.body == before.body
            &&& status == 307 || status == 308 ==> after.method == before.method && after.body
                == before.body
            &&& after.url == next
            &&& after.policy == c.policy
            &&& after.hop == c.hop + hops.len() + 1
        }),
{
    lemma_hops_counted(c, hops);
    assert(hops.push(Hop { status, next }).drop_last() == hops);
}

/// Which responses are followed: those with the statuses 301, 302, 303, 307
/// and 308, as long as fewer redirects than allowed have been followed; the
/// next such response is one too many. All others, and all responses to a
/// request whose policy is to stop, are final.
pub proof fn law_which_responses_are_followed(c: ChainView, hops: Seq<Hop>, status: u16)
    requires
        c.hop == 0,
    ensures
        ({
            let becomes = decision(after_hops(c, hops), status);
            let redirect = seq![301u16, 302u16, 303u16, 307u16, 308u16].contains(status);
            match c.policy {
                RedirectPolicy::Stop => becomes == Decision::Finish,
                RedirectPolicy::Follow(max) => {
                    &&& !redirect ==> becomes == Decision::Finish
                    &&& redirect && hops.len() < max ==> becomes == Decision::Follow
                    &&& redirect && hops.len() >= max ==> becomes == Decision::TooMany(max)
                },
            }
        }),
{
    lemma_hops_counted(c, hops);
    let all = seq![301u16, 302u16, 303u16, 307u16, 308u16];
    assert(all[0] == 301 && all[1] == 302 && all[2] == 303 && all[3] == 307 && all[4] == 308);
    assert(all.contains(status) <==> status == 301 || status == 302 || status == 303 || status
        == 307 || status == 308);
}

/// A redirect to the same host, in whatever case, and the same port changes no
/// header; one to another host or another port takes `Authorization` away and
/// leaves the others as they are.
pub proof fn law_headers_after_a_redirect(c: ChainView, hops: Seq<Hop>, status: u16, next: UrlView)
    ensures
        ({
            let before = after_hops(c, hops);
            let after = after_hops(c, hops.push(Hop { status, next }));
            &&& text::lowered(next.host) == text::lowered(before.url.host) && next.port
                == before.url.port ==> after.headers == before.headers
            &&& text::lowered(next.host) != text::lowered(before.url.host) || next.port
                != before.url.port ==> header::lookup(after.headers, "Authorization"@) is None
                && after.headers == before.headers.filter(
                |e: (Seq<char>, Seq<char>)| text::lowered(e.0) != text::lowered("Authorization"@),
            )
        }),
{
    assert(hops.push(Hop { status, next }).drop_last() == hops);
    header::law_lookup_after_removal(
        after_hops(c, hops).headers,
        "Authorization"@,
        "Authorization"@,
    );
    header::law_removal_keeps_the_others(after_hops(c, hops).headers, "Authorization"@);
}

/// A redirect leads where the response's first `Location` header says, in
/// whatever case its name is written; without one it leads nowhere.
pub proof fn law_location_is_read(
    status: StatusCode,
    before: Seq<(Seq<char>, Seq<char>)>,
    name: Seq<char>,
    value: Seq<char>,
    after: Seq<(Seq<char>, Seq<char>)>,
)
    requires
        forall|i: int|
            0 <= i < before.len() ==> !text::same_ignoring_case(
                (#[trigger] before[i]).0,
                "Location"@,
            ),
        text::same_ignoring_case(name, "Location"@),
    ensures
        location(status, before + seq![(name, value)] + after) == Ok::<Seq<char>, ErrorView>(
            value,
        ),
        location(status, before) is Err,
{
    reveal_strlit("Location");
    reveal_strlit("location");
    assert(text::lowered("Location"@) =~= text::lowered("location"@));
    assert forall|i: int| 0 <= i < before.len() implies !text::same_ignoring_case(
        (#[trigger] before[i]).0,
        "location"@,
    ) by {
        assert(!text::same_ignoring_case(before[i].0, "Location"@));
    }
    header::law_first_value_is_found(before, name, value, after, "location"@);
}

} // verus!
