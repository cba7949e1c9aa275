//! What the course of a request comes to: which requests go out and how it
//! ends. Sending a request and sending it for streaming take the same course.
//!
//! A course is what the steps in [`crate::exchange`] and the readers in
//! [`crate::http1`] come to when they are taken one after the other, over the
//! replies of the servers.

use crate::body::BodyView;
use crate::cookie;
use crate::cookie::CookieView;
use crate::error::ErrorView;
use crate::exchange;
use crate::header;
use crate::http1;
use crate::http1::BodyOutcome;
use crate::http1::ChunkedState;
use crate::method::Method;
use crate::redirect;
use crate::redirect::ChainView;
use crate::redirect::Decision;
use crate::redirect::RedirectPolicy;
use crate::response_laws;
use crate::status::StatusCode;
use crate::text;
use crate::url::UrlView;
use vstd::prelude::*;

verus! {

/// All the bytes that answer a request, and when the request went out and
/// its answer came in.
pub struct Reply {
    pub bytes: Seq<u8>,
    pub sent_at: i128,
    pub arrived_at: i128,
}

/// A request that went out.
pub struct SentRequest {
    pub method: Method,
    pub url: UrlView,
    pub headers: Seq<(Seq<char>, Seq<char>)>,
    pub body: BodyView,
}

/// How a course ends.
pub enum Ending {
    Response {
        status: StatusCode,
        headers: Seq<(Seq<char>, Seq<char>)>,
        url: UrlView,
        body: BodyOutcome,
    },
    Failed(ErrorView),
    /// There are no more replies.
    Unanswered,
}

/// The requests that went out, the cookies that are stored in the end, and
/// how it ended.
#[verifier::ext_equal]
pub struct Course {
    pub sent: Seq<SentRequest>,
    pub jar: Seq<CookieView>,
    pub ending: Ending,
}

/// What a client does with cookies and connections, and where a location
/// leads from a URL.
pub struct Terms {
    pub cookies: bool,
    pub pooling: bool,
    pub resolve: spec_fn(UrlView, Seq<char>) -> std::result::Result<UrlView, ErrorView>,
}

/// A course that ends with the reply to this request.
pub open spec fn ends(request: SentRequest, jar: Seq<CookieView>, ending: Ending) -> Course {
    Course { sent: seq![request], jar, ending }
}

/// A course that goes on after this request.
pub open spec fn onward(request: SentRequest, later: Course) -> Course {
    Course { sent: seq![request] + later.sent, jar: later.jar, ending: later.ending }
}

/// The headers of the next request of a chain, or why it cannot be sent.
pub open spec fn outgoing(
    chain: ChainView,
    jar: Seq<CookieView>,
    terms: Terms,
    now: i128,
) -> std::result::Result<Seq<(Seq<char>, Seq<char>)>, ErrorView> {
    exchange::headers_sent(
        chain,
        exchange::cookies_sent(jar, chain.url, terms.cookies, now),
        terms.pooling,
    )
}

/// The jar once a response to the last request of a chain has come in.
pub open spec fn jar_on_receiving(
    jar: Seq<CookieView>,
    chain: ChainView,
    terms: Terms,
    headers: Seq<(Seq<char>, Seq<char>)>,
    now: i128,
) -> Seq<CookieView> {
    if terms.cookies {
        cookie::stored(jar, chain.url, header::all_values(headers, "set-cookie"@), now)
    } else {
        jar
    }
}

/// The chain after the redirect that a response asks for, or why it cannot be
/// followed.
pub open spec fn next_hop(
    chain: ChainView,
    terms: Terms,
    status: StatusCode,
    headers: Seq<(Seq<char>, Seq<char>)>,
) -> std::result::Result<ChainView, ErrorView> {
    match redirect::location(status, headers) {
        Err(e) => Err(e),
        Ok(location) => match (terms.resolve)(chain.url, location) {
            Err(e) => Err(e),
            Ok(next) => Ok(redirect::followed(chain, status.code, next)),
        },
    }
}

/// The course of a request whose responses are read whole.
pub open spec fn buffered_course(
    chain: ChainView,
    jar: Seq<CookieView>,
    terms: Terms,
    replies: Seq<Reply>,
) -> Course
    decreases replies.len(),
{
    if replies.len() == 0 {
        Course { sent: seq![], jar, ending: Ending::Unanswered }
    } else {
        let reply = replies[0];
        let ready = exchange::jar_on_sending(jar, chain.url, terms.cookies, reply.sent_at);
        match outgoing(chain, jar, terms, reply.sent_at) {
            Err(e) => Course { sent: seq![], jar: ready, ending: Ending::Failed(e) },
            Ok(headers) => {
                let request = SentRequest {
                    method: chain.method,
                    url: chain.url,
                    headers,
                    body: chain.body,
                };
                match http1::response_of(chain.method, reply.bytes) {
                    Err(e) => ends(request, ready, Ending::Failed(e)),
                    Ok(response) => {
                        let stored = jar_on_receiving(
                            ready,
                            chain,
                            terms,
                            response.headers,
                            reply.arrived_at,
                        );
                        match redirect::decision(chain, response.status.code) {
                            Decision::Finish => ends(
                                request,
                                stored,
                                Ending::Response {
                                    status: response.status,
                                    headers: response.headers,
                                    url: chain.url,
                                    body: BodyOutcome { data: response.body, fault: None },
                                },
                            ),
                            Decision::TooMany(max) => ends(
                                request,
                                stored,
                                Ending::Failed(ErrorView::TooManyRedirects(max)),
                            ),
                            Decision::Follow => match next_hop(
                                chain,
                                terms,
                                response.status,
                                response.headers,
                            ) {
                                Err(e) => ends(request, stored, Ending::Failed(e)),
                                Ok(next) => onward(
                                    request,
                                    buffered_course(next, stored, terms, replies.skip(1)),
                                ),
                            },
                        }
                    },
                }
            },
        }
    }
}

/// The course of a request whose last response is handed out with its body
/// unread; the bodies of redirects are read and dropped.
pub open spec fn streamed_course(
    chain: ChainView,
    jar: Seq<CookieView>,
    terms: Terms,
    replies: Seq<Reply>,
) -> Course
    decreases replies.len(),
{
    if replies.len() == 0 {
        Course { sent: seq![], jar, ending: Ending::Unanswered }
    } else {
        let reply = replies[0];
        let ready = exchange::jar_on_sending(jar, chain.url, terms.cookies, reply.sent_at);
        match outgoing(chain, jar, terms, reply.sent_at) {
            Err(e) => Course { sent: seq![], jar: ready, ending: Ending::Failed(e) },
            Ok(headers) => {
                let request = SentRequest {
                    method: chain.method,
                    url: chain.url,
                    headers,
                    body: chain.body,
                };
                match streamed_reply(chain.method, reply.bytes) {
                    Err(e) => ends(request, ready, Ending::Failed(e)),
                    Ok((status, headers, body)) => {
                        let stored = jar_on_receiving(
                            ready,
                            chain,
                            terms,
                            headers,
                            reply.arrived_at,
                        );
                        match redirect::decision(chain, status.code) {
                            Decision::Finish => ends(
                                request,
                                stored,
                                Ending::Response { status, headers, url: chain.url, body },
                            ),
                            Decision::TooMany(max) => ends(
                                request,
                                stored,
                                Ending::Failed(ErrorView::TooManyRedirects(max)),
                            ),
                            Decision::Follow => if let Some(e) = body.fault {
                                ends(request, stored, Ending::Failed(e))
                            } else {
                                match next_hop(chain, terms, status, headers) {
                                    Err(e) => ends(request, stored, Ending::Failed(e)),
                                    Ok(next) => onward(
                                        request,
                                        streamed_course(next, stored, terms, replies.skip(1)),
                                    ),
                                }
                            },
                        }
                    },
                }
            },
        }
    }
}

/// The head of a reply, and what its body comes to when it is read piece by
/// piece.
pub open spec fn streamed_reply(method: Method, t: Seq<u8>) -> std::result::Result<
    (StatusCode, Seq<(Seq<char>, Seq<char>)>, BodyOutcome),
    ErrorView,
> {
    match http1::head_of(t) {
        Err(e) => Err(e),
        Ok(head) => match http1::framing_of(head.headers, method, head.status) {
            Err(e) => Err(e),
            Ok(framing) => Ok(
                (
                    head.status,
                    head.headers,
                    http1::body_rest(framing, ChunkedState::Size, false, head.rest),
                ),
            ),
        },
    }
}

/// Whether no reply along the chain breaks off or goes wrong in its body.
pub open spec fn bodies_complete(chain: ChainView, terms: Terms, replies: Seq<Reply>) -> bool
    decreases replies.len(),
{
    replies.len() > 0 ==> match streamed_reply(chain.method, replies[0].bytes) {
        Err(_) => true,
        Ok((status, headers, body)) => {
            &&& body.fault is None
            &&& redirect::decision(chain, status.code) is Follow ==> match next_hop(
                chain,
                terms,
                status,
                headers,
            ) {
                Err(_) => true,
                Ok(next) => bodies_complete(next, terms, replies.skip(1)),
            }
        },
    }
}

proof fn lemma_replies_read_alike(method: Method, t: Seq<u8>)
    requires
        streamed_reply(method, t) matches Ok((_, _, body)) ==> body.fault is None,
    ensures
        match streamed_reply(method, t) {
            Err(e) => http1::response_of(method, t) == Err::<http1::ResponseView, ErrorView>(e),
            Ok((status, headers, body)) => http1::response_of(method, t) matches Ok(response)
                && response.status == status && response.headers == headers && body == (BodyOutcome {
                data: response.body,
                fault: None,
            }),
        },
{
    if let Ok(head) = http1::head_of(t) {
        if let Ok(framing) = http1::framing_of(head.headers, method, head.status) {
            http1::law_ways_of_reading_agree(framing, ChunkedState::Size, head.rest);
        }
    }
}

/// Redirects are followed for a streamed response exactly as for one that is
/// read whole: over the same replies both ways send the same requests, store
/// the same cookies, and end in the same response, body included, or in the
/// same error.
pub proof fn law_streaming_takes_the_same_course(
    chain: ChainView,
    jar: Seq<CookieView>,
    terms: Terms,
    replies: Seq<Reply>,
)
    requires
        bodies_complete(chain, terms, replies),
    ensures
        streamed_course(chain, jar, terms, replies) == buffered_course(chain, jar, terms, replies),
    decreases replies.len(),
{
    if replies.len() > 0 {
        let reply = replies[0];
        lemma_replies_read_alike(chain.method, reply.bytes);
        if let Ok((status, headers, _)) = streamed_reply(chain.method, reply.bytes) {
            if redirect::decision(chain, status.code) is Follow {
                if let Ok(next) = next_hop(chain, terms, status, headers) {
                    let ready = exchange::jar_on_sending(
                        jar,
                        chain.url,
                        terms.cookies,
                        reply.sent_at,
                    );
                    let stored = jar_on_receiving(ready, chain, terms, headers, reply.arrived_at);
                    law_streaming_takes_the_same_course(next, stored, terms, replies.skip(1));
                }
            }
        }
    }
}

/// Whether a reply is a response with these headers and this body, of which
/// `Content-Length` tells the length.
pub open spec fn is_counted_response(
    reply: Reply,
    code: u16,
    reason: Seq<char>,
    headers: Seq<(Seq<char>, Seq<char>)>,
    body: Seq<u8>,
    after: Seq<u8>,
) -> bool {
    &&& response_laws::head_fits(seq!['1'], code, reason, headers)
    &&& header::lookup(headers, "Transfer-Encoding"@) is None
    &&& header::lookup(headers, "Content-Length"@) == Some(text::decimal(body.len()))
    &&& body.len() <= usize::MAX
    &&& reply.bytes == response_laws::head_bytes(seq!['1'], code, reason, headers) + (body + after)
}

/// A redirect is followed to where its `Location` leads. After a 301, a 302 or a
/// 303 the next request is a `GET` without a body, unless a `GET` was answered;
/// after a 307 or a 308 it is the same request again.
pub proof fn law_course_follows_a_redirect(
    chain: ChainView,
    jar: Seq<CookieView>,
    terms: Terms,
    replies: Seq<Reply>,
    code: u16,
    reason: Seq<char>,
    headers: Seq<(Seq<char>, Seq<char>)>,
    body: Seq<u8>,
    after: Seq<u8>,
    location: Seq<char>,
    next: UrlView,
)
    requires
        chain.policy matches RedirectPolicy::Follow(max) && chain.hop < max,
        code == 301 || code == 302 || code == 303 || code == 307 || code == 308,
        chain.method != Method::Head,
        replies.len() > 0,
        is_counted_response(replies[0], code, reason, headers, body, after),
        header::lookup(headers, "Location"@) == Some(location),
        (terms.resolve)(chain.url, location) == Ok::<UrlView, ErrorView>(next),
        outgoing(chain, jar, terms, replies[0].sent_at) is Ok,
    ensures
        ({
            let sent = buffered_course(chain, jar, terms, replies).sent;
            &&& sent.len() > 0
            &&& sent[0].method == chain.method && sent[0].url == chain.url && sent[0].body
                == chain.body
            &&& sent.len() > 1 ==> {
                &&& sent[1].url == next
                &&& code == 301 || code == 302 || code == 303 ==> sent[1].method == Method::Get
                &&& (code == 301 || code == 302 || code == 303) && chain.method != Method::Get
                    ==> sent[1].body == BodyView::Empty
                &&& (code == 301 || code == 302) && chain.method == Method::Get ==> sent[1].body
                    == chain.body
                &&& code == 307 || code == 308 ==> sent[1].method == chain.method && sent[1].body
                    == chain.body
            }
        }),
{
    let reply = replies[0];
    response_laws::law_counted_response_is_read(
        chain.method,
        seq!['1'],
        code,
        reason,
        headers,
        body,
        after,
    );
    reveal_strlit("Location");
    reveal_strlit("location");
    assert(text::lowered("Location"@) =~= text::lowered("location"@));
    header::law_lookup_ignores_case(headers, "Location"@, "location"@);
    let ready = exchange::jar_on_sending(jar, chain.url, terms.cookies, reply.sent_at);
    let stored = jar_on_receiving(ready, chain, terms, headers, reply.arrived_at);
    let followed = redirect::followed(chain, code, next);
    let later = buffered_course(followed, stored, terms, replies.skip(1));
    let course = buffered_course(chain, jar, terms, replies);
    assert(course.sent.len() == 1 + later.sent.len());
    if later.sent.len() > 0 {
        assert(course.sent[1] == later.sent[0]);
        lemma_first_request(followed, stored, terms, replies.skip(1));
    }
}

/// The first request of a course is that of its chain.
proof fn lemma_first_request(
    chain: ChainView,
    jar: Seq<CookieView>,
    terms: Terms,
    replies: Seq<Reply>,
)
    ensures
        ({
            let sent = buffered_course(chain, jar, terms, replies).sent;
            sent.len() > 0 ==> sent[0].method == chain.method && sent[0].url == chain.url
                && sent[0].body == chain.body
        }),
{
}

/// Any other response is what the course ends with, its body included.
pub proof fn law_course_ends_with_the_response(
    chain: ChainView,
    jar: Seq<CookieView>,
    terms: Terms,
    replies: Seq<Reply>,
    code: u16,
    reason: Seq<char>,
    headers: Seq<(Seq<char>, Seq<char>)>,
    body: Seq<u8>,
    after: Seq<u8>,
)
    requires
        code != 301 && code != 302 && code != 303 && code != 307 && code != 308,
        !(100 <= code <= 199) && code != 204 && code != 304,
        chain.method != Method::Head,
        replies.len() > 0,
        is_counted_response(replies[0], code, reason, headers, body, after),
        outgoing(chain, jar, terms, replies[0].sent_at) is Ok,
    ensures
        ({
            let course = buffered_course(chain, jar, terms, replies);
            &&& course.sent.len() == 1
            &&& course.ending == (Ending::Response {
                status: StatusCode { code },
                headers,
                url: chain.url,
                body: BodyOutcome { data: body, fault: None },
            })
        }),
{
    response_laws::law_counted_response_is_read(
        chain.method,
        seq!['1'],
        code,
        reason,
        headers,
        body,
        after,
    );
}

} // verus!
