//! Responses whose body has not been read yet.

use crate::header::HeaderMap;
use crate::http1;
use crate::http1::BodyOutcome;
use crate::http1::BodyStep;
use crate::http1::StreamingBody;
use crate::status::StatusCode;
use crate::url::Url;
use vstd::prelude::*;

verus! {

/// A response whose body is pulled piece by piece.
pub struct StreamingResponse {
    pub status: StatusCode,
    pub headers: HeaderMap,
    pub url: Url,
    pub body: StreamingBody,
}

impl StreamingResponse {
    pub fn new(status: StatusCode, headers: HeaderMap, url: Url, body: StreamingBody) -> (response:
        Self)
        ensures
            response == (StreamingResponse { status, headers, url, body }),
    {
        StreamingResponse { status, headers, url, body }
    }

    pub fn status(&self) -> (status: StatusCode)
        ensures
            status == self.status,
    {
        self.status
    }

    pub fn headers(&self) -> (headers: &HeaderMap)
        ensures
            *headers == self.headers,
    {
        &self.headers
    }

    pub fn url(&self) -> (url: &Url)
        ensures
            *url == self.url,
    {
        &self.url
    }

    /// The next piece of the body. Where the pieces are cut is not to be
    /// relied on; what they come to together is the body. After its end,
    /// there is only the end.
    pub fn chunk(&mut self, closed: bool) -> (step: BodyStep)
        ensures
            final(self).status == old(self).status,
            final(self).headers == old(self).headers,
            final(self).url == old(self).url,
            step is Done <==> final(self).body.finished(),
            old(self).body.finished() ==> step is Done,
            match step {
                BodyStep::NeedData => !closed && final(self).body.starved() && forall|
                    more: Seq<u8>,
                | #[trigger]
                    http1::can_follow(closed, more) ==> final(self).body.rest(more) == old(
                        self).body.rest(more),
                BodyStep::Chunk(chunk) => 0 < chunk@.len() <= http1::CHUNK_SIZE && forall|
                    more: Seq<u8>,
                | #[trigger]
                    http1::can_follow(closed, more) ==> old(self).body.rest(more) == (BodyOutcome {
                        data: chunk@ + final(self).body.rest(more).data,
                        fault: final(self).body.rest(more).fault,
                    }),
                BodyStep::Done => forall|more: Seq<u8>| #[trigger]
                    http1::can_follow(closed, more) ==> old(self).body.rest(more) == final(
                        self).body.rest(more) && old(self).body.rest(more) == (BodyOutcome {
                        data: seq![],
                        fault: None,
                    }),
                BodyStep::Failed(e) => forall|more: Seq<u8>| #[trigger]
                    http1::can_follow(closed, more) ==> old(self).body.rest(more) == (BodyOutcome {
                        data: seq![],
                        fault: Some(e@),
                    }),
            },
    {
        self.body.next_chunk(closed)
    }
}

} // verus!
