//! HTTP/1.1 wire framing: request heads and chunked request bodies on the
//! way out; status line, headers and body (`Content-Length`,
//! `Transfer-Encoding: chunked`, or close-delimited as a last resort) on the
//! way in.
//!
//! Nothing here touches a socket. The readers are handed the bytes as they
//! arrive and say when they need more; what they make of a response depends
//! on its bytes alone, never on how the bytes were cut into reads.

use crate::error::Error;
use crate::error::ErrorView;
use crate::error::Result;
use crate::header;
use crate::header::HeaderMap;
use crate::method::Method;
use crate::platform;
use crate::status::StatusCode;
use crate::text;
use vstd::prelude::*;

verus! {

/// A line that never ends can't grow the read buffer past this.
pub const MAX_LINE_LEN: usize = 8_388_608;

/// How many bytes the head of a response may have, its blank line included:
/// far more than any server that a caller chose to connect to will send.
pub const MAX_RESPONSE_HEAD_LEN: usize = 8_388_608;

/// The most that one chunk of a body holds when it is handed out, and the
/// most that is relayed of a request body at a time.
pub const CHUNK_SIZE: usize = 8192;

/// How a response body's end is determined (RFC 7230, section 3.3.3).
#[derive(Debug, Clone, Copy, PartialEq, Eq, Structural)]
pub enum Framing {
    /// There is no body, whatever the headers claim.
    NoBody,
    ContentLength(usize),
    Chunked,
    /// The body ends where the connection does.
    Close,
}

/// Which step of chunk framing comes next.
#[derive(Debug, Clone, Copy, PartialEq, Eq, Structural)]
pub enum ChunkedState {
    /// A chunk-size line.
    Size,
    /// That many bytes of the current chunk's data.
    Data(usize),
    /// The line end after a chunk's data.
    DataTerminator,
    /// Trailer lines after the last chunk, up to a blank one.
    Trailers,
}

/// The line that a connection's bytes start with.
pub enum Line {
    /// The line, without its end, and the bytes after it.
    Text(Seq<char>, Seq<u8>),
    /// There are no bytes.
    Closed,
    Fault(ErrorView),
}

/// A line without the carriage return at its end.
pub open spec fn chomped(raw: Seq<u8>) -> Seq<u8> {
    if raw.len() > 0 && raw.last() == 13 {
        raw.drop_last()
    } else {
        raw
    }
}

/// The line that `t` starts with, where `t` is everything that arrives
/// before the connection closes. It ends within `limit` bytes, or `too_long`
/// is what is wrong with it.
pub open spec fn line_within(t: Seq<u8>, limit: int, too_long: Seq<char>) -> Line {
    let p = text::position(t, 10u8);
    if p < t.len() && p < limit {
        let line = chomped(t.take(p));
        if vstd::utf8::valid_utf8(line) {
            Line::Text(vstd::utf8::decode_utf8(line), t.skip(p + 1))
        } else {
            Line::Fault(ErrorView::InvalidResponse("non-UTF-8 response line"@))
        }
    } else if t.len() >= limit {
        Line::Fault(ErrorView::InvalidResponse(too_long))
    } else if t.len() == 0 {
        Line::Closed
    } else {
        Line::Fault(ErrorView::InvalidResponse("connection closed mid-line"@))
    }
}

/// The line that `t` starts with, where `t` is everything that arrives
/// before the connection closes.
pub open spec fn first_line(t: Seq<u8>) -> Line {
    line_within(t, MAX_LINE_LEN as int, "response line exceeded the maximum allowed length"@)
}

/// Whether `more` can still arrive: nothing does once the connection has
/// closed.
pub open spec fn can_follow(closed: bool, more: Seq<u8>) -> bool {
    closed ==> more.len() == 0
}

/// Whether a line that has to end within `limit` bytes needs more than these.
pub open spec fn line_pending_within(unread: Seq<u8>, limit: int) -> bool {
    text::position(unread, 10u8) == unread.len() && unread.len() < limit
}

/// Whether a line needs more than these bytes.
pub open spec fn line_pending(unread: Seq<u8>) -> bool {
    line_pending_within(unread, MAX_LINE_LEN as int)
}

/// Bytes that have arrived and are not read yet. Never more than
/// [`MAX_LINE_LEN`] of them are held.
pub struct BufReader {
    buf: Vec<u8>,
    start: usize,
    /// How many unread bytes may be held before the buffer grows.
    limit: usize,
}

/// The outcome of asking for a line.
pub enum LineStep {
    NeedData,
    Line(String),
    Closed,
    Failed(Error),
}

impl View for BufReader {
    type V = Seq<u8>;

    closed spec fn view(&self) -> Seq<u8> {
        self.buf@.skip(self.start as int)
    }
}

impl BufReader {
    #[verifier::type_invariant]
    pub closed spec fn well_formed(self) -> bool {
        &&& self.start <= self.buf@.len()
        &&& self.buf@.len() - self.start <= self.limit
        &&& 8192 <= self.limit <= MAX_LINE_LEN
    }

    /// How many more bytes may be handed over.
    pub closed spec fn space(self) -> int {
        self.limit - (self.buf@.len() - self.start)
    }

    pub fn new() -> (reader: Self)
        ensures
            reader@ == Seq::<u8>::empty(),
    {
        let reader = BufReader { buf: Vec::new(), start: 0, limit: 8192 };
        assert(reader@ =~= seq![]);
        reader
    }

    /// Makes room for more bytes and says how many there is room for: at
    /// least one, unless [`MAX_LINE_LEN`] bytes are unread.
    pub fn room(&mut self) -> (n: usize)
        ensures
            final(self)@ == old(self)@,
            n == final(self).space(),
            n > 0 <==> old(self)@.len() < MAX_LINE_LEN,
    {
        proof {
            use_type_invariant(&*self);
        }
        let ghost unread = self@;
        let len = self.buf.len() - self.start;
        let mut limit = self.limit;
        if len == limit {
            limit = if limit >= 4_194_304 {
                MAX_LINE_LEN
            } else {
                limit * 2
            };
        }
        let kept = vstd::slice::slice_to_vec(
            vstd::slice::slice_subrange(self.buf.as_slice(), self.start, self.buf.len()),
        );
        assert(kept@ == unread);
        *self = BufReader { buf: kept, start: 0, limit };
        assert(self@ =~= unread);
        limit - len
    }

    /// Takes over bytes that have arrived.
    pub fn accept(&mut self, data: &[u8])
        requires
            data@.len() <= old(self).space(),
        ensures
            final(self)@ == old(self)@ + data@,
    {
        proof {
            use_type_invariant(&*self);
        }
        let ghost unread = self@;
        let mut kept = vstd::slice::slice_to_vec(
            vstd::slice::slice_subrange(self.buf.as_slice(), self.start, self.buf.len()),
        );
        assert(kept@ == unread);
        text::append_bytes(&mut kept, data);
        *self = BufReader { buf: kept, start: 0, limit: self.limit };
        assert(self@ =~= unread + data@);
    }

    fn unread(&self) -> (unread: &[u8])
        ensures
            unread@ == self@,
            self@.len() <= MAX_LINE_LEN,
    {
        proof {
            use_type_invariant(self);
        }
        vstd::slice::slice_subrange(self.buf.as_slice(), self.start, self.buf.len())
    }

    fn skip(&mut self, n: usize)
        requires
            n <= old(self)@.len(),
        ensures
            final(self)@ == old(self)@.skip(n as int),
    {
        proof {
            use_type_invariant(&*self);
        }
        let ghost unread = self@;
        let total = self.buf.len();
        assert(self.start + n <= total);
        self.start = self.start + n;
        assert(self@ =~= unread.skip(n as int));
    }

    /// Up to `max` of the unread bytes.
    fn take(&mut self, max: usize) -> (data: Vec<u8>)
        ensures
            old(self)@ == data@ + final(self)@,
            data@.len() == if max < old(self)@.len() {
                max as nat
            } else {
                old(self)@.len()
            },
    {
        let ghost all = self@;
        let unread = self.unread();
        let n = if max < unread.len() {
            max
        } else {
            unread.len()
        };
        let data = vstd::slice::slice_to_vec(vstd::slice::slice_subrange(unread, 0, n));
        self.skip(n);
        assert(all =~= data@ + self@);
        data
    }

    /// Reads one line, without its line end, if it has arrived. `closed` says
    /// that no more bytes will arrive.
    pub fn read_line(&mut self, closed: bool) -> (step: LineStep)
        ensures
            match step {
                LineStep::NeedData => !closed && line_pending(old(self)@) && final(self)@ == old(self)@,
                LineStep::Line(s) => forall|more: Seq<u8>| #[trigger]
                    can_follow(closed, more) ==> first_line(old(self)@ + more) == Line::Text(
                        s@,
                        final(self)@ + more,
                    ),
                LineStep::Closed => closed && first_line(old(self)@) == Line::Closed && final(self)@ == old(self)@,
                LineStep::Failed(e) => final(self)@ == old(self)@ && forall|more: Seq<u8>|
                    #[trigger]
                    can_follow(closed, more) ==> first_line(old(self)@ + more) == Line::Fault(e@),
            },
    {
        self.read_line_within(
            MAX_LINE_LEN,
            "response line exceeded the maximum allowed length",
            closed,
        )
    }

    /// Reads one line that has to end within `limit` bytes.
    fn read_line_within(&mut self, limit: usize, too_long: &str, closed: bool) -> (step: LineStep)
        requires
            limit <= MAX_LINE_LEN,
        ensures
            match step {
                LineStep::NeedData => {
                    &&& !closed
                    &&& line_pending_within(old(self)@, limit as int)
                    &&& final(self)@ == old(self)@
                },
                LineStep::Line(s) => {
                    &&& forall|more: Seq<u8>| #[trigger]
                        can_follow(closed, more) ==> line_within(
                            old(self)@ + more,
                            limit as int,
                            too_long@,
                        ) == Line::Text(s@, final(self)@ + more)
                    &&& 0 < old(self)@.len() - final(self)@.len() <= limit
                    &&& text::position(old(self)@, 10u8) == old(self)@.len() - final(self)@.len() - 1
                },
                LineStep::Closed => {
                    &&& closed
                    &&& line_within(old(self)@, limit as int, too_long@) == Line::Closed
                    &&& final(self)@ == old(self)@
                },
                LineStep::Failed(e) => {
                    &&& final(self)@ == old(self)@
                    &&& forall|more: Seq<u8>| #[trigger]
                        can_follow(closed, more) ==> line_within(
                            old(self)@ + more,
                            limit as int,
                            too_long@,
                        ) == Line::Fault(e@)
                },
            },
    {
        let ghost all = self@;
        let unread = self.unread();
        let p = find_byte(unread, 10);
        if p < unread.len() && p < limit {
            let mut end = p;
            if p > 0 && unread[p - 1] == 13 {
                end = p - 1;
            }
            let raw = vstd::slice::slice_subrange(unread, 0, end);
            assert(raw@ == chomped(all.take(p as int)));
            let outcome = platform::text_from_utf8(vstd::slice::slice_to_vec(raw));
            proof {
                assert forall|more: Seq<u8>| #[trigger] can_follow(closed, more) implies ({
                    let t = all + more;
                    &&& text::position(t, 10u8) == p
                    &&& t.take(p as int) == all.take(p as int)
                    &&& t.skip(p + 1) == all.skip(p + 1) + more
                }) by {
                    let t = all + more;
                    text::lemma_position(all, 10u8);
                    assert forall|i: int| 0 <= i < p implies t[i] != 10u8 by {
                        assert(t[i] == all[i]);
                    }
                    text::lemma_position_unique(t, 10u8, p as int);
                    assert(t.take(p as int) =~= all.take(p as int));
                    assert(t.skip(p + 1) =~= all.skip(p + 1) + more);
                }
            }
            match outcome {
                Ok(s) => {
                    self.skip(p + 1);
                    LineStep::Line(s)
                },
                Err(_) => LineStep::Failed(
                    Error::InvalidResponse(text::owned("non-UTF-8 response line")),
                ),
            }
        } else if unread.len() >= limit {
            proof {
                assert forall|more: Seq<u8>| #[trigger] can_follow(closed, more) implies (
                text::position(all + more, 10u8) >= limit) by {
                    let t = all + more;
                    text::lemma_position(all, 10u8);
                    text::lemma_position(t, 10u8);
                    let q = text::position(t, 10u8);
                    if q < all.len() {
                        assert(t[q] == all[q]);
                    }
                }
            }
            LineStep::Failed(Error::InvalidResponse(text::owned(too_long)))
        } else if !closed {
            LineStep::NeedData
        } else {
            assert forall|more: Seq<u8>| #[trigger] can_follow(closed, more) implies all + more
                == all by {
                assert(all + more =~= all);
            }
            if unread.len() > 0 {
                LineStep::Failed(
                    Error::InvalidResponse(text::owned("connection closed mid-line")),
                )
            } else {
                LineStep::Closed
            }
        }
    }
}

fn find_byte(bytes: &[u8], b: u8) -> (p: usize)
    ensures
        p == text::position(bytes@, b),
        p <= bytes@.len() <= usize::MAX,
{
    let mut i: usize = 0;
    while i < bytes.len() && bytes[i] != b
        invariant
            i <= bytes@.len(),
            forall|j: int| 0 <= j < i ==> bytes@[j] != b,
        decreases bytes@.len() - i,
    {
        i = i + 1;
    }
    proof {
        text::lemma_position_unique(bytes@, b, i as int);
    }
    i
}

/// What a body comes to: the bytes of it that arrive, and the fault that
/// ends it, if it does not end as it should.
#[verifier::ext_equal]
pub struct BodyOutcome {
    pub data: Seq<u8>,
    pub fault: Option<ErrorView>,
}

pub open spec fn outcome_fault(message: Seq<char>) -> BodyOutcome {
    BodyOutcome { data: seq![], fault: Some(ErrorView::InvalidResponse(message)) }
}

/// The text of the size in a chunk-size line: what stands before the first
/// `;`, without the white space around it.
pub open spec fn size_text(line: Seq<char>) -> Seq<char> {
    text::trimmed(line.take(text::position(line, ';')))
}

/// The message for a chunk that is cut off: it differs between reading a
/// body in one go and reading it piece by piece.
pub open spec fn cut_chunk_message(in_one_go: bool) -> Seq<char> {
    if in_one_go {
        "connection closed before the full body arrived"@
    } else {
        "connection closed reading chunk data"@
    }
}

/// What the rest of a chunked body comes to, where `t` is everything that
/// still arrives.
pub open spec fn chunked_rest(state: ChunkedState, in_one_go: bool, t: Seq<u8>) -> BodyOutcome
    decreases
            t.len(),
            if state is Data {
                1int
            } else {
                0int
            },
    via chunked_rest_decreases
{
    match state {
        ChunkedState::Size => match first_line(t) {
            Line::Fault(e) => BodyOutcome { data: seq![], fault: Some(e) },
            Line::Closed => outcome_fault("connection closed reading chunk size"@),
            Line::Text(line, rest) => match text::bounded_value(
                size_text(line),
                16,
                usize::MAX as nat,
            ) {
                None => outcome_fault("invalid chunk size `"@ + size_text(line) + "`"@),
                Some(size) => if size == 0 {
                    chunked_rest(ChunkedState::Trailers, in_one_go, rest)
                } else {
                    chunked_rest(ChunkedState::Data(size as usize), in_one_go, rest)
                },
            },
        },
        ChunkedState::Data(size) => if t.len() < size {
            BodyOutcome {
                data: t,
                fault: Some(ErrorView::InvalidResponse(cut_chunk_message(in_one_go))),
            }
        } else {
            let after = chunked_rest(
                ChunkedState::DataTerminator,
                in_one_go,
                t.skip(size as int),
            );
            BodyOutcome { data: t.take(size as int) + after.data, fault: after.fault }
        },
        ChunkedState::DataTerminator => match first_line(t) {
            Line::Fault(e) => BodyOutcome { data: seq![], fault: Some(e) },
            Line::Closed => outcome_fault("connection closed after chunk data"@),
            Line::Text(line, rest) => if line.len() > 0 {
                outcome_fault("malformed chunk terminator"@)
            } else {
                chunked_rest(ChunkedState::Size, in_one_go, rest)
            },
        },
        ChunkedState::Trailers => match first_line(t) {
            Line::Fault(e) => BodyOutcome { data: seq![], fault: Some(e) },
            Line::Closed => outcome_fault("connection closed reading chunk trailer"@),
            Line::Text(line, rest) => if line.len() > 0 {
                chunked_rest(ChunkedState::Trailers, in_one_go, rest)
            } else {
                BodyOutcome { data: seq![], fault: None }
            },
        },
    }
}

#[via_fn]
proof fn chunked_rest_decreases(state: ChunkedState, in_one_go: bool, t: Seq<u8>) {
    lemma_line_shrinks(t);
}

/// A line takes at least its line end.
pub proof fn lemma_line_shrinks(t: Seq<u8>)
    ensures
        first_line(t) matches Line::Text(_, rest) ==> rest.len() < t.len(),
{
    text::lemma_position(t, 10u8);
}

/// A line takes at least its line end, and no more than it may.
pub proof fn lemma_line_within_shrinks(t: Seq<u8>, limit: int, too_long: Seq<char>)
    ensures
        line_within(t, limit, too_long) matches Line::Text(_, rest) ==> 0 < t.len() - rest.len()
            <= limit,
{
    text::lemma_position(t, 10u8);
}

/// What the rest of a body comes to, where `t` is everything that still
/// arrives.
pub open spec fn body_rest(
    framing: Framing,
    state: ChunkedState,
    in_one_go: bool,
    t: Seq<u8>,
) -> BodyOutcome {
    match framing {
        Framing::NoBody => BodyOutcome { data: seq![], fault: None },
        Framing::Close => BodyOutcome { data: t, fault: None },
        Framing::ContentLength(n) => if t.len() < n {
            BodyOutcome {
                data: t,
                fault: Some(
                    ErrorView::InvalidResponse("connection closed before the full body arrived"@),
                ),
            }
        } else {
            BodyOutcome { data: t.take(n as int), fault: None }
        },
        Framing::Chunked => chunked_rest(state, in_one_go, t),
    }
}

/// A response body that is read piece by piece, from the point at which the
/// headers ended.
pub struct StreamingBody {
    reader: BufReader,
    framing: Framing,
    state: ChunkedState,
    in_one_go: bool,
    done: bool,
}

/// The outcome of asking for a piece of a body.
pub enum BodyStep {
    NeedData,
    Chunk(Vec<u8>),
    Done,
    Failed(Error),
}

impl StreamingBody {
    /// What the rest of the body comes to if `more` still arrives.
    pub closed spec fn rest(self, more: Seq<u8>) -> BodyOutcome {
        if self.done {
            BodyOutcome { data: seq![], fault: None }
        } else {
            body_rest(self.framing, self.state, self.in_one_go, self.reader@ + more)
        }
    }

    /// Whether nothing can be made of the bytes that have arrived.
    pub closed spec fn starved(self) -> bool {
        &&& !self.done
        &&& match self.framing {
            Framing::NoBody => false,
            Framing::Close => self.reader@.len() == 0,
            Framing::ContentLength(n) => n > 0 && self.reader@.len() == 0,
            Framing::Chunked => if self.state is Data {
                self.reader@.len() == 0
            } else {
                line_pending(self.reader@)
            },
        }
    }

    /// Whether the end of the body has been handed out.
    pub closed spec fn finished(self) -> bool {
        self.done
    }

    /// How many more bytes may be handed over.
    pub closed spec fn space(self) -> int {
        self.reader.space()
    }

    /// A body with this framing, of which what is in `reader` has arrived.
    /// `in_one_go` says that it is read to its end before any of it is
    /// handed on.
    pub fn new(reader: BufReader, framing: Framing, in_one_go: bool) -> (body: Self)
        ensures
            forall|more: Seq<u8>|
                #![auto]
                body.rest(more) == body_rest(
                    framing,
                    ChunkedState::Size,
                    in_one_go,
                    reader@ + more,
                ),
    {
        let done = match framing {
            Framing::NoBody => true,
            _ => false,
        };
        StreamingBody { reader, framing, state: ChunkedState::Size, in_one_go, done }
    }

    /// Makes room for more bytes and says how many there is room for: at
    /// least one where the body is starved.
    pub fn room(&mut self) -> (n: usize)
        ensures
            final(self).finished() == old(self).finished(),
            forall|more: Seq<u8>| #[trigger] final(self).rest(more) == old(self).rest(more),
            final(self).starved() == old(self).starved(),
            n == final(self).space(),
            old(self).starved() ==> n > 0,
    {
        self.reader.room()
    }

    /// Takes over bytes that have arrived.
    pub fn accept(&mut self, data: &[u8])
        requires
            data@.len() <= old(self).space(),
        ensures
            final(self).finished() == old(self).finished(),
            forall|more: Seq<u8>| #[trigger]
                final(self).rest(more) == old(self).rest(data@ + more),
    {
        let ghost before = self.reader@;
        self.reader.accept(data);
        assert forall|more: Seq<u8>| #[trigger] self.rest(more) == old(self).rest(data@ + more) by {
            assert(before + data@ + more =~= before + (data@ + more));
        }
    }

    /// The next piece of the body. `closed` says that no more bytes will
    /// arrive. Where the pieces are cut is not to be relied on; what they
    /// come to together is the body. After its end, there is only the end.
    pub fn next_chunk(&mut self, closed: bool) -> (step: BodyStep)
        ensures
            step is Done <==> final(self).finished(),
            old(self).finished() ==> step is Done,
            match step {
                BodyStep::NeedData => !closed && final(self).starved() && forall|more: Seq<u8>|
                    #[trigger]
                    can_follow(closed, more) ==> final(self).rest(more) == old(self).rest(more),
                BodyStep::Chunk(chunk) => 0 < chunk@.len() <= CHUNK_SIZE && forall|more: Seq<u8>|
                    #[trigger] can_follow(closed, more) ==> old(self).rest(more) == (BodyOutcome {
                        data: chunk@ + final(self).rest(more).data,
                        fault: final(self).rest(more).fault,
                    }),
                BodyStep::Done => forall|more: Seq<u8>| #[trigger]
                    can_follow(closed, more) ==> old(self).rest(more) == final(self).rest(more)
                        && old(self).rest(more) == (BodyOutcome { data: seq![], fault: None }),
                BodyStep::Failed(e) => forall|more: Seq<u8>| #[trigger]
                    can_follow(closed, more) ==> old(self).rest(more) == (BodyOutcome {
                        data: seq![],
                        fault: Some(e@),
                    }),
            },
    {
        if self.done {
            return BodyStep::Done;
        }
        loop
            invariant
                !old(self).done,
                !self.done,
                forall|more: Seq<u8>| #[trigger]
                    can_follow(closed, more) ==> self.rest(more) == old(self).rest(more),
            decreases self.reader@.len(), (if self.framing is Chunked { 1int } else { 0int }),
        {
            let ghost here = *self;
            proof {
                reveal_strlit("");
            }
            match self.framing {
                Framing::NoBody => {
                    self.done = true;
                    return BodyStep::Done;
                },
                Framing::Close => {
                    let data = self.reader.take(CHUNK_SIZE);
                    if data.len() > 0 {
                        assert forall|more: Seq<u8>| #[trigger]
                            can_follow(closed, more) implies here.rest(more).data == data@
                            + self.rest(more).data by {
                            assert(here.reader@ + more =~= data@ + (self.reader@ + more));
                        }
                        return BodyStep::Chunk(data);
                    }
                    assert(self.reader@ =~= here.reader@);
                    if !closed {
                        return BodyStep::NeedData;
                    }
                    assert forall|more: Seq<u8>| #[trigger]
                        can_follow(closed, more) implies here.reader@ + more
                        =~= Seq::<u8>::empty() by {}
                    self.done = true;
                    return BodyStep::Done;
                },
                Framing::ContentLength(left) => {
                    if left == 0 {
                        assert forall|more: Seq<u8>| #[trigger]
                            can_follow(closed, more) implies (here.reader@ + more).take(0)
                            =~= Seq::<u8>::empty() by {}
                        self.done = true;
                        return BodyStep::Done;
                    }
                    let most = if left < CHUNK_SIZE {
                        left
                    } else {
                        CHUNK_SIZE
                    };
                    let data = self.reader.take(most);
                    if data.len() > 0 {
                        self.framing = Framing::ContentLength(left - data.len());
                        assert forall|more: Seq<u8>| #[trigger]
                            can_follow(closed, more) implies here.rest(more) == (BodyOutcome {
                            data: data@ + self.rest(more).data,
                            fault: self.rest(more).fault,
                        }) by {
                            let t = here.reader@ + more;
                            let rest = self.reader@ + more;
                            assert(t =~= data@ + rest);
                            if t.len() >= left {
                                assert(t.take(left as int) =~= data@ + rest.take(
                                    left - data@.len(),
                                ));
                            }
                        }
                        return BodyStep::Chunk(data);
                    }
                    assert(self.reader@ =~= here.reader@);
                    if !closed {
                        return BodyStep::NeedData;
                    }
                    assert forall|more: Seq<u8>| #[trigger]
                        can_follow(closed, more) implies here.reader@ + more
                        =~= Seq::<u8>::empty() by {}
                    return BodyStep::Failed(
                        Error::InvalidResponse(
                            text::owned("connection closed before the full body arrived"),
                        ),
                    );
                },
                Framing::Chunked => {
                    if let ChunkedState::Data(left) = self.state {
                        if left > 0 {
                            return self.next_of_chunk(closed, left);
                        }
                        self.state = ChunkedState::DataTerminator;
                        assert forall|more: Seq<u8>| #[trigger]
                            can_follow(closed, more) implies self.rest(more) == old(self).rest(
                            more,
                        ) by {
                            let t = here.reader@ + more;
                            assert(t.skip(0) =~= t);
                            assert(here.rest(more) == old(self).rest(more));
                            assert(here.rest(more) =~= self.rest(more));
                        }
                    }
                    let ghost here = *self;
                    match self.reader.read_line(closed) {
                        LineStep::NeedData => {
                            return BodyStep::NeedData;
                        },
                        LineStep::Failed(e) => {
                            return BodyStep::Failed(e);
                        },
                        LineStep::Closed => {
                            assert forall|more: Seq<u8>| #[trigger]
                                can_follow(closed, more) implies here.reader@ + more
                                =~= here.reader@ by {}
                            let message = match self.state {
                                ChunkedState::Size => "connection closed reading chunk size",
                                ChunkedState::DataTerminator =>
                                    "connection closed after chunk data",
                                _ => "connection closed reading chunk trailer",
                            };
                            return BodyStep::Failed(Error::InvalidResponse(text::owned(message)));
                        },
                        LineStep::Line(line) => {
                            proof {
                                assert(can_follow(closed, seq![]));
                                lemma_line_shrinks(here.reader@ + seq![]);
                                assert(line@.len() == 0 ==> line@ =~= ""@);
                            }
                            match self.state {
                                ChunkedState::Size => match chunk_size(line.as_str()) {
                                    Ok(size) => {
                                        self.state = if size == 0 {
                                            ChunkedState::Trailers
                                        } else {
                                            ChunkedState::Data(size)
                                        };
                                    },
                                    Err(e) => {
                                        return BodyStep::Failed(e);
                                    },
                                },
                                ChunkedState::DataTerminator => {
                                    if !text::same_text(line.as_str(), "") {
                                        return BodyStep::Failed(
                                            Error::InvalidResponse(
                                                text::owned("malformed chunk terminator"),
                                            ),
                                        );
                                    }
                                    self.state = ChunkedState::Size;
                                },
                                _ => {
                                    if text::same_text(line.as_str(), "") {
                                        self.framing = Framing::NoBody;
                                    }
                                },
                            }
                            proof {
                                assert forall|more: Seq<u8>| #[trigger]
                                    can_follow(closed, more) implies self.rest(more) == old(self).rest(more) by {
                                    assert(here.rest(more) == old(self).rest(more));
                                }
                            }
                        },
                    }
                },
            }
        }
    }

    /// The next piece of a chunk of which `left` bytes are still to come.
    fn next_of_chunk(&mut self, closed: bool, left: usize) -> (step: BodyStep)
        requires
            !old(self).done,
            old(self).framing is Chunked,
            old(self).state == ChunkedState::Data(left),
            left > 0,
        ensures
            !final(self).done,
            match step {
                BodyStep::NeedData => !closed && final(self).starved() && forall|more: Seq<u8>|
                    #[trigger]
                    can_follow(closed, more) ==> final(self).rest(more) == old(self).rest(more),
                BodyStep::Chunk(chunk) => 0 < chunk@.len() <= CHUNK_SIZE && forall|more: Seq<u8>|
                    #[trigger]
                    can_follow(closed, more) ==> old(self).rest(more) == (BodyOutcome {
                        data: chunk@ + final(self).rest(more).data,
                        fault: final(self).rest(more).fault,
                    }),
                BodyStep::Done => false,
                BodyStep::Failed(e) => forall|more: Seq<u8>| #[trigger]
                    can_follow(closed, more) ==> old(self).rest(more) == (BodyOutcome {
                        data: seq![],
                        fault: Some(e@),
                    }),
            },
    {
        let ghost here = *self;
        let most = if left < CHUNK_SIZE {
            left
        } else {
            CHUNK_SIZE
        };
        let data = self.reader.take(most);
        if data.len() > 0 {
            self.state = ChunkedState::Data(left - data.len());
            assert forall|more: Seq<u8>| #[trigger] can_follow(closed, more) implies here.rest(more)
                == (BodyOutcome {
                data: data@ + self.rest(more).data,
                fault: self.rest(more).fault,
            }) by {
                let t = here.reader@ + more;
                let rest = self.reader@ + more;
                assert(t =~= data@ + rest);
                if t.len() >= left {
                    assert(t.take(left as int) =~= data@ + rest.take(left - data@.len()));
                    assert(t.skip(left as int) =~= rest.skip(left - data@.len()));
                }
                assert(here.rest(more) =~= (BodyOutcome {
                    data: data@ + self.rest(more).data,
                    fault: self.rest(more).fault,
                }));
            }
            return BodyStep::Chunk(data);
        }
        assert(self.reader@ =~= here.reader@);
        if !closed {
            return BodyStep::NeedData;
        }
        assert forall|more: Seq<u8>| #[trigger] can_follow(closed, more) implies here.reader@ + more
            =~= Seq::<u8>::empty() by {}
        let message = if self.in_one_go {
            "connection closed before the full body arrived"
        } else {
            "connection closed reading chunk data"
        };
        BodyStep::Failed(Error::InvalidResponse(text::owned(message)))
    }
}

/// The size in a chunk-size line.
fn chunk_size(line: &str) -> (size: Result<usize>)
    ensures
        match size {
            Ok(n) => text::bounded_value(size_text(line@), 16, usize::MAX as nat) == Some(n as nat),
            Err(e) => text::bounded_value(size_text(line@), 16, usize::MAX as nat) is None && e@
                == ErrorView::InvalidResponse("invalid chunk size `"@ + size_text(line@) + "`"@),
        },
{
    let chars = text::chars_of(line);
    let head = text::part(chars.as_slice(), 0, text::find(chars.as_slice(), ';'));
    assert(head@ == line@.take(text::position(line@, ';')));
    let size = text::trim(head);
    match text::read_unsigned(size, 16, usize::MAX as u64) {
        Some(n) => Ok(n as usize),
        None => {
            let mut m = text::owned("invalid chunk size `");
            m.push_str(text::text_of(size).as_str());
            m.push_str("`");
            Err(Error::InvalidResponse(m))
        },
    }
}

/// A response body that is collected whole.
pub struct BodyDrain {
    body: StreamingBody,
    out: Vec<u8>,
}

/// The outcome of collecting a body.
pub enum DrainStep {
    NeedData,
    Complete(Vec<u8>),
    Failed(Error),
}

impl BodyDrain {
    /// What the whole body comes to if `more` still arrives.
    pub closed spec fn result(self, more: Seq<u8>) -> std::result::Result<Seq<u8>, ErrorView> {
        let rest = self.body.rest(more);
        match rest.fault {
            Some(e) => Err(e),
            None => Ok(self.out@ + rest.data),
        }
    }

    /// Whether nothing can be made of the bytes that have arrived.
    pub closed spec fn starved(self) -> bool {
        self.body.starved()
    }

    pub closed spec fn space(self) -> int {
        self.body.space()
    }

    /// Makes room for more bytes and says how many there is room for.
    pub fn room(&mut self) -> (n: usize)
        ensures
            forall|more: Seq<u8>| #[trigger] final(self).result(more) == old(self).result(more),
            n == final(self).space(),
            old(self).starved() ==> n > 0,
    {
        let n = self.body.room();
        assert forall|more: Seq<u8>| #[trigger] self.result(more) == old(self).result(more) by {
            assert(self.body.rest(more) == old(self).body.rest(more));
        }
        n
    }

    /// Takes over bytes that have arrived.
    pub fn accept(&mut self, data: &[u8])
        requires
            data@.len() <= old(self).space(),
        ensures
            forall|more: Seq<u8>| #[trigger]
                final(self).result(more) == old(self).result(data@ + more),
    {
        self.body.accept(data);
        assert forall|more: Seq<u8>| #[trigger] self.result(more) == old(self).result(
            data@ + more,
        ) by {
            assert(self.body.rest(more) == old(self).body.rest(data@ + more));
        }
    }

    /// Reads on until the body is complete or more bytes are needed.
    pub fn step(&mut self, closed: bool) -> (step: DrainStep)
        ensures
            match step {
                DrainStep::NeedData => !closed && final(self).starved() && forall|more: Seq<u8>|
                    #[trigger]
                    can_follow(closed, more) ==> final(self).result(more) == old(self).result(more),
                DrainStep::Complete(bytes) => forall|more: Seq<u8>| #[trigger]
                    can_follow(closed, more) ==> old(self).result(more) == Ok::<
                        Seq<u8>,
                        ErrorView,
                    >(bytes@),
                DrainStep::Failed(e) => forall|more: Seq<u8>| #[trigger]
                    can_follow(closed, more) ==> old(self).result(more) == Err::<
                        Seq<u8>,
                        ErrorView,
                    >(e@),
            },
    {
        loop
            invariant
                forall|more: Seq<u8>| #[trigger]
                    can_follow(closed, more) ==> self.result(more) == old(self).result(more),
            decreases self.body.rest(seq![]).data.len(),
        {
            let ghost here = *self;
            assert(can_follow(closed, seq![]));
            match self.body.next_chunk(closed) {
                BodyStep::NeedData => {
                    return DrainStep::NeedData;
                },
                BodyStep::Chunk(chunk) => {
                    text::append_bytes(&mut self.out, chunk.as_slice());
                    assert forall|more: Seq<u8>| #[trigger]
                        can_follow(closed, more) implies self.result(more) == old(self).result(
                        more,
                    ) by {
                        assert(here.out@ + (chunk@ + self.body.rest(more).data) =~= self.out@
                            + self.body.rest(more).data);
                        assert(here.result(more) == old(self).result(more));
                    }
                },
                BodyStep::Done => {
                    let mut out: Vec<u8> = Vec::new();
                    std::mem::swap(&mut out, &mut self.out);
                    assert forall|more: Seq<u8>| #[trigger]
                        can_follow(closed, more) implies old(self).result(more) == Ok::<
                        Seq<u8>,
                        ErrorView,
                    >(out@) by {
                        assert(out@ + seq![] =~= out@);
                        assert(here.result(more) == old(self).result(more));
                    }
                    return DrainStep::Complete(out);
                },
                BodyStep::Failed(e) => {
                    return DrainStep::Failed(e);
                },
            }
        }
    }
}

/// Collects a body with this framing, of which what is in `reader` has
/// arrived.
pub fn drain_body(reader: BufReader, framing: Framing) -> (drain: BodyDrain)
    ensures
        forall|more: Seq<u8>|
            #![auto]
            drain.result(more) == collected(framing, reader@ + more),
{
    let ghost arrived = reader@;
    let drain = BodyDrain { body: StreamingBody::new(reader, framing, true), out: Vec::new() };
    assert forall|more: Seq<u8>|
        #![auto]
        drain.result(more) == collected(framing, arrived + more) by {
        let rest = body_rest(framing, ChunkedState::Size, true, arrived + more);
        assert(drain.body.rest(more) == rest);
        assert(Seq::<u8>::empty() + rest.data =~= rest.data);
    }
    drain
}

/// What a body with this framing comes to when it is collected whole.
pub open spec fn collected(framing: Framing, t: Seq<u8>) -> std::result::Result<
    Seq<u8>,
    ErrorView,
> {
    let rest = body_rest(framing, ChunkedState::Size, true, t);
    match rest.fault {
        Some(e) => Err(e),
        None => Ok(rest.data),
    }
}

/// The status and the reason that a status line gives, or why it gives none.
pub open spec fn status_line(line: Seq<char>) -> std::result::Result<
    (StatusCode, Seq<char>),
    ErrorView,
> {
    let first = text::position(line, ' ');
    let version = line.take(first);
    let rest = line.skip(first + 1);
    let second = text::position(rest, ' ');
    let code = rest.take(second);
    if !text::starts_with(version, "HTTP/1."@) {
        Err(ErrorView::InvalidResponse("unsupported HTTP version `"@ + version + "`"@))
    } else if first == line.len() {
        Err(ErrorView::InvalidResponse("missing status code"@))
    } else {
        match text::bounded_value(code, 10, 65535) {
            None => Err(ErrorView::InvalidResponse("invalid status code `"@ + code + "`"@)),
            Some(n) => Ok(
                (
                    StatusCode { code: n as u16 },
                    if second < rest.len() {
                        rest.skip(second + 1)
                    } else {
                        seq![]
                    },
                ),
            ),
        }
    }
}

/// The name and the value that a header line gives, or why it gives none.
pub open spec fn header_line(line: Seq<char>) -> std::result::Result<
    (Seq<char>, Seq<char>),
    ErrorView,
> {
    let colon = text::position(line, ':');
    if colon == line.len() {
        Err(ErrorView::InvalidResponse("malformed header line `"@ + line + "`"@))
    } else {
        Ok((text::trimmed(line.take(colon)), text::trimmed(line.skip(colon + 1))))
    }
}

/// The head of a response, and the bytes after it.
pub struct HeadView {
    pub status: StatusCode,
    pub reason: Seq<char>,
    pub headers: Seq<(Seq<char>, Seq<char>)>,
    pub rest: Seq<u8>,
}

/// The line of a head that `t` starts with, where the head may have `left`
/// bytes more.
pub open spec fn head_line(t: Seq<u8>, left: int) -> Line {
    line_within(
        t,
        if left < MAX_LINE_LEN {
            left
        } else {
            MAX_LINE_LEN as int
        },
        "response head exceeded the maximum allowed length"@,
    )
}

/// The head whose next header line `t` starts with, and which may have
/// `left` bytes more.
pub open spec fn headers_rest(
    status: StatusCode,
    reason: Seq<char>,
    headers: Seq<(Seq<char>, Seq<char>)>,
    left: int,
    t: Seq<u8>,
) -> std::result::Result<HeadView, ErrorView>
    decreases t.len(),
    via headers_rest_decreases
{
    match head_line(t, left) {
        Line::Fault(e) => Err(e),
        Line::Closed => Err(
            ErrorView::InvalidResponse("connection closed while reading headers"@),
        ),
        Line::Text(line, rest) => if line.len() == 0 {
            Ok(HeadView { status, reason, headers, rest })
        } else {
            match header_line(line) {
                Err(e) => Err(e),
                Ok((name, value)) => if header::valid_name(name) && header::valid_value(value) {
                    headers_rest(
                        status,
                        reason,
                        headers.push((name, value)),
                        left - (t.len() - rest.len()),
                        rest,
                    )
                } else {
                    Err(header::refusal(name, value))
                },
            }
        },
    }
}

#[via_fn]
proof fn headers_rest_decreases(
    status: StatusCode,
    reason: Seq<char>,
    headers: Seq<(Seq<char>, Seq<char>)>,
    left: int,
    t: Seq<u8>,
) {
    lemma_line_within_shrinks(
        t,
        if left < MAX_LINE_LEN {
            left
        } else {
            MAX_LINE_LEN as int
        },
        "response head exceeded the maximum allowed length"@,
    );
}

/// The head that `t` starts with, where `t` is everything that arrives
/// before the connection closes. It has [`MAX_RESPONSE_HEAD_LEN`] bytes at
/// most.
pub open spec fn head_of(t: Seq<u8>) -> std::result::Result<HeadView, ErrorView> {
    match head_line(t, MAX_RESPONSE_HEAD_LEN as int) {
        Line::Fault(e) => Err(e),
        Line::Closed => Err(ErrorView::InvalidResponse("connection closed before any response"@)),
        Line::Text(line, rest) => match status_line(line) {
            Err(e) => Err(e),
            Ok((status, reason)) => headers_rest(
                status,
                reason,
                seq![],
                MAX_RESPONSE_HEAD_LEN - (t.len() - rest.len()),
                rest,
            ),
        },
    }
}

/// The head of a response.
pub struct ResponseHead {
    pub status: StatusCode,
    pub reason: String,
    pub headers: HeaderMap,
}

/// Reads a response head as its bytes arrive.
pub struct HeadReader {
    reader: BufReader,
    /// How many bytes of the head may still be read.
    left: usize,
    status: Option<StatusCode>,
    reason: String,
    headers: HeaderMap,
}

/// The outcome of reading a head.
pub enum HeadStep {
    NeedData,
    Head(ResponseHead),
    Failed(Error),
}

impl HeadReader {
    /// What the head comes to if `more` still arrives.
    pub closed spec fn result(self, more: Seq<u8>) -> std::result::Result<HeadView, ErrorView> {
        match self.status {
            None => head_of(self.reader@ + more),
            Some(status) => headers_rest(
                status,
                self.reason@,
                self.headers@,
                self.left as int,
                self.reader@ + more,
            ),
        }
    }

    /// The bytes that have arrived and are not read yet.
    pub closed spec fn unread(self) -> Seq<u8> {
        self.reader@
    }

    /// Whether nothing can be made of the bytes that have arrived.
    pub closed spec fn starved(self) -> bool {
        line_pending(self.reader@)
    }

    /// Whether no byte has arrived behind the end of the next line.
    pub closed spec fn within_line(self) -> bool {
        text::position(self.reader@, 10u8) >= self.reader@.len() - 1
    }

    pub closed spec fn space(self) -> int {
        self.reader.space()
    }

    pub fn new() -> (head: Self)
        ensures
            head.unread() == Seq::<u8>::empty(),
            head.within_line(),
            forall|more: Seq<u8>| #[trigger] head.result(more) == head_of(more),
    {
        let head = HeadReader {
            reader: BufReader::new(),
            left: MAX_RESPONSE_HEAD_LEN,
            status: None,
            reason: String::new(),
            headers: HeaderMap::new(),
        };
        assert forall|more: Seq<u8>| #[trigger] head.result(more) == head_of(more) by {
            assert(head.reader@ + more =~= more);
        }
        proof {
            text::lemma_position(head.reader@, 10u8);
        }
        head
    }

    /// Makes room for more bytes and says how many there is room for.
    pub fn room(&mut self) -> (n: usize)
        ensures
            forall|more: Seq<u8>| #[trigger] final(self).result(more) == old(self).result(more),
            final(self).unread() == old(self).unread(),
            final(self).starved() == old(self).starved(),
            n == final(self).space(),
            old(self).starved() ==> n > 0,
    {
        self.reader.room()
    }

    /// Takes over bytes that have arrived.
    pub fn accept(&mut self, data: &[u8])
        requires
            data@.len() <= old(self).space(),
        ensures
            forall|more: Seq<u8>| #[trigger]
                final(self).result(more) == old(self).result(data@ + more),
            final(self).unread() == old(self).unread() + data@,
            old(self).starved() && data@.len() == 1 ==> final(self).within_line(),
    {
        let ghost before = self.reader@;
        self.reader.accept(data);
        assert forall|more: Seq<u8>| #[trigger] self.result(more) == old(self).result(
            data@ + more,
        ) by {
            assert(before + data@ + more =~= before + (data@ + more));
        }
        proof {
            text::lemma_position(before, 10u8);
            text::lemma_position(self.reader@, 10u8);
            let p = text::position(self.reader@, 10u8);
            if old(self).starved() && p < before.len() {
                assert(before[p] == 10u8);
            }
        }
    }

    /// The bytes after the head.
    pub fn into_reader(self) -> (reader: BufReader)
        ensures
            reader@ == self.unread(),
    {
        self.reader
    }

    /// Reads on until the head is complete or more bytes are needed.
    pub fn read_head(&mut self, closed: bool) -> (step: HeadStep)
        ensures
            match step {
                HeadStep::NeedData => !closed && final(self).starved() && forall|more: Seq<u8>|
                    #[trigger]
                    can_follow(closed, more) ==> final(self).result(more) == old(self).result(more),
                HeadStep::Head(head) => forall|more: Seq<u8>| #[trigger]
                    can_follow(closed, more) ==> old(self).result(more) == Ok::<
                        HeadView,
                        ErrorView,
                    >(
                        (HeadView {
                            status: head.status,
                            reason: head.reason@,
                            headers: head.headers@,
                            rest: final(self).unread() + more,
                        }),
                    ),
                HeadStep::Failed(e) => forall|more: Seq<u8>| #[trigger]
                    can_follow(closed, more) ==> old(self).result(more) == Err::<
                        HeadView,
                        ErrorView,
                    >(e@),
            },
            step is Head && old(self).within_line() ==> final(self).unread().len() == 0,
    {
        proof {
            reveal_strlit("");
        }
        loop
            invariant
                ""@.len() == 0,
                forall|more: Seq<u8>| #[trigger]
                    can_follow(closed, more) ==> self.result(more) == old(self).result(more),
                old(self).within_line() ==> self.within_line(),
            decreases self.reader@.len(),
        {
            let ghost here = *self;
            assert(can_follow(closed, seq![]));
            let left = match self.status {
                None => MAX_RESPONSE_HEAD_LEN,
                Some(_) => self.left,
            };
            let limit = if left < MAX_LINE_LEN {
                left
            } else {
                MAX_LINE_LEN
            };
            let before = self.reader.unread().len();
            let line = self.reader.read_line_within(
                limit,
                "response head exceeded the maximum allowed length",
                closed,
            );
            let after = self.reader.unread().len();
            match line {
                LineStep::NeedData => {
                    return HeadStep::NeedData;
                },
                LineStep::Failed(e) => {
                    return HeadStep::Failed(e);
                },
                LineStep::Closed => {
                    assert forall|more: Seq<u8>| #[trigger]
                        can_follow(closed, more) implies here.reader@ + more =~= here.reader@ by {}
                    let message = match self.status {
                        None => "connection closed before any response",
                        Some(_) => "connection closed while reading headers",
                    };
                    return HeadStep::Failed(Error::InvalidResponse(text::owned(message)));
                },
                LineStep::Line(line) => {
                    proof {
                        assert(line@.len() == 0 ==> line@ =~= ""@);
                        text::lemma_position(self.reader@, 10u8);
                    }
                    self.left = left - (before - after);
                    match self.status {
                        None => match parse_status_line(line.as_str()) {
                            Ok((status, reason)) => {
                                self.status = Some(status);
                                self.reason = reason;
                                self.headers = HeaderMap::new();
                            },
                            Err(e) => {
                                return HeadStep::Failed(e);
                            },
                        },
                        Some(status) => {
                            if text::same_text(line.as_str(), "") {
                                let mut reason = String::new();
                                let mut headers = HeaderMap::new();
                                std::mem::swap(&mut reason, &mut self.reason);
                                std::mem::swap(&mut headers, &mut self.headers);
                                return HeadStep::Head(ResponseHead { status, reason, headers });
                            }
                            let (name, value) = match parse_header_line(line.as_str()) {
                                Ok(found) => found,
                                Err(e) => {
                                    return HeadStep::Failed(e);
                                },
                            };
                            match self.headers.append(name.as_str(), value.as_str()) {
                                Ok(_) => {},
                                Err(e) => {
                                    return HeadStep::Failed(e);
                                },
                            }
                        },
                    }
                    assert forall|more: Seq<u8>| #[trigger]
                        can_follow(closed, more) implies self.result(more) == old(self).result(
                        more,
                    ) by {
                        assert(here.result(more) == old(self).result(more));
                    }
                },
            }
        }
    }
}

/// Reads a status line.
pub fn parse_status_line(line: &str) -> (outcome: Result<(StatusCode, String)>)
    ensures
        match outcome {
            Ok((status, reason)) => status_line(line@) == Ok::<(StatusCode, Seq<char>), ErrorView>(
                (status, reason@),
            ),
            Err(e) => status_line(line@) == Err::<(StatusCode, Seq<char>), ErrorView>(e@),
        },
{
    let chars = text::chars_of(line);
    let first = text::find(chars.as_slice(), ' ');
    let version = text::part(chars.as_slice(), 0, first);
    assert(version@ == line@.take(first as int));
    if !text::has_prefix(version, text::chars_of("HTTP/1.").as_slice()) {
        return Err(
            Error::InvalidResponse(
                ticked("unsupported HTTP version `", text::text_of(version).as_str()),
            ),
        );
    }
    if first == chars.len() {
        return Err(Error::InvalidResponse(text::owned("missing status code")));
    }
    let rest = text::part(chars.as_slice(), first + 1, chars.len());
    assert(rest@ == line@.skip(first + 1));
    let second = text::find(rest, ' ');
    let code = text::part(rest, 0, second);
    assert(code@ == rest@.take(second as int));
    match text::read_unsigned(code, 10, 65535) {
        Some(n) => {
            let reason = if second < rest.len() {
                let tail = text::part(rest, second + 1, rest.len());
                assert(tail@ == rest@.skip(second + 1));
                text::text_of(tail)
            } else {
                let none = String::new();
                assert(none@ =~= seq![]);
                none
            };
            Ok((StatusCode::from_u16(n as u16), reason))
        },
        None => Err(
            Error::InvalidResponse(
                ticked("invalid status code `", text::text_of(code).as_str()),
            ),
        ),
    }
}

/// Reads a header line.
pub fn parse_header_line(line: &str) -> (outcome: Result<(String, String)>)
    ensures
        match outcome {
            Ok((name, value)) => header_line(line@) == Ok::<(Seq<char>, Seq<char>), ErrorView>(
                (name@, value@),
            ),
            Err(e) => header_line(line@) == Err::<(Seq<char>, Seq<char>), ErrorView>(e@),
        },
{
    let chars = text::chars_of(line);
    let colon = text::find(chars.as_slice(), ':');
    if colon == chars.len() {
        return Err(Error::InvalidResponse(ticked("malformed header line `", line)));
    }
    let name = text::part(chars.as_slice(), 0, colon);
    let value = text::part(chars.as_slice(), colon + 1, chars.len());
    assert(name@ == line@.take(colon as int));
    assert(value@ == line@.skip(colon + 1));
    Ok((text::text_of(text::trim(name)), text::text_of(text::trim(value))))
}

/// A message that ends with a quoted text.
fn ticked(what: &str, quoted: &str) -> (m: String)
    ensures
        m@ == what@ + quoted@ + "`"@,
{
    let mut m = text::owned(what);
    m.push_str(quoted);
    m.push_str("`");
    m
}

/// Whether one of the items of a comma-separated list is `close`.
pub open spec fn lists_close(v: Seq<char>) -> bool {
    exists|i: int|
        0 <= i < text::split(v, ',').len() && text::same_ignoring_case(
            text::trimmed(#[trigger] text::split(v, ',')[i]),
            "close"@,
        )
}

/// Whether the `Connection` header lists `close`.
pub open spec fn says_close(headers: Seq<(Seq<char>, Seq<char>)>) -> bool {
    match header::lookup(headers, "connection"@) {
        Some(v) => lists_close(v),
        None => false,
    }
}

/// The body's framing, by the response's headers and status and the
/// request's method, or why there is none.
pub open spec fn framing_of(
    headers: Seq<(Seq<char>, Seq<char>)>,
    method: Method,
    status: StatusCode,
) -> std::result::Result<Framing, ErrorView> {
    let chunked = match header::lookup(headers, "transfer-encoding"@) {
        Some(v) => text::same_ignoring_case(
            text::trimmed(v.skip(text::last_position(v, ',') + 1)),
            "chunked"@,
        ),
        None => false,
    };
    if method == Method::Head || status.code == 204 || status.code == 304 || 100 <= status.code
        < 200 {
        Ok(Framing::NoBody)
    } else if chunked {
        Ok(Framing::Chunked)
    } else {
        match header::lookup(headers, "content-length"@) {
            None => Ok(Framing::Close),
            Some(v) => match text::bounded_value(text::trimmed(v), 10, usize::MAX as nat) {
                Some(n) => Ok(Framing::ContentLength(n as usize)),
                None => Err(ErrorView::InvalidResponse("invalid Content-Length `"@ + v + "`"@)),
            },
        }
    }
}

/// Whether the peer closes the connection after this response: `close`
/// anywhere in the `Connection` header says so.
pub fn connection_says_close(headers: &HeaderMap) -> (yes: bool)
    ensures
        yes == says_close(headers@),
{
    match headers.get("connection") {
        None => false,
        Some(v) => {
            let chars = text::chars_of(v);
            let pieces = text::split_chars(chars.as_slice(), ',');
            let ghost views = pieces@.map_values(|p: &[char]| p@);
            for i in 0..pieces.len()
                invariant
                    views == pieces@.map_values(|p: &[char]| p@),
                    views == text::split(v@, ','),
                    header::lookup(headers@, "connection"@) == Some(v@),
                    forall|j: int|
                        0 <= j < i ==> !text::same_ignoring_case(
                            text::trimmed(#[trigger] text::split(v@, ',')[j]),
                            "close"@,
                        ),
            {
                if text::spells_ignoring_case(text::trim(pieces[i]), "close") {
                    assert(views[i as int] == pieces@[i as int]@);
                    assert(text::same_ignoring_case(
                        text::trimmed(text::split(v@, ',')[i as int]),
                        "close"@,
                    ));
                    assert(lists_close(v@));
                    return true;
                }
            }
            false
        },
    }
}

/// The body's framing.
pub fn framing_for(headers: &HeaderMap, method: Method, status: StatusCode) -> (outcome: Result<
    Framing,
>)
    ensures
        match outcome {
            Ok(framing) => framing_of(headers@, method, status) == Ok::<Framing, ErrorView>(
                framing,
            ),
            Err(e) => framing_of(headers@, method, status) == Err::<Framing, ErrorView>(e@),
        },
{
    if method == Method::Head || status.as_u16() == 204 || status.as_u16() == 304 || (100
        <= status.as_u16() && status.as_u16() < 200) {
        return Ok(Framing::NoBody);
    }
    let chunked = match headers.get("transfer-encoding") {
        Some(v) => {
            let chars = text::chars_of(v);
            let from = match text::find_last(chars.as_slice(), ',') {
                Some(comma) => comma + 1,
                None => 0,
            };
            let last = text::part(chars.as_slice(), from, chars.len());
            assert(last@ == v@.skip(text::last_position(v@, ',') + 1));
            text::spells_ignoring_case(text::trim(last), "chunked")
        },
        None => false,
    };
    if chunked {
        return Ok(Framing::Chunked);
    }
    match headers.get("content-length") {
        None => Ok(Framing::Close),
        Some(v) => {
            let chars = text::chars_of(v);
            match text::read_unsigned(text::trim(chars.as_slice()), 10, usize::MAX as u64) {
                Some(n) => Ok(Framing::ContentLength(n as usize)),
                None => Err(Error::InvalidResponse(ticked("invalid Content-Length `", v))),
            }
        },
    }
}

/// Whether a connection can carry another request after a response: its body
/// did not end with the connection, and the peer does not close it.
pub open spec fn stays_open(framing: Framing, headers: Seq<(Seq<char>, Seq<char>)>) -> bool {
    !(framing is Close) && !says_close(headers)
}

/// A whole response.
pub struct ResponseView {
    pub status: StatusCode,
    pub reason: Seq<char>,
    pub headers: Seq<(Seq<char>, Seq<char>)>,
    pub body: Seq<u8>,
    pub keep_alive: bool,
}

/// The response to a request with this method, where `t` is everything that
/// arrives before the connection closes.
pub open spec fn response_of(method: Method, t: Seq<u8>) -> std::result::Result<
    ResponseView,
    ErrorView,
> {
    match head_of(t) {
        Err(e) => Err(e),
        Ok(head) => match framing_of(head.headers, method, head.status) {
            Err(e) => Err(e),
            Ok(framing) => match collected(framing, head.rest) {
                Err(e) => Err(e),
                Ok(body) => Ok(
                    ResponseView {
                        status: head.status,
                        reason: head.reason,
                        headers: head.headers,
                        body,
                        keep_alive: stays_open(framing, head.headers),
                    },
                ),
            },
        },
    }
}

/// A response with its whole body.
pub struct RawResponse {
    pub status: StatusCode,
    pub reason: String,
    pub headers: HeaderMap,
    pub body: Vec<u8>,
    /// Whether the connection can carry another request.
    pub keep_alive: bool,
}

impl View for RawResponse {
    type V = ResponseView;

    open spec fn view(&self) -> ResponseView {
        ResponseView {
            status: self.status,
            reason: self.reason@,
            headers: self.headers@,
            body: self.body@,
            keep_alive: self.keep_alive,
        }
    }
}

/// A response of which the head is there and the body is still to be read.
pub struct StreamingRawResponse {
    pub status: StatusCode,
    pub reason: String,
    pub headers: HeaderMap,
    pub body: StreamingBody,
}

/// Turns a head that has been read, and what has arrived after it, into a
/// response whose body is read piece by piece.
pub fn streaming_response(head: ResponseHead, reader: BufReader, method: Method) -> (outcome: Result<
    StreamingRawResponse,
>)
    ensures
        match outcome {
            Ok(response) => {
                &&& framing_of(head.headers@, method, head.status) is Ok
                &&& response.status == head.status
                &&& response.reason == head.reason
                &&& response.headers == head.headers
                &&& forall|more: Seq<u8>|
                    #![auto]
                    response.body.rest(more) == body_rest(
                        framing_of(head.headers@, method, head.status)->Ok_0,
                        ChunkedState::Size,
                        false,
                        reader@ + more,
                    )
            },
            Err(e) => framing_of(head.headers@, method, head.status) == Err::<Framing, ErrorView>(
                e@,
            ),
        },
{
    match framing_for(&head.headers, method, head.status) {
        Ok(framing) => Ok(
            StreamingRawResponse {
                status: head.status,
                reason: head.reason,
                headers: head.headers,
                body: StreamingBody::new(reader, framing, false),
            },
        ),
        Err(e) => Err(e),
    }
}

/// The outcome of reading a response.
pub enum ResponseStep {
    NeedData,
    Response(RawResponse),
    Failed(Error),
}

/// Reads a response, head and body, as its bytes arrive.
pub struct ResponseReader {
    method: Method,
    phase: ResponsePhase,
}

enum ResponsePhase {
    Head(HeadReader),
    Body(ResponseHead, bool, BodyDrain),
    Over,
}

impl ResponseReader {
    /// What the response comes to if `more` still arrives.
    pub closed spec fn result(self, more: Seq<u8>) -> std::result::Result<
        ResponseView,
        ErrorView,
    > {
        match self.phase {
            ResponsePhase::Head(head) => match head.result(more) {
                Err(e) => Err(e),
                Ok(head) => match framing_of(head.headers, self.method, head.status) {
                    Err(e) => Err(e),
                    Ok(framing) => match collected(framing, head.rest) {
                        Err(e) => Err(e),
                        Ok(body) => Ok(
                            ResponseView {
                                status: head.status,
                                reason: head.reason,
                                headers: head.headers,
                                body,
                                keep_alive: stays_open(framing, head.headers),
                            },
                        ),
                    },
                },
            },
            ResponsePhase::Body(head, keep_alive, drain) => match drain.result(more) {
                Err(e) => Err(e),
                Ok(body) => Ok(
                    ResponseView {
                        status: head.status,
                        reason: head.reason@,
                        headers: head.headers@,
                        body,
                        keep_alive,
                    },
                ),
            },
            ResponsePhase::Over => arbitrary(),
        }
    }

    /// Whether the response has not been handed out yet.
    pub closed spec fn open(self) -> bool {
        match self.phase {
            ResponsePhase::Head(_) => true,
            ResponsePhase::Body(_, _, _) => true,
            ResponsePhase::Over => false,
        }
    }

    /// Whether nothing can be made of the bytes that have arrived.
    pub closed spec fn starved(self) -> bool {
        match self.phase {
            ResponsePhase::Head(head) => head.starved(),
            ResponsePhase::Body(_, _, drain) => drain.starved(),
            ResponsePhase::Over => false,
        }
    }

    pub closed spec fn space(self) -> int {
        match self.phase {
            ResponsePhase::Head(head) => head.space(),
            ResponsePhase::Body(_, _, drain) => drain.space(),
            ResponsePhase::Over => 0,
        }
    }

    /// A reader for the response to a request with this method.
    pub fn new(method: Method) -> (reader: Self)
        ensures
            reader.open(),
            forall|more: Seq<u8>| #[trigger] reader.result(more) == response_of(method, more),
    {
        ResponseReader { method, phase: ResponsePhase::Head(HeadReader::new()) }
    }

    /// Makes room for more bytes and says how many there is room for.
    pub fn room(&mut self) -> (n: usize)
        ensures
            final(self).open() == old(self).open(),
            forall|more: Seq<u8>| #[trigger] final(self).result(more) == old(self).result(more),
            n == final(self).space(),
            old(self).starved() ==> n > 0,
    {
        match &mut self.phase {
            ResponsePhase::Head(head) => head.room(),
            ResponsePhase::Body(_, _, drain) => drain.room(),
            ResponsePhase::Over => 0,
        }
    }

    /// Takes over bytes that have arrived.
    pub fn accept(&mut self, data: &[u8])
        requires
            data@.len() <= old(self).space(),
            old(self).open(),
        ensures
            final(self).open(),
            forall|more: Seq<u8>| #[trigger]
                final(self).result(more) == old(self).result(data@ + more),
    {
        match &mut self.phase {
            ResponsePhase::Head(head) => head.accept(data),
            ResponsePhase::Body(_, _, drain) => drain.accept(data),
            ResponsePhase::Over => {},
        }
    }

    /// Reads on until the response is complete or more bytes are needed.
    pub fn step(&mut self, closed: bool) -> (step: ResponseStep)
        requires
            old(self).open(),
        ensures
            match step {
                ResponseStep::NeedData => !closed && final(self).open() && final(self).starved()
                    && forall|more: Seq<u8>| #[trigger]
                    can_follow(closed, more) ==> final(self).result(more) == old(self).result(more),
                ResponseStep::Response(response) => forall|more: Seq<u8>| #[trigger]
                    can_follow(closed, more) ==> old(self).result(more) == Ok::<
                        ResponseView,
                        ErrorView,
                    >(response@),
                ResponseStep::Failed(e) => forall|more: Seq<u8>| #[trigger]
                    can_follow(closed, more) ==> old(self).result(more) == Err::<
                        ResponseView,
                        ErrorView,
                    >(e@),
            },
    {
        let mut phase = ResponsePhase::Over;
        std::mem::swap(&mut phase, &mut self.phase);
        let (head, keep_alive, mut drain) = match phase {
            ResponsePhase::Head(mut reader) => match reader.read_head(closed) {
                HeadStep::NeedData => {
                    self.phase = ResponsePhase::Head(reader);
                    return ResponseStep::NeedData;
                },
                HeadStep::Failed(e) => {
                    return ResponseStep::Failed(e);
                },
                HeadStep::Head(head) => {
                    let framing = match framing_for(&head.headers, self.method, head.status) {
                        Ok(framing) => framing,
                        Err(e) => {
                            return ResponseStep::Failed(e);
                        },
                    };
                    let reusable = match framing {
                        Framing::Close => false,
                        _ => true,
                    };
                    let keep_alive = reusable && !connection_says_close(&head.headers);
                    (head, keep_alive, drain_body(reader.into_reader(), framing))
                },
            },
            ResponsePhase::Body(head, keep_alive, drain) => (head, keep_alive, drain),
            ResponsePhase::Over => {
                return ResponseStep::NeedData;
            },
        };
        match drain.step(closed) {
            DrainStep::NeedData => {
                self.phase = ResponsePhase::Body(head, keep_alive, drain);
                ResponseStep::NeedData
            },
            DrainStep::Failed(e) => ResponseStep::Failed(e),
            DrainStep::Complete(body) => ResponseStep::Response(
                RawResponse {
                    status: head.status,
                    reason: head.reason,
                    headers: head.headers,
                    body,
                    keep_alive,
                },
            ),
        }
    }
}

/// The pieces of a body come to the whole of it: if each piece is what the
/// rest of the body before it starts with, and nothing is left after the
/// last one, then the pieces put together are the body.
pub proof fn law_pieces_come_to_the_body(rests: Seq<BodyOutcome>, pieces: Seq<Seq<u8>>)
    requires
        rests.len() == pieces.len() + 1,
        forall|i: int|
            0 <= i < pieces.len() ==> #[trigger] rests[i] == (BodyOutcome {
                data: pieces[i] + rests[i + 1].data,
                fault: rests[i + 1].fault,
            }),
        rests.last().data.len() == 0,
    ensures
        rests[0].data == crate::wire::concatenated(pieces),
        rests[0].fault == rests.last().fault,
    decreases pieces.len(),
{
    if pieces.len() > 0 {
        let later = rests.skip(1);
        let more = pieces.skip(1);
        assert forall|i: int| 0 <= i < more.len() implies #[trigger] later[i] == (BodyOutcome {
            data: more[i] + later[i + 1].data,
            fault: later[i + 1].fault,
        }) by {
            assert(later[i] == rests[i + 1]);
        }
        law_pieces_come_to_the_body(later, more);
        assert(rests[0] == (BodyOutcome {
            data: pieces[0] + rests[1].data,
            fault: rests[1].fault,
        }));
    } else {
        assert(rests[0].data =~= seq![]);
    }
}

/// Reading a body in one go and reading it piece by piece give the same
/// bytes, and fail on the same bodies.
pub proof fn law_ways_of_reading_agree(framing: Framing, state: ChunkedState, t: Seq<u8>)
    ensures
        body_rest(framing, state, true, t).data == body_rest(framing, state, false, t).data,
        body_rest(framing, state, true, t).fault is None <==> body_rest(
            framing,
            state,
            false,
            t,
        ).fault is None,
{
    if framing is Chunked {
        lemma_chunked_ways_agree(state, t);
    }
}

proof fn lemma_chunked_ways_agree(state: ChunkedState, t: Seq<u8>)
    ensures
        chunked_rest(state, true, t).data == chunked_rest(state, false, t).data,
        chunked_rest(state, true, t).fault is None <==> chunked_rest(state, false, t).fault is None,
    decreases
            t.len(),
            if state is Data {
                1int
            } else {
                0int
            },
{
    lemma_line_shrinks(t);
    match state {
        ChunkedState::Data(size) => {
            if t.len() >= size {
                lemma_chunked_ways_agree(ChunkedState::DataTerminator, t.skip(size as int));
            }
        },
        ChunkedState::Size => {
            if let Line::Text(line, rest) = first_line(t) {
                if let Some(size) = text::bounded_value(size_text(line), 16, usize::MAX as nat) {
                    if size == 0 {
                        lemma_chunked_ways_agree(ChunkedState::Trailers, rest);
                    } else {
                        lemma_chunked_ways_agree(ChunkedState::Data(size as usize), rest);
                    }
                }
            }
        },
        ChunkedState::DataTerminator => {
            if let Line::Text(line, rest) = first_line(t) {
                lemma_chunked_ways_agree(ChunkedState::Size, rest);
            }
        },
        ChunkedState::Trailers => {
            if let Line::Text(line, rest) = first_line(t) {
                lemma_chunked_ways_agree(ChunkedState::Trailers, rest);
            }
        },
    }
}

} // verus!
