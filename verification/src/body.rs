//! Request bodies.

use crate::text;
use vstd::prelude::*;

verus! {

/// A body that is read from a source while it is sent. The source is known
/// here by its handle alone; opening it anew for each attempt is up to
/// whoever sends the request.
#[derive(Debug, Clone, Copy, PartialEq, Eq, Structural)]
pub struct StreamBody {
    /// The number of bytes that the source will give, where it is known
    /// upfront.
    pub len: Option<u64>,
    pub source: u64,
}

impl StreamBody {
    pub fn len(&self) -> (len: Option<u64>)
        ensures
            len == self.len,
    {
        self.len
    }
}

/// A request body.
#[derive(Debug, PartialEq, Eq)]
pub enum Body {
    Empty,
    Bytes(Vec<u8>),
    Stream(StreamBody),
}

/// What a [`Body`] stands for.
pub enum BodyView {
    Empty,
    Bytes(Seq<u8>),
    Stream(StreamBody),
}

impl View for Body {
    type V = BodyView;

    open spec fn view(&self) -> BodyView {
        match *self {
            Body::Empty => BodyView::Empty,
            Body::Bytes(b) => BodyView::Bytes(b@),
            Body::Stream(s) => BodyView::Stream(s),
        }
    }
}

/// The body that bytes make: none at all make the empty body.
pub open spec fn made_of(bytes: Seq<u8>) -> BodyView {
    if bytes.len() == 0 {
        BodyView::Empty
    } else {
        BodyView::Bytes(bytes)
    }
}

/// The bytes of a body that are in memory: none of one that is still to be
/// read.
pub open spec fn in_memory(body: BodyView) -> Seq<u8> {
    match body {
        BodyView::Bytes(b) => b,
        _ => seq![],
    }
}

/// The length of a body, where it is known upfront.
pub open spec fn length(body: BodyView) -> Option<nat> {
    match body {
        BodyView::Empty => Some(0),
        BodyView::Bytes(b) => Some(b.len()),
        BodyView::Stream(s) => match s.len {
            Some(n) => Some(n as nat),
            None => None,
        },
    }
}

impl Body {
    /// A body that is read from a source; `len` is its length, where that is
    /// known upfront.
    pub fn streaming(len: Option<u64>, source: u64) -> (body: Body)
        ensures
            body@ == BodyView::Stream((StreamBody { len, source })),
    {
        Body::Stream(StreamBody { len, source })
    }

    /// The bytes that are in memory: none of a body that is still to be
    /// read.
    pub fn as_bytes(&self) -> (bytes: &[u8])
        ensures
            bytes@ == in_memory(self@),
    {
        match self {
            Body::Bytes(b) => b.as_slice(),
            _ => {
                let none: &[u8] = &[];
                assert(none@ =~= seq![]);
                none
            },
        }
    }

    /// Whether no bytes are in memory.
    pub fn is_empty(&self) -> (yes: bool)
        ensures
            yes == (in_memory(self@).len() == 0),
    {
        self.as_bytes().len() == 0
    }

    /// The length of the body, where it is known upfront.
    pub fn content_length(&self) -> (len: Option<u64>)
        ensures
            match len {
                Some(n) => length(self@) == Some(n as nat),
                None => length(self@) is None,
            },
    {
        match self {
            Body::Empty => Some(0),
            Body::Bytes(b) => Some(b.len() as u64),
            Body::Stream(s) => s.len(),
        }
    }
}

impl Default for Body {
    fn default() -> (body: Self)
        ensures
            body == Body::Empty,
    {
        Body::Empty
    }
}

impl Clone for Body {
    fn clone(&self) -> (copy: Self)
        ensures
            copy@ == self@,
    {
        match self {
            Body::Empty => Body::Empty,
            Body::Bytes(b) => {
                let bytes = vstd::slice::slice_to_vec(b.as_slice());
                Body::Bytes(bytes)
            },
            Body::Stream(s) => Body::Stream(*s),
        }
    }
}

impl From<Vec<u8>> for Body {
    fn from(b: Vec<u8>) -> (body: Self) {
        if b.len() == 0 {
            Body::Empty
        } else {
            Body::Bytes(b)
        }
    }
}

impl vstd::std_specs::convert::FromSpecImpl<Vec<u8>> for Body {
    open spec fn obeys_from_spec() -> bool {
        true
    }

    open spec fn from_spec(b: Vec<u8>) -> Body {
        if b@.len() == 0 {
            Body::Empty
        } else {
            Body::Bytes(b)
        }
    }
}

impl From<&[u8]> for Body {
    fn from(b: &[u8]) -> (body: Self)
        ensures
            body@ == made_of(b@),
    {
        Body::from(vstd::slice::slice_to_vec(b))
    }
}

impl vstd::std_specs::convert::FromSpecImpl<&[u8]> for Body {
    open spec fn obeys_from_spec() -> bool {
        false
    }

    open spec fn from_spec(b: &[u8]) -> Body {
        Body::Empty
    }
}

impl From<String> for Body {
    fn from(s: String) -> (body: Self)
        ensures
            body@ == made_of(vstd::utf8::encode_utf8(s@)),
    {
        Body::from(s.as_str())
    }
}

impl vstd::std_specs::convert::FromSpecImpl<String> for Body {
    open spec fn obeys_from_spec() -> bool {
        false
    }

    open spec fn from_spec(s: String) -> Body {
        Body::Empty
    }
}

impl From<&str> for Body {
    fn from(s: &str) -> (body: Self)
        ensures
            body@ == made_of(vstd::utf8::encode_utf8(s@)),
    {
        Body::from(text::utf8_bytes(s))
    }
}

impl vstd::std_specs::convert::FromSpecImpl<&str> for Body {
    open spec fn obeys_from_spec() -> bool {
        false
    }

    open spec fn from_spec(s: &str) -> Body {
        Body::Empty
    }
}

/// A body made of bytes is those bytes, and as long as they are.
pub proof fn law_body_is_its_bytes(bytes: Seq<u8>)
    ensures
        in_memory(made_of(bytes)) == bytes,
        length(made_of(bytes)) == Some(bytes.len()),
        made_of(bytes) is Empty <==> bytes.len() == 0,
        !(made_of(bytes) is Stream),
{
    if bytes.len() == 0 {
        assert(bytes =~= Seq::<u8>::empty());
    }
}

} // verus!
