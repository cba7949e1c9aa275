//! Everything that can go wrong making a request, in one place.

use crate::platform;
use crate::status::StatusCode;
use crate::text;
use vstd::prelude::*;

verus! {

/// Why a request failed.
#[derive(Debug)]
pub enum Error {
    /// The URL couldn't be parsed at all.
    InvalidUrl(String),
    /// The URL's scheme isn't one that can be used here.
    UnsupportedScheme(String),
    /// A header name or value can't go on the wire.
    InvalidHeader(String),
    /// DNS resolution, connect, read, or write failed.
    Io(std::io::Error),
    /// Building the TLS layer failed, before any network I/O; the message
    /// says why.
    Tls(String),
    /// A proxy answered a `CONNECT` with a status other than 2xx.
    ProxyConnectFailed(StatusCode),
    /// The peer's response didn't parse as HTTP/1.1.
    InvalidResponse(String),
    /// A body isn't valid JSON.
    Json(String),
    /// The request did not complete within its timeout.
    Timeout,
    /// A response had a 4xx or 5xx status.
    Status(StatusCode),
    /// A redirect chain went past its cap.
    TooManyRedirects(usize),
}

pub type Result<T> = std::result::Result<T, Error>;

/// What an [`Error`] says.
pub enum ErrorView {
    InvalidUrl(Seq<char>),
    UnsupportedScheme(Seq<char>),
    InvalidHeader(Seq<char>),
    Io(std::io::Error),
    Tls(Seq<char>),
    ProxyConnectFailed(StatusCode),
    InvalidResponse(Seq<char>),
    Json(Seq<char>),
    Timeout,
    Status(StatusCode),
    TooManyRedirects(usize),
}

impl View for Error {
    type V = ErrorView;

    open spec fn view(&self) -> ErrorView {
        match *self {
            Error::InvalidUrl(s) => ErrorView::InvalidUrl(s@),
            Error::UnsupportedScheme(s) => ErrorView::UnsupportedScheme(s@),
            Error::InvalidHeader(s) => ErrorView::InvalidHeader(s@),
            Error::Io(e) => ErrorView::Io(e),
            Error::Tls(s) => ErrorView::Tls(s@),
            Error::ProxyConnectFailed(status) => ErrorView::ProxyConnectFailed(status),
            Error::InvalidResponse(s) => ErrorView::InvalidResponse(s@),
            Error::Json(s) => ErrorView::Json(s@),
            Error::Timeout => ErrorView::Timeout,
            Error::Status(status) => ErrorView::Status(status),
            Error::TooManyRedirects(max) => ErrorView::TooManyRedirects(max),
        }
    }
}

/// The message of an error that carries no I/O error.
pub open spec fn message(e: ErrorView) -> Seq<char> {
    match e {
        ErrorView::InvalidUrl(s) => "invalid url: "@ + s,
        ErrorView::UnsupportedScheme(s) => "unsupported url scheme: "@ + s
            + " (only http:// and https:// are supported)"@,
        ErrorView::InvalidHeader(s) => "invalid header: "@ + s,
        ErrorView::Io(_) => seq![],
        ErrorView::Tls(s) => "tls error: "@ + s,
        ErrorView::ProxyConnectFailed(status) => "proxy rejected CONNECT tunnel with status "@
            + text::decimal(status.code as nat),
        ErrorView::InvalidResponse(s) => "invalid http response: "@ + s,
        ErrorView::Json(s) => "json error: "@ + s,
        ErrorView::Timeout => "request timed out"@,
        ErrorView::Status(status) => "http error status "@ + text::decimal(status.code as nat),
        ErrorView::TooManyRedirects(max) => "exceeded the maximum number of redirects ("@
            + text::decimal(max as nat) + ")"@,
    }
}

impl Error {
    /// The error's message. The text of an I/O error is what the platform
    /// makes of it.
    pub fn to_string(&self) -> (s: String)
        ensures
            !(self@ is Io) ==> s@ == message(self@),
            self@ is Io ==> text::starts_with(s@, "io error: "@),
    {
        proof {
            reveal_strlit("");
        }
        match self {
            Error::InvalidUrl(s) => joined("invalid url: ", s.as_str(), ""),
            Error::UnsupportedScheme(s) => joined(
                "unsupported url scheme: ",
                s.as_str(),
                " (only http:// and https:// are supported)",
            ),
            Error::InvalidHeader(s) => joined("invalid header: ", s.as_str(), ""),
            Error::Io(e) => {
                let text = platform::io_error_text(e);
                let s = joined("io error: ", text.as_str(), "");
                assert(s@.take("io error: "@.len() as int) == "io error: "@);
                s
            },
            Error::Tls(s) => joined("tls error: ", s.as_str(), ""),
            Error::ProxyConnectFailed(status) => joined(
                "proxy rejected CONNECT tunnel with status ",
                status.to_string().as_str(),
                "",
            ),
            Error::InvalidResponse(s) => joined("invalid http response: ", s.as_str(), ""),
            Error::Json(s) => joined("json error: ", s.as_str(), ""),
            Error::Timeout => text::owned("request timed out"),
            Error::Status(status) => joined(
                "http error status ",
                status.to_string().as_str(),
                "",
            ),
            Error::TooManyRedirects(max) => joined(
                "exceeded the maximum number of redirects (",
                text::decimal_text(*max as u128).as_str(),
                ")",
            ),
        }
    }
}

fn joined(before: &str, middle: &str, after: &str) -> (s: String)
    ensures
        s@ == before@ + middle@ + after@,
        after@.len() == 0 ==> s@ == before@ + middle@,
{
    let mut s = text::owned(before);
    s.push_str(middle);
    s.push_str(after);
    s
}

impl From<std::io::Error> for Error {
    fn from(e: std::io::Error) -> (error: Self) {
        Error::Io(e)
    }
}

impl vstd::std_specs::convert::FromSpecImpl<std::io::Error> for Error {
    open spec fn obeys_from_spec() -> bool {
        true
    }

    open spec fn from_spec(e: std::io::Error) -> Error {
        Error::Io(e)
    }
}

/// What an error says names what went wrong and carries what it is about.
pub proof fn law_messages_say_what_went_wrong(s: Seq<char>, status: StatusCode, max: usize)
    ensures
        message(ErrorView::InvalidUrl(s)) == "invalid url: "@ + s,
        message(ErrorView::UnsupportedScheme(s)) == "unsupported url scheme: "@ + (s
            + " (only http:// and https:// are supported)"@),
        message(ErrorView::InvalidHeader(s)) == "invalid header: "@ + s,
        message(ErrorView::Tls(s)) == "tls error: "@ + s,
        message(ErrorView::InvalidResponse(s)) == "invalid http response: "@ + s,
        message(ErrorView::Json(s)) == "json error: "@ + s,
        message(ErrorView::Timeout) == "request timed out"@,
        message(ErrorView::Status(status)) == "http error status "@ + text::decimal(
            status.code as nat,
        ),
        message(ErrorView::ProxyConnectFailed(status))
            == "proxy rejected CONNECT tunnel with status "@ + text::decimal(status.code as nat),
        message(ErrorView::TooManyRedirects(max)) == "exceeded the maximum number of redirects ("@
            + (text::decimal(max as nat) + ")"@),
{
    assert("unsupported url scheme: "@ + s + " (only http:// and https:// are supported)"@
        =~= "unsupported url scheme: "@ + (s + " (only http:// and https:// are supported)"@));
    assert("exceeded the maximum number of redirects ("@ + text::decimal(max as nat) + ")"@
        =~= "exceeded the maximum number of redirects ("@ + (text::decimal(max as nat) + ")"@));
}

} // verus!
