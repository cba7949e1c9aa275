//! Responses with their whole body.

use crate::error;
use crate::error::Error;
use crate::error::ErrorView;
use crate::error::Result;
use crate::header::HeaderMap;
use crate::json;
use crate::json::JsonView;
use crate::json::Value;
use crate::platform;
use crate::status::StatusCode;
use crate::text;
use crate::url::Url;
use vstd::prelude::*;

verus! {

/// A response.
#[derive(Debug)]
pub struct Response {
    pub status: StatusCode,
    pub headers: HeaderMap,
    pub url: Url,
    pub body: Vec<u8>,
}

/// The text of a body, or the error that says why it has none.
pub open spec fn text_of_body(body: Seq<u8>) -> std::result::Result<Seq<char>, ErrorView> {
    if vstd::utf8::valid_utf8(body) {
        Ok(vstd::utf8::decode_utf8(body))
    } else {
        Err(undecodable(platform::utf8_error_text(body)))
    }
}

/// The error for a body that is not text, given what the decoder says.
pub open spec fn undecodable(reason: Seq<char>) -> ErrorView {
    ErrorView::InvalidResponse("response body is not valid UTF-8: "@ + reason)
}

/// The value in the text of a body, or the error that says why there is
/// none.
pub open spec fn json_of_text(
    body_text: std::result::Result<Seq<char>, ErrorView>,
) -> std::result::Result<JsonView, ErrorView> {
    match body_text {
        Err(e) => Err(ErrorView::Json(error::message(e))),
        Ok(t) => match json::parsed(t) {
            Ok(v) => Ok(v),
            Err(m) => Err(ErrorView::Json(m)),
        },
    }
}

/// What the outcome of decoding a body becomes.
pub fn decoded_text(decoded: std::result::Result<String, String>) -> (outcome: Result<String>)
    ensures
        match decoded {
            Ok(s) => outcome matches Ok(t) && t == s,
            Err(reason) => outcome matches Err(e) && e@ == undecodable(reason@),
        },
{
    match decoded {
        Ok(s) => Ok(s),
        Err(reason) => {
            let mut m = text::owned("response body is not valid UTF-8: ");
            m.push_str(reason.as_str());
            Err(Error::InvalidResponse(m))
        },
    }
}

/// The value that the text of a body spells. An error in place of the text
/// becomes a [`Error::Json`] with its message; where it is an I/O error, only
/// how that message begins is known.
pub fn json_value(body_text: Result<String>) -> (outcome: Result<Value>)
    ensures
        body_text matches Err(Error::Io(_)) ==> outcome matches Err(Error::Json(m))
            && text::starts_with(m@, "io error: "@),
        !(body_text matches Err(Error::Io(_))) ==> ({
            let wanted = json_of_text(
                match body_text {
                    Ok(t) => Ok(t@),
                    Err(e) => Err(e@),
                },
            );
            match outcome {
                Ok(v) => wanted == Ok::<JsonView, ErrorView>(v@),
                Err(e) => wanted == Err::<JsonView, ErrorView>(e@),
            }
        }),
{
    match body_text {
        Err(e) => Err(Error::Json(e.to_string())),
        Ok(t) => match Value::parse(t.as_str()) {
            Ok(v) => Ok(v),
            Err(m) => Err(Error::Json(m)),
        },
    }
}

impl Response {
    pub fn new(status: StatusCode, headers: HeaderMap, url: Url, body: Vec<u8>) -> (response: Self)
        ensures
            response == (Response { status, headers, url, body }),
    {
        Response { status, headers, url, body }
    }

    pub fn status(&self) -> (status: StatusCode)
        ensures
            status == self.status,
    {
        self.status
    }

    pub fn headers(&self) -> (headers: &HeaderMap)
        ensures
            *headers == self.headers,
    {
        &self.headers
    }

    pub fn url(&self) -> (url: &Url)
        ensures
            *url == self.url,
    {
        &self.url
    }

    pub fn bytes(&self) -> (bytes: &[u8])
        ensures
            bytes@ == self.body@,
    {
        self.body.as_slice()
    }

    pub fn into_bytes(self) -> (bytes: Vec<u8>)
        ensures
            bytes == self.body,
    {
        self.body
    }

    /// The body as UTF-8 text, whatever charset the headers name.
    pub fn text(&self) -> (outcome: Result<String>)
        ensures
            match outcome {
                Ok(s) => text_of_body(self.body@) == Ok::<Seq<char>, ErrorView>(s@),
                Err(e) => text_of_body(self.body@) == Err::<Seq<char>, ErrorView>(e@),
            },
    {
        decoded_text(
            platform::text_from_utf8(vstd::slice::slice_to_vec(self.body.as_slice())),
        )
    }

    /// The value that the body spells in JSON.
    pub fn json(&self) -> (outcome: Result<Value>)
        ensures
            match outcome {
                Ok(v) => json_of_text(text_of_body(self.body@)) == Ok::<JsonView, ErrorView>(v@),
                Err(e) => json_of_text(text_of_body(self.body@)) == Err::<JsonView, ErrorView>(e@),
            },
    {
        json_value(self.text())
    }

    /// Turns a 4xx or 5xx status into an error, and passes other responses
    /// through.
    pub fn error_for_status(self) -> (outcome: Result<Self>)
        ensures
            match outcome {
                Ok(response) => !(400 <= self.status.code < 600) && response == self,
                Err(e) => 400 <= self.status.code < 600 && e@ == ErrorView::Status(self.status),
            },
            outcome is Err <==> self.status.code as int / 100 == 4 || self.status.code as int / 100
                == 5,
    {
        if self.status.is_client_error() || self.status.is_server_error() {
            Err(Error::Status(self.status))
        } else {
            Ok(self)
        }
    }
}

impl Clone for Response {
    fn clone(&self) -> (copy: Self)
        ensures
            copy.status == self.status,
            copy.headers@ == self.headers@,
            copy.url@ == self.url@,
            copy.body@ == self.body@,
    {
        Response {
            status: self.status,
            headers: self.headers.clone(),
            url: self.url.clone(),
            body: vstd::slice::slice_to_vec(self.body.as_slice()),
        }
    }
}

/// A body is the text that it encodes, and the value that this text spells; a
/// body that encodes no text is refused for both.
pub proof fn law_body_is_decoded(t: Seq<char>, body: Seq<u8>)
    requires
        !vstd::utf8::valid_utf8(body),
    ensures
        text_of_body(vstd::utf8::encode_utf8(t)) == Ok::<Seq<char>, ErrorView>(t),
        json::parsed(t) matches Ok(v) ==> json_of_text(
            text_of_body(vstd::utf8::encode_utf8(t)),
        ) == Ok::<JsonView, ErrorView>(v),
        json::parsed(t) matches Err(m) ==> json_of_text(
            text_of_body(vstd::utf8::encode_utf8(t)),
        ) == Err::<JsonView, ErrorView>(ErrorView::Json(m)),
        text_of_body(body) is Err,
        json_of_text(text_of_body(body)) matches Err(ErrorView::Json(_)),
{
    vstd::utf8::encode_utf8_valid_utf8(t);
    vstd::utf8::encode_utf8_decode_utf8(t);
}

} // verus!
