//! Response status codes.

use crate::text;
use vstd::prelude::*;

verus! {

/// An HTTP response status code. Any number is accepted.
#[derive(Debug, Clone, Copy, PartialEq, Eq, Structural)]
pub struct StatusCode {
    pub code: u16,
}

impl StatusCode {
    pub fn from_u16(code: u16) -> (status: StatusCode)
        ensures
            status.code == code,
    {
        StatusCode { code }
    }

    pub fn as_u16(self) -> (code: u16)
        ensures
            code == self.code,
    {
        self.code
    }

    /// 2xx.
    pub fn is_success(self) -> (yes: bool)
        ensures
            yes == (200 <= self.code < 300),
            yes == (self.code as int / 100 == 2),
    {
        200 <= self.code && self.code < 300
    }

    /// 4xx.
    pub fn is_client_error(self) -> (yes: bool)
        ensures
            yes == (400 <= self.code < 500),
            yes == (self.code as int / 100 == 4),
    {
        400 <= self.code && self.code < 500
    }

    /// 5xx.
    pub fn is_server_error(self) -> (yes: bool)
        ensures
            yes == (500 <= self.code < 600),
            yes == (self.code as int / 100 == 5),
    {
        500 <= self.code && self.code < 600
    }

    /// The code in decimal.
    pub fn to_string(self) -> (s: String)
        ensures
            s@ == text::decimal(self.code as nat),
    {
        text::decimal_text(self.code as u128)
    }
}

} // verus!
