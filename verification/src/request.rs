//! Requests that are ready to be sent.

use crate::body::Body;
use crate::header::HeaderMap;
use crate::method::Method;
use crate::url::Url;
use std::time::Duration;
use vstd::prelude::*;

verus! {

/// A fully-assembled request.
#[derive(Debug)]
pub struct Request {
    pub method: Method,
    pub url: Url,
    pub headers: HeaderMap,
    pub body: Body,
    pub timeout: Option<Duration>,
}

impl Request {
    pub fn method(&self) -> (method: Method)
        ensures
            method == self.method,
    {
        self.method
    }

    pub fn url(&self) -> (url: &Url)
        ensures
            *url == self.url,
    {
        &self.url
    }

    pub fn headers(&self) -> (headers: &HeaderMap)
        ensures
            *headers == self.headers,
    {
        &self.headers
    }

    pub fn body(&self) -> (body: &Body)
        ensures
            *body == self.body,
    {
        &self.body
    }

    pub fn timeout(&self) -> (timeout: Option<Duration>)
        ensures
            timeout == self.timeout,
    {
        self.timeout
    }
}

impl Clone for Request {
    fn clone(&self) -> (copy: Self)
        ensures
            copy.method == self.method,
            copy.url@ == self.url@,
            copy.headers@ == self.headers@,
            copy.body@ == self.body@,
            copy.timeout == self.timeout,
    {
        Request {
            method: self.method,
            url: self.url.clone(),
            headers: self.headers.clone(),
            body: self.body.clone(),
            timeout: self.timeout,
        }
    }
}

} // verus!
