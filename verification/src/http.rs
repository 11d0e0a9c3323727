//! HTTP requests and responses as plain values, independent of the client
//! that sends them.
use vstd::prelude::*;
use vstd::string::*;
use serde_json::Value;
use crate::graph::pairs_view;

verus! {

/// Why an HTTP exchange failed.
#[derive(Debug)]
pub enum HttpAdapterError {
    /// The request could not be sent or answered.
    RequestFailed(String),
    /// The response body could not be parsed.
    ParseError(String),
    /// The exchange took too long.
    Timeout(String),
}

/// The text of an HTTP error.
pub open spec fn http_error_text(e: HttpAdapterError) -> Seq<char> {
    match e {
        HttpAdapterError::RequestFailed(m) => "Request failed: "@ + m@,
        HttpAdapterError::ParseError(m) => "Response parse error: "@ + m@,
        HttpAdapterError::Timeout(m) => "Timeout: "@ + m@,
    }
}

impl HttpAdapterError {
    /// The text of the error.
    pub fn message(&self) -> (r: String)
        ensures
            r@ == http_error_text(*self),
    {
        let (head, m) = match self {
            HttpAdapterError::RequestFailed(m) => ("Request failed: ", m),
            HttpAdapterError::ParseError(m) => ("Response parse error: ", m),
            HttpAdapterError::Timeout(m) => ("Timeout: ", m),
        };
        let mut r = String::from_str(head);
        r.append(m.as_str());
        r
    }
}

/// HTTP methods.
#[derive(Debug, Clone, Copy, PartialEq, Eq, Structural)]
pub enum HttpMethod {
    Get,
    Post,
    Put,
    Delete,
}

/// An HTTP request.
#[derive(Debug)]
pub struct HttpRequest {
    pub method: HttpMethod,
    pub url: String,
    pub headers: Vec<(String, String)>,
    pub body: Option<Value>,
    pub timeout_secs: u64,
}

impl HttpRequest {
    /// A GET request for `url` with no headers and a 30 second timeout.
    pub fn get(url: String) -> (r: HttpRequest)
        ensures
            r.method == HttpMethod::Get,
            r.url == url,
            r.headers@.len() == 0,
            r.body is None,
            r.timeout_secs == 30,
    {
        HttpRequest { method: HttpMethod::Get, url, headers: Vec::new(), body: None, timeout_secs: 30 }
    }

    /// A POST request of `body` to `url` with no headers and a 30 second
    /// timeout.
    pub fn post(url: String, body: Value) -> (r: HttpRequest)
        ensures
            r.method == HttpMethod::Post,
            r.url == url,
            r.headers@.len() == 0,
            r.body == Some(body),
            r.timeout_secs == 30,
    {
        HttpRequest { method: HttpMethod::Post, url, headers: Vec::new(), body: Some(body), timeout_secs: 30 }
    }

    /// The request with one more header.
    pub fn with_header(self, key: &str, value: &str) -> (r: HttpRequest)
        ensures
            pairs_view(r.headers@) == pairs_view(self.headers@).push((key@, value@)),
            r.method == self.method,
            r.url == self.url,
            r.body == self.body,
            r.timeout_secs == self.timeout_secs,
    {
        let mut s = self;
        let ghost before = pairs_view(s.headers@);
        s.headers.push((String::from_str(key), String::from_str(value)));
        proof {
            assert(pairs_view(s.headers@) =~= before.push((key@, value@)));
        }
        s
    }

    /// The request with its timeout replaced.
    pub fn with_timeout(self, secs: u64) -> (r: HttpRequest)
        ensures
            r.timeout_secs == secs,
            r.method == self.method,
            r.url == self.url,
            r.headers == self.headers,
            r.body == self.body,
    {
        let mut s = self;
        s.timeout_secs = secs;
        s
    }
}

/// An HTTP response.
#[derive(Debug)]
pub struct HttpResponse {
    pub status: u16,
    pub headers: Vec<(String, String)>,
    pub body: Value,
}

} // verus!
