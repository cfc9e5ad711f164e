//! RTSP/1.0 message types for the AirPlay control channel.
//!
//! AirPlay speaks RTSP/1.0 over TCP:7000 — even `GET /info` is an RTSP request,
//! not HTTP. Bodies are opaque bytes (usually binary plists or TLV8). This
//! module models a client request and a parsed server response; the wire
//! encode/decode lives in [`codec`].

pub mod codec;
pub mod headers;

use vstd::prelude::*;

pub use codec::parse_response;
pub use headers::Headers;

use headers::HeaderView;

verus! {

/// A request we send to the receiver.
#[derive(Debug, Clone)]
pub struct Request {
    pub method: String,
    pub uri: String,
    pub headers: Headers,
    pub body: Vec<u8>,
}

/// A response parsed from the receiver.
#[derive(Debug, Clone)]
pub struct Response {
    pub status: u16,
    pub reason: String,
    pub headers: Headers,
    pub body: Vec<u8>,
}

/// A response as the contracts see it.
pub struct ResponseView {
    pub status: u16,
    pub reason: Seq<char>,
    pub headers: Seq<HeaderView>,
    pub body: Seq<u8>,
}

impl View for Response {
    type V = ResponseView;

    open spec fn view(&self) -> ResponseView {
        ResponseView {
            status: self.status,
            reason: self.reason@,
            headers: self.headers@,
            body: self.body@,
        }
    }
}

impl Request {
    /// Start a request with the given method and URI (e.g. `GET`, `/info`).
    pub fn new(method: &str, uri: &str) -> (r: Request)
        ensures
            r.method@ == method@,
            r.uri@ == uri@,
            r.headers@ == Seq::<HeaderView>::empty(),
            r.body@ == Seq::<u8>::empty(),
    {
        Request {
            method: String::from_str(method),
            uri: String::from_str(uri),
            headers: Headers::new(),
            body: Vec::new(),
        }
    }

    /// Add a header (builder style).
    pub fn header(self, name: &str, value: &str) -> (r: Request)
        ensures
            r.method == self.method,
            r.uri == self.uri,
            r.headers@ == self.headers@.push((name@, value@)),
            r.body == self.body,
    {
        let mut r = self;
        r.headers.push(name, value);
        r
    }

    /// Attach a body (builder style). `Content-Length` is emitted at encode time.
    pub fn body(self, body: Vec<u8>) -> (r: Request)
        ensures
            r.method == self.method,
            r.uri == self.uri,
            r.headers == self.headers,
            r.body == body,
    {
        let mut r = self;
        r.body = body;
        r
    }

    /// Serialize to the RTSP wire format.
    pub fn encode(&self) -> (out: Vec<u8>)
        ensures
            out@ == codec::request_bytes(self.method@, self.uri@, self.headers@, self.body@),
    {
        codec::encode_request(self)
    }
}

impl Response {
    /// True for a 2xx status.
    pub fn is_success(&self) -> (r: bool)
        ensures
            r == (200 <= self.status < 300),
    {
        200 <= self.status && self.status < 300
    }
}

} // verus!
