//! Crate-wide error type.

use vstd::prelude::*;

use crate::text::text_concat;

verus! {

/// Every fallible operation in openplay reports through this enum.
#[derive(Debug)]
#[non_exhaustive]
pub enum Error {
    /// Underlying I/O failure (sockets, files).
    Io(std::io::Error),
    /// mDNS discovery failed or returned nothing usable.
    Discovery(String),
    /// RTSP request/response could not be built or parsed.
    Rtsp(String),
    /// Pairing handshake failed.
    Pairing(String),
    /// Cryptographic operation failed.
    Crypto(String),
    /// A protocol invariant was violated by the peer or by us.
    Protocol(String),
}

#[verifier::external_type_specification]
#[verifier::external_body]
pub struct ExIoError(std::io::Error);

/// The `Display` text of an I/O error. Nothing is claimed of it: it is the
/// operating system's wording.
#[verifier::external_body]
fn io_error_text(e: &std::io::Error) -> String {
    e.to_string()
}

/// `s` starts with `p`.
pub open spec fn has_prefix(s: Seq<char>, p: Seq<char>) -> bool {
    p.len() <= s.len() && s.take(p.len() as int) == p
}

impl Error {
    /// The error as one line of text: its kind, a colon, and its detail.
    pub fn message(&self) -> (s: String)
        ensures
            match self {
                Error::Io(_) => has_prefix(s@, "io: "@),
                Error::Discovery(m) => s@ == "discovery: "@ + m@,
                Error::Rtsp(m) => s@ == "rtsp: "@ + m@,
                Error::Pairing(m) => s@ == "pairing: "@ + m@,
                Error::Crypto(m) => s@ == "crypto: "@ + m@,
                Error::Protocol(m) => s@ == "protocol: "@ + m@,
            },
    {
        match self {
            Error::Io(e) => {
                let t = io_error_text(e);
                let s = text_concat("io: ", t.as_str());
                assert(s@.take("io: "@.len() as int) =~= "io: "@);
                s
            },
            Error::Discovery(m) => text_concat("discovery: ", m.as_str()),
            Error::Rtsp(m) => text_concat("rtsp: ", m.as_str()),
            Error::Pairing(m) => text_concat("pairing: ", m.as_str()),
            Error::Crypto(m) => text_concat("crypto: ", m.as_str()),
            Error::Protocol(m) => text_concat("protocol: ", m.as_str()),
        }
    }
}

impl From<std::io::Error> for Error {
    fn from(e: std::io::Error) -> (r: Error)
        ensures
            r == Error::Io(e),
    {
        Error::Io(e)
    }
}

impl vstd::std_specs::convert::FromSpecImpl<std::io::Error> for Error {
    open spec fn obeys_from_spec() -> bool {
        true
    }

    open spec fn from_spec(v: std::io::Error) -> Error {
        Error::Io(v)
    }
}

} // verus!
