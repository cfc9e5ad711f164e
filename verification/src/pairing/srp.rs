//! SRP-6a client state for transient HomeKit pair-setup.
//!
//! Pair-setup transports the public values and proofs over TLV8, but SRP itself
//! is independent of that framing. This module owns the ephemeral client state
//! across M2 through M4 and exposes only the values needed by the pairing flow.

use vstd::prelude::*;

use crate::error::Error;
use crate::text::{decimal_text, text_concat, text_with_number};

verus! {

/// SRP identity used by transient pair-setup (its UTF-8 bytes).
pub const USERNAME: &'static str = "Pair-Setup";

/// Fixed setup code used by PIN-less transient pairing (its UTF-8 bytes).
pub const TRANSIENT_PASSWORD: &'static str = "3939";

/// The G3072 modulus is exactly 384 bytes; a well-formed `B` never exceeds that.
/// An oversized value from a malformed or hostile receiver would otherwise
/// force unbounded bignum work before any validation runs.
pub const MAX_SERVER_PUBLIC_LEN: usize = 384;

/// RFC5054 salts are typically 16 bytes; this is generous headroom, not a
/// protocol limit. It exists only to keep a malformed `salt` from growing
/// unboundedly on the way into the identity hash.
pub const MAX_SALT_LEN: usize = 256;

/// The state the `srp` crate keeps after processing the receiver's challenge
/// (`SrpClientVerifier<Sha512>`). Its type cannot be named in verified code
/// (`Sha512` expands into `digest` and `typenum` internals), so it is held
/// here, opaque to Verus; `srp_verifier_state` names what it holds.
#[verifier::external_body]
pub struct SrpVerifier {
    inner: srp::client::SrpClientVerifier<sha2::Sha512>,
}

/// What a verifier holds, as the `srp` crate computed it: the client proof
/// `M1`, the server proof it expects (`M2`), and the session key.
pub uninterp spec fn srp_verifier_state(v: SrpVerifier) -> (Seq<u8>, Seq<u8>, Seq<u8>);

/// What `SrpClient::process_reply` (SHA-512, RFC 5054 3072-bit group) makes
/// of the private ephemeral, identity, password, salt and the receiver's
/// public value: nothing when the receiver's value is rejected, else the
/// (M1, M2, key) that the verifier holds.
pub uninterp spec fn srp_handshake(
    secret: Seq<u8>,
    username: Seq<u8>,
    password: Seq<u8>,
    salt: Seq<u8>,
    server_public: Seq<u8>,
) -> Option<(Seq<u8>, Seq<u8>, Seq<u8>)>;

/// `g^a mod N` for the private ephemeral `a`, as big-endian bytes without
/// leading zeros (`SrpClient::compute_public_ephemeral`).
pub uninterp spec fn srp_client_public(secret: Seq<u8>) -> Seq<u8>;

/// `rand::fill` on a fresh 32-byte array. Nothing is claimed of the bytes:
/// they come from the thread-local random generator.
#[verifier::external_body]
fn fresh_secret() -> (s: [u8; 32]) {
    let mut secret = [0_u8; 32];
    rand::fill(&mut secret);
    secret
}

/// `SrpClient::<Sha512>::compute_public_ephemeral` in the 3072-bit group.
/// Claimed: the result is `srp_client_public` of the secret.
#[verifier::external_body]
fn srp_public_ephemeral(secret: &[u8]) -> (p: Vec<u8>)
    ensures
        p@ == srp_client_public(secret@),
{
    srp::client::SrpClient::<sha2::Sha512>::new(&srp::groups::G_3072).compute_public_ephemeral(
        secret,
    )
}

/// Every byte is zero: the number it spells is zero.
pub open spec fn all_zero(s: Seq<u8>) -> bool {
    forall|i: int| 0 <= i < s.len() ==> s[i] == 0
}

/// `SrpClient::<Sha512>::process_reply` in the 3072-bit group. Claimed: it
/// fails exactly when `srp_handshake` is nothing, and then with the text of
/// `SrpAuthError::IllegalParameter("b_pub")`, its only error; otherwise the
/// verifier holds what `srp_handshake` names. It fails whenever the
/// receiver's value is zero modulo the group's prime, so in particular when
/// all its bytes are zero; the full condition (the value equal to the prime
/// itself) is left inside `srp_handshake`.
#[verifier::external_body]
fn srp_process_reply(
    secret: &[u8],
    username: &[u8],
    password: &[u8],
    salt: &[u8],
    server_public: &[u8],
) -> (r: Result<SrpVerifier, String>)
    ensures
        match r {
            Ok(v) => srp_handshake(secret@, username@, password@, salt@, server_public@) == Some(
                srp_verifier_state(v),
            ),
            Err(m) => srp_handshake(secret@, username@, password@, salt@, server_public@) is None
                && m@ == "illegal_parameter: bad 'b_pub' value"@,
        },
        all_zero(server_public@) ==> r is Err,
{
    srp::client::SrpClient::<sha2::Sha512>::new(&srp::groups::G_3072)
        .process_reply(secret, username, password, salt, server_public)
        .map(|inner| SrpVerifier { inner })
        .map_err(|e| e.to_string())
}

/// `SrpClientVerifier::proof`. Claimed: the client proof M1 it holds.
#[verifier::external_body]
fn verifier_proof(v: &SrpVerifier) -> (p: Vec<u8>)
    ensures
        p@ == srp_verifier_state(*v).0,
{
    v.inner.proof().to_vec()
}

/// `SrpClientVerifier::verify_server`. Claimed: it succeeds exactly when the
/// reply equals the M2 it holds, and otherwise fails with the text of
/// `SrpAuthError::BadRecordMac("server")`, its only error.
#[verifier::external_body]
fn verifier_verify_server(v: &SrpVerifier, reply: &[u8]) -> (r: Result<(), String>)
    ensures
        match r {
            Ok(()) => reply@ == srp_verifier_state(*v).1,
            Err(m) => reply@ != srp_verifier_state(*v).1
                && m@ == "bad_record_mac: incorrect 'server'  proof"@,
        },
{
    v.inner.verify_server(reply).map_err(|e| e.to_string())
}

/// `SrpClientVerifier::key`. Claimed: the session key it holds.
#[verifier::external_body]
fn verifier_key(v: &SrpVerifier) -> (k: Vec<u8>)
    ensures
        k@ == srp_verifier_state(*v).2,
{
    v.inner.key().to_vec()
}

/// The message of an `Error::Pairing` for an SRP failure text.
pub open spec fn srp_message(m: Seq<char>) -> Seq<char> {
    "srp: "@ + m
}

fn pairing_error(m: &str) -> (e: Error)
    ensures
        e matches Error::Pairing(t) && t@ == srp_message(m@),
{
    Error::Pairing(text_concat("srp: ", m))
}

/// Stateful SRP-6a client for one pair-setup exchange.
pub struct SrpClient {
    secret: [u8; 32],
    verifier: Option<SrpVerifier>,
}

/// The client as the contracts see it: the private ephemeral, and what the
/// last successful challenge left for M4 verification, if anything.
pub struct SrpClientView {
    pub secret: Seq<u8>,
    pub exchange: Option<(Seq<u8>, Seq<u8>, Seq<u8>)>,
}

impl View for SrpClient {
    type V = SrpClientView;

    closed spec fn view(&self) -> SrpClientView {
        SrpClientView {
            secret: self.secret@,
            exchange: match self.verifier {
                Some(v) => Some(srp_verifier_state(v)),
                None => None,
            },
        }
    }
}

/// The outcome of a challenge with valid lengths, the fresh ephemeral being
/// `secret`.
pub open spec fn challenge_result(
    secret: Seq<u8>,
    username: Seq<u8>,
    password: Seq<u8>,
    salt: Seq<u8>,
    server_public: Seq<u8>,
) -> Option<(Seq<u8>, Seq<u8>, Seq<u8>)> {
    srp_handshake(secret, username, password, salt, server_public)
}

impl SrpClient {
    /// Begin an exchange with a fresh 256-bit private ephemeral value.
    pub fn new() -> (c: SrpClient)
        ensures
            c@.exchange is None,
            c@.secret.len() == 32,
    {
        SrpClient { secret: fresh_secret(), verifier: None }
    }

    /// The current private ephemeral value.
    pub fn ephemeral(&self) -> (s: [u8; 32])
        ensures
            s@ == self@.secret,
    {
        self.secret
    }

    /// Answer a challenge whose lengths are valid with the private ephemeral
    /// `secret`: the client keeps `secret`, and what the exchange leaves for
    /// M4 verification is what SRP makes of it and the challenge.
    pub fn answer_challenge(
        &mut self,
        secret: [u8; 32],
        username: &[u8],
        password: &[u8],
        salt: &[u8],
        server_public: &[u8],
    ) -> (r: Result<(Vec<u8>, Vec<u8>), Error>)
        requires
            1 <= server_public@.len() <= MAX_SERVER_PUBLIC_LEN,
            1 <= salt@.len() <= MAX_SALT_LEN,
        ensures
            final(self)@.secret == secret@,
            final(self)@.exchange == challenge_result(
                secret@,
                username@,
                password@,
                salt@,
                server_public@,
            ),
            match r {
                Ok((public, proof)) => public@ == srp_client_public(secret@) && (challenge_result(
                    secret@,
                    username@,
                    password@,
                    salt@,
                    server_public@,
                ) matches Some(o) && proof@ == o.0),
                Err(e) => challenge_result(secret@, username@, password@, salt@, server_public@)
                    is None && (e matches Error::Pairing(m) && m@ == srp_message(
                    "illegal_parameter: bad 'b_pub' value"@,
                )),
            },
            all_zero(server_public@) ==> r is Err,
    {
        self.verifier = None;
        self.secret = secret;
        let client_public = srp_public_ephemeral(&self.secret);
        let verifier = match srp_process_reply(
            &self.secret,
            username,
            password,
            salt,
            server_public,
        ) {
            Ok(v) => v,
            Err(m) => {
                return Err(pairing_error(m.as_str()));
            },
        };
        let client_proof = verifier_proof(&verifier);
        self.verifier = Some(verifier);
        Ok((client_public, client_proof))
    }

    /// Consume M2 and produce the public value and proof carried by M3.
    ///
    /// A fresh ephemeral exponent is drawn on every call that gets past the
    /// length checks: SRP's security argument assumes each exchange uses an
    /// independent private value, so a retried challenge on the same client
    /// must not reuse the one from `new` or an earlier attempt.
    pub fn process_challenge(
        &mut self,
        username: &[u8],
        password: &[u8],
        salt: &[u8],
        server_public: &[u8],
    ) -> (r: Result<(Vec<u8>, Vec<u8>), Error>)
        ensures
            final(self)@.secret.len() == 32,
            server_public@.len() == 0 || server_public@.len() > MAX_SERVER_PUBLIC_LEN ==> {
                &&& final(self)@ == (SrpClientView { exchange: None, ..old(self)@ })
                &&& r matches Err(Error::Pairing(m)) && m@
                    == "srp: server public value has invalid length "@ + decimal_text(
                    server_public@.len(),
                )
            },
            !(server_public@.len() == 0 || server_public@.len() > MAX_SERVER_PUBLIC_LEN) && (
            salt@.len() == 0 || salt@.len() > MAX_SALT_LEN) ==> {
                &&& final(self)@ == (SrpClientView { exchange: None, ..old(self)@ })
                &&& r matches Err(Error::Pairing(m)) && m@ == "srp: salt has invalid length "@
                    + decimal_text(salt@.len())
            },
            1 <= server_public@.len() <= MAX_SERVER_PUBLIC_LEN && 1 <= salt@.len() <= MAX_SALT_LEN
                ==> {
                let outcome = challenge_result(
                    final(self)@.secret,
                    username@,
                    password@,
                    salt@,
                    server_public@,
                );
                &&& final(self)@.exchange == outcome
                &&& match r {
                    Ok((public, proof)) => public@ == srp_client_public(final(self)@.secret) && (
                    outcome matches Some(o) && proof@ == o.0),
                    Err(e) => outcome is None && (e matches Error::Pairing(m) && m@ == srp_message(
                        "illegal_parameter: bad 'b_pub' value"@,
                    )),
                }
                &&& all_zero(server_public@) ==> r is Err
            },
    {
        // A failed replacement challenge must not leave an earlier exchange
        // available for M4 verification.
        self.verifier = None;

        if server_public.len() == 0 || server_public.len() > MAX_SERVER_PUBLIC_LEN {
            return Err(
                Error::Pairing(
                    text_with_number(
                        "srp: server public value has invalid length ",
                        server_public.len() as u64,
                    ),
                ),
            );
        }
        if salt.len() == 0 || salt.len() > MAX_SALT_LEN {
            return Err(
                Error::Pairing(text_with_number("srp: salt has invalid length ", salt.len() as u64)),
            );
        }
        let secret = fresh_secret();
        self.answer_challenge(secret, username, password, salt, server_public)
    }

    /// Authenticate M4 and return the SRP session key used as HKDF input.
    pub fn verify_server(&self, server_proof: &[u8]) -> (r: Result<Vec<u8>, Error>)
        ensures
            match self@.exchange {
                None => r matches Err(Error::Pairing(m)) && m@
                    == "srp: no challenge has been processed"@,
                Some(x) => if server_proof@ == x.1 {
                    r matches Ok(key) && key@ == x.2
                } else {
                    r matches Err(Error::Pairing(m)) && m@ == srp_message(
                        "bad_record_mac: incorrect 'server'  proof"@,
                    )
                },
            },
    {
        let verifier = match &self.verifier {
            Some(v) => v,
            None => {
                return Err(Error::Pairing(String::from_str("srp: no challenge has been processed")));
            },
        };
        match verifier_verify_server(verifier, server_proof) {
            Ok(()) => Ok(verifier_key(verifier)),
            Err(m) => Err(pairing_error(m.as_str())),
        }
    }
}

impl Default for SrpClient {
    fn default() -> (c: SrpClient)
        ensures
            c@.exchange is None,
            c@.secret.len() == 32,
    {
        SrpClient::new()
    }
}

} // verus!
