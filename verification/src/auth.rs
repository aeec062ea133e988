//! HMAC-SHA256 challenge-response authentication.
//!
//! Both sides derive the MAC key by hashing the shared passphrase once
//! with SHA-256. The server sends a fresh UUIDv4 nonce; the correct
//! answer is the lowercase hex of HMAC-SHA256(key, nonce-as-16-raw-bytes).
//! The digests themselves come from the `sha2` and `hmac` crates behind
//! trusted wrappers whose results are named, and everything around them —
//! key storage, challenge byte layout, hex tags, accept/reject — is
//! verified against those names.

use vstd::prelude::*;

use crate::hexstr::{hex_decode, hex_encode, hex_of, unhex_of, valid_hex};
use crate::wire::{ClientMsg, ServerMsg};
use hmac::KeyInit;
use hmac::Mac;
use sha2::Digest;
use vstd::string::StringSliceAdditionalSpecFns;

verus! {

/// The SHA-256 digest of `data`; 32 bytes, a function of `data` alone.
pub uninterp spec fn sha256_of(data: Seq<u8>) -> Seq<u8>;

/// The HMAC-SHA256 tag over `msg` under `key`; 32 bytes, a function of
/// its arguments alone.
pub uninterp spec fn hmac_sha256_of(key: Seq<u8>, msg: Seq<u8>) -> Seq<u8>;

/// Relies on `sha2::Sha256` via `Digest::digest`: the one-shot SHA-256
/// digest of the input, always 32 bytes.
#[verifier::external_body]
fn sha256(data: &Vec<u8>) -> (r: Vec<u8>)
    ensures
        r@ == sha256_of(data@),
        r@.len() == 32,
{
    sha2::Sha256::digest(data.as_slice()).to_vec()
}

/// Relies on `hmac::Hmac<Sha256>` via `Mac::new_from_slice` (which accepts
/// any key length), `update` and `finalize`: the HMAC-SHA256 tag of `msg`
/// under `key`, always 32 bytes.
#[verifier::external_body]
fn hmac_sha256(key: &Vec<u8>, msg: &Vec<u8>) -> (r: Vec<u8>)
    ensures
        r@ == hmac_sha256_of(key@, msg@),
        r@.len() == 32,
{
    let mut mac = hmac::Hmac::<sha2::Sha256>::new_from_slice(key.as_slice())
        .expect("HMAC accepts keys of any length");
    mac.update(msg.as_slice());
    mac.finalize().into_bytes().to_vec()
}

/// Relies on `Mac::verify_slice`: accepts exactly a candidate tag equal
/// to HMAC-SHA256(key, msg) — it rejects on any length or byte mismatch,
/// comparing in constant time. The tag it compares against is 32 bytes.
#[verifier::external_body]
fn hmac_verify(key: &Vec<u8>, msg: &Vec<u8>, tag: &Vec<u8>) -> (r: bool)
    ensures
        r == (tag@ == hmac_sha256_of(key@, msg@)),
        r ==> tag@.len() == 32,
{
    let mut mac = hmac::Hmac::<sha2::Sha256>::new_from_slice(key.as_slice())
        .expect("HMAC accepts keys of any length");
    mac.update(msg.as_slice());
    mac.verify_slice(tag.as_slice()).is_ok()
}

/// The big-endian base-256 digits of `v`, `n` bytes long.
pub open spec fn be_bytes_of(v: nat, n: nat) -> Seq<u8>
    decreases n,
{
    if n == 0 {
        Seq::empty()
    } else {
        be_bytes_of(v / 256, (n - 1) as nat).push((v % 256) as u8)
    }
}

/// The 16 raw bytes of a UUID value, most significant first — the byte
/// layout `uuid` gives a nonce before it is MACed.
pub fn id_to_bytes(v: u128) -> (r: Vec<u8>)
    ensures
        r@ == be_bytes_of(v as nat, 16),
        r@.len() == 16,
{
    id_bytes_rec(v, 16)
}

fn id_bytes_rec(v: u128, n: u8) -> (r: Vec<u8>)
    ensures
        r@ == be_bytes_of(v as nat, n as nat),
        r@.len() == n as nat,
    decreases n,
{
    if n == 0 {
        Vec::new()
    } else {
        let mut r = id_bytes_rec(v / 256, n - 1);
        r.push((v % 256) as u8);
        r
    }
}

/// Reasons an authentication handshake fails.
#[derive(Clone, Copy, PartialEq, Eq, Structural, Debug)]
pub enum AuthError {
    /// The tag did not match: reported as the opaque "invalid secret".
    InvalidSecret,
    /// The peer sent something other than `Authenticate`.
    ExpectedAuthenticate,
    /// The peer sent something other than `Challenge`.
    ExpectedChallenge,
}

impl AuthError {
    /// The reason string for this failure, as the server reports it.
    pub open spec fn spec_message(self) -> Seq<u8> {
        match self {
            AuthError::InvalidSecret => "invalid secret".spec_bytes(),
            AuthError::ExpectedAuthenticate => "expected Authenticate message".spec_bytes(),
            AuthError::ExpectedChallenge => "expected Challenge from server".spec_bytes(),
        }
    }

    /// Render the reason as bytes for an `Error` message or a log line.
    pub fn message(&self) -> (r: Vec<u8>)
        ensures
            r@ == self.spec_message(),
    {
        match self {
            AuthError::InvalidSecret => crate::bytes::copy_slice("invalid secret".as_bytes()),
            AuthError::ExpectedAuthenticate => crate::bytes::copy_slice(
                "expected Authenticate message".as_bytes(),
            ),
            AuthError::ExpectedChallenge => crate::bytes::copy_slice(
                "expected Challenge from server".as_bytes(),
            ),
        }
    }
}

/// Shared-secret authenticator; immutable once constructed.
pub struct Auth {
    key: Vec<u8>,
}

impl Auth {
    /// The derived MAC key.
    pub closed spec fn key_view(&self) -> Seq<u8> {
        self.key@
    }

    /// Derive the MAC key: one SHA-256 of the passphrase.
    pub fn new(secret: &Vec<u8>) -> (r: Auth)
        ensures
            r.key_view() == sha256_of(secret@),
    {
        Auth { key: sha256(secret) }
    }

    /// The correct answer to `challenge`: lowercase hex of the 32-byte
    /// MAC over the challenge's 16 raw bytes — 64 hex characters.
    pub fn answer(&self, challenge: u128) -> (r: Vec<u8>)
        ensures
            r@ == hex_of(hmac_sha256_of(self.key_view(), be_bytes_of(challenge as nat, 16))),
            r@.len() == 64,
    {
        let msg = id_to_bytes(challenge);
        let mac = hmac_sha256(&self.key, &msg);
        proof {
            crate::hexstr::lemma_unhex_hex(mac@);
        }
        hex_encode(&mac)
    }

    /// Accept exactly a tag that is well-formed hex denoting the 32-byte
    /// MAC of the challenge bytes. Malformed hex, and hex of any other
    /// length or value, is rejected.
    pub fn validate(&self, challenge: u128, tag: &Vec<u8>) -> (r: bool)
        ensures
            r == (valid_hex(tag@) && unhex_of(tag@) == hmac_sha256_of(
                self.key_view(),
                be_bytes_of(challenge as nat, 16),
            )),
            unhex_of(tag@).len() != 32 ==> !r,
            tag@.len() != 64 ==> !r,
    {
        let msg = id_to_bytes(challenge);
        match hex_decode(tag) {
            Some(raw) => {
                let ok = hmac_verify(&self.key, &msg, &raw);
                proof {
                    if tag@.len() != 64 {
                        crate::hexstr::lemma_hex_len(tag@);
                    }
                }
                ok
            },
            None => false,
        }
    }

    /// Server side of the handshake, after it sent `Challenge(challenge)`:
    /// judge the client's reply. Only an `Authenticate` carrying the
    /// 64-character hex of the right 32-byte MAC passes; a wrong tag is
    /// "invalid secret", any other message a protocol violation.
    pub fn check_response(&self, challenge: u128, msg: &ClientMsg) -> (r: Result<
        (),
        AuthError,
    >)
        ensures
            r is Ok <==> (msg matches ClientMsg::Authenticate(tag) && valid_hex(tag@) && unhex_of(
                tag@,
            ) == hmac_sha256_of(self.key_view(), be_bytes_of(challenge as nat, 16))),
            (msg matches ClientMsg::Authenticate(tag) && (tag@.len() != 64 || unhex_of(
                tag@,
            ).len() != 32)) ==> r is Err,
            r is Err ==> r->Err_0 == (if msg is Authenticate {
                AuthError::InvalidSecret
            } else {
                AuthError::ExpectedAuthenticate
            }),
    {
        match msg {
            ClientMsg::Authenticate(tag) => {
                if self.validate(challenge, tag) {
                    Ok(())
                } else {
                    Err(AuthError::InvalidSecret)
                }
            },
            _ => Err(AuthError::ExpectedAuthenticate),
        }
    }

    /// Client side of the handshake: answer a `Challenge`, refuse any
    /// other first message.
    pub fn respond(&self, msg: &ServerMsg) -> (r: Result<ClientMsg, AuthError>)
        ensures
            r is Ok <==> msg is Challenge,
            msg matches ServerMsg::Challenge(c) ==> (r matches Ok(m) && m matches
                ClientMsg::Authenticate(tag) && tag@ == hex_of(
                hmac_sha256_of(self.key_view(), be_bytes_of(c as nat, 16)),
            )),
            r is Err ==> r->Err_0 == AuthError::ExpectedChallenge,
    {
        match msg {
            ServerMsg::Challenge(c) => Ok(ClientMsg::Authenticate(self.answer(*c))),
            _ => Err(AuthError::ExpectedChallenge),
        }
    }
}

/// A correct answer always validates: encoding the MAC as hex and
/// decoding it again yields the MAC itself.
pub proof fn lemma_answer_validates(key: Seq<u8>, challenge_bytes: Seq<u8>)
    ensures
        valid_hex(hex_of(hmac_sha256_of(key, challenge_bytes))),
        unhex_of(hex_of(hmac_sha256_of(key, challenge_bytes))) == hmac_sha256_of(
            key,
            challenge_bytes,
        ),
{
    crate::hexstr::lemma_unhex_hex(hmac_sha256_of(key, challenge_bytes));
}

} // verus!
