//! Trusted boundary to the Ed25519 implementation, the random source and the
//! clock. Each wrapper's contract states only what the outside code plainly
//! guarantees; everything built on top of it is verified.

use vstd::prelude::*;

use ed25519_dalek::Signer;
use ed25519_dalek::Verifier;
use rand::RngCore;

verus! {

/// The 32-byte verifying key derived from a 32-byte signing key.
pub uninterp spec fn pub_key_of(sk: Seq<u8>) -> Seq<u8>;

/// The 64-byte Ed25519 signature of `msg` under the signing key `sk`.
pub uninterp spec fn sig_of(sk: Seq<u8>, msg: Seq<u8>) -> Seq<u8>;

/// Whether `sig` verifies over `msg` under the verifying key `pk`.
pub uninterp spec fn sig_valid(pk: Seq<u8>, msg: Seq<u8>, sig: Seq<u8>) -> bool;

/// Whether 32 bytes decode into a verifying key (a curve point).
pub uninterp spec fn pubkey_ok(pk: Seq<u8>) -> bool;

/// Whether a millisecond timestamp lies in the range the calendar library
/// can represent.
pub uninterp spec fn millis_in_range(millis: i64) -> bool;

/// Relies on ed25519_dalek::SigningKey::sign: deterministic in key and
/// message (RFC 8032), 64 bytes, and verifying under the derived key.
#[verifier::external_body]
pub fn sign_bytes(sk: &Vec<u8>, msg: &Vec<u8>) -> (r: Vec<u8>)
    requires
        sk@.len() == 32,
    ensures
        r@ == sig_of(sk@, msg@),
        r@.len() == 64,
        sig_valid(pub_key_of(sk@), msg@, r@),
{
    let key = ed25519_dalek::SigningKey::from_bytes(sk[..].try_into().unwrap());
    key.sign(msg).to_bytes().to_vec()
}

/// Relies on ed25519_dalek::SigningKey::verifying_key: deterministic in the
/// key bytes, 32 bytes long, and its bytes decode back into a verifying key.
#[verifier::external_body]
pub fn public_key_of(sk: &Vec<u8>) -> (r: Vec<u8>)
    requires
        sk@.len() == 32,
    ensures
        r@ == pub_key_of(sk@),
        r@.len() == 32,
        pubkey_ok(r@),
{
    let key = ed25519_dalek::SigningKey::from_bytes(sk[..].try_into().unwrap());
    key.verifying_key().to_bytes().to_vec()
}

/// Outcome of checking one frame signature.
pub enum SigCheck {
    /// The 32 key bytes are not a curve point.
    BadKey,
    /// The key is fine but the signature does not verify.
    BadSig,
    /// The signature verifies.
    Valid,
}

/// Relies on ed25519_dalek::VerifyingKey::from_bytes (fails exactly when the
/// 32 bytes are no curve point) and VerifyingKey::verify (deterministic in
/// key, message and signature bytes).
#[verifier::external_body]
pub fn check_signature(pk: &Vec<u8>, msg: &Vec<u8>, sig: &Vec<u8>) -> (r: SigCheck)
    requires
        pk@.len() == 32,
        sig@.len() == 64,
    ensures
        (r is BadKey) == !pubkey_ok(pk@),
        (r is Valid) == (pubkey_ok(pk@) && sig_valid(pk@, msg@, sig@)),
{
    let key = match ed25519_dalek::VerifyingKey::from_bytes(pk[..].try_into().unwrap()) {
        Ok(k) => k,
        Err(_) => return SigCheck::BadKey,
    };
    let signature = ed25519_dalek::Signature::from_slice(sig).unwrap();
    match key.verify(msg, &signature) {
        Ok(()) => SigCheck::Valid,
        Err(_) => SigCheck::BadSig,
    }
}

/// Relies on rand::random: 16 bytes from the thread-local CSPRNG; nothing is
/// promised of their value.
#[verifier::external_body]
pub fn fresh_nonce() -> (r: Vec<u8>)
    ensures
        r@.len() == 16,
{
    rand::random::<[u8; 16]>().to_vec()
}

/// Relies on rand::rng and RngCore::fill_bytes: a fresh 32-byte signing key
/// from the thread-local CSPRNG; nothing is promised of its value.
#[verifier::external_body]
pub fn iroh_secret_key() -> (r: Vec<u8>)
    ensures
        r@.len() == 32,
{
    let mut rng = rand::rng();
    let mut buf = [0u8; 32];
    rng.fill_bytes(&mut buf);
    buf.to_vec()
}

/// Relies on chrono's Utc::now and timestamp_millis: the clock's reading is
/// unspecified, but a value produced by it always converts back
/// (from_timestamp_millis documents the round-trip).
#[verifier::external_body]
pub fn now_millis() -> (r: i64)
    ensures
        millis_in_range(r),
{
    chrono::Utc::now().timestamp_millis()
}

/// Relies on chrono's DateTime::from_timestamp_millis: total, deterministic
/// in `millis`, and `Some` exactly on the representable range. Rendering the
/// instant in the machine's local time zone is left to unverified display
/// code: it depends on the zone, and chrono's formatting path can abort near
/// the edges of the range.
#[verifier::external_body]
pub fn timestamp_representable(millis: i64) -> (r: bool)
    ensures
        r == millis_in_range(millis),
{
    chrono::DateTime::from_timestamp_millis(millis).is_some()
}

} // verus!
