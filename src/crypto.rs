//! The digest and signature primitives the ledger relies on: SHA-256,
//! base64 address decoding, and RSA PKCS#1 v1.5 signing and verification.

use rsa::pkcs1::DecodeRsaPublicKey;
use rsa::PublicKey;
use sha2::Digest;
use vstd::prelude::*;

verus! {

#[verifier::external_type_specification]
#[verifier::external_body]
pub struct ExRsaPrivateKey(rsa::RsaPrivateKey);

#[verifier::external_type_specification]
#[verifier::external_body]
pub struct ExRsaError(rsa::errors::Error);

#[verifier::external_type_specification]
#[verifier::external_body]
pub struct ExDecodeError(base64::DecodeError);

/// The SHA-256 digest of a byte string.
pub uninterp spec fn sha256_of(b: Seq<u8>) -> Seq<u8>;

/// Relies on `sha2::Sha256::digest`: a 32-byte digest that depends on the input bytes alone.
#[verifier::external_body]
pub fn sha256(b: &[u8]) -> (r: Vec<u8>)
    ensures
        r@ == sha256_of(b@),
        r@.len() == 32,
{
    sha2::Sha256::digest(b).to_vec()
}

/// The bytes that standard base64 text decodes to, or `None` where it is not valid base64.
pub uninterp spec fn base64_decoded(s: Seq<char>) -> Option<Seq<u8>>;

/// Relies on `base64::decode` with the standard alphabet: the outcome depends on the text alone.
#[verifier::external_body]
pub fn decode_base64(s: &str) -> (r: Result<Vec<u8>, base64::DecodeError>)
    ensures
        match r {
            Ok(v) => base64_decoded(s@) == Some(v@),
            Err(_) => base64_decoded(s@) is None,
        },
{
    base64::decode(s)
}

/// Whether `sig` is a valid PKCS#1 v1.5 signature (no digest prefix) of the digest
/// `hashed` under the RSA public key whose PKCS#1 DER encoding is `key_der`.
/// A key that does not decode verifies nothing.
pub uninterp spec fn pkcs1v15_signature_valid(key_der: Seq<u8>, hashed: Seq<u8>, sig: Seq<u8>) -> bool;

/// Relies on `RsaPublicKey::from_pkcs1_der` to read the key and on `PublicKey::verify`
/// with `PaddingScheme::new_pkcs1v15_sign(None)`: both are deterministic, so the
/// outcome depends on the three byte strings alone.
#[verifier::external_body]
pub fn verify_signature(key_der: &[u8], hashed: &[u8], sig: &[u8]) -> (r: bool)
    ensures
        r == pkcs1v15_signature_valid(key_der@, hashed@, sig@),
{
    match rsa::RsaPublicKey::from_pkcs1_der(key_der) {
        Ok(key) => key.verify(rsa::PaddingScheme::new_pkcs1v15_sign(None), hashed, sig).is_ok(),
        Err(_) => false,
    }
}

/// The PKCS#1 v1.5 signature (no digest prefix) of `hashed` under `key`, or
/// `None` where the key is too small to sign it.
pub uninterp spec fn pkcs1v15_signature_of(key: rsa::RsaPrivateKey, hashed: Seq<u8>) -> Option<Seq<u8>>;

/// Relies on `RsaPrivateKey::sign` with `PaddingScheme::new_pkcs1v15_sign(None)`:
/// signs the digest directly, without blinding, so the outcome depends on the
/// key and the digest alone; fails where the key is too small for it.
#[verifier::external_body]
pub fn sign_digest(key: &rsa::RsaPrivateKey, hashed: &[u8]) -> (r: Result<Vec<u8>, rsa::errors::Error>)
    ensures
        match r {
            Ok(s) => pkcs1v15_signature_of(*key, hashed@) == Some(s@),
            Err(_) => pkcs1v15_signature_of(*key, hashed@) is None,
        },
{
    key.sign(rsa::PaddingScheme::new_pkcs1v15_sign(None), hashed)
}

/// Relies on `SystemTime::now` measured from the Unix epoch, in milliseconds;
/// a clock set before the epoch reads as zero.
#[verifier::external_body]
pub fn clock_millis() -> (r: u128)
{
    std::time::SystemTime::now().duration_since(std::time::UNIX_EPOCH).map_or(0, |d| d.as_millis())
}

} // verus!
