//! Trusted boundary to the cryptographic primitives: SHA-512 digests,
//! BLS signature aggregation and verification, and Ed25519 verification.
//!
//! Each wrapper makes one outside call on plain byte values. What a call
//! returns is a function of its arguments alone, so each result is given a
//! name (an uninterpreted spec function); the verified logic reasons over
//! those names and never looks inside the cryptography.

use ed25519_dalek::Digest as ShaDigest;
use ed25519_dalek::Verifier;
use vstd::prelude::*;

verus! {

/// The SHA-512 hash of `bytes`, truncated to its first 32 bytes.
pub uninterp spec fn sha512_trunc32_of(bytes: Seq<u8>) -> Seq<u8>;

/// The BLS aggregate (group sum) of two compressed G2 signatures, or the
/// empty sequence when either input is not a valid compressed point.
pub uninterp spec fn aggregated_sig_of(a: Seq<u8>, b: Seq<u8>) -> Seq<u8>;

/// The BLS combination (group sum) of two compressed G1 public keys, or
/// the empty sequence when either input is not a valid compressed point.
pub uninterp spec fn combined_key_of(a: Seq<u8>, b: Seq<u8>) -> Seq<u8>;

/// Whether `sig` is a valid BLS signature over `msg` under the public key
/// `pk`; false when either byte string is malformed.
pub uninterp spec fn bls_verifies(pk: Seq<u8>, sig: Seq<u8>, msg: Seq<u8>) -> bool;

/// Whether `sig` is a valid Ed25519 signature over `msg` under the public
/// key `pk`; false when either byte string is malformed.
pub uninterp spec fn ed_verifies(pk: Seq<u8>, sig: Seq<u8>, msg: Seq<u8>) -> bool;

/// Relies on ed25519_dalek::Sha512 (the SHA-512 implementation it
/// re-exports): hashes the input and keeps the first 32 of the 64 output
/// bytes. The result depends on the input bytes alone.
#[verifier::external_body]
pub fn sha512_trunc32(bytes: &Vec<u8>) -> (r: Vec<u8>)
    ensures
        r@ == sha512_trunc32_of(bytes@),
        r@.len() == 32,
{
    let mut hasher = ed25519_dalek::Sha512::new();
    hasher.update(bytes.as_slice());
    hasher.finalize()[..32].to_vec()
}

/// Relies on blstrs::G2Projective (re-exported by blsttc): decompresses
/// both signatures, adds the curve points, and compresses the sum. The
/// result depends on the input bytes alone; invalid points give the empty
/// vector, which no verification will accept.
#[verifier::external_body]
pub fn bls_aggregate_pair(a: &Vec<u8>, b: &Vec<u8>) -> (r: Vec<u8>)
    ensures
        r@ == aggregated_sig_of(a@, b@),
{
    let pa: Option<blsttc::blstrs::G2Projective> = match <[u8; 96]>::try_from(a.as_slice()) {
        Ok(x) => blsttc::blstrs::G2Projective::from_compressed(&x).into(),
        Err(_) => None,
    };
    let pb: Option<blsttc::blstrs::G2Projective> = match <[u8; 96]>::try_from(b.as_slice()) {
        Ok(x) => blsttc::blstrs::G2Projective::from_compressed(&x).into(),
        Err(_) => None,
    };
    match (pa, pb) {
        (Some(x), Some(y)) => (x + y).to_compressed().to_vec(),
        _ => Vec::new(),
    }
}

/// Relies on blstrs::G1Projective (re-exported by blsttc): decompresses
/// both public keys, adds the curve points, and compresses the sum. The
/// result depends on the input bytes alone; invalid points give the empty
/// vector, under which no signature verifies.
#[verifier::external_body]
pub fn bls_combine_pair(a: &Vec<u8>, b: &Vec<u8>) -> (r: Vec<u8>)
    ensures
        r@ == combined_key_of(a@, b@),
{
    let pa: Option<blsttc::blstrs::G1Projective> = match <[u8; 48]>::try_from(a.as_slice()) {
        Ok(x) => blsttc::blstrs::G1Projective::from_compressed(&x).into(),
        Err(_) => None,
    };
    let pb: Option<blsttc::blstrs::G1Projective> = match <[u8; 48]>::try_from(b.as_slice()) {
        Ok(x) => blsttc::blstrs::G1Projective::from_compressed(&x).into(),
        Err(_) => None,
    };
    match (pa, pb) {
        (Some(x), Some(y)) => (x + y).to_compressed().to_vec(),
        _ => Vec::new(),
    }
}

/// Relies on blsttc::PublicKey::verify: checks the BLS signature over the
/// message under the given public key. The result depends on the input
/// bytes alone; malformed keys or signatures do not verify.
#[verifier::external_body]
pub fn bls_verify(pk: &Vec<u8>, sig: &Vec<u8>, msg: &Vec<u8>) -> (r: bool)
    ensures
        r == bls_verifies(pk@, sig@, msg@),
{
    let key = match <[u8; 48]>::try_from(pk.as_slice()) {
        Ok(x) => blsttc::PublicKey::from_bytes(x).ok(),
        Err(_) => None,
    };
    let signature = match <[u8; 96]>::try_from(sig.as_slice()) {
        Ok(x) => blsttc::Signature::from_bytes(x).ok(),
        Err(_) => None,
    };
    match (key, signature) {
        (Some(k), Some(s)) => k.verify(&s, msg.as_slice()),
        _ => false,
    }
}

/// Relies on ed25519_dalek::VerifyingKey::verify: checks the Ed25519
/// signature over the message under the given public key. The result
/// depends on the input bytes alone; malformed keys or signatures do not
/// verify.
#[verifier::external_body]
pub fn ed25519_verify(pk: &Vec<u8>, sig: &Vec<u8>, msg: &Vec<u8>) -> (r: bool)
    ensures
        r == ed_verifies(pk@, sig@, msg@),
{
    let key = match <[u8; 32]>::try_from(pk.as_slice()) {
        Ok(x) => ed25519_dalek::VerifyingKey::from_bytes(&x).ok(),
        Err(_) => None,
    };
    let signature = match ed25519_dalek::Signature::from_slice(sig.as_slice()) {
        Ok(s) => Some(s),
        Err(_) => None,
    };
    match (key, signature) {
        (Some(k), Some(s)) => k.verify(msg.as_slice(), &s).is_ok(),
        _ => false,
    }
}

} // verus!
