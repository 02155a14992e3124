//! Narrow trusted interface to the cryptographic primitives: sha-256 hashing
//! and ECDSA over secp256k1 (signing, key handling, verification).
//!
//! Every function here is an `external_body` wrapper around one operation of
//! the `k256` crate; the rest of the library works with plain byte values and
//! speaks of the results through the uninterpreted names below.

use vstd::prelude::*;

use k256::ecdsa::signature::DigestSigner;
use k256::ecdsa::signature::DigestVerifier;
use std::hash::BuildHasher;

verus! {

/// The sha-256 digest of a byte string, as computed by `k256::sha2::Sha256`.
pub uninterp spec fn sha256_of(bytes: Seq<u8>) -> Seq<u8>;

/// Whether `k256::ecdsa::SigningKey::from_slice` accepts these bytes as a
/// secret key (a valid non-zero scalar of the right length).
pub uninterp spec fn ecdsa_key_valid(key: Seq<u8>) -> bool;

/// The compressed SEC1 encoding of the public key derived from a secret key.
pub uninterp spec fn ecdsa_pubkey_of(key: Seq<u8>) -> Seq<u8>;

/// The deterministic (RFC 6979) ECDSA signature produced by the secret key
/// over the sha-256 digest of `preimage`, in 64-byte fixed form.
pub uninterp spec fn ecdsa_signature_of(key: Seq<u8>, preimage: Seq<u8>) -> Seq<u8>;

/// The outcome of parsing `pubkey` and `sig` and verifying `sig` against the
/// sha-256 digest of `preimage`; a function of the three byte strings alone.
pub uninterp spec fn ecdsa_verify_of(pubkey: Seq<u8>, preimage: Seq<u8>, sig: Seq<u8>) -> bool;

/// Relies on `k256::sha2::Sha256::digest`: a 32-byte digest determined by the
/// input bytes alone.
#[verifier::external_body]
pub(crate) fn sha256(bytes: &[u8]) -> (r: Vec<u8>)
    ensures
        r@ == sha256_of(bytes@),
        r@.len() == 32,
{
    <k256::sha2::Sha256 as k256::sha2::Digest>::digest(bytes).to_vec()
}

/// Relies on `k256::ecdsa::SigningKey::from_slice`: whether the bytes are a
/// usable secret key.
#[verifier::external_body]
pub(crate) fn ecdsa_check_key(key: &[u8]) -> (r: bool)
    ensures
        r == ecdsa_key_valid(key@),
{
    k256::ecdsa::SigningKey::from_slice(key).is_ok()
}

/// Relies on `k256::ecdsa::SigningKey::verifying_key` (after converting the
/// bytes with `from_slice`): the compressed SEC1 public key bytes.
#[verifier::external_body]
pub(crate) fn ecdsa_public_key(key: &[u8]) -> (r: Vec<u8>)
    requires
        ecdsa_key_valid(key@),
    ensures
        r@ == ecdsa_pubkey_of(key@),
{
    let signing_key = k256::ecdsa::SigningKey::from_slice(key).unwrap();
    signing_key.verifying_key().to_sec1_bytes().to_vec()
}

/// Relies on `k256::ecdsa::SigningKey::sign_digest` over a `Sha256` digest of
/// `preimage`: RFC 6979 signing is deterministic in the key and the digest.
#[verifier::external_body]
pub(crate) fn ecdsa_sign(key: &[u8], preimage: &[u8]) -> (r: Vec<u8>)
    requires
        ecdsa_key_valid(key@),
    ensures
        r@ == ecdsa_signature_of(key@, preimage@),
        r@.len() == 64,
{
    let signing_key = k256::ecdsa::SigningKey::from_slice(key).unwrap();
    let digest = <k256::sha2::Sha256 as k256::sha2::Digest>::new_with_prefix(preimage);
    let signature: k256::ecdsa::Signature = signing_key.sign_digest(digest);
    signature.to_bytes().to_vec()
}

/// Relies on `k256::ecdsa::VerifyingKey::verify_digest` (with
/// `VerifyingKey::from_sec1_bytes` and `Signature::from_slice` converting the
/// arguments; a parse failure of either means `false`): deterministic in the
/// three byte strings.
#[verifier::external_body]
pub(crate) fn ecdsa_verify(pubkey: &[u8], preimage: &[u8], sig: &[u8]) -> (r: bool)
    ensures
        r == ecdsa_verify_of(pubkey@, preimage@, sig@),
{
    let verifying_key = match k256::ecdsa::VerifyingKey::from_sec1_bytes(pubkey) {
        Ok(k) => k,
        Err(_) => return false,
    };
    let signature = match k256::ecdsa::Signature::from_slice(sig) {
        Ok(s) => s,
        Err(_) => return false,
    };
    let digest = <k256::sha2::Sha256 as k256::sha2::Digest>::new_with_prefix(preimage);
    verifying_key.verify_digest(digest, &signature).is_ok()
}

/// Relies on `std::collections::hash_map::RandomState::hash_one`: the
/// stand-in integrity hash the symmetric variant probes in place of a real
/// per-receiver MAC.  The hash is seeded per process, so nothing is promised
/// of the result.
#[verifier::external_body]
pub(crate) fn mock_mac_hash(digest: &[u8]) -> u64 {
    std::collections::hash_map::RandomState::new().hash_one(digest)
}

} // verus!
