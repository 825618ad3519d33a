//! The cryptographic primitives the ledger rests on: SHA-256 digests and
//! ECDSA over secp256k1, both from the `k256` crate, and the wall clock.
//!
//! Keys and signatures cross into the ledger as byte strings: a public key
//! as its SEC1 encoding, a secret key as its 32-byte scalar, a signature as
//! its 64-byte `r || s` form.
use vstd::prelude::*;
use k256::ecdsa::signature::Signer;
use k256::ecdsa::signature::Verifier;
use k256::sha2::Digest;

verus! {

/// The SHA-256 digest of a byte string.
pub uninterp spec fn sha256_of(data: Seq<u8>) -> Seq<u8>;

/// Whether a signature (64-byte form) over a message verifies under a public key
/// (SEC1 encoding).
pub uninterp spec fn ecdsa_accepts(pubkey: Seq<u8>, msg: Seq<u8>, sig: Seq<u8>) -> bool;

/// Whether bytes decode as a secp256k1 secret key; this depends on the bytes
/// alone.
pub uninterp spec fn ecdsa_secret_valid(secret: Seq<u8>) -> bool;

/// The 64-byte signature that a secret key (32 bytes) gives a message.
pub uninterp spec fn ecdsa_signature(secret: Seq<u8>, msg: Seq<u8>) -> Seq<u8>;

/// Relies on `k256::sha2::Sha256::digest`: the 32-byte digest of `data`.
#[verifier::external_body]
pub(crate) fn sha256(data: &Vec<u8>) -> (r: [u8; 32])
    ensures
        r@ == sha256_of(data@),
{
    k256::sha2::Sha256::digest(data.as_slice()).into()
}

/// Relies on `VerifyingKey::from_sec1_bytes`, `Signature::from_slice` and
/// `Verifier::verify`: a key or a signature that does not decode is refused.
#[verifier::external_body]
pub(crate) fn ecdsa_verify(pubkey: &Vec<u8>, msg: &Vec<u8>, sig: &Vec<u8>) -> (r: bool)
    ensures
        r == ecdsa_accepts(pubkey@, msg@, sig@),
{
    match (
        k256::ecdsa::VerifyingKey::from_sec1_bytes(pubkey.as_slice()),
        k256::ecdsa::Signature::from_slice(sig.as_slice()),
    ) {
        (Ok(key), Ok(signature)) => key.verify(msg.as_slice(), &signature).is_ok(),
        _ => false,
    }
}

/// Relies on `SigningKey::from_slice`, `Signer::sign` and `Signature::to_bytes`:
/// whether the key decodes depends on its bytes alone, and one that does not
/// gives `None`; signing is deterministic
/// (RFC 6979), so the signature is a function of the key and the message.
#[verifier::external_body]
pub(crate) fn ecdsa_sign(secret: &Vec<u8>, msg: &Vec<u8>) -> (r: Option<Vec<u8>>)
    ensures
        r is Some <==> ecdsa_secret_valid(secret@),
        r matches Some(sig) ==> sig@ == ecdsa_signature(secret@, msg@) && sig@.len() == 64,
{
    match k256::ecdsa::SigningKey::from_slice(secret.as_slice()) {
        Ok(key) => {
            let signature: k256::ecdsa::Signature = key.sign(msg.as_slice());
            Some(signature.to_bytes().to_vec())
        },
        Err(_) => None,
    }
}

/// Relies on `std::time::SystemTime::now`: whole seconds since the Unix epoch,
/// or zero for a clock set before it.
#[verifier::external_body]
pub(crate) fn now_secs() -> (r: u64)
{
    match std::time::SystemTime::now().duration_since(std::time::SystemTime::UNIX_EPOCH) {
        Ok(d) => d.as_secs(),
        Err(_) => 0,
    }
}

} // verus!
