//! One-shot hashing into the 256-bit byte-array type. The two digest
//! algorithms are outside primitives invoked through a simple
//! bytes-to-32-bytes interface; each digest is a pure function of the
//! input bytes, named here so that callers' contracts can speak of it.

use vstd::prelude::*;
use crate::fixed_bytes::H256;
use crypto::digest::Digest;

verus! {

/// The SHA-256 digest of a byte sequence.
pub uninterp spec fn sha256_of(data: Seq<u8>) -> Seq<u8>;

/// The Keccak-256 digest of a byte sequence (the external chain's
/// variant, distinct from the standardized SHA3-256 padding).
pub uninterp spec fn keccak256_of(data: Seq<u8>) -> Seq<u8>;

/// Relies on rust-crypto's `crypto::sha2::Sha256`: a one-shot SHA-256
/// digest, 32 bytes, a function of the input bytes alone.
#[verifier::external_body]
fn sha256_digest(data: &[u8]) -> (r: Vec<u8>)
    ensures
        r@ == sha256_of(data@),
        r@.len() == 32,
{
    let mut hasher = crypto::sha2::Sha256::new();
    hasher.input(data);
    let mut buffer = [0u8; 32];
    hasher.result(&mut buffer);
    buffer.to_vec()
}

/// Relies on rust-crypto's `crypto::sha3::Sha3::keccak256`: a one-shot
/// Keccak-256 digest, 32 bytes, a function of the input bytes alone.
#[verifier::external_body]
fn keccak256_digest(data: &[u8]) -> (r: Vec<u8>)
    ensures
        r@ == keccak256_of(data@),
        r@.len() == 32,
{
    let mut hasher = crypto::sha3::Sha3::keccak256();
    hasher.input(data);
    let mut buffer = [0u8; 32];
    hasher.result(&mut buffer);
    buffer.to_vec()
}

/// The SHA-256 digest of `data` as a 256-bit value. Deterministic, no
/// error path: any byte sequence, including the empty one, is valid
/// input.
pub fn sha256(data: &[u8]) -> (r: H256)
    ensures
        r.wf(),
        r@ == sha256_of(data@),
{
    let digest = sha256_digest(data);
    H256::from_vec(digest)
}

/// The Keccak-256 digest of `data` as a 256-bit value. Deterministic,
/// no error path: any byte sequence, including the empty one, is valid
/// input.
pub fn keccak256(data: &[u8]) -> (r: H256)
    ensures
        r.wf(),
        r@ == keccak256_of(data@),
{
    let digest = keccak256_digest(data);
    H256::from_vec(digest)
}

} // verus!
