//! The checksum engine: a fixed-length content digest for a byte buffer.
//! The digest itself is computed by an outside implementation of SHA-256;
//! the library only relies on it being a pure function of the input bytes.

use vstd::prelude::*;
use crypto::digest::Digest;

verus! {

/// The SHA-256 digest of a byte sequence, named but not defined here: the
/// algorithm is the outside crate's business, determinism is what matters.
pub uninterp spec fn sha256_of(data: Seq<u8>) -> Seq<u8>;

/// Relies on crypto's `Sha256` (`input` then `result`): the digest is a
/// function of the input bytes alone and is always exactly 32 bytes.
#[verifier::external_body]
pub(crate) fn sha256(data: &Vec<u8>) -> (r: Vec<u8>)
    ensures
        r@ == sha256_of(data@),
        r@.len() == 32,
{
    let mut hasher = crypto::sha2::Sha256::new();
    hasher.input(data.as_slice());
    let mut out = [0u8; 32];
    hasher.result(&mut out);
    out.to_vec()
}

} // verus!
