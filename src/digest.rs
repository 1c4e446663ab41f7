//! SHA-1, as the sha1 crate computes it.

use sha1::{Digest, Sha1};
use vstd::prelude::*;

verus! {

/// The SHA-1 digest of a byte sequence.
pub uninterp spec fn sha1_of(data: Seq<u8>) -> Seq<u8>;

/// Relies on sha1's `Sha1::digest` (the `digest::Digest` trait): the SHA-1
/// digest of `data`, whose output size is 20 bytes.
#[verifier::external_body]
pub(crate) fn sha1_digest(data: &[u8]) -> (r: Vec<u8>)
    ensures
        r@ == sha1_of(data@),
        r@.len() == 20,
{
    Sha1::digest(data).to_vec()
}

} // verus!
