//! Content addressing: the digest that turns header and transaction bytes
//! into 32-byte keys.

use vstd::prelude::*;

verus! {

/// The 32-byte BLAKE3 digest of a byte string. The algorithm itself is not
/// written out here; contracts only rely on the digest being a function of
/// the input bytes.
pub uninterp spec fn blake3_of(data: Seq<u8>) -> Seq<u8>;

/// Relies on `blake3::hash`: a 32-byte digest that depends on the input
/// bytes alone.
#[verifier::external_body]
pub(crate) fn blake3_digest(data: &[u8]) -> (r: [u8; 32])
    ensures
        r@ == blake3_of(data@),
{
    *blake3::hash(data).as_bytes()
}

} // verus!
