//! Plain value types shared by the whole crate: content addresses and the
//! fixed-width producer signature.

use vstd::prelude::*;

verus! {

/// 32-byte content address of a block header; primary key of the block tree
/// and canonical block identity.
#[derive(Clone, Copy, Debug)]
pub struct HeaderHash(pub [u8; 32]);

impl View for HeaderHash {
    type V = Seq<u8>;

    open spec fn view(&self) -> Seq<u8> {
        self.0@
    }
}

impl HeaderHash {
    pub fn new(bytes: [u8; 32]) -> (r: Self)
        ensures
            r@ == bytes@,
    {
        HeaderHash(bytes)
    }

    /// Raw 32-byte representation.
    pub fn inner(&self) -> (r: &[u8; 32])
        ensures
            r@ == self@,
    {
        &self.0
    }
}

/// 32-byte content address of a transaction.
#[derive(Clone, Copy, Debug)]
pub struct TransactionHash(pub [u8; 32]);

impl View for TransactionHash {
    type V = Seq<u8>;

    open spec fn view(&self) -> Seq<u8> {
        self.0@
    }
}

impl TransactionHash {
    pub fn new(bytes: [u8; 32]) -> (r: Self)
        ensures
            r@ == bytes@,
    {
        TransactionHash(bytes)
    }

    pub fn inner(&self) -> (r: &[u8; 32])
        ensures
            r@ == self@,
    {
        &self.0
    }
}

/// Producer signature over a header hash, in its fixed 64-byte wire form.
/// The signing scheme itself is the enclosing node's concern: the store only
/// carries the bytes through.
#[derive(Clone, Copy, Debug)]
pub struct Signature(pub [u8; 64]);

impl View for Signature {
    type V = Seq<u8>;

    open spec fn view(&self) -> Seq<u8> {
        self.0@
    }
}

impl Signature {
    pub fn new(bytes: [u8; 64]) -> (r: Self)
        ensures
            r@ == bytes@,
    {
        Signature(bytes)
    }

    /// All-zero placeholder signature for blocks not yet signed.
    pub fn dummy() -> (r: Self)
        ensures
            r@ == Seq::<u8>::new(64, |i: int| 0u8),
    {
        let s = Signature([0u8; 64]);
        proof {
            assert(s@ =~= Seq::<u8>::new(64, |i: int| 0u8));
        }
        s
    }
}

} // verus!
