//! The order record: a height paired with the header hash that stands at
//! that height, and its byte-deterministic codec.
//!
//! In the order tree itself the height is the key and the bare hash the
//! value; this record is the standalone form of one such pairing.

use vstd::bytes::spec_u64_to_le_bytes;
use vstd::prelude::*;

use crate::err::Error;
use crate::types::HeaderHash;
use crate::wire::{dec_u64_le, read_arr32, read_u64_le, write_bytes, write_u64_le};

verus! {

/// Mathematical form of an order record.
pub struct BlockOrderView {
    pub number: u64,
    pub block: Seq<u8>,
}

/// One entry of the canonical chain: height `number` is occupied by the
/// block whose header hash is `block`.
#[derive(Debug)]
pub struct BlockOrder {
    /// Order number: the height.
    pub number: u64,
    /// Header hash of the block at that height.
    pub block: HeaderHash,
}

impl View for BlockOrder {
    type V = BlockOrderView;

    open spec fn view(&self) -> BlockOrderView {
        BlockOrderView { number: self.number, block: self.block@ }
    }
}

/// Byte form of an order record: the height little-endian, then the raw
/// hash.
pub open spec fn enc_order(o: BlockOrderView) -> Seq<u8> {
    spec_u64_to_le_bytes(o.number) + o.block
}

/// Parses the byte form of an order record: exactly forty bytes.
pub open spec fn dec_order(s: Seq<u8>) -> Option<BlockOrderView> {
    if s.len() == 40 {
        match dec_u64_le(s, 0) {
            Option::None => None,
            Option::Some((number, p)) => Some(
                (BlockOrderView { number, block: s.subrange(8, 40) }),
            ),
        }
    } else {
        None
    }
}

/// Round trip: an order record's byte form parses back to the record.
pub proof fn lemma_order_round_trip(o: BlockOrderView)
    requires
        o.block.len() == 32,
    ensures
        dec_order(enc_order(o)) == Some(o),
{
    let s = enc_order(o);
    vstd::bytes::lemma_auto_spec_u64_to_from_le_bytes();
    assert(s.subrange(0, 8) =~= spec_u64_to_le_bytes(o.number));
    assert(s.subrange(8, 40) =~= o.block);
}

impl BlockOrder {
    /// Byte form of the record.
    pub fn encode(&self) -> (r: Vec<u8>)
        ensures
            r@ == enc_order(self@),
    {
        let mut out: Vec<u8> = Vec::new();
        write_u64_le(&mut out, self.number);
        write_bytes(&mut out, self.block.inner().as_slice());
        proof {
            assert(out@ =~= enc_order(self@));
        }
        out
    }

    /// Parses the byte form of a record, exactly as `dec_order` describes.
    pub fn decode(bytes: &[u8]) -> (r: Result<BlockOrder, Error>)
        ensures
            match r {
                Ok(o) => dec_order(bytes@) == Some(o@),
                Err(e) => dec_order(bytes@) is None && e == Error::Deserialize,
            },
    {
        if bytes.len() != 40 {
            return Err(Error::Deserialize);
        }
        let (number, _) = match read_u64_le(bytes, 0) {
            Ok(q) => q,
            Err(e) => {
                return Err(e);
            },
        };
        let block = HeaderHash(read_arr32(bytes, 8));
        Ok(BlockOrder { number, block })
    }
}

} // verus!
