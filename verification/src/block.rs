//! Blocks: the on-disk form (`Block`, hashes only), the in-memory form
//! (`BlockInfo`, full bodies), and the byte-deterministic codec of the
//! on-disk form.
//!
//! A block's identity is the hash of its header: `hash(Block) == header`
//! holds by construction, and `Block::from_block_info` keeps it.

use vstd::bytes::{spec_u64_to_le_bytes, u64_to_le_bytes};
use vstd::prelude::*;

use crate::err::Error;
use crate::hashes::{blake3_digest, blake3_of};
use crate::types::{HeaderHash, Signature, TransactionHash};
use crate::wire::{
    dec_varint, lemma_varint_round_trip, read_arr32, read_arr64, read_varint, spec_varint,
    write_bytes, write_varint,
};

verus! {

/// A transaction as the store sees it: opaque payload bytes whose BLAKE3
/// digest is the transaction's content address. Execution of transactions is
/// the enclosing node's concern.
#[derive(Clone, Debug)]
pub struct Transaction {
    /// Serialized transaction body.
    pub data: Vec<u8>,
}

impl Transaction {
    pub fn new(data: Vec<u8>) -> (r: Self)
        ensures
            r.data@ == data@,
    {
        Transaction { data }
    }

    /// Content address of the transaction.
    pub fn hash(&self) -> (r: TransactionHash)
        ensures
            r@ == blake3_of(self.data@),
    {
        TransactionHash(blake3_digest(self.data.as_slice()))
    }
}

impl Default for Transaction {
    /// The empty transaction.
    fn default() -> (r: Self)
        ensures
            r.data@ == Seq::<u8>::empty(),
    {
        let r = Transaction { data: Vec::new() };
        proof {
            assert(r.data@ =~= Seq::<u8>::empty());
        }
        r
    }
}

/// Accumulator over the transaction hashes of a block, carried in the
/// header and extended as transactions are appended. The store keeps the
/// leaf sequence; computing roots and authentication paths over it is the
/// enclosing node's concern.
#[derive(Clone, Debug)]
pub struct MerkleTree {
    /// Appended transaction hashes, oldest first.
    pub leaves: Vec<TransactionHash>,
}

impl MerkleTree {
    /// The leaves as byte strings.
    pub open spec fn view_leaves(&self) -> Seq<Seq<u8>> {
        self.leaves@.map_values(|h: TransactionHash| h@)
    }
}

impl Default for MerkleTree {
    /// The empty accumulator.
    fn default() -> (r: Self)
        ensures
            r.view_leaves() == Seq::<Seq<u8>>::empty(),
    {
        let r = MerkleTree { leaves: Vec::new() };
        proof {
            assert(r.view_leaves() =~= Seq::<Seq<u8>>::empty());
        }
        r
    }
}

/// Appends a transaction's hash to an accumulator.
pub fn append_tx_to_merkle_tree(tree: &mut MerkleTree, tx: &Transaction)
    ensures
        final(tree).view_leaves() == old(tree).view_leaves().push(blake3_of(tx.data@)),
{
    let leaf = tx.hash();
    tree.leaves.push(leaf);
    proof {
        assert(tree.view_leaves() =~= old(tree).view_leaves().push(blake3_of(tx.data@)));
    }
}

/// Mathematical form of a header.
pub struct HeaderView {
    pub version: u8,
    pub previous: Seq<u8>,
    pub height: u64,
    pub timestamp: u64,
    pub nonce: u64,
    pub leaves: Seq<Seq<u8>>,
}

/// Block header data. The store never reads a header's fields; it only
/// hashes headers to obtain block identities.
#[derive(Clone, Debug)]
pub struct Header {
    /// Block version.
    pub version: u8,
    /// Hash of the previous block's header.
    pub previous: HeaderHash,
    /// Block height.
    pub height: u64,
    /// Block creation timestamp, seconds since the epoch.
    pub timestamp: u64,
    /// Proof-of-work nonce.
    pub nonce: u64,
    /// Accumulator over the block's transaction hashes.
    pub tree: MerkleTree,
}

impl View for Header {
    type V = HeaderView;

    open spec fn view(&self) -> HeaderView {
        HeaderView {
            version: self.version,
            previous: self.previous@,
            height: self.height,
            timestamp: self.timestamp,
            nonce: self.nonce,
            leaves: self.tree.view_leaves(),
        }
    }
}

impl Default for Header {
    /// The all-zero header, as the genesis block starts from.
    fn default() -> (r: Self)
        ensures
            r@.version == 0,
            r@.previous == Seq::<u8>::new(32, |i: int| 0u8),
            r@.height == 0,
            r@.timestamp == 0,
            r@.nonce == 0,
            r@.leaves == Seq::<Seq<u8>>::empty(),
    {
        let r = Header {
            version: 0,
            previous: HeaderHash([0u8; 32]),
            height: 0,
            timestamp: 0,
            nonce: 0,
            tree: MerkleTree { leaves: Vec::new() },
        };
        proof {
            assert(r@.previous =~= Seq::<u8>::new(32, |i: int| 0u8));
            assert(r@.leaves =~= Seq::<Seq<u8>>::empty());
        }
        r
    }
}

/// Concatenation of a sequence of byte strings.
pub open spec fn concat_bytes(ls: Seq<Seq<u8>>) -> Seq<u8>
    decreases ls.len(),
{
    if ls.len() == 0 {
        Seq::empty()
    } else {
        concat_bytes(ls.drop_last()) + ls.last()
    }
}

/// Length of a concatenation of 32-byte strings.
pub proof fn lemma_concat_bytes_len32(ls: Seq<Seq<u8>>)
    requires
        forall|i: int| 0 <= i < ls.len() ==> (#[trigger] ls[i]).len() == 32,
    ensures
        concat_bytes(ls).len() == 32 * ls.len(),
    decreases ls.len(),
{
    if ls.len() > 0 {
        lemma_concat_bytes_len32(ls.drop_last());
    }
}

/// The i-th 32-byte window of a concatenation of 32-byte strings is its
/// i-th element.
pub proof fn lemma_concat_bytes_index32(ls: Seq<Seq<u8>>, i: int)
    requires
        forall|k: int| 0 <= k < ls.len() ==> (#[trigger] ls[k]).len() == 32,
        0 <= i < ls.len(),
    ensures
        concat_bytes(ls).subrange(32 * i, 32 * i + 32) == ls[i],
    decreases ls.len(),
{
    lemma_concat_bytes_len32(ls);
    lemma_concat_bytes_len32(ls.drop_last());
    if i == ls.len() - 1 {
        assert(concat_bytes(ls).subrange(32 * i, 32 * i + 32) =~= ls.last());
    } else {
        lemma_concat_bytes_index32(ls.drop_last(), i);
        assert(concat_bytes(ls).subrange(32 * i, 32 * i + 32) =~= concat_bytes(
            ls.drop_last(),
        ).subrange(32 * i, 32 * i + 32));
    }
}

/// Byte form of a header: fields in declaration order, fixed-width integers
/// little-endian, the leaf sequence count-prefixed.
pub open spec fn enc_header(h: HeaderView) -> Seq<u8> {
    seq![h.version] + h.previous + spec_u64_to_le_bytes(h.height) + spec_u64_to_le_bytes(
        h.timestamp,
    ) + spec_u64_to_le_bytes(h.nonce) + spec_varint(h.leaves.len() as u64) + concat_bytes(h.leaves)
}

/// A header's content address: the digest of its byte form.
pub open spec fn spec_header_hash(h: HeaderView) -> Seq<u8> {
    blake3_of(enc_header(h))
}

/// Byte form of a header, for hashing.
pub fn encode_header(h: &Header) -> (r: Vec<u8>)
    ensures
        r@ == enc_header(h@),
{
    let mut out: Vec<u8> = Vec::new();
    out.push(h.version);
    write_bytes(&mut out, h.previous.inner().as_slice());
    let mut word = u64_to_le_bytes(h.height);
    out.append(&mut word);
    let mut word = u64_to_le_bytes(h.timestamp);
    out.append(&mut word);
    let mut word = u64_to_le_bytes(h.nonce);
    out.append(&mut word);
    write_varint(&mut out, h.tree.leaves.len() as u64);
    let ghost head = out@;
    let mut i: usize = 0;
    while i < h.tree.leaves.len()
        invariant
            0 <= i <= h.tree.leaves.len(),
            out@ == head + concat_bytes(h.tree.view_leaves().take(i as int)),
        decreases h.tree.leaves.len() - i,
    {
        write_bytes(&mut out, h.tree.leaves[i].inner().as_slice());
        proof {
            let ls = h.tree.view_leaves();
            assert(ls.take(i + 1).drop_last() =~= ls.take(i as int));
            assert(out@ =~= head + concat_bytes(ls.take(i + 1)));
        }
        i = i + 1;
    }
    proof {
        assert(h.tree.view_leaves().take(h.tree.leaves@.len() as int) =~= h.tree.view_leaves());
        assert(out@ =~= enc_header(h@));
    }
    out
}

impl Header {
    /// Content address of the header.
    pub fn hash(&self) -> (r: HeaderHash)
        ensures
            r@ == spec_header_hash(self@),
    {
        let bytes = encode_header(self);
        HeaderHash(blake3_digest(bytes.as_slice()))
    }
}

/// Mathematical form of an on-disk block.
pub struct BlockView {
    pub header: Seq<u8>,
    pub txs: Seq<Seq<u8>>,
    pub signature: Seq<u8>,
}

/// Well-formedness of a block's mathematical form: fixed-width fields have
/// their widths.
pub open spec fn wf_block(b: BlockView) -> bool {
    &&& b.header.len() == 32
    &&& b.signature.len() == 64
    &&& forall|i: int| 0 <= i < b.txs.len() ==> (#[trigger] b.txs[i]).len() == 32
}

/// The on-disk form of a block: header hash, transaction hashes and the
/// producer signature. Header and transaction bodies live elsewhere, keyed
/// by the same hashes.
#[derive(Clone, Debug)]
pub struct Block {
    /// Hash of the block's header; the block's identity.
    pub header: HeaderHash,
    /// Content addresses of the block's transactions, in order.
    pub txs: Vec<TransactionHash>,
    /// Block producer signature.
    pub signature: Signature,
}

impl View for Block {
    type V = BlockView;

    open spec fn view(&self) -> BlockView {
        BlockView {
            header: self.header@,
            txs: self.txs@.map_values(|h: TransactionHash| h@),
            signature: self.signature@,
        }
    }
}

/// Every value of `Block` is well formed: its widths are fixed by its
/// types.
pub proof fn lemma_block_wf(b: &Block)
    ensures
        wf_block(b@),
        b@.txs.len() <= u64::MAX,
{
    assert forall|i: int| 0 <= i < b@.txs.len() implies (#[trigger] b@.txs[i]).len() == 32 by {
        assert(b@.txs[i] == b.txs@[i]@);
    }
    assert(b.txs.len() == b.txs@.len());
}

impl Block {
    pub fn new(header: HeaderHash, txs: Vec<TransactionHash>, signature: Signature) -> (r: Self)
        ensures
            r.header == header,
            r.txs@ == txs@,
            r.signature == signature,
    {
        Block { header, txs, signature }
    }

    /// A block's hash is the hash of its header.
    pub fn hash(&self) -> (r: HeaderHash)
        ensures
            r == self.header,
    {
        self.header
    }

    /// The on-disk form of a `BlockInfo`: bodies replaced by their hashes.
    pub fn from_block_info(block_info: &BlockInfo) -> (r: Self)
        ensures
            r@ == spec_block_of_info(block_info@),
    {
        let header = block_info.header.hash();
        let mut txs: Vec<TransactionHash> = Vec::new();
        let mut i: usize = 0;
        while i < block_info.txs.len()
            invariant
                0 <= i <= block_info.txs@.len(),
                txs@.len() == i,
                forall|j: int|
                    0 <= j < i ==> (#[trigger] txs@[j])@ == blake3_of(block_info.txs@[j].data@),
            decreases block_info.txs@.len() - i,
        {
            let h = block_info.txs[i].hash();
            txs.push(h);
            i = i + 1;
        }
        let signature = block_info.signature;
        let r = Block { header, txs, signature };
        proof {
            assert forall|j: int| 0 <= j < r@.txs.len() implies r@.txs[j] == spec_block_of_info(
                block_info@,
            ).txs[j] by {
                assert(r@.txs[j] == txs@[j]@);
                assert(block_info@.txs[j] == block_info.txs@[j].data@);
            }
            assert(r@.txs =~= spec_block_of_info(block_info@).txs);
        }
        r
    }
}

/// Mathematical form of a full block.
pub struct BlockInfoView {
    pub header: HeaderView,
    pub txs: Seq<Seq<u8>>,
    pub signature: Seq<u8>,
}

/// The on-disk form of a full block: the header and each transaction body
/// replaced by its content address.
pub open spec fn spec_block_of_info(i: BlockInfoView) -> BlockView {
    BlockView {
        header: spec_header_hash(i.header),
        txs: i.txs.map_values(|d: Seq<u8>| blake3_of(d)),
        signature: i.signature,
    }
}

/// Content addressing: converting a full block to its on-disk form keeps
/// the block's identity, the hash of its header.
pub proof fn lemma_content_addressing(i: BlockInfoView)
    ensures
        spec_block_of_info(i).header == spec_header_hash(i.header),
{
}

/// Full block data: header, transaction bodies and producer signature, as
/// held in memory before persistence.
#[derive(Clone, Debug)]
pub struct BlockInfo {
    /// Block header data.
    pub header: Header,
    /// Transactions payload.
    pub txs: Vec<Transaction>,
    /// Block producer signature.
    pub signature: Signature,
}

impl View for BlockInfo {
    type V = BlockInfoView;

    open spec fn view(&self) -> BlockInfoView {
        BlockInfoView {
            header: self.header@,
            txs: self.txs@.map_values(|t: Transaction| t.data@),
            signature: self.signature@,
        }
    }
}

impl Default for BlockInfo {
    /// The genesis block: all-zero header, one empty transaction, dummy
    /// signature.
    fn default() -> (r: Self)
        ensures
            r@.header.version == 0,
            r@.header.previous == Seq::<u8>::new(32, |i: int| 0u8),
            r@.header.height == 0,
            r@.header.timestamp == 0,
            r@.header.nonce == 0,
            r@.header.leaves == Seq::<Seq<u8>>::empty(),
            r@.txs == seq![Seq::<u8>::empty()],
            r@.signature == Seq::<u8>::new(64, |i: int| 0u8),
    {
        let header = Header::default();
        let mut txs: Vec<Transaction> = Vec::new();
        txs.push(Transaction::default());
        let r = BlockInfo { header, txs, signature: Signature::dummy() };
        proof {
            assert(r@.txs =~= seq![Seq::<u8>::empty()]);
        }
        r
    }
}

impl BlockInfo {
    pub fn new(header: Header, txs: Vec<Transaction>, signature: Signature) -> (r: Self)
        ensures
            r.header == header,
            r.txs@ == txs@,
            r.signature == signature,
    {
        BlockInfo { header, txs, signature }
    }

    /// An empty block for the provided header; transactions and the
    /// producer signature are added afterwards.
    pub fn new_empty(header: Header) -> (r: Self)
        ensures
            r.header == header,
            r@.txs == Seq::<Seq<u8>>::empty(),
            r@.signature == Seq::<u8>::new(64, |i: int| 0u8),
    {
        let r = BlockInfo { header, txs: Vec::new(), signature: Signature::dummy() };
        proof {
            assert(r@.txs =~= Seq::<Seq<u8>>::empty());
        }
        r
    }

    /// A full block's hash is the hash of its header.
    pub fn hash(&self) -> (r: HeaderHash)
        ensures
            r@ == spec_header_hash(self@.header),
    {
        self.header.hash()
    }

    /// Appends a transaction to the block and its hash to the header's
    /// accumulator.
    pub fn append_tx(&mut self, tx: Transaction)
        ensures
            final(self)@.txs == old(self)@.txs.push(tx.data@),
            final(self)@.header.leaves == old(self)@.header.leaves.push(blake3_of(tx.data@)),
            final(self)@.header.version == old(self)@.header.version,
            final(self)@.header.previous == old(self)@.header.previous,
            final(self)@.header.height == old(self)@.header.height,
            final(self)@.header.timestamp == old(self)@.header.timestamp,
            final(self)@.header.nonce == old(self)@.header.nonce,
            final(self)@.signature == old(self)@.signature,
    {
        append_tx_to_merkle_tree(&mut self.header.tree, &tx);
        let ghost d = tx.data@;
        self.txs.push(tx);
        proof {
            assert(self@.txs =~= old(self)@.txs.push(d));
        }
    }

    /// Appends a vector of transactions to the block and their hashes to
    /// the header's accumulator, in order.
    pub fn append_txs(&mut self, txs: Vec<Transaction>)
        ensures
            final(self)@.txs == old(self)@.txs + txs@.map_values(|t: Transaction| t.data@),
            final(self)@.header.leaves == old(self)@.header.leaves + txs@.map_values(
                |t: Transaction| blake3_of(t.data@),
            ),
            final(self)@.header.version == old(self)@.header.version,
            final(self)@.header.previous == old(self)@.header.previous,
            final(self)@.header.height == old(self)@.header.height,
            final(self)@.header.timestamp == old(self)@.header.timestamp,
            final(self)@.header.nonce == old(self)@.header.nonce,
            final(self)@.signature == old(self)@.signature,
    {
        let ghost all = txs@;
        let mut rest = txs;
        while rest.len() > 0
            invariant
                rest@.len() <= all.len(),
                rest@ =~= all.skip(all.len() - rest@.len()),
                self@.txs =~= old(self)@.txs + all.take(all.len() - rest@.len()).map_values(
                    |t: Transaction| t.data@,
                ),
                self@.header.leaves =~= old(self)@.header.leaves + all.take(
                    all.len() - rest@.len(),
                ).map_values(|t: Transaction| blake3_of(t.data@)),
                self@.header.version == old(self)@.header.version,
                self@.header.previous == old(self)@.header.previous,
                self@.header.height == old(self)@.header.height,
                self@.header.timestamp == old(self)@.header.timestamp,
                self@.header.nonce == old(self)@.header.nonce,
                self@.signature == old(self)@.signature,
            decreases rest@.len(),
        {
            let ghost k = all.len() - rest@.len();
            let tx = rest.remove(0);
            proof {
                assert(0 <= k < all.len());
                assert(all.skip(k as int)[0] == all[k as int]);
                assert(tx == all[k as int]);
                assert(rest@ =~= all.skip(k + 1)) by {
                    assert forall|j: int| 0 <= j < rest@.len() implies rest@[j] == all.skip(
                        k + 1,
                    )[j] by {
                        assert(rest@[j] == all.skip(k as int)[j + 1]);
                        assert(all.skip(k as int)[j + 1] == all[k + 1 + j]);
                        assert(all.skip(k + 1)[j] == all[k + 1 + j]);
                    }
                }
                assert(all.take(k + 1).drop_last() =~= all.take(k as int));
            }
            self.append_tx(tx);
            proof {
                assert(self@.txs =~= old(self)@.txs + all.take(k + 1).map_values(
                    |t: Transaction| t.data@,
                ));
                assert(self@.header.leaves =~= old(self)@.header.leaves + all.take(
                    k + 1,
                ).map_values(|t: Transaction| blake3_of(t.data@)));
            }
        }
        proof {
            assert(all.take(all.len() as int) =~= all);
        }
    }
}

/// Byte form of a block: header hash, count-prefixed transaction hashes,
/// signature.
pub open spec fn enc_block(b: BlockView) -> Seq<u8> {
    b.header + spec_varint(b.txs.len() as u64) + concat_bytes(b.txs) + b.signature
}

/// Parses the byte form of a block. The whole string must be consumed.
pub open spec fn dec_block(s: Seq<u8>) -> Option<BlockView> {
    if s.len() < 32 {
        None
    } else {
        match dec_varint(s, 32) {
            Option::None => None,
            Option::Some((n, p)) => {
                if p + 32 * (n as int) + 64 == s.len() {
                    Some(
                        (BlockView {
                            header: s.subrange(0, 32),
                            txs: Seq::new(
                                n as nat,
                                |i: int| s.subrange(p + 32 * i, p + 32 * i + 32),
                            ),
                            signature: s.subrange(s.len() - 64, s.len() as int),
                        }),
                    )
                } else {
                    None
                }
            },
        }
    }
}

/// Round trip: a well-formed block's byte form parses back to the block.
pub proof fn lemma_block_round_trip(b: BlockView)
    requires
        wf_block(b),
        b.txs.len() <= u64::MAX,
    ensures
        dec_block(enc_block(b)) == Some(b),
{
    let n = b.txs.len() as u64;
    let v = spec_varint(n);
    let c = concat_bytes(b.txs);
    let s = enc_block(b);
    lemma_concat_bytes_len32(b.txs);
    assert(s.len() == 32 + v.len() + c.len() + 64);
    assert(s.subrange(0, 32) =~= b.header);
    assert(s.subrange(32, 32 + v.len() as int) =~= v);
    lemma_varint_round_trip(s, 32, n);
    let p = 32 + v.len() as int;
    let txs2 = Seq::new(n as nat, |i: int| s.subrange(p + 32 * i, p + 32 * i + 32));
    assert forall|i: int| 0 <= i < b.txs.len() implies txs2[i] == b.txs[i] by {
        lemma_concat_bytes_index32(b.txs, i);
        assert(s.subrange(p + 32 * i, p + 32 * i + 32) =~= c.subrange(32 * i, 32 * i + 32));
    }
    assert(txs2 =~= b.txs);
    assert(s.subrange(s.len() - 64, s.len() as int) =~= b.signature);
}

/// Byte form of a block.
pub fn encode_block(b: &Block) -> (r: Vec<u8>)
    ensures
        r@ == enc_block(b@),
{
    let mut out: Vec<u8> = Vec::new();
    write_bytes(&mut out, b.header.inner().as_slice());
    write_varint(&mut out, b.txs.len() as u64);
    let ghost head = out@;
    let mut i: usize = 0;
    while i < b.txs.len()
        invariant
            0 <= i <= b.txs@.len(),
            out@ == head + concat_bytes(b@.txs.take(i as int)),
        decreases b.txs@.len() - i,
    {
        write_bytes(&mut out, b.txs[i].inner().as_slice());
        proof {
            assert(b@.txs.take(i + 1).drop_last() =~= b@.txs.take(i as int));
            assert(b@.txs.take(i + 1).last() == b.txs@[i as int]@);
            assert(out@ =~= head + concat_bytes(b@.txs.take(i + 1)));
        }
        i = i + 1;
    }
    write_bytes(&mut out, b.signature.0.as_slice());
    proof {
        assert(b@.txs.take(b.txs@.len() as int) =~= b@.txs);
        assert(out@ =~= enc_block(b@));
    }
    out
}

/// Parses the byte form of a block, exactly as `dec_block` describes.
pub fn decode_block(bytes: &[u8]) -> (r: Result<Block, Error>)
    ensures
        match r {
            Ok(b) => dec_block(bytes@) == Some(b@),
            Err(e) => dec_block(bytes@) is None && e == Error::Deserialize,
        },
{
    if bytes.len() < 32 {
        return Err(Error::Deserialize);
    }
    let header = HeaderHash(read_arr32(bytes, 0));
    let (n, p) = match read_varint(bytes, 32) {
        Ok(q) => q,
        Err(_) => {
            return Err(Error::Deserialize);
        },
    };
    let rem = bytes.len() - p;
    let need: u128 = 32u128 * (n as u128) + 64;
    if (rem as u128) != need {
        proof {
            assert(32 * (n as int) + 64 != rem as int);
        }
        return Err(Error::Deserialize);
    }
    proof {
        assert(32 * (n as int) + 64 == rem as int);
        assert(n as int <= 32 * (n as int));
    }
    let n_us: usize = n as usize;
    let mut txs: Vec<TransactionHash> = Vec::new();
    let mut i: usize = 0;
    while i < n_us
        invariant
            0 <= i <= n_us,
            p + 32 * n_us + 64 == bytes.len(),
            txs@.len() == i,
            forall|j: int|
                0 <= j < i ==> (#[trigger] txs@[j])@ == bytes@.subrange(
                    p + 32 * j,
                    p + 32 * j + 32,
                ),
        decreases n_us - i,
    {
        txs.push(TransactionHash(read_arr32(bytes, p + 32 * i)));
        i = i + 1;
    }
    let signature = Signature(read_arr64(bytes, p + 32 * n_us));
    let b = Block { header, txs, signature };
    proof {
        let s = bytes@;
        let q = dec_block(s);
        assert(b@.header == s.subrange(0, 32));
        assert(b@.txs =~= Seq::new(
            n as nat,
            |j: int| s.subrange(p + 32 * j, p + 32 * j + 32),
        ));
        assert(b@.signature =~= s.subrange(s.len() - 64, s.len() as int));
        assert(q == Some(b@));
    }
    Ok(b)
}

} // verus!
