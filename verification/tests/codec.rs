//! Byte-level checks of the record codecs: round trips, exact wire forms,
//! rejection of malformed input, and content addressing.

use blockstore::bignum::BigNum;
use blockstore::block::{
    append_tx_to_merkle_tree, decode_block, encode_block, Block, BlockInfo, Header, MerkleTree,
    Transaction,
};
use blockstore::difficulty::{BlockDifficulty, BlockRanks};
use blockstore::order::BlockOrder;
use blockstore::types::{HeaderHash, Signature, TransactionHash};
use blockstore::wire::{read_varint, write_varint};

fn varint_round_trip(v: u64) {
    let mut out: Vec<u8> = Vec::new();
    write_varint(&mut out, v);
    let (got, end) = read_varint(&out, 0).expect("canonical form must parse");
    assert_eq!(got, v);
    assert_eq!(end, out.len());
}

#[test]
fn varint_round_trips_at_width_boundaries() {
    for v in [
        0u64,
        1,
        0xfc,
        0xfd,
        0xfe,
        0xffff,
        0x1_0000,
        0xffff_ffff,
        0x1_0000_0000,
        u64::MAX,
    ] {
        varint_round_trip(v);
    }
}

#[test]
fn varint_exact_bytes() {
    let mut out: Vec<u8> = Vec::new();
    write_varint(&mut out, 0xfc);
    assert_eq!(out, vec![0xfc]);
    let mut out: Vec<u8> = Vec::new();
    write_varint(&mut out, 0xfd);
    assert_eq!(out, vec![0xfd, 0xfd, 0x00]);
    let mut out: Vec<u8> = Vec::new();
    write_varint(&mut out, 0x1_0000);
    assert_eq!(out, vec![0xfe, 0x00, 0x00, 0x01, 0x00]);
}

#[test]
fn varint_rejects_wider_than_needed_forms() {
    // 5 spelled with the two-byte form.
    assert!(read_varint(&[0xfd, 0x05, 0x00], 0).is_err());
    // 0xffff spelled with the four-byte form.
    assert!(read_varint(&[0xfe, 0xff, 0xff, 0x00, 0x00], 0).is_err());
    // Truncated input.
    assert!(read_varint(&[0xfd, 0x05], 0).is_err());
    assert!(read_varint(&[], 0).is_err());
}

fn sample_block() -> Block {
    Block::new(
        HeaderHash([1u8; 32]),
        vec![TransactionHash([2u8; 32]), TransactionHash([3u8; 32])],
        Signature([4u8; 64]),
    )
}

#[test]
fn block_round_trip() {
    let b = sample_block();
    let bytes = encode_block(&b);
    let back = decode_block(&bytes).expect("encoded block must parse");
    assert_eq!(back.header.inner(), b.header.inner());
    assert_eq!(back.txs.len(), b.txs.len());
    for (x, y) in back.txs.iter().zip(b.txs.iter()) {
        assert_eq!(x.inner(), y.inner());
    }
    assert_eq!(back.signature.0.as_slice(), b.signature.0.as_slice());
}

#[test]
fn block_exact_bytes() {
    let b = sample_block();
    let bytes = encode_block(&b);
    let mut expected: Vec<u8> = Vec::new();
    expected.extend_from_slice(&[1u8; 32]);
    expected.push(2);
    expected.extend_from_slice(&[2u8; 32]);
    expected.extend_from_slice(&[3u8; 32]);
    expected.extend_from_slice(&[4u8; 64]);
    assert_eq!(bytes, expected);
}

#[test]
fn block_decode_rejects_malformed() {
    assert!(decode_block(&[]).is_err());
    assert!(decode_block(&[0u8; 31]).is_err());
    // Count says two transactions, body holds one.
    let b = Block::new(HeaderHash([1u8; 32]), vec![TransactionHash([2u8; 32])], Signature([4u8; 64]));
    let mut bytes = encode_block(&b);
    bytes[32] = 2;
    assert!(decode_block(&bytes).is_err());
    // Trailing byte.
    let mut bytes = encode_block(&b);
    bytes.push(0);
    assert!(decode_block(&bytes).is_err());
}

#[test]
fn bignum_normalizes_leading_zeros() {
    assert_eq!(BigNum::from_be_slice(&[0, 0, 5]).to_bytes_be(), &[5]);
    assert_eq!(BigNum::from_be_slice(&[]).to_bytes_be(), &[0]);
    assert_eq!(BigNum::from_be_slice(&[0, 0]).to_bytes_be(), &[0]);
    assert_eq!(BigNum::from_u64(0).to_bytes_be(), &[0]);
    assert_eq!(BigNum::from_u64(256).to_bytes_be(), &[1, 0]);
    assert_eq!(BigNum::zero().to_bytes_be(), &[0]);
}

fn sample_difficulty(height: u64) -> BlockDifficulty {
    let ranks = BlockRanks::new(
        BigNum::from_u64(7),
        BigNum::from_u64(8),
        BigNum::from_u64(9),
        BigNum::from_u64(10),
    );
    BlockDifficulty::new(
        height,
        1000 + height,
        BigNum::from_u64(300),
        BigNum::from_u64(300 * (height + 1)),
        ranks,
    )
}

#[test]
fn difficulty_round_trip() {
    let d = sample_difficulty(5);
    let bytes = d.encode();
    let back = BlockDifficulty::decode(&bytes).expect("encoded record must parse");
    assert_eq!(back.height, 5);
    assert_eq!(back.timestamp, 1005);
    assert_eq!(back.difficulty.to_bytes_be(), d.difficulty.to_bytes_be());
    assert_eq!(
        back.cummulative_difficulty.to_bytes_be(),
        d.cummulative_difficulty.to_bytes_be()
    );
    assert_eq!(back.ranks.target_rank.to_bytes_be(), d.ranks.target_rank.to_bytes_be());
    assert_eq!(back.ranks.targets_rank.to_bytes_be(), d.ranks.targets_rank.to_bytes_be());
    assert_eq!(back.ranks.hash_rank.to_bytes_be(), d.ranks.hash_rank.to_bytes_be());
    assert_eq!(back.ranks.hashes_rank.to_bytes_be(), d.ranks.hashes_rank.to_bytes_be());
}

#[test]
fn genesis_difficulty_exact_bytes() {
    let d = BlockDifficulty::genesis(0);
    let bytes = d.encode();
    let mut expected: Vec<u8> = Vec::new();
    expected.extend_from_slice(&[0u8; 8]); // height, little-endian
    expected.extend_from_slice(&[0u8; 8]); // timestamp, little-endian
    for _ in 0..6 {
        expected.push(1); // one digit
        expected.push(0); // the digit zero
    }
    assert_eq!(bytes, expected);
}

#[test]
fn difficulty_decode_rejects_malformed() {
    assert!(BlockDifficulty::decode(&[]).is_err());
    assert!(BlockDifficulty::decode(&[0u8; 15]).is_err());
    let d = sample_difficulty(1);
    let mut bytes = d.encode();
    bytes.push(0); // trailing byte
    assert!(BlockDifficulty::decode(&bytes).is_err());
}

#[test]
fn order_record_round_trip_and_exact_bytes() {
    let o = BlockOrder { number: 258, block: HeaderHash([9u8; 32]) };
    let bytes = o.encode();
    let mut expected: Vec<u8> = Vec::new();
    expected.extend_from_slice(&[2, 1, 0, 0, 0, 0, 0, 0]); // 258, little-endian
    expected.extend_from_slice(&[9u8; 32]);
    assert_eq!(bytes, expected);
    let back = BlockOrder::decode(&bytes).expect("encoded record must parse");
    assert_eq!(back.number, 258);
    assert_eq!(back.block.inner(), o.block.inner());
    assert!(BlockOrder::decode(&bytes[..39]).is_err());
}

#[test]
fn transaction_hash_is_real_blake3() {
    // The BLAKE3 digest of the empty input; fails if hashing were a
    // pass-through of the payload.
    let expected: [u8; 32] = [
        0xaf, 0x13, 0x49, 0xb9, 0xf5, 0xf9, 0xa1, 0xa6, 0xa0, 0x40, 0x4d, 0xea, 0x36, 0xdc, 0xc9,
        0x49, 0x9b, 0xcb, 0x25, 0xc9, 0xad, 0xc1, 0x12, 0xb7, 0xcc, 0x9a, 0x93, 0xca, 0xe4, 0x1f,
        0x32, 0x62,
    ];
    let tx = Transaction::new(Vec::new());
    assert_eq!(tx.hash().inner(), &expected);
}

#[test]
fn block_hash_is_header_hash() {
    let info = BlockInfo::new(
        Header::default(),
        vec![Transaction::new(vec![1, 2, 3])],
        Signature::dummy(),
    );
    let b = Block::from_block_info(&info);
    assert_eq!(b.hash().inner(), info.hash().inner());
    assert_eq!(b.hash().inner(), info.header.hash().inner());
}

#[test]
fn append_tx_extends_block_and_accumulator() {
    let mut info = BlockInfo::new_empty(Header::default());
    assert_eq!(info.txs.len(), 0);
    let before = info.hash();
    info.append_tx(Transaction::new(vec![1]));
    info.append_txs(vec![Transaction::new(vec![2]), Transaction::new(vec![3])]);
    assert_eq!(info.txs.len(), 3);
    assert_eq!(info.header.tree.leaves.len(), 3);
    assert_eq!(info.header.tree.leaves[0].inner(), Transaction::new(vec![1]).hash().inner());
    // Appending moved the accumulator, so the header's hash moved too.
    assert_ne!(info.hash().inner(), before.inner());
}

#[test]
fn merkle_tree_append_records_leaf() {
    let mut tree = MerkleTree::default();
    let tx = Transaction::new(vec![42]);
    append_tx_to_merkle_tree(&mut tree, &tx);
    assert_eq!(tree.leaves.len(), 1);
    assert_eq!(tree.leaves[0].inner(), tx.hash().inner());
}

#[test]
fn default_block_info_is_genesis_shape() {
    let g = BlockInfo::default();
    assert_eq!(g.header.height, 0);
    assert_eq!(g.header.version, 0);
    assert_eq!(g.txs.len(), 1);
    assert_eq!(g.txs[0].data.len(), 0);
    assert_eq!(g.signature.0, [0u8; 64]);
}
