//! End-to-end checks of the direct store against a temporary backend
//! database.

use blockstore::bignum::BigNum;
use blockstore::block::{encode_block, Block, BlockInfo};
use blockstore::difficulty::{BlockDifficulty, BlockRanks};
use blockstore::err::Error;
use blockstore::store::BlockStore;
use blockstore::types::{HeaderHash, Signature, TransactionHash};

fn temp_db() -> sled::Db {
    sled::Config::new().temporary(true).open().expect("temporary database")
}

fn mk_block(tag: u8) -> Block {
    Block::new(
        HeaderHash([tag; 32]),
        vec![TransactionHash([tag.wrapping_add(1); 32])],
        Signature([tag.wrapping_add(2); 64]),
    )
}

fn mk_difficulty(height: u64) -> BlockDifficulty {
    let ranks = BlockRanks::new(
        BigNum::from_u64(height),
        BigNum::from_u64(height * 2),
        BigNum::from_u64(height * 3),
        BigNum::from_u64(height * 4),
    );
    BlockDifficulty::new(
        height,
        height * 100,
        BigNum::from_u64(10),
        BigNum::from_u64(10 * (height + 1)),
        ranks,
    )
}

#[test]
fn genesis_block_scenario() {
    let db = temp_db();
    let mut store = BlockStore::new(&db).unwrap();
    let genesis = Block::from_block_info(&BlockInfo::default());
    let ghash = genesis.hash();

    let hashes = store.insert(&[genesis]).unwrap();
    assert_eq!(hashes.len(), 1);
    assert_eq!(hashes[0].inner(), ghash.inner());
    store.insert_order(&[0], &hashes).unwrap();

    assert!(store.contains(&ghash).unwrap());
    assert!(store.contains_order(0).unwrap());
    assert!(!store.contains_order(1).unwrap());
    let (fh, fhash) = store.get_first().unwrap();
    assert_eq!(fh, 0);
    assert_eq!(fhash.inner(), ghash.inner());
    let (lh, lhash) = store.get_last().unwrap();
    assert_eq!(lh, 0);
    assert_eq!(lhash.inner(), ghash.inner());
    assert_eq!(store.len(), 1);
    assert!(!store.is_empty());
}

#[test]
fn insert_then_strict_get_returns_block() {
    let db = temp_db();
    let mut store = BlockStore::new(&db).unwrap();
    let b = mk_block(10);
    let bh = b.hash();
    store.insert(&[b]).unwrap();
    let got = store.get(&[bh], true).unwrap();
    assert_eq!(got.len(), 1);
    let back = got[0].as_ref().expect("strict get must find the block");
    assert_eq!(back.hash().inner(), bh.inner());
    assert_eq!(back.txs.len(), 1);
    assert_eq!(back.txs[0].inner(), &[11u8; 32]);
}

#[test]
fn repeated_insert_keeps_block_count() {
    let db = temp_db();
    let mut store = BlockStore::new(&db).unwrap();
    let b = mk_block(20);
    store.insert(&[mk_block(20)]).unwrap();
    let before = store.get_all().unwrap().len();
    store.insert(&[b]).unwrap();
    assert_eq!(store.get_all().unwrap().len(), before);
}

#[test]
fn non_strict_get_aligns_results() {
    let db = temp_db();
    let mut store = BlockStore::new(&db).unwrap();
    let b = mk_block(30);
    let bh = b.hash();
    let absent = HeaderHash([99u8; 32]);
    store.insert(&[b]).unwrap();
    let got = store.get(&[absent, bh, absent], false).unwrap();
    assert_eq!(got.len(), 3);
    assert!(got[0].is_none());
    assert!(got[1].is_some());
    assert!(got[2].is_none());
}

#[test]
fn strict_get_fails_on_missing_block() {
    let db = temp_db();
    let mut store = BlockStore::new(&db).unwrap();
    let b = mk_block(40);
    let bh = b.hash();
    let absent = HeaderHash([98u8; 32]);
    store.insert(&[b]).unwrap();
    match store.get(&[bh, absent], true) {
        Err(Error::BlockNotFound(h)) => assert_eq!(h.inner(), absent.inner()),
        other => panic!("expected BlockNotFound, got {:?}", other),
    }
}

#[test]
fn strict_order_and_difficulty_not_found() {
    let db = temp_db();
    let store = BlockStore::new(&db).unwrap();
    match store.get_order(&[7], true) {
        Err(Error::BlockNumberNotFound(7)) => {},
        other => panic!("expected BlockNumberNotFound, got {:?}", other),
    }
    match store.get_difficulty(&[7], true) {
        Err(Error::BlockDifficultyNotFound(7)) => {},
        other => panic!("expected BlockDifficultyNotFound, got {:?}", other),
    }
    match store.get_first() {
        Err(Error::BlockNumberNotFound(0)) => {},
        other => panic!("expected BlockNumberNotFound on empty tree, got {:?}", other),
    }
    match store.get_last() {
        Err(Error::BlockNumberNotFound(0)) => {},
        other => panic!("expected BlockNumberNotFound on empty tree, got {:?}", other),
    }
}

#[test]
fn get_after_walks_the_contiguous_run() {
    let db = temp_db();
    let mut store = BlockStore::new(&db).unwrap();
    let blocks = [mk_block(1), mk_block(2), mk_block(3)];
    let hashes: Vec<HeaderHash> = blocks.iter().map(|b| b.hash()).collect();
    store.insert(&blocks).unwrap();
    store.insert_order(&[0, 1, 2], &hashes).unwrap();

    let after = store.get_after(0, 5).unwrap();
    assert_eq!(after.len(), 2);
    assert_eq!(after[0].inner(), hashes[1].inner());
    assert_eq!(after[1].inner(), hashes[2].inner());

    let after = store.get_after(0, 0).unwrap();
    assert_eq!(after.len(), 1);
    assert_eq!(after[0].inner(), hashes[1].inner());

    let after = store.get_after(2, 5).unwrap();
    assert_eq!(after.len(), 0);
}

#[test]
fn get_after_stops_at_the_first_missing_height() {
    let db = temp_db();
    let mut store = BlockStore::new(&db).unwrap();
    let blocks = [mk_block(1), mk_block(2), mk_block(3)];
    let hashes: Vec<HeaderHash> = blocks.iter().map(|b| b.hash()).collect();
    store.insert(&blocks).unwrap();
    // Heights 0, 1 and 5: height 2 is missing, so the walk past 0 ends
    // after height 1 and the entry at height 5 is not returned.
    store.insert_order(&[0, 1, 5], &hashes).unwrap();
    let after = store.get_after(0, 10).unwrap();
    assert_eq!(after.len(), 1);
    assert_eq!(after[0].inner(), hashes[1].inner());
    // Starting inside the gap, nothing is contiguous with height 2.
    let after = store.get_after(2, 10).unwrap();
    assert_eq!(after.len(), 0);
}

#[test]
fn permuted_inserts_share_first_and_last() {
    let db = temp_db();
    let mut store = BlockStore::new(&db).unwrap();
    let hashes: Vec<HeaderHash> = (0..6u8).map(|t| HeaderHash([t; 32])).collect();
    // Heights inserted out of order.
    store.insert_order(&[3, 0, 5, 1, 4, 2], &[
        hashes[3], hashes[0], hashes[5], hashes[1], hashes[4], hashes[2],
    ]).unwrap();
    let (first, fhash) = store.get_first().unwrap();
    assert_eq!(first, 0);
    assert_eq!(fhash.inner(), hashes[0].inner());
    let (last, lhash) = store.get_last().unwrap();
    assert_eq!(last, 5);
    assert_eq!(lhash.inner(), hashes[5].inner());
    assert_eq!(store.len(), 6);
}

#[test]
fn last_difficulties_come_back_ascending() {
    let db = temp_db();
    let mut store = BlockStore::new(&db).unwrap();
    let records: Vec<BlockDifficulty> = (0..10u64).map(mk_difficulty).collect();
    store.insert_difficulty(&records).unwrap();

    let last = store.get_last_difficulty().unwrap().expect("tree is not empty");
    assert_eq!(last.height, 9);
    assert_eq!(last.cummulative_difficulty.to_bytes_be(), BigNum::from_u64(100).to_bytes_be());

    let last3 = store.get_last_n_difficulties(3).unwrap();
    assert_eq!(last3.len(), 3);
    assert_eq!(last3[0].height, 7);
    assert_eq!(last3[1].height, 8);
    assert_eq!(last3[2].height, 9);

    let all = store.get_last_n_difficulties(100).unwrap();
    assert_eq!(all.len(), 10);
    assert_eq!(all[0].height, 0);
    assert_eq!(all[9].height, 9);

    assert!(store.get_last_n_difficulties(0).unwrap().is_empty());
}

#[test]
fn empty_difficulty_tree_has_no_last() {
    let db = temp_db();
    let store = BlockStore::new(&db).unwrap();
    assert!(store.get_last_difficulty().unwrap().is_none());
}

#[test]
fn full_scans_come_back_ascending() {
    let db = temp_db();
    let mut store = BlockStore::new(&db).unwrap();
    let blocks = [mk_block(9), mk_block(3), mk_block(6)];
    let hashes: Vec<HeaderHash> = blocks.iter().map(|b| b.hash()).collect();
    store.insert(&blocks).unwrap();
    store.insert_order(&[2, 0, 1], &hashes).unwrap();
    store.insert_difficulty(&[mk_difficulty(1), mk_difficulty(0)]).unwrap();

    let all = store.get_all().unwrap();
    assert_eq!(all.len(), 3);
    assert_eq!(all[0].0.inner(), &[3u8; 32]);
    assert_eq!(all[1].0.inner(), &[6u8; 32]);
    assert_eq!(all[2].0.inner(), &[9u8; 32]);
    for (h, b) in &all {
        assert_eq!(h.inner(), b.hash().inner());
    }

    let order = store.get_all_order().unwrap();
    assert_eq!(order.len(), 3);
    assert_eq!(order[0].0, 0);
    assert_eq!(order[1].0, 1);
    assert_eq!(order[2].0, 2);
    assert_eq!(order[0].1.inner(), hashes[1].inner());

    let diffs = store.get_all_difficulty().unwrap();
    assert_eq!(diffs.len(), 2);
    assert_eq!(diffs[0].0, 0);
    assert_eq!(diffs[1].0, 1);
    assert_eq!(diffs[1].1.timestamp, 100);
}

#[test]
fn get_order_reads_back_hashes() {
    let db = temp_db();
    let mut store = BlockStore::new(&db).unwrap();
    let hashes = [HeaderHash([5u8; 32]), HeaderHash([6u8; 32])];
    store.insert_order(&[0, 1], &hashes).unwrap();
    let got = store.get_order(&[1, 0, 9], false).unwrap();
    assert_eq!(got.len(), 3);
    assert_eq!(got[0].unwrap().inner(), &[6u8; 32]);
    assert_eq!(got[1].unwrap().inner(), &[5u8; 32]);
    assert!(got[2].is_none());
}

#[test]
fn corrupt_block_value_surfaces_deserialize() {
    let db = temp_db();
    let mut store = BlockStore::new(&db).unwrap();
    let b = mk_block(50);
    let bh = b.hash();
    store.insert(&[b]).unwrap();
    // Overwrite the stored value with garbage, behind the store's back.
    let tree = db.open_tree("_blocks").unwrap();
    tree.insert(bh.inner(), &b"garbage"[..]).unwrap();
    match store.get(&[bh], true) {
        Err(Error::Deserialize) => {},
        other => panic!("expected Deserialize, got {:?}", other),
    }
}

#[test]
fn insert_batch_reports_hashes_in_order() {
    let db = temp_db();
    let store = BlockStore::new(&db).unwrap();
    let blocks = [mk_block(1), mk_block(2)];
    let (_batch, hashes) = store.insert_batch(&blocks);
    assert_eq!(hashes.len(), 2);
    assert_eq!(hashes[0].inner(), &[1u8; 32]);
    assert_eq!(hashes[1].inner(), &[2u8; 32]);
}

#[test]
fn reopened_store_sees_persisted_state() {
    let db = temp_db();
    let b = mk_block(60);
    let bh = b.hash();
    {
        let mut store = BlockStore::new(&db).unwrap();
        store.insert(&[b]).unwrap();
        store.insert_order(&[0], &[bh]).unwrap();
    }
    let store = BlockStore::new(&db).unwrap();
    assert!(store.contains(&bh).unwrap());
    assert_eq!(store.len(), 1);
}

#[test]
fn encoded_block_is_what_the_tree_stores() {
    let db = temp_db();
    let mut store = BlockStore::new(&db).unwrap();
    let b = mk_block(70);
    let bytes = encode_block(&b);
    let bh = b.hash();
    store.insert(&[b]).unwrap();
    let tree = db.open_tree("_blocks").unwrap();
    let stored = tree.get(bh.inner()).unwrap().expect("block must be stored");
    assert_eq!(stored.as_ref(), bytes.as_slice());
}
