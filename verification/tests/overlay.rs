//! Checks of the staging overlay: read-your-writes, invisibility before
//! commit, atomic promotion, and discard.

use blockstore::bignum::BigNum;
use blockstore::block::Block;
use blockstore::difficulty::{BlockDifficulty, BlockRanks};
use blockstore::err::Error;
use blockstore::overlay::BlockStoreOverlay;
use blockstore::store::BlockStore;
use blockstore::types::{HeaderHash, Signature, TransactionHash};

fn temp_db() -> sled::Db {
    sled::Config::new().temporary(true).open().expect("temporary database")
}

fn mk_block(tag: u8) -> Block {
    Block::new(
        HeaderHash([tag; 32]),
        vec![TransactionHash([tag.wrapping_add(1); 32])],
        Signature([tag.wrapping_add(2); 64]),
    )
}

fn mk_difficulty(height: u64) -> BlockDifficulty {
    let ranks = BlockRanks::new(
        BigNum::zero(),
        BigNum::zero(),
        BigNum::zero(),
        BigNum::zero(),
    );
    BlockDifficulty::new(height, 1, BigNum::from_u64(2), BigNum::from_u64(2), ranks)
}

#[test]
fn buffered_block_is_read_back_and_invisible_below() {
    let db = temp_db();
    let mut store = BlockStore::new(&db).unwrap();
    let mut overlay = BlockStoreOverlay::new();
    let b = mk_block(5);
    let bh = b.hash();

    let hashes = overlay.insert(&[b]).unwrap();
    assert_eq!(hashes[0].inner(), bh.inner());

    // Read-your-writes through the overlay.
    let got = overlay.get(&store, &[bh], false).unwrap();
    let back = got[0].as_ref().expect("the buffered block must be visible");
    assert_eq!(back.hash().inner(), bh.inner());

    // The store underneath does not observe the buffered write.
    assert!(!store.contains(&bh).unwrap());

    // After commit it does.
    overlay.commit(&mut store).unwrap();
    assert!(store.contains(&bh).unwrap());
    let got = store.get(&[bh], true).unwrap();
    assert_eq!(got[0].as_ref().unwrap().hash().inner(), bh.inner());
}

#[test]
fn discard_drops_every_buffered_write() {
    let db = temp_db();
    let mut store = BlockStore::new(&db).unwrap();
    let mut overlay = BlockStoreOverlay::new();
    let b = mk_block(6);
    let bh = b.hash();

    overlay.insert(&[b]).unwrap();
    overlay.insert_order(&[5], &[bh]).unwrap();
    overlay.insert_difficulty(&[mk_difficulty(5)]).unwrap();
    overlay.discard();

    overlay.commit(&mut store).unwrap();
    assert!(!store.contains(&bh).unwrap());
    assert!(store.is_empty());
    assert!(store.get_last_difficulty().unwrap().is_none());
}

#[test]
fn commit_promotes_all_three_trees_together() {
    let db = temp_db();
    let mut store = BlockStore::new(&db).unwrap();
    let mut overlay = BlockStoreOverlay::new();
    let b = mk_block(7);
    let bh = b.hash();

    overlay.insert(&[b]).unwrap();
    overlay.insert_order(&[0], &[bh]).unwrap();
    overlay.insert_difficulty(&[mk_difficulty(0)]).unwrap();

    assert!(store.is_empty());
    overlay.commit(&mut store).unwrap();

    assert!(store.contains(&bh).unwrap());
    assert_eq!(store.len(), 1);
    let (h, hash) = store.get_last().unwrap();
    assert_eq!(h, 0);
    assert_eq!(hash.inner(), bh.inner());
    assert_eq!(store.get_last_difficulty().unwrap().unwrap().height, 0);

    // A committed overlay holds nothing further.
    let mut store2 = BlockStore::new(&db).unwrap();
    overlay.commit(&mut store2).unwrap();
    assert_eq!(store2.len(), 1);
}

#[test]
fn mismatched_order_slices_fail_and_buffer_nothing() {
    let db = temp_db();
    let mut store = BlockStore::new(&db).unwrap();
    let mut overlay = BlockStoreOverlay::new();
    let h1 = HeaderHash([1u8; 32]);

    match overlay.insert_order(&[1, 2], &[h1]) {
        Err(Error::InvalidInputLengths) => {},
        other => panic!("expected InvalidInputLengths, got {:?}", other),
    }
    // No buffered state remains.
    assert!(overlay.is_empty(&store).unwrap());
    overlay.commit(&mut store).unwrap();
    assert!(store.is_empty());
}

#[test]
fn overlay_order_reads_fall_through_and_shadow() {
    let db = temp_db();
    let mut store = BlockStore::new(&db).unwrap();
    let stored = HeaderHash([1u8; 32]);
    let buffered = HeaderHash([2u8; 32]);
    store.insert_order(&[0], &[stored]).unwrap();

    let mut overlay = BlockStoreOverlay::new();
    overlay.insert_order(&[1], &[buffered]).unwrap();

    // Height 0 falls through to the store; height 1 is buffered.
    let got = overlay.get_order(&store, &[0, 1], true).unwrap();
    assert_eq!(got[0].unwrap().inner(), stored.inner());
    assert_eq!(got[1].unwrap().inner(), buffered.inner());

    // A buffered write at an occupied height shadows the stored hash.
    let shadow = HeaderHash([3u8; 32]);
    overlay.insert_order(&[0], &[shadow]).unwrap();
    let got = overlay.get_order(&store, &[0], true).unwrap();
    assert_eq!(got[0].unwrap().inner(), shadow.inner());
    // The store itself is unchanged until commit.
    let direct = store.get_order(&[0], true).unwrap();
    assert_eq!(direct[0].unwrap().inner(), stored.inner());

    match overlay.get_order(&store, &[9], true) {
        Err(Error::BlockNumberNotFound(9)) => {},
        other => panic!("expected BlockNumberNotFound, got {:?}", other),
    }
}

#[test]
fn overlay_last_merges_buffer_and_store() {
    let db = temp_db();
    let mut store = BlockStore::new(&db).unwrap();
    let mut overlay = BlockStoreOverlay::new();

    match overlay.get_last(&store) {
        Err(Error::BlockNumberNotFound(0)) => {},
        other => panic!("expected BlockNumberNotFound on empty view, got {:?}", other),
    }
    assert!(overlay.is_empty(&store).unwrap());

    let stored = HeaderHash([1u8; 32]);
    store.insert_order(&[3], &[stored]).unwrap();
    let (h, hash) = overlay.get_last(&store).unwrap();
    assert_eq!(h, 3);
    assert_eq!(hash.inner(), stored.inner());
    assert!(!overlay.is_empty(&store).unwrap());

    let buffered = HeaderHash([2u8; 32]);
    overlay.insert_order(&[7], &[buffered]).unwrap();
    let (h, hash) = overlay.get_last(&store).unwrap();
    assert_eq!(h, 7);
    assert_eq!(hash.inner(), buffered.inner());

    // A buffered write at the stored maximum shadows its hash.
    let mut overlay2 = BlockStoreOverlay::new();
    let shadow = HeaderHash([4u8; 32]);
    overlay2.insert_order(&[3], &[shadow]).unwrap();
    let (h, hash) = overlay2.get_last(&store).unwrap();
    assert_eq!(h, 3);
    assert_eq!(hash.inner(), shadow.inner());
}

#[test]
fn overlay_get_respects_strictness() {
    let db = temp_db();
    let store = BlockStore::new(&db).unwrap();
    let mut overlay = BlockStoreOverlay::new();
    let b = mk_block(8);
    let bh = b.hash();
    let absent = HeaderHash([9u8; 32]);
    overlay.insert(&[b]).unwrap();

    let got = overlay.get(&store, &[absent, bh], false).unwrap();
    assert!(got[0].is_none());
    assert!(got[1].is_some());

    match overlay.get(&store, &[absent], true) {
        Err(Error::BlockNotFound(h)) => assert_eq!(h.inner(), absent.inner()),
        other => panic!("expected BlockNotFound, got {:?}", other),
    }
}
