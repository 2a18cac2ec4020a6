//! The block store: three named trees of the backend, and typed reads and
//! writes over them.
//!
//! * `main` maps a header hash to the encoded block,
//! * `order` maps a big-endian height key to the bare header hash,
//! * `difficulty` maps a big-endian height key to the encoded record.
//!
//! A single call is atomic per tree (one batch). Writes across several
//! calls, or across trees, are not mutually atomic; a chain extension that
//! must move all three trees together goes through the overlay.

use vstd::prelude::*;

use crate::block::{dec_block, enc_block, encode_block, Block};
use crate::bytes::{
    lemma_lex_connected, lemma_lex_irrefl, lemma_lex_trans, lemma_u64_be_order, lex_lt,
    u64_be_bytes, u64_from_be, u64_to_be,
};
use crate::difficulty::{dec_difficulty, enc_difficulty, BlockDifficulty};
use crate::err::Error;
use crate::kv::{
    batch_insert, batch_new, batch_view, counts_entries, db_open_tree, tree_apply_batch,
    tree_contains, tree_first, tree_get, tree_get_gt, tree_get_lt, tree_last, tree_len,
    tree_is_empty, tree_view,
};
use crate::types::HeaderHash;

verus! {

/// Name of the block tree.
pub const SLED_BLOCK_TREE: &'static str = "_blocks";

/// Name of the order tree.
pub const SLED_BLOCK_ORDER_TREE: &'static str = "_block_order";

/// Name of the difficulty tree.
pub const SLED_BLOCK_DIFFICULTY_TREE: &'static str = "_block_difficulty";

/// The three trees holding the chain's blocks, their order and their
/// difficulty records.
pub struct BlockStore {
    /// Block tree: header hash to encoded block.
    pub main: sled::Tree,
    /// Order tree: big-endian height key to header hash.
    pub order: sled::Tree,
    /// Difficulty tree: big-endian height key to encoded record.
    pub difficulty: sled::Tree,
}

impl BlockStore {
    /// Contents of the block tree.
    pub open spec fn blocks_map(self) -> Map<Seq<u8>, Seq<u8>> {
        tree_view(self.main)
    }

    /// Contents of the order tree.
    pub open spec fn order_map(self) -> Map<Seq<u8>, Seq<u8>> {
        tree_view(self.order)
    }

    /// Contents of the difficulty tree.
    pub open spec fn difficulty_map(self) -> Map<Seq<u8>, Seq<u8>> {
        tree_view(self.difficulty)
    }
}

/// What one lookup in the block tree yields for key `h`: the decoded
/// block if the key is present, nothing if it is absent.
pub open spec fn block_lookup(m: Map<Seq<u8>, Seq<u8>>, h: Seq<u8>, o: Option<Block>) -> bool {
    match o {
        Some(b) => m.dom().contains(h) && dec_block(m[h]) == Some(b@),
        None => !m.dom().contains(h),
    }
}

/// What one lookup in the order tree yields for key `k`: the stored hash
/// if the key is present, nothing if it is absent.
pub open spec fn order_lookup(m: Map<Seq<u8>, Seq<u8>>, k: Seq<u8>, o: Option<HeaderHash>) -> bool {
    match o {
        Some(hh) => m.dom().contains(k) && hh@ == m[k],
        None => !m.dom().contains(k),
    }
}

/// What one lookup in the difficulty tree yields for key `k`: the decoded
/// record if the key is present, nothing if it is absent.
pub open spec fn difficulty_lookup(
    m: Map<Seq<u8>, Seq<u8>>,
    k: Seq<u8>,
    o: Option<BlockDifficulty>,
) -> bool {
    match o {
        Some(d) => m.dom().contains(k) && dec_difficulty(m[k]) == Some(d@),
        None => !m.dom().contains(k),
    }
}

/// The i-th entry of `v` is the hash the order contents `m` store at
/// height `start + 1 + i`, which is present.
pub open spec fn run_entry(m: Map<Seq<u8>, Seq<u8>>, start: u64, v: Seq<HeaderHash>, i: int) -> bool {
    &&& start + 1 + i <= u64::MAX
    &&& m.dom().contains(u64_be_bytes((start + 1 + i) as u64))
    &&& v[i]@ == m[u64_be_bytes((start + 1 + i) as u64)]
}

/// `v` holds the hashes of the contiguous run of heights just above
/// `start`: its i-th entry is the hash stored at height `start + 1 + i`,
/// and every one of those heights is present in the order contents `m`.
pub open spec fn consecutive_run(m: Map<Seq<u8>, Seq<u8>>, start: u64, v: Seq<HeaderHash>) -> bool {
    forall|i: int| 0 <= i < v.len() ==> #[trigger] run_entry(m, start, v, i)
}

/// The contiguous run of `len` heights above `start` cannot be extended:
/// the next consecutive height is missing from the order contents `m`,
/// or heights have run out.
pub open spec fn run_ends(m: Map<Seq<u8>, Seq<u8>>, start: u64, len: int) -> bool {
    start + len + 1 > u64::MAX || !m.dom().contains(u64_be_bytes((start + len + 1) as u64))
}

/// The keys of `m` strictly above `k`.
pub open spec fn keys_above(m: Map<Seq<u8>, Seq<u8>>, k: Seq<u8>) -> Set<Seq<u8>> {
    Set::new(|k2: Seq<u8>| m.dom().contains(k2) && lex_lt(k, k2))
}

/// The keys of `m` strictly below `k`.
pub open spec fn keys_below(m: Map<Seq<u8>, Seq<u8>>, k: Seq<u8>) -> Set<Seq<u8>> {
    Set::new(|k2: Seq<u8>| m.dom().contains(k2) && lex_lt(k2, k))
}

/// Advancing the cursor to a greater key leaves strictly fewer keys above
/// it: the walk over a tree ends.
proof fn lemma_keys_above_shrinks(m: Map<Seq<u8>, Seq<u8>>, cur: Seq<u8>, k2: Seq<u8>)
    requires
        m.dom().finite(),
        m.dom().contains(k2),
        lex_lt(cur, k2),
    ensures
        keys_above(m, cur).finite(),
        keys_above(m, k2).finite(),
        keys_above(m, k2).len() < keys_above(m, cur).len(),
{
    let a1 = keys_above(m, cur);
    let a2 = keys_above(m, k2);
    vstd::set_lib::lemma_len_subset(a1, m.dom());
    assert forall|x: Seq<u8>| a2.contains(x) implies a1.remove(k2).contains(x) by {
        lemma_lex_trans(cur, k2, x);
        if x == k2 {
            lemma_lex_irrefl(k2);
        }
    }
    assert(a1.contains(k2));
    vstd::set_lib::lemma_len_subset(a2, a1.remove(k2));
}

/// Stepping the cursor down to a lesser key leaves strictly fewer keys
/// below it: the reverse walk over a tree ends.
proof fn lemma_keys_below_shrinks(m: Map<Seq<u8>, Seq<u8>>, cur: Seq<u8>, k2: Seq<u8>)
    requires
        m.dom().finite(),
        m.dom().contains(k2),
        lex_lt(k2, cur),
    ensures
        keys_below(m, cur).finite(),
        keys_below(m, k2).finite(),
        keys_below(m, k2).len() < keys_below(m, cur).len(),
{
    let a1 = keys_below(m, cur);
    let a2 = keys_below(m, k2);
    vstd::set_lib::lemma_len_subset(a1, m.dom());
    assert forall|x: Seq<u8>| a2.contains(x) implies a1.remove(k2).contains(x) by {
        lemma_lex_trans(x, k2, cur);
        if x == k2 {
            lemma_lex_irrefl(k2);
        }
    }
    assert(a1.contains(k2));
    vstd::set_lib::lemma_len_subset(a2, a1.remove(k2));
}

/// `ks` and `v` are the aligned keys and decoded records of the top
/// stretch of the contents `m`: ascending, nothing of `m` above them
/// skipped, and the whole of `m` when fewer than `n` were found.
pub open spec fn last_n_scan(
    m: Map<Seq<u8>, Seq<u8>>,
    n: int,
    ks: Seq<Seq<u8>>,
    v: Seq<BlockDifficulty>,
) -> bool {
    &&& ks.len() == v.len()
    &&& forall|i: int|
        0 <= i < ks.len() ==> m.dom().contains(#[trigger] ks[i]) && dec_difficulty(m[ks[i]])
            == Some(v[i]@)
    &&& forall|i: int, j: int| 0 <= i < j < ks.len() ==> lex_lt(ks[i], ks[j])
    &&& forall|k: Seq<u8>|
        #![auto]
        m.dom().contains(k) && ks.len() > 0 && lex_lt(ks[0], k) ==> exists|i: int|
            0 <= i < ks.len() && ks[i] == k
    &&& v.len() < n ==> forall|k: Seq<u8>|
        #![auto]
        m.dom().contains(k) ==> exists|i: int| 0 <= i < ks.len() && ks[i] == k
}

/// Some aligned key sequence witnesses that `v` is the top stretch of
/// the contents `m`.
pub open spec fn some_last_n_scan(m: Map<Seq<u8>, Seq<u8>>, n: int, v: Seq<BlockDifficulty>) -> bool {
    exists|ks: Seq<Seq<u8>>| last_n_scan(m, n, ks, v)
}

/// `v` lists every entry of the contents `m`, in ascending key order.
pub open spec fn full_scan(m: Map<Seq<u8>, Seq<u8>>, v: Seq<(Vec<u8>, Vec<u8>)>) -> bool {
    &&& forall|i: int|
        0 <= i < v.len() ==> m.dom().contains((#[trigger] v[i]).0@) && v[i].1@ == m[v[i].0@]
    &&& forall|i: int, j: int| 0 <= i < j < v.len() ==> lex_lt(v[i].0@, v[j].0@)
    &&& forall|k: Seq<u8>|
        #[trigger] m.dom().contains(k) ==> exists|i: int|
            0 <= i < v.len() && (#[trigger] v[i]).0@ == k
}

/// `v` lists every block of the contents `m` with its key, in ascending
/// key order.
pub open spec fn block_listing(m: Map<Seq<u8>, Seq<u8>>, v: Seq<(HeaderHash, Block)>) -> bool {
    &&& forall|i: int|
        0 <= i < v.len() ==> m.dom().contains((#[trigger] v[i]).0@) && dec_block(m[v[i].0@])
            == Some(v[i].1@)
    &&& forall|i: int, j: int| 0 <= i < j < v.len() ==> lex_lt(v[i].0@, v[j].0@)
    &&& forall|k: Seq<u8>|
        #[trigger] m.dom().contains(k) ==> exists|i: int|
            0 <= i < v.len() && (#[trigger] v[i]).0@ == k
}

/// `v` lists every order entry of the contents `m`, in ascending height
/// order.
pub open spec fn order_listing(m: Map<Seq<u8>, Seq<u8>>, v: Seq<(u64, HeaderHash)>) -> bool {
    &&& forall|i: int|
        0 <= i < v.len() ==> m.dom().contains(u64_be_bytes((#[trigger] v[i]).0)) && v[i].1@
            == m[u64_be_bytes(v[i].0)]
    &&& forall|i: int, j: int| 0 <= i < j < v.len() ==> v[i].0 < v[j].0
    &&& forall|k: Seq<u8>|
        #[trigger] m.dom().contains(k) ==> exists|i: int|
            0 <= i < v.len() && u64_be_bytes((#[trigger] v[i]).0) == k
}

/// `v` lists every difficulty record of the contents `m` with its height,
/// in ascending height order.
pub open spec fn difficulty_listing(
    m: Map<Seq<u8>, Seq<u8>>,
    v: Seq<(u64, BlockDifficulty)>,
) -> bool {
    &&& forall|i: int|
        0 <= i < v.len() ==> m.dom().contains(u64_be_bytes((#[trigger] v[i]).0)) && dec_difficulty(
            m[u64_be_bytes(v[i].0)],
        ) == Some(v[i].1@)
    &&& forall|i: int, j: int| 0 <= i < j < v.len() ==> v[i].0 < v[j].0
    &&& forall|k: Seq<u8>|
        #[trigger] m.dom().contains(k) ==> exists|i: int|
            0 <= i < v.len() && u64_be_bytes((#[trigger] v[i]).0) == k
}

/// Walks a whole tree with the successor cursor: every entry, in
/// ascending key order.
fn scan_tree(t: &sled::Tree) -> (r: Result<Vec<(Vec<u8>, Vec<u8>)>, Error>)
    ensures
        r matches Ok(v) ==> full_scan(tree_view(*t), v@),
        r matches Err(e) ==> e == Error::Io,
{
    let ghost m = tree_view(*t);
    let mut out: Vec<(Vec<u8>, Vec<u8>)> = Vec::new();
    match tree_first(t) {
        Err(e) => {
            return Err(e);
        },
        Ok(None) => {
            proof {
                assert(full_scan(m, out@));
            }
            return Ok(out);
        },
        Ok(Some(kv)) => {
            out.push(kv);
            proof {
                assert forall|k: Seq<u8>|
                    #[trigger] m.dom().contains(k) && !lex_lt(out@.last().0@, k) implies exists|
                    i: int,
                |
                    0 <= i < out@.len() && (#[trigger] out@[i]).0@ == k by {
                    if k != out@[0].0@ {
                        lemma_lex_connected(k, out@[0].0@);
                        assert(false);
                    }
                    assert(out@[0].0@ == k);
                }
            }
        },
    }
    let mut done = false;
    while !done
        invariant
            m == tree_view(*t),
            m.dom().finite(),
            out@.len() >= 1,
            forall|i: int|
                0 <= i < out@.len() ==> m.dom().contains((#[trigger] out@[i]).0@) && out@[i].1@
                    == m[out@[i].0@],
            forall|i: int, j: int| 0 <= i < j < out@.len() ==> lex_lt(out@[i].0@, out@[j].0@),
            forall|k: Seq<u8>|
                #[trigger] m.dom().contains(k) && !lex_lt(out@.last().0@, k) ==> exists|i: int|
                    0 <= i < out@.len() && (#[trigger] out@[i]).0@ == k,
            done ==> forall|k: Seq<u8>|
                #[trigger] m.dom().contains(k) ==> !lex_lt(out@.last().0@, k),
        decreases (if done {
            0nat
        } else {
            keys_above(m, out@.last().0@).len() + 1nat
        }),
    {
        let idx = out.len() - 1;
        match tree_get_gt(t, out[idx].0.as_slice()) {
            Err(e) => {
                return Err(e);
            },
            Ok(None) => {
                done = true;
            },
            Ok(Some(kv)) => {
                let ghost prev = out@;
                let ghost kk = kv.0@;
                proof {
                    lemma_keys_above_shrinks(m, prev.last().0@, kk);
                }
                out.push(kv);
                proof {
                    assert forall|i: int, j: int| 0 <= i < j < out@.len() implies lex_lt(
                        out@[i].0@,
                        out@[j].0@,
                    ) by {
                        if j < prev.len() {
                            assert(out@[i] == prev[i]);
                            assert(out@[j] == prev[j]);
                        } else {
                            assert(out@[j].0@ == kk);
                            assert(out@[i] == prev[i]);
                            if i < prev.len() - 1 {
                                assert(lex_lt(prev[i].0@, prev.last().0@));
                                lemma_lex_trans(prev[i].0@, prev.last().0@, kk);
                            }
                        }
                    }
                    assert forall|k: Seq<u8>|
                        #[trigger] m.dom().contains(k) && !lex_lt(
                            out@.last().0@,
                            k,
                        ) implies exists|i: int|
                        0 <= i < out@.len() && (#[trigger] out@[i]).0@ == k by {
                        if !lex_lt(prev.last().0@, k) {
                            let i0 = choose|i: int|
                                0 <= i < prev.len() && (#[trigger] prev[i]).0@ == k;
                            assert(out@[i0] == prev[i0]);
                            assert(out@[i0].0@ == k);
                        } else {
                            if k != kk {
                                lemma_lex_connected(k, kk);
                                assert(!lex_lt(k, kk));
                                assert(false);
                            }
                            assert(out@[out@.len() - 1].0@ == k);
                        }
                    }
                }
            },
        }
    }
    proof {
        assert forall|k: Seq<u8>| #[trigger] m.dom().contains(k) implies exists|i: int|
            0 <= i < out@.len() && (#[trigger] out@[i]).0@ == k by {
            assert(!lex_lt(out@.last().0@, k));
        }
        assert(full_scan(m, out@));
    }
    Ok(out)
}

/// The writes that persist a sequence of blocks: each block's encoding
/// keyed by its header hash, later blocks winning at a repeated hash.
pub open spec fn blocks_writes(bs: Seq<Block>) -> Map<Seq<u8>, Seq<u8>>
    decreases bs.len(),
{
    if bs.len() == 0 {
        Map::empty()
    } else {
        blocks_writes(bs.drop_last()).insert(bs.last()@.header, enc_block(bs.last()@))
    }
}

/// The writes that extend the order tree: each hash keyed by the
/// big-endian form of its height.
pub open spec fn order_writes(hs: Seq<u64>, vs: Seq<HeaderHash>) -> Map<Seq<u8>, Seq<u8>>
    recommends
        hs.len() <= vs.len(),
    decreases hs.len(),
{
    if hs.len() == 0 {
        Map::empty()
    } else {
        order_writes(hs.drop_last(), vs).insert(u64_be_bytes(hs.last()), vs[hs.len() - 1]@)
    }
}

/// The writes that persist a sequence of difficulty records: each record's
/// encoding keyed by the big-endian form of its height.
pub open spec fn difficulty_writes(ds: Seq<BlockDifficulty>) -> Map<Seq<u8>, Seq<u8>>
    decreases ds.len(),
{
    if ds.len() == 0 {
        Map::empty()
    } else {
        difficulty_writes(ds.drop_last()).insert(
            u64_be_bytes(ds.last()@.height),
            enc_difficulty(ds.last()@),
        )
    }
}

impl BlockStore {
    /// Opens or creates the three trees on the given database. Their
    /// contents are whatever was persisted before.
    ///
    /// The contracts of this store model each tree handle as the sole
    /// handle to its keyspace. Open one store per database: a second
    /// store on the same database shares the underlying trees, and
    /// writes through one are not reflected in the model of the other.
    pub fn new(db: &sled::Db) -> (r: Result<BlockStore, Error>)
        ensures
            r matches Err(e) ==> e == Error::Io,
    {
        let main = db_open_tree(db, SLED_BLOCK_TREE)?;
        let order = db_open_tree(db, SLED_BLOCK_ORDER_TREE)?;
        let difficulty = db_open_tree(db, SLED_BLOCK_DIFFICULTY_TREE)?;
        Ok(BlockStore { main, order, difficulty })
    }

    /// The batch that persists the given blocks, and their hashes in input
    /// order, so the caller can apply the write itself.
    pub fn insert_batch(&self, blocks: &[Block]) -> (r: (sled::Batch, Vec<HeaderHash>))
        ensures
            batch_view(r.0) == blocks_writes(blocks@),
            r.1@ == blocks@.map_values(|b: Block| b.header),
    {
        let mut ret: Vec<HeaderHash> = Vec::new();
        let mut batch = batch_new();
        let mut i: usize = 0;
        while i < blocks.len()
            invariant
                0 <= i <= blocks@.len(),
                batch_view(batch) == blocks_writes(blocks@.take(i as int)),
                ret@.len() == i,
                forall|j: int| 0 <= j < i ==> ret@[j] == blocks@[j].header,
            decreases blocks@.len() - i,
        {
            let block = vstd::slice::slice_index_get(blocks, i);
            let blockhash = block.hash();
            let encoded = encode_block(block);
            batch_insert(&mut batch, blockhash.inner().as_slice(), encoded.as_slice());
            ret.push(blockhash);
            proof {
                assert(blocks@.take(i + 1).drop_last() =~= blocks@.take(i as int));
                assert(blocks@.take(i + 1).last() == blocks@[i as int]);
            }
            i = i + 1;
        }
        proof {
            assert(blocks@.take(blocks@.len() as int) =~= blocks@);
            assert(ret@ =~= blocks@.map_values(|b: Block| b.header));
        }
        (batch, ret)
    }

    /// The batch that extends the order tree with the given heights and
    /// hashes, pairwise.
    pub fn insert_batch_order(&self, order: &[u64], hashes: &[HeaderHash]) -> (r: sled::Batch)
        requires
            order@.len() <= hashes@.len(),
        ensures
            batch_view(r) == order_writes(order@, hashes@),
    {
        let mut batch = batch_new();
        let mut i: usize = 0;
        while i < order.len()
            invariant
                0 <= i <= order@.len(),
                order@.len() <= hashes@.len(),
                batch_view(batch) == order_writes(order@.take(i as int), hashes@),
            decreases order@.len() - i,
        {
            let number = order[i];
            let key = u64_to_be(number);
            batch_insert(&mut batch, key.as_slice(), hashes[i].inner().as_slice());
            proof {
                assert(order@.take(i + 1).drop_last() =~= order@.take(i as int));
                assert(order@.take(i + 1).last() == order@[i as int]);
            }
            i = i + 1;
        }
        proof {
            assert(order@.take(order@.len() as int) =~= order@);
        }
        batch
    }

    /// The batch that persists the given difficulty records.
    pub fn insert_batch_difficulty(&self, block_difficulties: &[BlockDifficulty]) -> (r:
        sled::Batch)
        ensures
            batch_view(r) == difficulty_writes(block_difficulties@),
    {
        let mut batch = batch_new();
        let mut i: usize = 0;
        while i < block_difficulties.len()
            invariant
                0 <= i <= block_difficulties@.len(),
                batch_view(batch) == difficulty_writes(block_difficulties@.take(i as int)),
            decreases block_difficulties@.len() - i,
        {
            let d = vstd::slice::slice_index_get(block_difficulties, i);
            let key = u64_to_be(d.height);
            let encoded = d.encode();
            batch_insert(&mut batch, key.as_slice(), encoded.as_slice());
            proof {
                assert(block_difficulties@.take(i + 1).drop_last() =~= block_difficulties@.take(
                    i as int,
                ));
                assert(block_difficulties@.take(i + 1).last() == block_difficulties@[i as int]);
            }
            i = i + 1;
        }
        proof {
            assert(block_difficulties@.take(block_difficulties@.len() as int)
                =~= block_difficulties@);
        }
        batch
    }

    /// Persists the given blocks in the block tree as one batch, staged
    /// and applied in a backend transaction, and returns their hashes in
    /// input order. Concurrent readers see the tree before the batch or
    /// after it; the contract does not speak of the tree after a failure,
    /// since an in-process storage fault in the backend's final apply
    /// phase can leave part of the batch in place. The order and
    /// difficulty trees are untouched.
    pub fn insert(&mut self, blocks: &[Block]) -> (r: Result<Vec<HeaderHash>, Error>)
        ensures
            final(self).order_map() == old(self).order_map(),
            final(self).difficulty_map() == old(self).difficulty_map(),
            r matches Ok(hs) ==> final(self).blocks_map() == old(self).blocks_map()
                .union_prefer_right(blocks_writes(blocks@)) && hs@ == blocks@.map_values(
                |b: Block| b.header,
            ),
            r matches Err(e) ==> e == Error::Io,
    {
        let (batch, ret) = self.insert_batch(blocks);
        match tree_apply_batch(&mut self.main, batch) {
            Ok(()) => Ok(ret),
            Err(e) => Err(e),
        }
    }

    /// Extends the order tree with the given heights and hashes, pairwise,
    /// as one batch, staged and applied in a backend transaction. The
    /// block and difficulty trees are untouched.
    pub fn insert_order(&mut self, order: &[u64], hashes: &[HeaderHash]) -> (r: Result<
        (),
        Error,
    >)
        requires
            order@.len() <= hashes@.len(),
        ensures
            final(self).blocks_map() == old(self).blocks_map(),
            final(self).difficulty_map() == old(self).difficulty_map(),
            r is Ok ==> final(self).order_map() == old(self).order_map().union_prefer_right(
                order_writes(order@, hashes@),
            ),
            r matches Err(e) ==> e == Error::Io,
    {
        let batch = self.insert_batch_order(order, hashes);
        match tree_apply_batch(&mut self.order, batch) {
            Ok(()) => Ok(()),
            Err(e) => Err(e),
        }
    }

    /// Persists the given difficulty records as one batch, staged and
    /// applied in a backend transaction. The block and order trees are
    /// untouched.
    pub fn insert_difficulty(&mut self, block_difficulties: &[BlockDifficulty]) -> (r: Result<
        (),
        Error,
    >)
        ensures
            final(self).blocks_map() == old(self).blocks_map(),
            final(self).order_map() == old(self).order_map(),
            r is Ok ==> final(self).difficulty_map() == old(self).difficulty_map()
                .union_prefer_right(difficulty_writes(block_difficulties@)),
            r matches Err(e) ==> e == Error::Io,
    {
        let batch = self.insert_batch_difficulty(block_difficulties);
        match tree_apply_batch(&mut self.difficulty, batch) {
            Ok(()) => Ok(()),
            Err(e) => Err(e),
        }
    }

    /// Whether the block tree holds the given hash.
    pub fn contains(&self, blockhash: &HeaderHash) -> (r: Result<bool, Error>)
        ensures
            r matches Ok(b) ==> (b <==> self.blocks_map().dom().contains(blockhash@)),
            r matches Err(e) ==> e == Error::Io,
    {
        tree_contains(&self.main, blockhash.inner().as_slice())
    }

    /// Whether the order tree holds the given height.
    pub fn contains_order(&self, number: u64) -> (r: Result<bool, Error>)
        ensures
            r matches Ok(b) ==> (b <==> self.order_map().dom().contains(u64_be_bytes(number))),
            r matches Err(e) ==> e == Error::Io,
    {
        let key = u64_to_be(number);
        tree_contains(&self.order, key.as_slice())
    }

    /// Looks each hash up in the block tree. Non-strict, absent hashes
    /// yield `None` in place; strict, the first absent hash fails the
    /// call. Entries come back in input order.
    pub fn get(&self, block_hashes: &[HeaderHash], strict: bool) -> (r: Result<
        Vec<Option<Block>>,
        Error,
    >)
        ensures
            r matches Ok(v) ==> v@.len() == block_hashes@.len() && (forall|i: int|
                0 <= i < v@.len() ==> block_lookup(
                    self.blocks_map(),
                    block_hashes@[i]@,
                    #[trigger] v@[i],
                )) && (strict ==> forall|i: int| 0 <= i < v@.len() ==> (#[trigger] v@[i]) is Some),
            block_hashes@.len() == 0 ==> r is Ok,
            r matches Err(e) ==> match e {
                Error::BlockNotFound(h) => strict && exists|i: int|
                    0 <= i < block_hashes@.len() && (#[trigger] block_hashes@[i]) == h
                        && !self.blocks_map().dom().contains(h@) && (forall|j: int|
                        0 <= j < i ==> self.blocks_map().dom().contains(
                            (#[trigger] block_hashes@[j])@,
                        )),
                Error::Deserialize => exists|i: int|
                    0 <= i < block_hashes@.len() && self.blocks_map().dom().contains(
                        (#[trigger] block_hashes@[i])@,
                    ) && dec_block(self.blocks_map()[block_hashes@[i]@]) is None,
                Error::Io => true,
                _ => false,
            },
    {
        let mut ret: Vec<Option<Block>> = Vec::new();
        let mut i: usize = 0;
        while i < block_hashes.len()
            invariant
                0 <= i <= block_hashes@.len(),
                ret@.len() == i,
                forall|j: int|
                    0 <= j < i ==> block_lookup(
                        self.blocks_map(),
                        block_hashes@[j]@,
                        #[trigger] ret@[j],
                    ),
                strict ==> forall|j: int| 0 <= j < i ==> (#[trigger] ret@[j]) is Some,
            decreases block_hashes@.len() - i,
        {
            let hash = block_hashes[i];
            match tree_get(&self.main, hash.inner().as_slice()) {
                Err(e) => {
                    return Err(e);
                },
                Ok(Some(found)) => {
                    match crate::block::decode_block(found.as_slice()) {
                        Ok(b) => {
                            ret.push(Some(b));
                        },
                        Err(_) => {
                            return Err(Error::Deserialize);
                        },
                    }
                },
                Ok(None) => {
                    if strict {
                        proof {
                            assert forall|j: int| 0 <= j < i implies self.blocks_map(
                            ).dom().contains((#[trigger] block_hashes@[j])@) by {
                                assert(ret@[j] is Some);
                                assert(block_lookup(self.blocks_map(), block_hashes@[j]@, ret@[j]));
                            }
                            assert(0 <= i < block_hashes@.len() && block_hashes@[i as int] == hash
                                && !self.blocks_map().dom().contains(hash@));
                        }
                        return Err(Error::BlockNotFound(hash));
                    }
                    ret.push(None);
                },
            }
            i = i + 1;
        }
        Ok(ret)
    }

    /// Looks each height up in the order tree. Non-strict, absent heights
    /// yield `None` in place; strict, the first absent height fails the
    /// call. Entries come back in input order.
    pub fn get_order(&self, order: &[u64], strict: bool) -> (r: Result<
        Vec<Option<HeaderHash>>,
        Error,
    >)
        ensures
            r matches Ok(v) ==> v@.len() == order@.len() && (forall|i: int|
                0 <= i < v@.len() ==> order_lookup(
                    self.order_map(),
                    u64_be_bytes(order@[i]),
                    #[trigger] v@[i],
                )) && (strict ==> forall|i: int| 0 <= i < v@.len() ==> (#[trigger] v@[i]) is Some),
            order@.len() == 0 ==> r is Ok,
            r matches Err(e) ==> match e {
                Error::BlockNumberNotFound(h) => strict && exists|i: int|
                    0 <= i < order@.len() && (#[trigger] order@[i]) == h
                        && !self.order_map().dom().contains(u64_be_bytes(h)) && (forall|j: int|
                        0 <= j < i ==> self.order_map().dom().contains(
                            u64_be_bytes(#[trigger] order@[j]),
                        )),
                Error::Deserialize => exists|i: int|
                    0 <= i < order@.len() && self.order_map().dom().contains(
                        u64_be_bytes(#[trigger] order@[i]),
                    ) && self.order_map()[u64_be_bytes(order@[i])].len() != 32,
                Error::Io => true,
                _ => false,
            },
    {
        let mut ret: Vec<Option<HeaderHash>> = Vec::new();
        let mut i: usize = 0;
        while i < order.len()
            invariant
                0 <= i <= order@.len(),
                ret@.len() == i,
                forall|j: int|
                    0 <= j < i ==> order_lookup(
                        self.order_map(),
                        u64_be_bytes(order@[j]),
                        #[trigger] ret@[j],
                    ),
                strict ==> forall|j: int| 0 <= j < i ==> (#[trigger] ret@[j]) is Some,
            decreases order@.len() - i,
        {
            let number = order[i];
            let key = u64_to_be(number);
            match tree_get(&self.order, key.as_slice()) {
                Err(e) => {
                    return Err(e);
                },
                Ok(Some(found)) => {
                    if found.len() != 32 {
                        return Err(Error::Deserialize);
                    }
                    let hash = HeaderHash(crate::wire::read_arr32(found.as_slice(), 0));
                    proof {
                        assert(hash@ =~= found@);
                    }
                    ret.push(Some(hash));
                },
                Ok(None) => {
                    if strict {
                        proof {
                            assert forall|j: int| 0 <= j < i implies self.order_map(
                            ).dom().contains(u64_be_bytes(#[trigger] order@[j])) by {
                                assert(ret@[j] is Some);
                                assert(order_lookup(
                                    self.order_map(),
                                    u64_be_bytes(order@[j]),
                                    ret@[j],
                                ));
                            }
                            assert(0 <= i < order@.len() && order@[i as int] == number
                                && !self.order_map().dom().contains(u64_be_bytes(number)));
                        }
                        return Err(Error::BlockNumberNotFound(number));
                    }
                    ret.push(None);
                },
            }
            i = i + 1;
        }
        Ok(ret)
    }

    /// Looks each height up in the difficulty tree. Non-strict, absent
    /// heights yield `None` in place; strict, the first absent height
    /// fails the call. Entries come back in input order.
    pub fn get_difficulty(&self, heights: &[u64], strict: bool) -> (r: Result<
        Vec<Option<BlockDifficulty>>,
        Error,
    >)
        ensures
            r matches Ok(v) ==> v@.len() == heights@.len() && (forall|i: int|
                0 <= i < v@.len() ==> difficulty_lookup(
                    self.difficulty_map(),
                    u64_be_bytes(heights@[i]),
                    #[trigger] v@[i],
                )) && (strict ==> forall|i: int| 0 <= i < v@.len() ==> (#[trigger] v@[i]) is Some),
            heights@.len() == 0 ==> r is Ok,
            r matches Err(e) ==> match e {
                Error::BlockDifficultyNotFound(h) => strict && exists|i: int|
                    0 <= i < heights@.len() && (#[trigger] heights@[i]) == h
                        && !self.difficulty_map().dom().contains(u64_be_bytes(h)) && (forall|
                        j: int,
                    |
                        0 <= j < i ==> self.difficulty_map().dom().contains(
                            u64_be_bytes(#[trigger] heights@[j]),
                        )),
                Error::Deserialize => exists|i: int|
                    0 <= i < heights@.len() && self.difficulty_map().dom().contains(
                        u64_be_bytes(#[trigger] heights@[i]),
                    ) && dec_difficulty(self.difficulty_map()[u64_be_bytes(heights@[i])]) is None,
                Error::Io => true,
                _ => false,
            },
    {
        let mut ret: Vec<Option<BlockDifficulty>> = Vec::new();
        let mut i: usize = 0;
        while i < heights.len()
            invariant
                0 <= i <= heights@.len(),
                ret@.len() == i,
                forall|j: int|
                    0 <= j < i ==> difficulty_lookup(
                        self.difficulty_map(),
                        u64_be_bytes(heights@[j]),
                        #[trigger] ret@[j],
                    ),
                strict ==> forall|j: int| 0 <= j < i ==> (#[trigger] ret@[j]) is Some,
            decreases heights@.len() - i,
        {
            let height = heights[i];
            let key = u64_to_be(height);
            match tree_get(&self.difficulty, key.as_slice()) {
                Err(e) => {
                    return Err(e);
                },
                Ok(Some(found)) => {
                    match BlockDifficulty::decode(found.as_slice()) {
                        Ok(d) => {
                            ret.push(Some(d));
                        },
                        Err(_) => {
                            return Err(Error::Deserialize);
                        },
                    }
                },
                Ok(None) => {
                    if strict {
                        proof {
                            assert forall|j: int| 0 <= j < i implies self.difficulty_map(
                            ).dom().contains(u64_be_bytes(#[trigger] heights@[j])) by {
                                assert(ret@[j] is Some);
                                assert(difficulty_lookup(
                                    self.difficulty_map(),
                                    u64_be_bytes(heights@[j]),
                                    ret@[j],
                                ));
                            }
                            assert(0 <= i < heights@.len() && heights@[i as int] == height
                                && !self.difficulty_map().dom().contains(u64_be_bytes(height)));
                        }
                        return Err(Error::BlockDifficultyNotFound(height));
                    }
                    ret.push(None);
                },
            }
            i = i + 1;
        }
        Ok(ret)
    }

    /// Every block of the block tree as a `(hash, block)` pair, in
    /// ascending hash order. Loads the whole tree into memory: a
    /// diagnostic convenience, not for hot paths.
    pub fn get_all(&self) -> (r: Result<Vec<(HeaderHash, Block)>, Error>)
        ensures
            r matches Ok(v) ==> block_listing(self.blocks_map(), v@),
            r matches Err(e) ==> match e {
                Error::Deserialize => exists|k: Seq<u8>|
                    #![auto]
                    self.blocks_map().dom().contains(k) && (k.len() != 32 || dec_block(
                        self.blocks_map()[k],
                    ) is None),
                Error::Io => true,
                _ => false,
            },
    {
        let entries = match scan_tree(&self.main) {
            Ok(v) => v,
            Err(e) => {
                return Err(e);
            },
        };
        let mut blocks: Vec<(HeaderHash, Block)> = Vec::new();
        let mut i: usize = 0;
        while i < entries.len()
            invariant
                0 <= i <= entries@.len(),
                full_scan(self.blocks_map(), entries@),
                blocks@.len() == i,
                forall|j: int|
                    0 <= j < i ==> (#[trigger] blocks@[j]).0@ == entries@[j].0@ && dec_block(
                        self.blocks_map()[entries@[j].0@],
                    ) == Some(blocks@[j].1@),
            decreases entries@.len() - i,
        {
            let k = &entries[i].0;
            let v = &entries[i].1;
            if k.len() != 32 {
                proof {
                    assert(self.blocks_map().dom().contains(entries@[i as int].0@));
                }
                return Err(Error::Deserialize);
            }
            let hh = HeaderHash(crate::wire::read_arr32(k.as_slice(), 0));
            match crate::block::decode_block(v.as_slice()) {
                Ok(b) => {
                    proof {
                        assert(hh@ =~= entries@[i as int].0@);
                    }
                    blocks.push((hh, b));
                },
                Err(_) => {
                    proof {
                        assert(self.blocks_map().dom().contains(entries@[i as int].0@));
                    }
                    return Err(Error::Deserialize);
                },
            }
            i = i + 1;
        }
        proof {
            assert forall|k: Seq<u8>| #[trigger] self.blocks_map().dom().contains(
                k,
            ) implies exists|i2: int|
                0 <= i2 < blocks@.len() && (#[trigger] blocks@[i2]).0@ == k by {
                let i0 = choose|i0: int|
                    0 <= i0 < entries@.len() && (#[trigger] entries@[i0]).0@ == k;
                assert(blocks@[i0].0@ == k);
            }
            assert(block_listing(self.blocks_map(), blocks@));
        }
        Ok(blocks)
    }

    /// The complete order as `(height, hash)` pairs, in ascending height
    /// order. Loads the whole tree into memory: a diagnostic convenience,
    /// not for hot paths.
    pub fn get_all_order(&self) -> (r: Result<Vec<(u64, HeaderHash)>, Error>)
        ensures
            r matches Ok(v) ==> order_listing(self.order_map(), v@),
            r matches Err(e) ==> match e {
                Error::Deserialize => exists|k: Seq<u8>|
                    #![auto]
                    self.order_map().dom().contains(k) && (k.len() != 8 || self.order_map()[k].len()
                        != 32),
                Error::Io => true,
                _ => false,
            },
    {
        let entries = match scan_tree(&self.order) {
            Ok(v) => v,
            Err(e) => {
                return Err(e);
            },
        };
        let mut out: Vec<(u64, HeaderHash)> = Vec::new();
        let mut i: usize = 0;
        while i < entries.len()
            invariant
                0 <= i <= entries@.len(),
                full_scan(self.order_map(), entries@),
                out@.len() == i,
                forall|j: int|
                    0 <= j < i ==> u64_be_bytes((#[trigger] out@[j]).0) == entries@[j].0@
                        && out@[j].1@ == self.order_map()[entries@[j].0@],
            decreases entries@.len() - i,
        {
            let k = &entries[i].0;
            let v = &entries[i].1;
            if k.len() != 8 || v.len() != 32 {
                proof {
                    assert(self.order_map().dom().contains(entries@[i as int].0@));
                }
                return Err(Error::Deserialize);
            }
            let number = u64_from_be(k.as_slice());
            let hh = HeaderHash(crate::wire::read_arr32(v.as_slice(), 0));
            proof {
                assert(hh@ =~= entries@[i as int].1@);
            }
            out.push((number, hh));
            i = i + 1;
        }
        proof {
            assert forall|i2: int| 0 <= i2 < out@.len() implies self.order_map().dom().contains(
                u64_be_bytes((#[trigger] out@[i2]).0),
            ) && out@[i2].1@ == self.order_map()[u64_be_bytes(out@[i2].0)] by {
                assert(u64_be_bytes(out@[i2].0) == entries@[i2].0@);
            }
            assert forall|i2: int, j2: int| 0 <= i2 < j2 < out@.len() implies out@[i2].0
                < out@[j2].0 by {
                assert(lex_lt(entries@[i2].0@, entries@[j2].0@));
                lemma_u64_be_order(out@[i2].0, out@[j2].0);
            }
            assert forall|k: Seq<u8>| #[trigger] self.order_map().dom().contains(
                k,
            ) implies exists|i2: int|
                0 <= i2 < out@.len() && u64_be_bytes((#[trigger] out@[i2]).0) == k by {
                let i0 = choose|i0: int|
                    0 <= i0 < entries@.len() && (#[trigger] entries@[i0]).0@ == k;
                assert(u64_be_bytes(out@[i0].0) == k);
            }
            assert(order_listing(self.order_map(), out@));
        }
        Ok(out)
    }

    /// Every difficulty record as a `(height, record)` pair, in ascending
    /// height order. Loads the whole tree into memory: a diagnostic
    /// convenience, not for hot paths.
    pub fn get_all_difficulty(&self) -> (r: Result<Vec<(u64, BlockDifficulty)>, Error>)
        ensures
            r matches Ok(v) ==> difficulty_listing(self.difficulty_map(), v@),
            r matches Err(e) ==> match e {
                Error::Deserialize => exists|k: Seq<u8>|
                    #![auto]
                    self.difficulty_map().dom().contains(k) && (k.len() != 8 || dec_difficulty(
                        self.difficulty_map()[k],
                    ) is None),
                Error::Io => true,
                _ => false,
            },
    {
        let entries = match scan_tree(&self.difficulty) {
            Ok(v) => v,
            Err(e) => {
                return Err(e);
            },
        };
        let mut out: Vec<(u64, BlockDifficulty)> = Vec::new();
        let mut i: usize = 0;
        while i < entries.len()
            invariant
                0 <= i <= entries@.len(),
                full_scan(self.difficulty_map(), entries@),
                out@.len() == i,
                forall|j: int|
                    0 <= j < i ==> u64_be_bytes((#[trigger] out@[j]).0) == entries@[j].0@
                        && dec_difficulty(self.difficulty_map()[entries@[j].0@]) == Some(
                        out@[j].1@,
                    ),
            decreases entries@.len() - i,
        {
            let k = &entries[i].0;
            let v = &entries[i].1;
            if k.len() != 8 {
                proof {
                    assert(self.difficulty_map().dom().contains(entries@[i as int].0@));
                }
                return Err(Error::Deserialize);
            }
            let number = u64_from_be(k.as_slice());
            match BlockDifficulty::decode(v.as_slice()) {
                Ok(d) => {
                    out.push((number, d));
                },
                Err(_) => {
                    proof {
                        assert(self.difficulty_map().dom().contains(entries@[i as int].0@));
                    }
                    return Err(Error::Deserialize);
                },
            }
            i = i + 1;
        }
        proof {
            assert forall|i2: int| 0 <= i2 < out@.len() implies self.difficulty_map(
            ).dom().contains(u64_be_bytes((#[trigger] out@[i2]).0)) && dec_difficulty(
                self.difficulty_map()[u64_be_bytes(out@[i2].0)],
            ) == Some(out@[i2].1@) by {
                assert(u64_be_bytes(out@[i2].0) == entries@[i2].0@);
            }
            assert forall|i2: int, j2: int| 0 <= i2 < j2 < out@.len() implies out@[i2].0
                < out@[j2].0 by {
                assert(lex_lt(entries@[i2].0@, entries@[j2].0@));
                lemma_u64_be_order(out@[i2].0, out@[j2].0);
            }
            assert forall|k: Seq<u8>| #[trigger] self.difficulty_map().dom().contains(
                k,
            ) implies exists|i2: int|
                0 <= i2 < out@.len() && u64_be_bytes((#[trigger] out@[i2]).0) == k by {
                let i0 = choose|i0: int|
                    0 <= i0 < entries@.len() && (#[trigger] entries@[i0]).0@ == k;
                assert(u64_be_bytes(out@[i0].0) == k);
            }
            assert(difficulty_listing(self.difficulty_map(), out@));
        }
        Ok(out)
    }

    /// The records under the `n` highest keys of the difficulty tree, in
    /// ascending key order; all of them when the tree holds fewer.
    #[verifier::spinoff_prover]
    #[verifier::rlimit(60)]
    pub fn get_last_n_difficulties(&self, n: usize) -> (r: Result<Vec<BlockDifficulty>, Error>)
        ensures
            n == 0 ==> r is Ok,
            r matches Ok(v) ==> v@.len() <= n,
            r matches Ok(v) ==> some_last_n_scan(self.difficulty_map(), n as int, v@),
            r matches Err(e) ==> match e {
                Error::Deserialize => exists|k: Seq<u8>|
                    #![auto]
                    self.difficulty_map().dom().contains(k) && dec_difficulty(
                        self.difficulty_map()[k],
                    ) is None,
                Error::Io => true,
                _ => false,
            },
    {
        let ghost m = self.difficulty_map();
        let mut out: Vec<BlockDifficulty> = Vec::new();
        let ghost mut ks: Seq<Seq<u8>> = Seq::empty();
        if n == 0 {
            proof {
                assert(last_n_scan(m, n as int, ks, out@));
                assert(some_last_n_scan(self.difficulty_map(), n as int, out@));
            }
            return Ok(out);
        }
        let mut cur: Vec<u8>;
        match tree_last(&self.difficulty) {
            Err(e) => {
                return Err(e);
            },
            Ok(None) => {
                proof {
                    assert(last_n_scan(m, n as int, ks, out@));
                    assert(some_last_n_scan(self.difficulty_map(), n as int, out@));
                }
                return Ok(out);
            },
            Ok(Some(kv)) => {
                let (k, v) = kv;
                match BlockDifficulty::decode(v.as_slice()) {
                    Ok(d) => {
                        out.push(d);
                        proof {
                            ks = seq![k@];
                            assert forall|k2: Seq<u8>|
                                #[trigger] m.dom().contains(k2) && !lex_lt(
                                    k2,
                                    k@,
                                ) implies exists|i: int| 0 <= i < ks.len() && ks[i] == k2 by {
                                if k2 != k@ {
                                    lemma_lex_connected(k2, k@);
                                    assert(false);
                                }
                                assert(ks[0] == k2);
                            }
                        }
                    },
                    Err(_) => {
                        proof {
                            assert(m.dom().contains(k@) && dec_difficulty(m[k@]) is None);
                        }
                        return Err(Error::Deserialize);
                    },
                }
                cur = k;
            },
        }
        let mut done = false;
        while !done && out.len() < n
            invariant
                m == self.difficulty_map(),
                m.dom().finite(),
                1 <= out@.len() <= n,
                ks.len() == out@.len(),
                ks[0] == cur@,
                m.dom().contains(cur@),
                forall|i: int|
                    0 <= i < ks.len() ==> m.dom().contains(#[trigger] ks[i]) && dec_difficulty(
                        m[ks[i]],
                    ) == Some(out@[i]@),
                forall|i: int, j: int| 0 <= i < j < ks.len() ==> lex_lt(ks[i], ks[j]),
                forall|k: Seq<u8>|
                    #[trigger] m.dom().contains(k) && !lex_lt(k, cur@) ==> exists|i: int|
                        0 <= i < ks.len() && ks[i] == k,
                done ==> forall|k: Seq<u8>| #[trigger] m.dom().contains(k) ==> !lex_lt(k, cur@),
            decreases (if done {
                0nat
            } else {
                keys_below(m, cur@).len() + 1nat
            }),
        {
            match tree_get_lt(&self.difficulty, cur.as_slice()) {
                Err(e) => {
                    return Err(e);
                },
                Ok(None) => {
                    done = true;
                },
                Ok(Some(kv)) => {
                    let (k, v) = kv;
                    let d = match BlockDifficulty::decode(v.as_slice()) {
                        Ok(d) => d,
                        Err(_) => {
                            proof {
                                assert(m.dom().contains(k@) && dec_difficulty(m[k@]) is None);
                            }
                            return Err(Error::Deserialize);
                        },
                    };
                    proof {
                        lemma_keys_below_shrinks(m, cur@, k@);
                    }
                    let ghost ks_old = ks;
                    let ghost out_old = out@;
                    out.insert(0, d);
                    proof {
                        ks = seq![k@] + ks_old;
                        assert forall|i: int| 0 <= i < ks.len() implies m.dom().contains(
                            #[trigger] ks[i],
                        ) && dec_difficulty(m[ks[i]]) == Some(out@[i]@) by {
                            if i > 0 {
                                assert(ks[i] == ks_old[i - 1]);
                                assert(out@[i] == out_old[i - 1]);
                            }
                        }
                        assert forall|i: int, j: int| 0 <= i < j < ks.len() implies lex_lt(
                            ks[i],
                            ks[j],
                        ) by {
                            if i == 0 {
                                if j == 1 {
                                    assert(ks[j] == ks_old[0]);
                                } else {
                                    assert(ks[j] == ks_old[j - 1]);
                                    assert(lex_lt(ks_old[0], ks_old[j - 1]));
                                    lemma_lex_trans(k@, ks_old[0], ks_old[j - 1]);
                                }
                            } else {
                                assert(ks[i] == ks_old[i - 1]);
                                assert(ks[j] == ks_old[j - 1]);
                            }
                        }
                        assert forall|k2: Seq<u8>|
                            #[trigger] m.dom().contains(k2) && !lex_lt(k2, k@) implies exists|
                            i: int,
                        |
                            0 <= i < ks.len() && ks[i] == k2 by {
                            if !lex_lt(k2, cur@) {
                                let i0 = choose|i0: int|
                                    0 <= i0 < ks_old.len() && ks_old[i0] == k2;
                                assert(ks[i0 + 1] == k2);
                            } else {
                                if k2 != k@ {
                                    lemma_lex_connected(k2, k@);
                                    assert(!lex_lt(k@, k2));
                                    assert(false);
                                }
                                assert(ks[0] == k2);
                            }
                        }
                    }
                    cur = k;
                },
            }
        }
        proof {
            if done {
                assert forall|k: Seq<u8>| #[trigger] m.dom().contains(k) implies exists|i: int|
                    0 <= i < ks.len() && ks[i] == k by {
                    assert(!lex_lt(k, cur@));
                }
            }
            assert forall|k: Seq<u8>|
                m.dom().contains(k) && ks.len() > 0 && lex_lt(ks[0], k) implies exists|i: int|
                0 <= i < ks.len() && ks[i] == k by {
                if lex_lt(k, cur@) {
                    lemma_lex_trans(cur@, k, cur@);
                    lemma_lex_irrefl(cur@);
                }
            }
            assert(last_n_scan(m, n as int, ks, out@));
            assert(some_last_n_scan(self.difficulty_map(), n as int, out@));
        }
        Ok(out)
    }

    /// The lowest height of the order tree and its hash. Fails with
    /// `BlockNumberNotFound` on an empty order tree.
    pub fn get_first(&self) -> (r: Result<(u64, HeaderHash), Error>)
        ensures
            r matches Ok(p) ==> self.order_map().dom().contains(u64_be_bytes(p.0)) && p.1@
                == self.order_map()[u64_be_bytes(p.0)] && (forall|h2: u64|
                self.order_map().dom().contains(u64_be_bytes(h2)) ==> p.0 <= h2),
            r matches Err(e) ==> match e {
                Error::BlockNumberNotFound(h) => h == 0 && self.order_map().dom() == Set::<
                    Seq<u8>,
                >::empty(),
                Error::Deserialize => exists|k: Seq<u8>|
                    #![auto]
                    self.order_map().dom().contains(k) && (k.len() != 8 || self.order_map()[k].len()
                        != 32),
                Error::Io => true,
                _ => false,
            },
    {
        match tree_first(&self.order) {
            Err(e) => Err(e),
            Ok(None) => {
                proof {
                    assert(self.order_map().dom() =~= Set::<Seq<u8>>::empty());
                }
                Err(Error::BlockNumberNotFound(0))
            },
            Ok(Some(kv)) => {
                let (k, v) = kv;
                if k.len() != 8 || v.len() != 32 {
                    proof {
                        assert(self.order_map().dom().contains(k@) && (k@.len() != 8
                            || self.order_map()[k@].len() != 32));
                    }
                    return Err(Error::Deserialize);
                }
                let number = crate::bytes::u64_from_be(k.as_slice());
                let hash = HeaderHash(crate::wire::read_arr32(v.as_slice(), 0));
                proof {
                    assert(hash@ =~= v@);
                    assert forall|h2: u64|
                        self.order_map().dom().contains(u64_be_bytes(h2)) implies number
                        <= h2 by {
                        lemma_u64_be_order(h2, number);
                    }
                }
                Ok((number, hash))
            },
        }
    }

    /// The highest height of the order tree and its hash. Fails with
    /// `BlockNumberNotFound` on an empty order tree.
    pub fn get_last(&self) -> (r: Result<(u64, HeaderHash), Error>)
        ensures
            r matches Ok(p) ==> self.order_map().dom().contains(u64_be_bytes(p.0)) && p.1@
                == self.order_map()[u64_be_bytes(p.0)] && (forall|h2: u64|
                self.order_map().dom().contains(u64_be_bytes(h2)) ==> h2 <= p.0),
            r matches Err(e) ==> match e {
                Error::BlockNumberNotFound(h) => h == 0 && self.order_map().dom() == Set::<
                    Seq<u8>,
                >::empty(),
                Error::Deserialize => exists|k: Seq<u8>|
                    #![auto]
                    self.order_map().dom().contains(k) && (k.len() != 8 || self.order_map()[k].len()
                        != 32),
                Error::Io => true,
                _ => false,
            },
    {
        match tree_last(&self.order) {
            Err(e) => Err(e),
            Ok(None) => {
                proof {
                    assert(self.order_map().dom() =~= Set::<Seq<u8>>::empty());
                }
                Err(Error::BlockNumberNotFound(0))
            },
            Ok(Some(kv)) => {
                let (k, v) = kv;
                if k.len() != 8 || v.len() != 32 {
                    proof {
                        assert(self.order_map().dom().contains(k@) && (k@.len() != 8
                            || self.order_map()[k@].len() != 32));
                    }
                    return Err(Error::Deserialize);
                }
                let number = crate::bytes::u64_from_be(k.as_slice());
                let hash = HeaderHash(crate::wire::read_arr32(v.as_slice(), 0));
                proof {
                    assert(hash@ =~= v@);
                    assert forall|h2: u64|
                        self.order_map().dom().contains(u64_be_bytes(h2)) implies h2 <= number by {
                        lemma_u64_be_order(number, h2);
                    }
                }
                Ok((number, hash))
            },
        }
    }

    /// The record under the highest key of the difficulty tree, or `None`
    /// if the tree is empty.
    pub fn get_last_difficulty(&self) -> (r: Result<Option<BlockDifficulty>, Error>)
        ensures
            r matches Ok(o) ==> match o {
                Some(d) => exists|k: Seq<u8>|
                    #![auto]
                    self.difficulty_map().dom().contains(k) && dec_difficulty(
                        self.difficulty_map()[k],
                    ) == Some(d@) && (forall|k2: Seq<u8>|
                        self.difficulty_map().dom().contains(k2) ==> !crate::bytes::lex_lt(k, k2)),
                None => self.difficulty_map().dom() == Set::<Seq<u8>>::empty(),
            },
            r matches Err(e) ==> match e {
                Error::Deserialize => exists|k: Seq<u8>|
                    #![auto]
                    self.difficulty_map().dom().contains(k) && dec_difficulty(
                        self.difficulty_map()[k],
                    ) is None,
                Error::Io => true,
                _ => false,
            },
    {
        match tree_last(&self.difficulty) {
            Err(e) => Err(e),
            Ok(None) => {
                proof {
                    assert(self.difficulty_map().dom() =~= Set::<Seq<u8>>::empty());
                }
                Ok(None)
            },
            Ok(Some(kv)) => {
                let (k, v) = kv;
                match BlockDifficulty::decode(v.as_slice()) {
                    Ok(d) => Ok(Some(d)),
                    Err(_) => {
                        proof {
                            assert(self.difficulty_map().dom().contains(k@) && dec_difficulty(
                                self.difficulty_map()[k@],
                            ) is None);
                        }
                        Err(Error::Deserialize)
                    },
                }
            },
        }
    }

    /// The hashes at heights `number + 1, number + 2, ...`, in ascending
    /// order, up to `n + 1` of them; the walk stops at the first missing
    /// height.
    pub fn get_after(&self, number: u64, n: u64) -> (r: Result<Vec<HeaderHash>, Error>)
        ensures
            r matches Ok(v) ==> v@.len() <= n + 1 && consecutive_run(
                self.order_map(),
                number,
                v@,
            ),
            r matches Ok(v) ==> (v@.len() < n + 1 ==> run_ends(
                self.order_map(),
                number,
                v@.len() as int,
            )),
            r matches Err(e) ==> match e {
                Error::Deserialize => exists|k: Seq<u8>|
                    #![auto]
                    self.order_map().dom().contains(k) && (k.len() != 8 || self.order_map()[k].len()
                        != 32),
                Error::Io => true,
                _ => false,
            },
    {
        let ghost m = self.order_map();
        let mut ret: Vec<HeaderHash> = Vec::new();
        let mut key: u64 = number;
        let mut counter: u128 = 0;
        let mut done = false;
        while !done && counter <= n as u128
            invariant
                m == self.order_map(),
                counter == ret@.len(),
                counter <= n as u128 + 1,
                key == number + counter,
                consecutive_run(m, number, ret@),
                done ==> run_ends(m, number, ret@.len() as int),
            decreases (if done {
                0int
            } else {
                n as u128 + 1 - counter
            }),
        {
            match tree_get_gt(&self.order, u64_to_be(key).as_slice()) {
                Err(e) => {
                    return Err(e);
                },
                Ok(None) => {
                    proof {
                        if key < u64::MAX && m.dom().contains(u64_be_bytes((key + 1) as u64)) {
                            lemma_u64_be_order(key, (key + 1) as u64);
                        }
                    }
                    done = true;
                },
                Ok(Some(kv)) => {
                    let (k, v) = kv;
                    if k.len() != 8 || v.len() != 32 {
                        proof {
                            assert(m.dom().contains(k@) && (k@.len() != 8 || m[k@].len() != 32));
                        }
                        return Err(Error::Deserialize);
                    }
                    let number2 = crate::bytes::u64_from_be(k.as_slice());
                    if key < u64::MAX && number2 == key + 1 {
                        let hash = HeaderHash(crate::wire::read_arr32(v.as_slice(), 0));
                        let ghost prev = ret@;
                        ret.push(hash);
                        proof {
                            assert(hash@ =~= v@);
                            assert forall|i: int| 0 <= i < ret@.len() implies run_entry(
                                m,
                                number,
                                ret@,
                                i,
                            ) by {
                                if i < prev.len() {
                                    assert(ret@[i] == prev[i]);
                                    assert(run_entry(m, number, prev, i));
                                } else {
                                    assert(ret@[i] == hash);
                                    assert((number + 1 + i) as u64 == number2);
                                    assert(m.dom().contains(u64_be_bytes(number2)));
                                }
                            }
                        }
                        key = key + 1;
                        counter = counter + 1;
                    } else {
                        proof {
                            lemma_u64_be_order(key, number2);
                            if key < u64::MAX && m.dom().contains(u64_be_bytes((key + 1) as u64)) {
                                lemma_u64_be_order(key, (key + 1) as u64);
                                lemma_u64_be_order((key + 1) as u64, number2);
                            }
                        }
                        done = true;
                    }
                },
            }
        }
        proof {
            if ret@.len() < n + 1 {
                assert(done);
            }
        }
        Ok(ret)
    }

    /// Number of entries of the order tree, the authoritative height
    /// registry.
    pub fn len(&self) -> (r: usize)
        ensures
            counts_entries(self.order_map(), r),
    {
        tree_len(&self.order)
    }

    /// Whether the order tree holds any entry.
    pub fn is_empty(&self) -> (r: bool)
        ensures
            r <==> self.order_map().dom() == Set::<Seq<u8>>::empty(),
    {
        tree_is_empty(&self.order)
    }
}

/// Read-your-writes through the store: a block just inserted is what a
/// lookup for its hash then yields, whatever the tree held before.
pub proof fn lemma_insert_then_get(ms: Map<Seq<u8>, Seq<u8>>, b: &Block)
    ensures
        block_lookup(ms.union_prefer_right(blocks_writes(seq![*b])), b@.header, Some(*b)),
{
    crate::block::lemma_block_wf(b);
    crate::block::lemma_block_round_trip(b@);
    assert(seq![*b].drop_last() =~= Seq::<Block>::empty());
    assert(blocks_writes(seq![*b]) == blocks_writes(Seq::<Block>::empty()).insert(
        b@.header,
        enc_block(b@),
    ));
}

/// Inserting the same blocks twice leaves the block tree exactly as one
/// insert leaves it; in particular its entry count does not change.
pub proof fn lemma_insert_idempotent(ms: Map<Seq<u8>, Seq<u8>>, bs: Seq<Block>)
    ensures
        ms.union_prefer_right(blocks_writes(bs)).union_prefer_right(blocks_writes(bs))
            == ms.union_prefer_right(blocks_writes(bs)),
{
    assert(ms.union_prefer_right(blocks_writes(bs)).union_prefer_right(blocks_writes(bs))
        =~= ms.union_prefer_right(blocks_writes(bs)));
}

/// When the order tree holds exactly heights `0 .. n` — whatever order
/// they were inserted in, since the contents are a map — its least
/// height is `0` and its greatest is `n - 1`. The `first` and `last`
/// arguments are characterized as `get_first` and `get_last` describe
/// their results.
pub proof fn lemma_dense_extremes(m: Map<Seq<u8>, Seq<u8>>, n: u64, first: u64, last: u64)
    requires
        n > 0,
        forall|h: u64| #![auto] m.dom().contains(u64_be_bytes(h)) <==> h < n,
        m.dom().contains(u64_be_bytes(first)),
        forall|h2: u64| #![auto] m.dom().contains(u64_be_bytes(h2)) ==> first <= h2,
        m.dom().contains(u64_be_bytes(last)),
        forall|h2: u64| #![auto] m.dom().contains(u64_be_bytes(h2)) ==> h2 <= last,
    ensures
        first == 0,
        last == n - 1,
{
    assert(m.dom().contains(u64_be_bytes(0)));
    assert(m.dom().contains(u64_be_bytes((n - 1) as u64)));
}

proof fn lemma_order_writes_at(
    m: Map<Seq<u8>, Seq<u8>>,
    hs: Seq<u64>,
    vs: Seq<HeaderHash>,
    i: int,
)
    requires
        hs.len() <= vs.len(),
        forall|a: int, b: int| 0 <= a < b < hs.len() ==> hs[a] != hs[b],
        0 <= i < hs.len(),
    ensures
        m.union_prefer_right(order_writes(hs, vs)).dom().contains(u64_be_bytes(hs[i])),
        m.union_prefer_right(order_writes(hs, vs))[u64_be_bytes(hs[i])] == vs[i]@,
    decreases hs.len(),
{
    let k = u64_be_bytes(hs[i]);
    if i == hs.len() - 1 {
        assert(order_writes(hs, vs)[k] == vs[i]@);
    } else {
        let t = hs.drop_last();
        crate::bytes::lemma_u64_be_injective(hs.last(), hs[i]);
        assert(u64_be_bytes(hs.last()) != k);
        assert forall|a: int, b: int| 0 <= a < b < t.len() implies t[a] != t[b] by {
            assert(t[a] == hs[a]);
            assert(t[b] == hs[b]);
        }
        assert(t[i] == hs[i]);
        lemma_order_writes_at(m, t, vs, i);
    }
}

/// Writes through the order tree land positionally: with pairwise
/// distinct heights, the contents after the write hold, at each height's
/// key, exactly the hash given for that height. This reads the effect of
/// `insert_order` — and of a commit whose buffer holds one staged
/// `insert_order` — back per entry; without distinctness the later write
/// at a repeated height wins.
pub proof fn lemma_order_writes_positional(
    m: Map<Seq<u8>, Seq<u8>>,
    hs: Seq<u64>,
    vs: Seq<HeaderHash>,
)
    requires
        hs.len() <= vs.len(),
        forall|a: int, b: int| 0 <= a < b < hs.len() ==> hs[a] != hs[b],
    ensures
        forall|i: int|
            0 <= i < hs.len() ==> m.union_prefer_right(order_writes(hs, vs)).dom().contains(
                u64_be_bytes(#[trigger] hs[i]),
            ) && m.union_prefer_right(order_writes(hs, vs))[u64_be_bytes(hs[i])] == vs[i]@,
{
    assert forall|i: int|
        0 <= i < hs.len() implies m.union_prefer_right(order_writes(hs, vs)).dom().contains(
        u64_be_bytes(#[trigger] hs[i]),
    ) && m.union_prefer_right(order_writes(hs, vs))[u64_be_bytes(hs[i])] == vs[i]@ by {
        lemma_order_writes_at(m, hs, vs, i);
    }
}

} // verus!
