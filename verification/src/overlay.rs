//! The staging overlay: a speculative, read-through, write-buffered view
//! of the three trees.
//!
//! Writes through the overlay land in per-tree buffers and leave the
//! store untouched; reads consult the buffer first and fall through to
//! the store. `commit` promotes every buffered write to the store, one
//! atomic batch per tree; `discard` drops the buffers without touching
//! the store. A multi-step chain extension thus appears to other readers
//! as a single transition.
//!
//! The overlay and the store it overlays are passed together to each
//! read: exclusive access during commit is then the borrow checker's
//! business, not a lock's. Callers that share an overlay across threads
//! wrap it in their own lock.

use vstd::prelude::*;

use crate::block::{dec_block, enc_block, Block};
use crate::bytes::{bytes_eq, bytes_lt, lemma_u64_be_order, lex_lt, u64_be_bytes, u64_to_be};
use crate::difficulty::BlockDifficulty;
use crate::err::Error;
use crate::kv::{batch_insert, batch_new, batch_view, tree_get, tree_is_empty, tree_last,
    trees_apply_batches};
use crate::store::{
    block_lookup, blocks_writes, difficulty_writes, order_lookup, order_writes, BlockStore,
};
use crate::types::HeaderHash;

verus! {

/// The map that a run of buffered writes amounts to: later writes win at
/// a repeated key.
pub open spec fn writes_map(s: Seq<(Vec<u8>, Vec<u8>)>) -> Map<Seq<u8>, Seq<u8>>
    decreases s.len(),
{
    if s.len() == 0 {
        Map::empty()
    } else {
        writes_map(s.drop_last()).insert(s.last().0@, s.last().1@)
    }
}

/// A tree's contents as seen through pending writes: the write buffer
/// shadows the store.
pub open spec fn overlaid(m: Map<Seq<u8>, Seq<u8>>, w: Map<Seq<u8>, Seq<u8>>) -> Map<
    Seq<u8>,
    Seq<u8>,
> {
    m.union_prefer_right(w)
}

proof fn lemma_writes_map_push(s: Seq<(Vec<u8>, Vec<u8>)>, e: (Vec<u8>, Vec<u8>))
    ensures
        writes_map(s.push(e)) == writes_map(s).insert(e.0@, e.1@),
{
    assert(s.push(e).drop_last() =~= s);
    assert(s.push(e).last() == e);
}

/// The last write at key `k` decides the buffered value.
proof fn lemma_writes_map_found(s: Seq<(Vec<u8>, Vec<u8>)>, k: Seq<u8>, j: int)
    requires
        0 <= j < s.len(),
        s[j].0@ == k,
        forall|j2: int| j < j2 < s.len() ==> (#[trigger] s[j2]).0@ != k,
    ensures
        writes_map(s).dom().contains(k),
        writes_map(s)[k] == s[j].1@,
    decreases s.len(),
{
    if j == s.len() - 1 {
    } else {
        assert(s.last().0@ != k);
        let t = s.drop_last();
        assert forall|j2: int| j < j2 < t.len() implies (#[trigger] t[j2]).0@ != k by {
            assert(t[j2] == s[j2]);
        }
        assert(t[j] == s[j]);
        lemma_writes_map_found(t, k, j);
    }
}

/// A key written nowhere in the buffer is not buffered.
proof fn lemma_writes_map_absent(s: Seq<(Vec<u8>, Vec<u8>)>, k: Seq<u8>)
    requires
        forall|j: int| 0 <= j < s.len() ==> (#[trigger] s[j]).0@ != k,
    ensures
        !writes_map(s).dom().contains(k),
    decreases s.len(),
{
    if s.len() > 0 {
        let t = s.drop_last();
        assert forall|j: int| 0 <= j < t.len() implies (#[trigger] t[j]).0@ != k by {
            assert(t[j] == s[j]);
        }
        lemma_writes_map_absent(t, k);
    }
}

/// Every buffered key is the key of some buffer entry.
proof fn lemma_writes_map_dom(s: Seq<(Vec<u8>, Vec<u8>)>, k: Seq<u8>)
    requires
        writes_map(s).dom().contains(k),
    ensures
        exists|j: int| 0 <= j < s.len() && (#[trigger] s[j]).0@ == k,
    decreases s.len(),
{
    if s.len() > 0 {
        if s.last().0@ == k {
            assert(s[s.len() - 1].0@ == k);
        } else {
            let t = s.drop_last();
            lemma_writes_map_dom(t, k);
            let j = choose|j: int| 0 <= j < t.len() && (#[trigger] t[j]).0@ == k;
            assert(s[j] == t[j]);
        }
    }
}

/// The key of every buffer entry is buffered.
proof fn lemma_writes_map_covers(s: Seq<(Vec<u8>, Vec<u8>)>, j: int)
    requires
        0 <= j < s.len(),
    ensures
        writes_map(s).dom().contains(s[j].0@),
    decreases s.len(),
{
    if j == s.len() - 1 {
    } else {
        let t = s.drop_last();
        assert(t[j] == s[j]);
        lemma_writes_map_covers(t, j);
    }
}

/// The last buffered write at `key`, if the buffer holds one.
fn find_write<'a>(entries: &'a Vec<(Vec<u8>, Vec<u8>)>, key: &[u8]) -> (r: Option<&'a Vec<u8>>)
    ensures
        match r {
            Some(v) => writes_map(entries@).dom().contains(key@) && v@ == writes_map(entries@)[key@],
            None => !writes_map(entries@).dom().contains(key@),
        },
{
    let mut i = entries.len();
    while i > 0
        invariant
            i <= entries@.len(),
            forall|j: int| i <= j < entries@.len() ==> (#[trigger] entries@[j]).0@ != key@,
        decreases i,
    {
        i = i - 1;
        if bytes_eq(entries[i].0.as_slice(), key) {
            proof {
                lemma_writes_map_found(entries@, key@, i as int);
            }
            return Some(&entries[i].1);
        }
    }
    proof {
        lemma_writes_map_absent(entries@, key@);
    }
    None
}

/// Per-tree buffers of pending writes over a [`BlockStore`].
pub struct BlockStoreOverlay {
    /// Pending writes to the block tree, in write order.
    blocks: Vec<(Vec<u8>, Vec<u8>)>,
    /// Pending writes to the order tree, in write order.
    order: Vec<(Vec<u8>, Vec<u8>)>,
    /// Pending writes to the difficulty tree, in write order.
    difficulty: Vec<(Vec<u8>, Vec<u8>)>,
}

impl BlockStoreOverlay {
    /// The buffered writes against the block tree.
    pub closed spec fn blocks_pending(self) -> Map<Seq<u8>, Seq<u8>> {
        writes_map(self.blocks@)
    }

    /// The buffered writes against the order tree.
    pub closed spec fn order_pending(self) -> Map<Seq<u8>, Seq<u8>> {
        writes_map(self.order@)
    }

    /// The buffered writes against the difficulty tree.
    pub closed spec fn difficulty_pending(self) -> Map<Seq<u8>, Seq<u8>> {
        writes_map(self.difficulty@)
    }

    /// An overlay with nothing pending.
    pub fn new() -> (r: Self)
        ensures
            r.blocks_pending() == Map::<Seq<u8>, Seq<u8>>::empty(),
            r.order_pending() == Map::<Seq<u8>, Seq<u8>>::empty(),
            r.difficulty_pending() == Map::<Seq<u8>, Seq<u8>>::empty(),
    {
        BlockStoreOverlay { blocks: Vec::new(), order: Vec::new(), difficulty: Vec::new() }
    }

    /// Buffers the given blocks against the block tree and returns their
    /// hashes in input order. The store is untouched.
    pub fn insert(&mut self, blocks: &[Block]) -> (r: Result<Vec<HeaderHash>, Error>)
        ensures
            final(self).blocks_pending() == old(self).blocks_pending().union_prefer_right(
                blocks_writes(blocks@),
            ),
            final(self).order_pending() == old(self).order_pending(),
            final(self).difficulty_pending() == old(self).difficulty_pending(),
            r matches Ok(hs) && hs@ == blocks@.map_values(|b: Block| b.header),
    {
        let mut ret: Vec<HeaderHash> = Vec::new();
        let mut i: usize = 0;
        while i < blocks.len()
            invariant
                0 <= i <= blocks@.len(),
                writes_map(self.blocks@) == writes_map(old(self).blocks@).union_prefer_right(
                    blocks_writes(blocks@.take(i as int)),
                ),
                self.order@ == old(self).order@,
                self.difficulty@ == old(self).difficulty@,
                ret@.len() == i,
                forall|j: int| 0 <= j < i ==> ret@[j] == blocks@[j].header,
            decreases blocks@.len() - i,
        {
            let block = vstd::slice::slice_index_get(blocks, i);
            let blockhash = block.hash();
            let key = vstd::slice::slice_to_vec(blockhash.inner().as_slice());
            let value = crate::block::encode_block(block);
            let ghost prev = self.blocks@;
            let ghost e = (key, value);
            self.blocks.push((key, value));
            ret.push(blockhash);
            proof {
                lemma_writes_map_push(prev, e);
                assert(blocks@.take(i + 1).drop_last() =~= blocks@.take(i as int));
                assert(blocks@.take(i + 1).last() == blocks@[i as int]);
                assert(writes_map(self.blocks@) =~= writes_map(old(self).blocks@)
                    .union_prefer_right(blocks_writes(blocks@.take(i + 1))));
            }
            i = i + 1;
        }
        proof {
            assert(blocks@.take(blocks@.len() as int) =~= blocks@);
            assert(ret@ =~= blocks@.map_values(|b: Block| b.header));
        }
        Ok(ret)
    }

    /// Buffers the given heights and hashes, pairwise, against the order
    /// tree. Fails with `InvalidInputLengths`, buffering nothing, when the
    /// slices disagree in length. The store is untouched.
    pub fn insert_order(&mut self, order: &[u64], hashes: &[HeaderHash]) -> (r: Result<(), Error>)
        ensures
            r is Ok <==> order@.len() == hashes@.len(),
            r matches Err(e) ==> e == Error::InvalidInputLengths && *final(self) == *old(self),
            final(self).blocks_pending() == old(self).blocks_pending(),
            final(self).difficulty_pending() == old(self).difficulty_pending(),
            r is Ok ==> final(self).order_pending() == old(self).order_pending()
                .union_prefer_right(order_writes(order@, hashes@)),
    {
        if order.len() != hashes.len() {
            return Err(Error::InvalidInputLengths);
        }
        let mut i: usize = 0;
        while i < order.len()
            invariant
                0 <= i <= order@.len(),
                order@.len() == hashes@.len(),
                writes_map(self.order@) == writes_map(old(self).order@).union_prefer_right(
                    order_writes(order@.take(i as int), hashes@),
                ),
                self.blocks@ == old(self).blocks@,
                self.difficulty@ == old(self).difficulty@,
            decreases order@.len() - i,
        {
            let key = u64_to_be(order[i]);
            let value = vstd::slice::slice_to_vec(hashes[i].inner().as_slice());
            let ghost prev = self.order@;
            let ghost e = (key, value);
            self.order.push((key, value));
            proof {
                lemma_writes_map_push(prev, e);
                assert(order@.take(i + 1).drop_last() =~= order@.take(i as int));
                assert(order@.take(i + 1).last() == order@[i as int]);
                assert(writes_map(self.order@) =~= writes_map(old(self).order@)
                    .union_prefer_right(order_writes(order@.take(i + 1), hashes@)));
            }
            i = i + 1;
        }
        proof {
            assert(order@.take(order@.len() as int) =~= order@);
        }
        Ok(())
    }

    /// Buffers the given difficulty records against the difficulty tree.
    /// The store is untouched.
    pub fn insert_difficulty(&mut self, block_difficulties: &[BlockDifficulty]) -> (r: Result<
        (),
        Error,
    >)
        ensures
            final(self).difficulty_pending() == old(self).difficulty_pending()
                .union_prefer_right(difficulty_writes(block_difficulties@)),
            final(self).blocks_pending() == old(self).blocks_pending(),
            final(self).order_pending() == old(self).order_pending(),
            r is Ok,
    {
        let mut i: usize = 0;
        while i < block_difficulties.len()
            invariant
                0 <= i <= block_difficulties@.len(),
                writes_map(self.difficulty@) == writes_map(old(self).difficulty@)
                    .union_prefer_right(difficulty_writes(block_difficulties@.take(i as int))),
                self.blocks@ == old(self).blocks@,
                self.order@ == old(self).order@,
            decreases block_difficulties@.len() - i,
        {
            let d = vstd::slice::slice_index_get(block_difficulties, i);
            let key = u64_to_be(d.height);
            let value = d.encode();
            let ghost prev = self.difficulty@;
            let ghost e = (key, value);
            self.difficulty.push((key, value));
            proof {
                lemma_writes_map_push(prev, e);
                assert(block_difficulties@.take(i + 1).drop_last() =~= block_difficulties@.take(
                    i as int,
                ));
                assert(block_difficulties@.take(i + 1).last() == block_difficulties@[i as int]);
                assert(writes_map(self.difficulty@) =~= writes_map(old(self).difficulty@)
                    .union_prefer_right(difficulty_writes(block_difficulties@.take(i + 1))));
            }
            i = i + 1;
        }
        proof {
            assert(block_difficulties@.take(block_difficulties@.len() as int)
                =~= block_difficulties@);
        }
        Ok(())
    }

    /// Looks each hash up through the overlay: a buffered write wins,
    /// otherwise the read falls through to the store. Non-strict, absent
    /// hashes yield `None` in place; strict, the first absent hash fails
    /// the call.
    pub fn get(&self, store: &BlockStore, block_hashes: &[HeaderHash], strict: bool) -> (r: Result<
        Vec<Option<Block>>,
        Error,
    >)
        ensures
            r matches Ok(v) ==> v@.len() == block_hashes@.len() && (forall|i: int|
                0 <= i < v@.len() ==> block_lookup(
                    overlaid(store.blocks_map(), self.blocks_pending()),
                    block_hashes@[i]@,
                    #[trigger] v@[i],
                )) && (strict ==> forall|i: int| 0 <= i < v@.len() ==> (#[trigger] v@[i]) is Some),
            r matches Err(e) ==> match e {
                Error::BlockNotFound(h) => strict && exists|i: int|
                    0 <= i < block_hashes@.len() && (#[trigger] block_hashes@[i]) == h && !overlaid(
                        store.blocks_map(),
                        self.blocks_pending(),
                    ).dom().contains(h@),
                Error::Deserialize => exists|i: int|
                    0 <= i < block_hashes@.len() && overlaid(
                        store.blocks_map(),
                        self.blocks_pending(),
                    ).dom().contains((#[trigger] block_hashes@[i])@) && dec_block(
                        overlaid(store.blocks_map(), self.blocks_pending())[block_hashes@[i]@],
                    ) is None,
                Error::Io => exists|i: int|
                    0 <= i < block_hashes@.len() && !self.blocks_pending().dom().contains(
                        (#[trigger] block_hashes@[i])@,
                    ),
                _ => false,
            },
    {
        let ghost eff = overlaid(store.blocks_map(), self.blocks_pending());
        let mut ret: Vec<Option<Block>> = Vec::new();
        let mut i: usize = 0;
        while i < block_hashes.len()
            invariant
                eff == overlaid(store.blocks_map(), self.blocks_pending()),
                0 <= i <= block_hashes@.len(),
                ret@.len() == i,
                forall|j: int|
                    0 <= j < i ==> block_lookup(eff, block_hashes@[j]@, #[trigger] ret@[j]),
                strict ==> forall|j: int| 0 <= j < i ==> (#[trigger] ret@[j]) is Some,
            decreases block_hashes@.len() - i,
        {
            let hash = block_hashes[i];
            let found: Option<Vec<u8>> = match find_write(&self.blocks, hash.inner().as_slice()) {
                Some(v) => Some(vstd::slice::slice_to_vec(v.as_slice())),
                None => {
                    proof {
                        assert(!self.blocks_pending().dom().contains(
                            block_hashes@[i as int]@,
                        ));
                    }
                    match tree_get(&store.main, hash.inner().as_slice()) {
                        Err(e) => {
                            return Err(e);
                        },
                        Ok(o) => o,
                    }
                },
            };
            match found {
                Some(bytes) => {
                    match crate::block::decode_block(bytes.as_slice()) {
                        Ok(b) => {
                            ret.push(Some(b));
                        },
                        Err(_) => {
                            return Err(Error::Deserialize);
                        },
                    }
                },
                None => {
                    if strict {
                        return Err(Error::BlockNotFound(hash));
                    }
                    ret.push(None);
                },
            }
            i = i + 1;
        }
        Ok(ret)
    }

    /// Looks each height up through the overlay: a buffered write wins,
    /// otherwise the read falls through to the store. Non-strict, absent
    /// heights yield `None` in place; strict, the first absent height
    /// fails the call.
    pub fn get_order(&self, store: &BlockStore, order: &[u64], strict: bool) -> (r: Result<
        Vec<Option<HeaderHash>>,
        Error,
    >)
        ensures
            r matches Ok(v) ==> v@.len() == order@.len() && (forall|i: int|
                0 <= i < v@.len() ==> order_lookup(
                    overlaid(store.order_map(), self.order_pending()),
                    u64_be_bytes(order@[i]),
                    #[trigger] v@[i],
                )) && (strict ==> forall|i: int| 0 <= i < v@.len() ==> (#[trigger] v@[i]) is Some),
            r matches Err(e) ==> match e {
                Error::BlockNumberNotFound(h) => strict && exists|i: int|
                    0 <= i < order@.len() && (#[trigger] order@[i]) == h && !overlaid(
                        store.order_map(),
                        self.order_pending(),
                    ).dom().contains(u64_be_bytes(h)),
                Error::Deserialize => exists|i: int|
                    0 <= i < order@.len() && overlaid(
                        store.order_map(),
                        self.order_pending(),
                    ).dom().contains(u64_be_bytes(#[trigger] order@[i])) && overlaid(
                        store.order_map(),
                        self.order_pending(),
                    )[u64_be_bytes(order@[i])].len() != 32,
                Error::Io => exists|i: int|
                    0 <= i < order@.len() && !self.order_pending().dom().contains(
                        u64_be_bytes(#[trigger] order@[i]),
                    ),
                _ => false,
            },
    {
        let ghost eff = overlaid(store.order_map(), self.order_pending());
        let mut ret: Vec<Option<HeaderHash>> = Vec::new();
        let mut i: usize = 0;
        while i < order.len()
            invariant
                eff == overlaid(store.order_map(), self.order_pending()),
                0 <= i <= order@.len(),
                ret@.len() == i,
                forall|j: int|
                    0 <= j < i ==> order_lookup(eff, u64_be_bytes(order@[j]), #[trigger] ret@[j]),
                strict ==> forall|j: int| 0 <= j < i ==> (#[trigger] ret@[j]) is Some,
            decreases order@.len() - i,
        {
            let number = order[i];
            let key = u64_to_be(number);
            let found: Option<Vec<u8>> = match find_write(&self.order, key.as_slice()) {
                Some(v) => Some(vstd::slice::slice_to_vec(v.as_slice())),
                None => {
                    proof {
                        assert(!self.order_pending().dom().contains(
                            u64_be_bytes(order@[i as int]),
                        ));
                    }
                    match tree_get(&store.order, key.as_slice()) {
                        Err(e) => {
                            return Err(e);
                        },
                        Ok(o) => o,
                    }
                },
            };
            match found {
                Some(bytes) => {
                    if bytes.len() != 32 {
                        return Err(Error::Deserialize);
                    }
                    let hash = HeaderHash(crate::wire::read_arr32(bytes.as_slice(), 0));
                    proof {
                        assert(hash@ =~= bytes@);
                    }
                    ret.push(Some(hash));
                },
                None => {
                    if strict {
                        return Err(Error::BlockNumberNotFound(number));
                    }
                    ret.push(None);
                },
            }
            i = i + 1;
        }
        Ok(ret)
    }

    /// The highest height seen through the overlay, buffered or stored,
    /// and its hash. Fails with `BlockNumberNotFound` when neither the
    /// buffer nor the store holds any order entry.
    pub fn get_last(&self, store: &BlockStore) -> (r: Result<(u64, HeaderHash), Error>)
        ensures
            r matches Ok(p) ==> overlaid(store.order_map(), self.order_pending()).dom().contains(
                u64_be_bytes(p.0),
            ) && p.1@ == overlaid(store.order_map(), self.order_pending())[u64_be_bytes(p.0)] && (
            forall|h2: u64|
                overlaid(store.order_map(), self.order_pending()).dom().contains(u64_be_bytes(h2))
                    ==> h2 <= p.0),
            r matches Err(e) ==> match e {
                Error::BlockNumberNotFound(h) => h == 0 && overlaid(
                    store.order_map(),
                    self.order_pending(),
                ).dom() == Set::<Seq<u8>>::empty(),
                Error::Deserialize => exists|k: Seq<u8>|
                    #![auto]
                    overlaid(store.order_map(), self.order_pending()).dom().contains(k) && (k.len()
                        != 8 || overlaid(store.order_map(), self.order_pending())[k].len() != 32),
                Error::Io => true,
                _ => false,
            },
    {
        let ghost eff = overlaid(store.order_map(), self.order_pending());
        // Highest buffered key, if any.
        let mut best: Option<usize> = None;
        let mut i: usize = 0;
        while i < self.order.len()
            invariant
                0 <= i <= self.order@.len(),
                match best {
                    Some(bi) => bi < i && forall|j: int|
                        0 <= j < i ==> !lex_lt(
                            self.order@[bi as int].0@,
                            (#[trigger] self.order@[j]).0@,
                        ),
                    None => i == 0,
                },
            decreases self.order@.len() - i,
        {
            let ghost ob = best;
            match best {
                None => {
                    best = Some(i);
                },
                Some(bi) => {
                    if bytes_lt(self.order[bi].0.as_slice(), self.order[i].0.as_slice()) {
                        best = Some(i);
                    }
                },
            }
            proof {
                match best {
                    None => {
                        assert(false);
                    },
                    Some(nb) => {
                        assert forall|j: int|
                            0 <= j < i + 1 implies !lex_lt(
                            self.order@[nb as int].0@,
                            (#[trigger] self.order@[j]).0@,
                        ) by {
                            let kn = self.order@[nb as int].0@;
                            let kj = self.order@[j].0@;
                            crate::bytes::lemma_lex_irrefl(kn);
                            match ob {
                                None => {},
                                Some(bi) => {
                                    let kb = self.order@[bi as int].0@;
                                    if nb == i {
                                        if j < i && lex_lt(kn, kj) {
                                            crate::bytes::lemma_lex_trans(kb, kn, kj);
                                        }
                                    }
                                },
                            }
                        }
                    },
                }
            }
            i = i + 1;
        }
        // Highest stored key, if any.
        let stored = match tree_last(&store.order) {
            Err(e) => {
                return Err(e);
            },
            Ok(o) => o,
        };
        // Pick the winning key and its overlaid value: the chosen key is in
        // the overlaid view, carries its value, and no key is greater.
        let (key, value): (Vec<u8>, Vec<u8>) = match (best, stored) {
            (None, None) => {
                proof {
                    if self.order@.len() > 0 {
                        assert(false);
                    }
                    assert(eff.dom() =~= Set::<Seq<u8>>::empty());
                }
                return Err(Error::BlockNumberNotFound(0));
            },
            (Some(bi), None) => {
                let k = vstd::slice::slice_to_vec(self.order[bi].0.as_slice());
                let v = match find_write(&self.order, k.as_slice()) {
                    Some(v) => vstd::slice::slice_to_vec(v.as_slice()),
                    None => {
                        proof {
                            lemma_writes_map_covers(self.order@, bi as int);
                        }
                        vstd::pervasive::unreached()
                    },
                };
                proof {
                    assert(eff.dom().contains(k@) && eff[k@] == v@);
                    assert forall|k2: Seq<u8>| #[trigger] eff.dom().contains(k2) implies !lex_lt(
                        k@,
                        k2,
                    ) by {
                        assert(self.order_pending().dom().contains(k2));
                        lemma_writes_map_dom(self.order@, k2);
                    }
                }
                (k, v)
            },
            (None, Some(kv)) => {
                proof {
                    if self.order@.len() > 0 {
                        assert(false);
                    }
                    lemma_writes_map_absent(self.order@, kv.0@);
                    assert(eff.dom().contains(kv.0@) && eff[kv.0@] == kv.1@);
                    assert forall|k2: Seq<u8>| #[trigger] eff.dom().contains(k2) implies !lex_lt(
                        kv.0@,
                        k2,
                    ) by {
                        if !store.order_map().dom().contains(k2) {
                            lemma_writes_map_dom(self.order@, k2);
                        }
                    }
                }
                kv
            },
            (Some(bi), Some(kv)) => {
                let ghost bk = self.order@[bi as int].0@;
                let ghost sk = kv.0@;
                if bytes_lt(self.order[bi].0.as_slice(), kv.0.as_slice()) {
                    // The stored key wins; a buffered write at that same
                    // key would still shadow the stored value.
                    proof {
                        assert forall|k2: Seq<u8>|
                            #[trigger] eff.dom().contains(k2) implies !lex_lt(sk, k2) by {
                            if !store.order_map().dom().contains(k2) {
                                lemma_writes_map_dom(self.order@, k2);
                                if lex_lt(sk, k2) {
                                    crate::bytes::lemma_lex_trans(bk, sk, k2);
                                }
                            }
                        }
                    }
                    match find_write(&self.order, kv.0.as_slice()) {
                        Some(v) => (kv.0, vstd::slice::slice_to_vec(v.as_slice())),
                        None => kv,
                    }
                } else {
                    let k = vstd::slice::slice_to_vec(self.order[bi].0.as_slice());
                    let v = match find_write(&self.order, k.as_slice()) {
                        Some(v) => vstd::slice::slice_to_vec(v.as_slice()),
                        None => {
                            proof {
                                lemma_writes_map_covers(self.order@, bi as int);
                            }
                            vstd::pervasive::unreached()
                        },
                    };
                    proof {
                        assert(eff.dom().contains(k@) && eff[k@] == v@);
                        assert forall|k2: Seq<u8>|
                            #[trigger] eff.dom().contains(k2) implies !lex_lt(bk, k2) by {
                            if self.order_pending().dom().contains(k2) {
                                lemma_writes_map_dom(self.order@, k2);
                            } else {
                                if lex_lt(bk, k2) {
                                    if k2 == sk {
                                    } else {
                                        crate::bytes::lemma_lex_connected(k2, sk);
                                        crate::bytes::lemma_lex_trans(bk, k2, sk);
                                    }
                                }
                            }
                        }
                    }
                    (k, v)
                }
            },
        };
        proof {
            assert(eff.dom().contains(key@));
            assert(eff[key@] == value@);
            assert(forall|k2: Seq<u8>| #[trigger] eff.dom().contains(k2) ==> !lex_lt(key@, k2));
        }
        if key.len() != 8 || value.len() != 32 {
            proof {
                assert(eff.dom().contains(key@) && (key@.len() != 8 || eff[key@].len() != 32));
            }
            return Err(Error::Deserialize);
        }
        let number = crate::bytes::u64_from_be(key.as_slice());
        let hash = HeaderHash(crate::wire::read_arr32(value.as_slice(), 0));
        proof {
            assert(hash@ =~= value@);
            assert forall|h2: u64| eff.dom().contains(u64_be_bytes(h2)) implies h2 <= number by {
                lemma_u64_be_order(number, h2);
            }
        }
        Ok((number, hash))
    }

    /// Whether any order entry is visible through the overlay, buffered
    /// or stored.
    pub fn is_empty(&self, store: &BlockStore) -> (r: Result<bool, Error>)
        ensures
            r is Ok,
            r matches Ok(b) ==> (b <==> overlaid(store.order_map(), self.order_pending()).dom()
                == Set::<Seq<u8>>::empty()),
    {
        if self.order.len() > 0 {
            proof {
                lemma_writes_map_covers(self.order@, 0);
                assert(overlaid(store.order_map(), self.order_pending()).dom().contains(
                    self.order@[0].0@,
                ));
            }
            return Ok(false);
        }
        let empty = tree_is_empty(&store.order);
        proof {
            assert(self.order_pending() =~= Map::<Seq<u8>, Seq<u8>>::empty());
            if empty {
                assert(overlaid(store.order_map(), self.order_pending()).dom() =~= Set::<
                    Seq<u8>,
                >::empty());
            } else {
                assert(overlaid(store.order_map(), self.order_pending()).dom()
                    =~= store.order_map().dom());
            }
        }
        Ok(empty)
    }

    /// Promotes every buffered write to the store in one backend
    /// transaction across the three trees, and clears the buffers. The
    /// writes are staged and applied together under the backend's write
    /// lock: concurrent readers see the store before the commit or after
    /// it, never some trees moved and others not, and a crash recovers
    /// atomically. On failure the buffers are kept, so the caller may
    /// retry or discard; the contract does not speak of the trees then,
    /// since an in-process storage fault in the backend's final apply
    /// phase can leave part of the staged writes in place.
    pub fn commit(&mut self, store: &mut BlockStore) -> (r: Result<(), Error>)
        ensures
            r is Ok ==> final(store).blocks_map() == old(store).blocks_map().union_prefer_right(
                old(self).blocks_pending(),
            ),
            r is Ok ==> final(store).order_map() == old(store).order_map().union_prefer_right(
                old(self).order_pending(),
            ),
            r is Ok ==> final(store).difficulty_map() == old(store).difficulty_map()
                .union_prefer_right(old(self).difficulty_pending()),
            r is Ok ==> final(self).blocks_pending() == Map::<Seq<u8>, Seq<u8>>::empty()
                && final(self).order_pending() == Map::<Seq<u8>, Seq<u8>>::empty()
                && final(self).difficulty_pending() == Map::<Seq<u8>, Seq<u8>>::empty(),
            r matches Err(e) ==> e == Error::Io && *final(self) == *old(self),
    {
        let blocks_batch = build_batch(&self.blocks);
        let order_batch = build_batch(&self.order);
        let difficulty_batch = build_batch(&self.difficulty);
        match trees_apply_batches(
            &mut store.main,
            &mut store.order,
            &mut store.difficulty,
            blocks_batch,
            order_batch,
            difficulty_batch,
        ) {
            Ok(()) => (),
            Err(e) => {
                return Err(e);
            },
        }
        self.blocks.clear();
        self.order.clear();
        self.difficulty.clear();
        Ok(())
    }

    /// Drops every buffered write. The store never sees them.
    pub fn discard(&mut self)
        ensures
            final(self).blocks_pending() == Map::<Seq<u8>, Seq<u8>>::empty(),
            final(self).order_pending() == Map::<Seq<u8>, Seq<u8>>::empty(),
            final(self).difficulty_pending() == Map::<Seq<u8>, Seq<u8>>::empty(),
    {
        self.blocks.clear();
        self.order.clear();
        self.difficulty.clear();
    }
}

/// The batch holding a buffer's writes in write order.
fn build_batch(entries: &Vec<(Vec<u8>, Vec<u8>)>) -> (r: sled::Batch)
    ensures
        batch_view(r) == writes_map(entries@),
{
    let mut batch = batch_new();
    let mut i: usize = 0;
    while i < entries.len()
        invariant
            0 <= i <= entries@.len(),
            batch_view(batch) == writes_map(entries@.take(i as int)),
        decreases entries@.len() - i,
    {
        batch_insert(&mut batch, entries[i].0.as_slice(), entries[i].1.as_slice());
        proof {
            assert(entries@.take(i + 1).drop_last() =~= entries@.take(i as int));
            assert(entries@.take(i + 1).last() == entries@[i as int]);
        }
        i = i + 1;
    }
    proof {
        assert(entries@.take(entries@.len() as int) =~= entries@);
    }
    batch
}

/// Read-your-writes: a block buffered through the overlay is what a read
/// through the overlay returns for its hash, whatever the store holds.
pub proof fn lemma_overlay_read_back(
    ms: Map<Seq<u8>, Seq<u8>>,
    pending: Map<Seq<u8>, Seq<u8>>,
    b: &Block,
)
    ensures
        block_lookup(
            overlaid(ms, pending.union_prefer_right(blocks_writes(seq![*b]))),
            b@.header,
            Some(*b),
        ),
{
    crate::block::lemma_block_wf(b);
    crate::block::lemma_block_round_trip(b@);
    let w = blocks_writes(seq![*b]);
    assert(seq![*b].drop_last() =~= Seq::<Block>::empty());
    assert(w == blocks_writes(Seq::<Block>::empty()).insert(b@.header, enc_block(b@)));
    assert(overlaid(ms, pending.union_prefer_right(w))[b@.header] == enc_block(b@));
}

} // verus!
