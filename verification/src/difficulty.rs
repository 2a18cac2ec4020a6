//! Per-height proof-of-work state: ranking values and cumulative
//! difficulty, and their byte-deterministic codec.
//!
//! Only the cumulative values are needed to choose what to extend; the
//! height-local values are kept as well so the sequence can be audited
//! later. Cumulative sums are maintained by the caller; the store carries
//! the records through unchanged.

use vstd::bytes::spec_u64_to_le_bytes;
use vstd::prelude::*;

use crate::bignum::{
    canonical_be, dec_bignum, enc_bignum, lemma_bignum_round_trip, read_bignum, write_bignum,
    BigNum,
};
use crate::err::Error;
use crate::wire::{dec_u64_le, read_u64_le, write_u64_le};

verus! {

/// Mathematical form of a block's ranking state: four canonical big-endian
/// digit strings.
pub struct RanksView {
    pub target_rank: Seq<u8>,
    pub targets_rank: Seq<u8>,
    pub hash_rank: Seq<u8>,
    pub hashes_rank: Seq<u8>,
}

/// Block ranking state: the height-local target and hash ranks, and their
/// running sums over all heights so far.
#[derive(Debug)]
pub struct BlockRanks {
    /// Block target rank.
    pub target_rank: BigNum,
    /// Running sum of target ranks through this height.
    pub targets_rank: BigNum,
    /// Block hash rank.
    pub hash_rank: BigNum,
    /// Running sum of hash ranks through this height.
    pub hashes_rank: BigNum,
}

impl View for BlockRanks {
    type V = RanksView;

    open spec fn view(&self) -> RanksView {
        RanksView {
            target_rank: self.target_rank@,
            targets_rank: self.targets_rank@,
            hash_rank: self.hash_rank@,
            hashes_rank: self.hashes_rank@,
        }
    }
}

impl BlockRanks {
    pub fn new(target_rank: BigNum, targets_rank: BigNum, hash_rank: BigNum, hashes_rank: BigNum)
        -> (r: Self)
        ensures
            r@.target_rank == target_rank@,
            r@.targets_rank == targets_rank@,
            r@.hash_rank == hash_rank@,
            r@.hashes_rank == hashes_rank@,
    {
        BlockRanks { target_rank, targets_rank, hash_rank, hashes_rank }
    }
}

/// Mathematical form of a per-height difficulty record.
pub struct BlockDifficultyView {
    pub height: u64,
    pub timestamp: u64,
    pub difficulty: Seq<u8>,
    pub cummulative_difficulty: Seq<u8>,
    pub ranks: RanksView,
}

/// Per-height proof-of-work record: the height-local difficulty, the
/// cumulative difficulty through this height, and the ranking state.
#[derive(Debug)]
pub struct BlockDifficulty {
    /// Block height number.
    pub height: u64,
    /// Block creation timestamp, seconds since the epoch.
    pub timestamp: u64,
    /// Height-local difficulty.
    pub difficulty: BigNum,
    /// Cumulative difficulty through this height.
    pub cummulative_difficulty: BigNum,
    /// Block ranking state.
    pub ranks: BlockRanks,
}

impl View for BlockDifficulty {
    type V = BlockDifficultyView;

    open spec fn view(&self) -> BlockDifficultyView {
        BlockDifficultyView {
            height: self.height,
            timestamp: self.timestamp,
            difficulty: self.difficulty@,
            cummulative_difficulty: self.cummulative_difficulty@,
            ranks: self.ranks@,
        }
    }
}

impl BlockDifficulty {
    pub fn new(
        height: u64,
        timestamp: u64,
        difficulty: BigNum,
        cummulative_difficulty: BigNum,
        ranks: BlockRanks,
    ) -> (r: Self)
        ensures
            r@.height == height,
            r@.timestamp == timestamp,
            r@.difficulty == difficulty@,
            r@.cummulative_difficulty == cummulative_difficulty@,
            r@.ranks == ranks@,
    {
        BlockDifficulty { height, timestamp, difficulty, cummulative_difficulty, ranks }
    }

    /// The genesis record: height zero, every difficulty and rank zero,
    /// the timestamp supplied by the caller.
    pub fn genesis(timestamp: u64) -> (r: Self)
        ensures
            r@.height == 0,
            r@.timestamp == timestamp,
            r@.difficulty == seq![0u8],
            r@.cummulative_difficulty == seq![0u8],
            r@.ranks.target_rank == seq![0u8],
            r@.ranks.targets_rank == seq![0u8],
            r@.ranks.hash_rank == seq![0u8],
            r@.ranks.hashes_rank == seq![0u8],
    {
        let ranks = BlockRanks::new(BigNum::zero(), BigNum::zero(), BigNum::zero(), BigNum::zero());
        BlockDifficulty::new(0, timestamp, BigNum::zero(), BigNum::zero(), ranks)
    }
}

/// Well-formedness of a ranking state's mathematical form.
pub open spec fn wf_ranks(r: RanksView) -> bool {
    &&& canonical_be(r.target_rank) && r.target_rank.len() <= u64::MAX
    &&& canonical_be(r.targets_rank) && r.targets_rank.len() <= u64::MAX
    &&& canonical_be(r.hash_rank) && r.hash_rank.len() <= u64::MAX
    &&& canonical_be(r.hashes_rank) && r.hashes_rank.len() <= u64::MAX
}

/// Well-formedness of a difficulty record's mathematical form.
pub open spec fn wf_difficulty(d: BlockDifficultyView) -> bool {
    &&& canonical_be(d.difficulty) && d.difficulty.len() <= u64::MAX
    &&& canonical_be(d.cummulative_difficulty) && d.cummulative_difficulty.len() <= u64::MAX
    &&& wf_ranks(d.ranks)
}

/// Byte form of a ranking state: the four big integers in fixed order.
pub open spec fn enc_ranks(r: RanksView) -> Seq<u8> {
    enc_bignum(r.target_rank) + enc_bignum(r.targets_rank) + enc_bignum(r.hash_rank) + enc_bignum(
        r.hashes_rank,
    )
}

/// Parses a ranking state at `pos`.
pub open spec fn dec_ranks(s: Seq<u8>, pos: int) -> Option<(RanksView, int)> {
    match dec_bignum(s, pos) {
        Option::None => None,
        Option::Some((target_rank, p1)) => match dec_bignum(s, p1) {
            Option::None => None,
            Option::Some((targets_rank, p2)) => match dec_bignum(s, p2) {
                Option::None => None,
                Option::Some((hash_rank, p3)) => match dec_bignum(s, p3) {
                    Option::None => None,
                    Option::Some((hashes_rank, p4)) => Some(
                        ((RanksView { target_rank, targets_rank, hash_rank, hashes_rank }), p4),
                    ),
                },
            },
        },
    }
}

/// Byte form of a difficulty record: height and timestamp little-endian,
/// then the big integers in declaration order.
pub open spec fn enc_difficulty(d: BlockDifficultyView) -> Seq<u8> {
    spec_u64_to_le_bytes(d.height) + spec_u64_to_le_bytes(d.timestamp) + enc_bignum(d.difficulty)
        + enc_bignum(d.cummulative_difficulty) + enc_ranks(d.ranks)
}

/// Parses the byte form of a difficulty record. The whole string must be
/// consumed.
pub open spec fn dec_difficulty(s: Seq<u8>) -> Option<BlockDifficultyView> {
    match dec_u64_le(s, 0) {
        Option::None => None,
        Option::Some((height, p1)) => match dec_u64_le(s, p1) {
            Option::None => None,
            Option::Some((timestamp, p2)) => match dec_bignum(s, p2) {
                Option::None => None,
                Option::Some((difficulty, p3)) => match dec_bignum(s, p3) {
                    Option::None => None,
                    Option::Some((cummulative_difficulty, p4)) => match dec_ranks(s, p4) {
                        Option::None => None,
                        Option::Some((ranks, p5)) => {
                            if p5 == s.len() {
                                Some(
                                    (BlockDifficultyView {
                                        height,
                                        timestamp,
                                        difficulty,
                                        cummulative_difficulty,
                                        ranks,
                                    }),
                                )
                            } else {
                                None
                            }
                        },
                    },
                },
            },
        },
    }
}

/// A window of `s` agrees with `part` when the enclosing stretch `e` lies
/// at `base` and `part` lies at `off` inside `e`.
proof fn lemma_window(s: Seq<u8>, base: int, e: Seq<u8>, off: int, part: Seq<u8>)
    requires
        0 <= base,
        base + e.len() <= s.len(),
        forall|i: int| 0 <= i < e.len() ==> e[i] == s[base + i],
        0 <= off,
        off + part.len() <= e.len(),
        forall|i: int| 0 <= i < part.len() ==> part[i] == e[off + i],
    ensures
        s.subrange(base + off, base + off + part.len()) == part,
{
    assert forall|i: int| 0 <= i < part.len() implies s.subrange(
        base + off,
        base + off + part.len() as int,
    )[i] == part[i] by {
        assert(e[off + i] == s[base + (off + i)]);
        assert(s.subrange(base + off, base + off + part.len() as int)[i] == s[base + off + i]);
    }
    assert(s.subrange(base + off, base + off + part.len() as int) =~= part);
}

/// Round trip: a well-formed ranking state's byte form parses back to it,
/// wherever it stands in a longer string.
pub proof fn lemma_ranks_round_trip(s: Seq<u8>, pos: int, r: RanksView)
    requires
        wf_ranks(r),
        0 <= pos,
        pos + enc_ranks(r).len() <= s.len(),
        s.subrange(pos, pos + enc_ranks(r).len()) == enc_ranks(r),
    ensures
        dec_ranks(s, pos) == Some((r, pos + enc_ranks(r).len())),
{
    let e = enc_ranks(r);
    let e1 = enc_bignum(r.target_rank);
    let e2 = enc_bignum(r.targets_rank);
    let e3 = enc_bignum(r.hash_rank);
    let e4 = enc_bignum(r.hashes_rank);
    assert(forall|i: int| 0 <= i < e.len() ==> e[i] == s[pos + i]) by {
        assert(forall|i: int|
            0 <= i < e.len() ==> e[i] == s.subrange(pos, pos + e.len() as int)[i]);
    }
    let o1 = 0int;
    let o2 = o1 + e1.len() as int;
    let o3 = o2 + e2.len() as int;
    let o4 = o3 + e3.len() as int;
    assert(forall|i: int| 0 <= i < e1.len() ==> e1[i] == e[o1 + i]);
    assert(forall|i: int| 0 <= i < e2.len() ==> e2[i] == e[o2 + i]);
    assert(forall|i: int| 0 <= i < e3.len() ==> e3[i] == e[o3 + i]);
    assert(forall|i: int| 0 <= i < e4.len() ==> e4[i] == e[o4 + i]);
    lemma_window(s, pos, e, o1, e1);
    lemma_window(s, pos, e, o2, e2);
    lemma_window(s, pos, e, o3, e3);
    lemma_window(s, pos, e, o4, e4);
    lemma_bignum_round_trip(s, pos + o1, r.target_rank);
    lemma_bignum_round_trip(s, pos + o2, r.targets_rank);
    lemma_bignum_round_trip(s, pos + o3, r.hash_rank);
    lemma_bignum_round_trip(s, pos + o4, r.hashes_rank);
}

/// Round trip: a well-formed difficulty record's byte form parses back to
/// the record.
pub proof fn lemma_difficulty_round_trip(d: BlockDifficultyView)
    requires
        wf_difficulty(d),
    ensures
        dec_difficulty(enc_difficulty(d)) == Some(d),
{
    let s = enc_difficulty(d);
    let e1 = spec_u64_to_le_bytes(d.height);
    let e2 = spec_u64_to_le_bytes(d.timestamp);
    let e3 = enc_bignum(d.difficulty);
    let e4 = enc_bignum(d.cummulative_difficulty);
    let e5 = enc_ranks(d.ranks);
    vstd::bytes::lemma_auto_spec_u64_to_from_le_bytes();
    let o2 = 8int;
    let o3 = 16int;
    let o4 = o3 + e3.len() as int;
    let o5 = o4 + e4.len() as int;
    assert(forall|i: int| 0 <= i < e1.len() ==> e1[i] == s[0 + i]);
    assert(forall|i: int| 0 <= i < e2.len() ==> e2[i] == s[o2 + i]);
    assert(forall|i: int| 0 <= i < e3.len() ==> e3[i] == s[o3 + i]);
    assert(forall|i: int| 0 <= i < e4.len() ==> e4[i] == s[o4 + i]);
    assert(forall|i: int| 0 <= i < e5.len() ==> e5[i] == s[o5 + i]);
    lemma_window(s, 0, s, 0, e1);
    lemma_window(s, 0, s, o2, e2);
    lemma_window(s, 0, s, o3, e3);
    lemma_window(s, 0, s, o4, e4);
    lemma_window(s, 0, s, o5, e5);
    assert(s.subrange(0, 8) == spec_u64_to_le_bytes(d.height));
    assert(s.subrange(o2, o2 + 8) == spec_u64_to_le_bytes(d.timestamp));
    lemma_bignum_round_trip(s, o3, d.difficulty);
    lemma_bignum_round_trip(s, o4, d.cummulative_difficulty);
    lemma_ranks_round_trip(s, o5, d.ranks);
}

impl BlockRanks {
    /// Appends the byte form of the ranking state.
    pub fn encode(&self, out: &mut Vec<u8>)
        ensures
            final(out)@ == old(out)@ + enc_ranks(self@),
    {
        write_bignum(out, &self.target_rank);
        write_bignum(out, &self.targets_rank);
        write_bignum(out, &self.hash_rank);
        write_bignum(out, &self.hashes_rank);
        proof {
            assert(out@ =~= old(out)@ + enc_ranks(self@));
        }
    }

    /// Reads a ranking state at `pos`, exactly as `dec_ranks` describes.
    pub fn decode(buf: &[u8], pos: usize) -> (r: Result<(BlockRanks, usize), Error>)
        requires
            pos <= buf@.len(),
        ensures
            match r {
                Ok(p) => dec_ranks(buf@, pos as int) == Some((p.0@, p.1 as int)) && pos <= p.1
                    <= buf@.len(),
                Err(e) => dec_ranks(buf@, pos as int) is None && e == Error::Deserialize,
            },
    {
        let (target_rank, p1) = match read_bignum(buf, pos) {
            Ok(q) => q,
            Err(e) => {
                return Err(e);
            },
        };
        let (targets_rank, p2) = match read_bignum(buf, p1) {
            Ok(q) => q,
            Err(e) => {
                return Err(e);
            },
        };
        let (hash_rank, p3) = match read_bignum(buf, p2) {
            Ok(q) => q,
            Err(e) => {
                return Err(e);
            },
        };
        let (hashes_rank, p4) = match read_bignum(buf, p3) {
            Ok(q) => q,
            Err(e) => {
                return Err(e);
            },
        };
        Ok((BlockRanks { target_rank, targets_rank, hash_rank, hashes_rank }, p4))
    }
}

impl BlockDifficulty {
    /// Byte form of the record.
    pub fn encode(&self) -> (r: Vec<u8>)
        ensures
            r@ == enc_difficulty(self@),
    {
        let mut out: Vec<u8> = Vec::new();
        write_u64_le(&mut out, self.height);
        write_u64_le(&mut out, self.timestamp);
        write_bignum(&mut out, &self.difficulty);
        write_bignum(&mut out, &self.cummulative_difficulty);
        self.ranks.encode(&mut out);
        proof {
            assert(out@ =~= enc_difficulty(self@));
        }
        out
    }

    /// Parses the byte form of a record, exactly as `dec_difficulty`
    /// describes.
    pub fn decode(bytes: &[u8]) -> (r: Result<BlockDifficulty, Error>)
        ensures
            match r {
                Ok(d) => dec_difficulty(bytes@) == Some(d@),
                Err(e) => dec_difficulty(bytes@) is None && e == Error::Deserialize,
            },
    {
        let (height, p1) = match read_u64_le(bytes, 0) {
            Ok(q) => q,
            Err(e) => {
                return Err(e);
            },
        };
        let (timestamp, p2) = match read_u64_le(bytes, p1) {
            Ok(q) => q,
            Err(e) => {
                return Err(e);
            },
        };
        let (difficulty, p3) = match read_bignum(bytes, p2) {
            Ok(q) => q,
            Err(e) => {
                return Err(e);
            },
        };
        let (cummulative_difficulty, p4) = match read_bignum(bytes, p3) {
            Ok(q) => q,
            Err(e) => {
                return Err(e);
            },
        };
        let (ranks, p5) = match BlockRanks::decode(bytes, p4) {
            Ok(q) => q,
            Err(e) => {
                return Err(e);
            },
        };
        if p5 != bytes.len() {
            return Err(Error::Deserialize);
        }
        Ok(BlockDifficulty { height, timestamp, difficulty, cummulative_difficulty, ranks })
    }
}

} // verus!
