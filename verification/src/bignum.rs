//! Arbitrary-precision unsigned integers as the store carries them: the
//! canonical big-endian byte string of the value, with no leading zero
//! (zero itself is the single byte `0`). On the wire they are
//! length-prefixed; parsing strips any leading zeros back off.

use vstd::prelude::*;

use crate::err::Error;
use crate::wire::{dec_varint, lemma_varint_round_trip, read_varint, spec_varint, write_bytes,
    write_varint};

verus! {

/// A byte string is a canonical big-endian integer: at least one digit, no
/// leading zero unless it is the single digit zero.
pub open spec fn canonical_be(s: Seq<u8>) -> bool {
    s.len() >= 1 && (s.len() == 1 || s[0] != 0)
}

/// The natural number whose big-endian digits are `s`.
pub open spec fn nat_of_be(s: Seq<u8>) -> nat
    decreases s.len(),
{
    if s.len() == 0 {
        0
    } else {
        (nat_of_be(s.drop_last()) * 256 + s.last()) as nat
    }
}

/// A leading zero digit adds nothing to the value.
proof fn lemma_drop_leading_zero(s: Seq<u8>)
    requires
        s.len() >= 1,
        s[0] == 0,
    ensures
        nat_of_be(s.drop_first()) == nat_of_be(s),
    decreases s.len(),
{
    assert(nat_of_be(Seq::<u8>::empty()) == 0);
    if s.len() == 1 {
        assert(s.drop_first() =~= Seq::<u8>::empty());
        assert(s.drop_last() =~= Seq::<u8>::empty());
        assert(nat_of_be(s) == nat_of_be(s.drop_last()) * 256 + s.last());
    } else {
        let t = s.drop_last();
        lemma_drop_leading_zero(t);
        assert(s.drop_first().drop_last() =~= t.drop_first());
        assert(s.drop_first().last() == s.last());
        assert(nat_of_be(s) == nat_of_be(t) * 256 + s.last());
        assert(nat_of_be(s.drop_first()) == nat_of_be(s.drop_first().drop_last()) * 256
            + s.drop_first().last());
    }
}

/// Normalizing keeps the value.
pub proof fn lemma_normalize_value(s: Seq<u8>)
    ensures
        nat_of_be(normalize_be(s)) == nat_of_be(s),
    decreases s.len(),
{
    if s.len() == 0 {
        assert(seq![0u8].drop_last() =~= Seq::<u8>::empty());
        assert(nat_of_be(Seq::<u8>::empty()) == 0);
        assert(nat_of_be(seq![0u8]) == nat_of_be(seq![0u8].drop_last()) * 256 + seq![0u8].last());
    } else if s[0] != 0 || s.len() == 1 {
    } else {
        lemma_drop_leading_zero(s);
        lemma_normalize_value(s.drop_first());
    }
}

/// The eight big-endian bytes of a machine word spell its value.
pub proof fn lemma_u64_be_value(x: u64)
    ensures
        nat_of_be(crate::bytes::u64_be_bytes(x)) == x,
{
    let b = crate::bytes::u64_be_bytes(x);
    assert(((x >> 56) & 0xff) < 256 && ((x >> 48) & 0xff) < 256 && ((x >> 40) & 0xff) < 256 && ((x
        >> 32) & 0xff) < 256 && ((x >> 24) & 0xff) < 256 && ((x >> 16) & 0xff) < 256 && ((x >> 8)
        & 0xff) < 256 && (x & 0xff) < 256) by (bit_vector);
    let t1 = b.take(1);
    let t2 = b.take(2);
    let t3 = b.take(3);
    let t4 = b.take(4);
    let t5 = b.take(5);
    let t6 = b.take(6);
    let t7 = b.take(7);
    assert(t1.drop_last() =~= Seq::<u8>::empty());
    assert(t2.drop_last() =~= t1);
    assert(t3.drop_last() =~= t2);
    assert(t4.drop_last() =~= t3);
    assert(t5.drop_last() =~= t4);
    assert(t6.drop_last() =~= t5);
    assert(t7.drop_last() =~= t6);
    assert(b.drop_last() =~= t7);
    assert(nat_of_be(Seq::<u8>::empty()) == 0);
    assert(nat_of_be(t1) == nat_of_be(t1.drop_last()) * 256 + t1.last());
    assert(nat_of_be(t1) == (x >> 56) & 0xff);
    assert(((x >> 56) & 0xff) * 256 + ((x >> 48) & 0xff) == (x >> 48) & 0xffff) by (bit_vector);
    assert(nat_of_be(t2) == (x >> 48) & 0xffff);
    assert(((x >> 48) & 0xffff) * 256 + ((x >> 40) & 0xff) == (x >> 40) & 0xff_ffff)
        by (bit_vector);
    assert(nat_of_be(t3) == (x >> 40) & 0xff_ffff);
    assert(((x >> 40) & 0xff_ffff) * 256 + ((x >> 32) & 0xff) == (x >> 32) & 0xffff_ffff)
        by (bit_vector);
    assert(nat_of_be(t4) == (x >> 32) & 0xffff_ffff);
    assert(((x >> 32) & 0xffff_ffff) * 256 + ((x >> 24) & 0xff) == (x >> 24) & 0xff_ffff_ffff)
        by (bit_vector);
    assert(nat_of_be(t5) == (x >> 24) & 0xff_ffff_ffff);
    assert(((x >> 24) & 0xff_ffff_ffff) * 256 + ((x >> 16) & 0xff) == (x >> 16)
        & 0xffff_ffff_ffff) by (bit_vector);
    assert(nat_of_be(t6) == (x >> 16) & 0xffff_ffff_ffff);
    assert(((x >> 16) & 0xffff_ffff_ffff) * 256 + ((x >> 8) & 0xff) == (x >> 8)
        & 0xff_ffff_ffff_ffff) by (bit_vector);
    assert(nat_of_be(t7) == (x >> 8) & 0xff_ffff_ffff_ffff);
    assert(((x >> 8) & 0xff_ffff_ffff_ffff) * 256 + (x & 0xff) == x) by (bit_vector);
    assert(nat_of_be(b) == x);
}

/// Canonical form of a big-endian byte string: leading zeros stripped, the
/// empty string taken as zero.
pub open spec fn normalize_be(s: Seq<u8>) -> Seq<u8>
    decreases s.len(),
{
    if s.len() == 0 {
        seq![0u8]
    } else if s[0] != 0 {
        s
    } else if s.len() == 1 {
        s
    } else {
        normalize_be(s.drop_first())
    }
}

/// Normalizing yields a canonical string.
pub proof fn lemma_normalize_canonical(s: Seq<u8>)
    ensures
        canonical_be(normalize_be(s)),
    decreases s.len(),
{
    if s.len() == 0 {
    } else if s[0] != 0 || s.len() == 1 {
    } else {
        lemma_normalize_canonical(s.drop_first());
    }
}

/// A canonical string is already normal.
pub proof fn lemma_normalize_id(s: Seq<u8>)
    requires
        canonical_be(s),
    ensures
        normalize_be(s) == s,
{
}

/// Normalizing ignores leading zeros.
proof fn lemma_normalize_skip(s: Seq<u8>, i: int)
    requires
        0 <= i <= s.len(),
        forall|j: int| 0 <= j < i ==> s[j] == 0,
    ensures
        normalize_be(s) == normalize_be(s.skip(i)),
    decreases i,
{
    if i > 0 {
        if s.len() == 1 {
            assert(s =~= seq![0u8]);
            assert(s.skip(1) =~= Seq::<u8>::empty());
        } else {
            assert(s.drop_first() =~= s.skip(1));
            lemma_normalize_skip(s.skip(1), i - 1);
            assert(s.skip(1).skip(i - 1) =~= s.skip(i));
        }
    } else {
        assert(s.skip(0) =~= s);
    }
}

/// An arbitrary-precision unsigned integer, held as its canonical
/// big-endian byte string.
#[derive(Debug)]
pub struct BigNum {
    bytes: Vec<u8>,
}

impl View for BigNum {
    type V = Seq<u8>;

    closed spec fn view(&self) -> Seq<u8> {
        self.bytes@
    }
}

#[verifier::type_invariant]
spec fn big_num_inv(b: &BigNum) -> bool {
    canonical_be(b@)
}

impl BigNum {
    /// Zero, the single digit `0`.
    pub fn zero() -> (r: Self)
        ensures
            r@ == seq![0u8],
    {
        let mut bytes: Vec<u8> = Vec::new();
        bytes.push(0);
        let r = BigNum { bytes };
        proof {
            assert(r@ =~= seq![0u8]);
        }
        r
    }

    /// The integer whose big-endian digits are `b`, leading zeros ignored.
    pub fn from_be_slice(b: &[u8]) -> (r: Self)
        ensures
            r@ == normalize_be(b@),
            nat_of_be(r@) == nat_of_be(b@),
    {
        proof {
            lemma_normalize_value(b@);
        }
        let mut i: usize = 0;
        while i < b.len() && b[i] == 0
            invariant
                0 <= i <= b@.len(),
                forall|j: int| 0 <= j < i ==> b@[j] == 0,
            decreases b@.len() - i,
        {
            i = i + 1;
        }
        proof {
            lemma_normalize_skip(b@, i as int);
        }
        if i == b.len() {
            proof {
                assert(b@.skip(i as int) =~= Seq::<u8>::empty());
            }
            Self::zero()
        } else {
            let bytes = vstd::slice::slice_to_vec(vstd::slice::slice_subrange(b, i, b.len()));
            let r = BigNum { bytes };
            proof {
                assert(r@ == b@.skip(i as int));
                assert(normalize_be(b@.skip(i as int)) == b@.skip(i as int));
            }
            r
        }
    }

    /// The integer with a machine-word value.
    pub fn from_u64(x: u64) -> (r: Self)
        ensures
            r@ == normalize_be(crate::bytes::u64_be_bytes(x)),
            nat_of_be(r@) == x,
    {
        proof {
            lemma_u64_be_value(x);
        }
        let be = crate::bytes::u64_to_be(x);
        Self::from_be_slice(be.as_slice())
    }

    /// The canonical big-endian digits.
    pub fn to_bytes_be(&self) -> (r: &[u8])
        ensures
            r@ == self@,
    {
        self.bytes.as_slice()
    }

}

/// Byte form of a big integer: count-prefixed big-endian digits.
pub open spec fn enc_bignum(b: Seq<u8>) -> Seq<u8> {
    spec_varint(b.len() as u64) + b
}

/// Parses a big integer at `pos`: a count, then that many digit bytes,
/// leading zeros stripped.
pub open spec fn dec_bignum(s: Seq<u8>, pos: int) -> Option<(Seq<u8>, int)> {
    match dec_varint(s, pos) {
        Option::None => None,
        Option::Some((l, p)) => {
            if p + l <= s.len() {
                Some((normalize_be(s.subrange(p, p + l)), p + l))
            } else {
                None
            }
        },
    }
}

/// Round trip: a canonical big integer's byte form parses back to it.
pub proof fn lemma_bignum_round_trip(s: Seq<u8>, pos: int, b: Seq<u8>)
    requires
        canonical_be(b),
        b.len() <= u64::MAX,
        0 <= pos,
        pos + enc_bignum(b).len() <= s.len(),
        s.subrange(pos, pos + enc_bignum(b).len()) == enc_bignum(b),
    ensures
        dec_bignum(s, pos) == Some((b, pos + enc_bignum(b).len())),
{
    let v = spec_varint(b.len() as u64);
    let e = enc_bignum(b);
    assert(forall|i: int| 0 <= i < e.len() ==> e[i] == s[pos + i]) by {
        assert(forall|i: int|
            0 <= i < e.len() ==> e[i] == s.subrange(pos, pos + e.len() as int)[i]);
    }
    assert(s.subrange(pos, pos + v.len() as int) =~= v);
    lemma_varint_round_trip(s, pos, b.len() as u64);
    let p = pos + v.len() as int;
    assert forall|i: int| 0 <= i < b.len() implies s.subrange(p, p + b.len() as int)[i]
        == b[i] by {
        assert(e[v.len() + i] == s[pos + (v.len() + i)]);
        assert(e[v.len() + i] == b[i]);
        assert(s.subrange(p, p + b.len() as int)[i] == s[p + i]);
    }
    assert(s.subrange(p, p + b.len() as int) =~= b);
    lemma_normalize_id(b);
}

/// Appends the byte form of a big integer.
pub fn write_bignum(out: &mut Vec<u8>, b: &BigNum)
    ensures
        final(out)@ == old(out)@ + enc_bignum(b@),
{
    write_varint(out, b.bytes.len() as u64);
    write_bytes(out, b.bytes.as_slice());
    proof {
        assert(out@ =~= old(out)@ + enc_bignum(b@));
    }
}

/// Reads a big integer at `pos`, exactly as `dec_bignum` describes.
pub fn read_bignum(buf: &[u8], pos: usize) -> (r: Result<(BigNum, usize), Error>)
    requires
        pos <= buf@.len(),
    ensures
        match r {
            Ok(p) => dec_bignum(buf@, pos as int) == Some((p.0@, p.1 as int)) && pos < p.1
                <= buf@.len(),
            Err(e) => dec_bignum(buf@, pos as int) is None && e == Error::Deserialize,
        },
{
    let (l, p) = match read_varint(buf, pos) {
        Ok(q) => q,
        Err(e) => {
            return Err(e);
        },
    };
    if l > (buf.len() - p) as u64 {
        return Err(Error::Deserialize);
    }
    let l_us = l as usize;
    let b = BigNum::from_be_slice(vstd::slice::slice_subrange(buf, p, p + l_us));
    Ok((b, p + l_us))
}

} // verus!
