//! Wire-format primitives of the record stream: the variable-length count
//! prefix and little-endian fixed-width fields.
//!
//! Every primitive comes in three parts: the byte form of a value
//! (`spec_varint`), the parser on byte strings (`dec_varint`), and executable
//! code proved against both. Counts use the compact form: one byte below
//! `0xfd`, otherwise a marker byte followed by the little-endian value in the
//! smallest width that holds it; parsers reject wider-than-needed forms, so
//! every value has exactly one accepted spelling.

use vstd::bytes::*;
use vstd::prelude::*;

use crate::err::Error;

verus! {

/// Byte form of a count `n`.
pub open spec fn spec_varint(n: u64) -> Seq<u8> {
    if n < 0xfd {
        seq![n as u8]
    } else if n <= 0xffff {
        seq![0xfdu8] + spec_u16_to_le_bytes(n as u16)
    } else if n <= 0xffff_ffff {
        seq![0xfeu8] + spec_u32_to_le_bytes(n as u32)
    } else {
        seq![0xffu8] + spec_u64_to_le_bytes(n)
    }
}

/// Parses a count at `pos`; yields the value and the position after it.
pub open spec fn dec_varint(s: Seq<u8>, pos: int) -> Option<(u64, int)> {
    if !(0 <= pos < s.len()) {
        None
    } else {
        let m = s[pos];
        if m < 0xfd {
            Some(((m as u64), pos + 1))
        } else if m == 0xfd {
            if pos + 3 <= s.len() {
                let x = spec_u16_from_le_bytes(s.subrange(pos + 1, pos + 3));
                if x >= 0xfd {
                    Some(((x as u64), pos + 3))
                } else {
                    None
                }
            } else {
                None
            }
        } else if m == 0xfe {
            if pos + 5 <= s.len() {
                let x = spec_u32_from_le_bytes(s.subrange(pos + 1, pos + 5));
                if x > 0xffff {
                    Some(((x as u64), pos + 5))
                } else {
                    None
                }
            } else {
                None
            }
        } else {
            if pos + 9 <= s.len() {
                let x = spec_u64_from_le_bytes(s.subrange(pos + 1, pos + 9));
                if x > 0xffff_ffff {
                    Some((x, pos + 9))
                } else {
                    None
                }
            } else {
                None
            }
        }
    }
}

/// A count's byte form parses back to the count, wherever it stands in a
/// longer string.
pub proof fn lemma_varint_round_trip(s: Seq<u8>, pos: int, v: u64)
    requires
        0 <= pos,
        pos + spec_varint(v).len() <= s.len(),
        s.subrange(pos, pos + spec_varint(v).len()) == spec_varint(v),
    ensures
        dec_varint(s, pos) == Some((v, pos + spec_varint(v).len())),
{
    lemma_auto_spec_u16_to_from_le_bytes();
    lemma_auto_spec_u32_to_from_le_bytes();
    lemma_auto_spec_u64_to_from_le_bytes();
    let e = spec_varint(v);
    assert(forall|i: int| 0 <= i < e.len() ==> e[i] == s[pos + i]) by {
        assert(forall|i: int|
            0 <= i < e.len() ==> e[i] == s.subrange(pos, pos + e.len() as int)[i]);
    }
    if v < 0xfd {
        assert(s[pos] == e[0]);
    } else if v <= 0xffff {
        assert(s[pos] == e[0]);
        assert(e.subrange(1, 3) =~= spec_u16_to_le_bytes(v as u16));
        assert(s.subrange(pos + 1, pos + 3) =~= e.subrange(1, 3));
        assert(spec_u16_from_le_bytes(spec_u16_to_le_bytes(v as u16)) == v as u16);
        assert(v as u16 >= 0xfd);
    } else if v <= 0xffff_ffff {
        assert(s[pos] == e[0]);
        assert(e.subrange(1, 5) =~= spec_u32_to_le_bytes(v as u32));
        assert(s.subrange(pos + 1, pos + 5) =~= e.subrange(1, 5));
        assert(spec_u32_from_le_bytes(spec_u32_to_le_bytes(v as u32)) == v as u32);
        assert(v as u32 > 0xffff);
    } else {
        assert(s[pos] == e[0]);
        assert(e.subrange(1, 9) =~= spec_u64_to_le_bytes(v));
        assert(s.subrange(pos + 1, pos + 9) =~= e.subrange(1, 9));
        assert(spec_u64_from_le_bytes(spec_u64_to_le_bytes(v)) == v);
    }
}

/// Appends the byte form of a count.
pub fn write_varint(out: &mut Vec<u8>, n: u64)
    ensures
        final(out)@ == old(out)@ + spec_varint(n),
{
    if n < 0xfd {
        out.push(n as u8);
        proof {
            assert(out@ =~= old(out)@ + spec_varint(n));
        }
    } else if n <= 0xffff {
        out.push(0xfd);
        let mut tail = u16_to_le_bytes(n as u16);
        out.append(&mut tail);
        proof {
            assert(out@ =~= old(out)@ + spec_varint(n));
        }
    } else if n <= 0xffff_ffff {
        out.push(0xfe);
        let mut tail = u32_to_le_bytes(n as u32);
        out.append(&mut tail);
        proof {
            assert(out@ =~= old(out)@ + spec_varint(n));
        }
    } else {
        out.push(0xff);
        let mut tail = u64_to_le_bytes(n);
        out.append(&mut tail);
        proof {
            assert(out@ =~= old(out)@ + spec_varint(n));
        }
    }
}

/// Reads a count at `pos`, exactly as `dec_varint` describes.
pub fn read_varint(buf: &[u8], pos: usize) -> (r: Result<(u64, usize), Error>)
    requires
        pos <= buf@.len(),
    ensures
        match r {
            Ok(p) => dec_varint(buf@, pos as int) == Some((p.0, p.1 as int)) && pos < p.1
                <= buf@.len(),
            Err(e) => dec_varint(buf@, pos as int) is None && e == Error::Deserialize,
        },
{
    if pos >= buf.len() {
        return Err(Error::Deserialize);
    }
    let m = buf[pos];
    if m < 0xfd {
        Ok(((m as u64), pos + 1))
    } else if m == 0xfd {
        if buf.len() - pos < 3 {
            return Err(Error::Deserialize);
        }
        let x = u16_from_le_bytes(vstd::slice::slice_subrange(buf, pos + 1, pos + 3));
        if x < 0xfd {
            return Err(Error::Deserialize);
        }
        Ok(((x as u64), pos + 3))
    } else if m == 0xfe {
        if buf.len() - pos < 5 {
            return Err(Error::Deserialize);
        }
        let x = u32_from_le_bytes(vstd::slice::slice_subrange(buf, pos + 1, pos + 5));
        if x <= 0xffff {
            return Err(Error::Deserialize);
        }
        Ok(((x as u64), pos + 5))
    } else {
        if buf.len() - pos < 9 {
            return Err(Error::Deserialize);
        }
        let x = u64_from_le_bytes(vstd::slice::slice_subrange(buf, pos + 1, pos + 9));
        if x <= 0xffff_ffff {
            return Err(Error::Deserialize);
        }
        Ok((x, pos + 9))
    }
}

/// Parses a little-endian 64-bit field at `pos`.
pub open spec fn dec_u64_le(s: Seq<u8>, pos: int) -> Option<(u64, int)> {
    if 0 <= pos && pos + 8 <= s.len() {
        Some((spec_u64_from_le_bytes(s.subrange(pos, pos + 8)), pos + 8))
    } else {
        None
    }
}

/// Appends a little-endian 64-bit field.
pub fn write_u64_le(out: &mut Vec<u8>, x: u64)
    ensures
        final(out)@ == old(out)@ + spec_u64_to_le_bytes(x),
{
    let mut tail = u64_to_le_bytes(x);
    out.append(&mut tail);
    proof {
        assert(out@ =~= old(out)@ + spec_u64_to_le_bytes(x));
    }
}

/// Reads a little-endian 64-bit field at `pos`, exactly as `dec_u64_le`
/// describes.
pub fn read_u64_le(buf: &[u8], pos: usize) -> (r: Result<(u64, usize), Error>)
    requires
        pos <= buf@.len(),
    ensures
        match r {
            Ok(p) => dec_u64_le(buf@, pos as int) == Some((p.0, p.1 as int)) && pos < p.1
                <= buf@.len(),
            Err(e) => dec_u64_le(buf@, pos as int) is None && e == Error::Deserialize,
        },
{
    if buf.len() - pos < 8 {
        return Err(Error::Deserialize);
    }
    let x = u64_from_le_bytes(vstd::slice::slice_subrange(buf, pos, pos + 8));
    Ok((x, pos + 8))
}

/// Appends a byte string as it stands.
pub fn write_bytes(out: &mut Vec<u8>, bytes: &[u8])
    ensures
        final(out)@ == old(out)@ + bytes@,
{
    let mut i: usize = 0;
    while i < bytes.len()
        invariant
            0 <= i <= bytes@.len(),
            out@ == old(out)@ + bytes@.take(i as int),
        decreases bytes@.len() - i,
    {
        out.push(bytes[i]);
        proof {
            assert(out@ =~= old(out)@ + bytes@.take(i + 1));
        }
        i = i + 1;
    }
    proof {
        assert(out@ =~= old(out)@ + bytes@);
    }
}

/// Copies the 32 bytes at `pos` out of `buf`.
pub fn read_arr32(buf: &[u8], pos: usize) -> (r: [u8; 32])
    requires
        pos + 32 <= buf@.len(),
    ensures
        r@ == buf@.subrange(pos as int, pos + 32),
{
    let mut r = [0u8; 32];
    let mut i: usize = 0;
    while i < 32
        invariant
            0 <= i <= 32,
            pos + 32 <= buf.len(),
            r@.len() == 32,
            forall|j: int| 0 <= j < i ==> r@[j] == buf@[pos + j],
        decreases 32 - i,
    {
        r[i] = buf[pos + i];
        i = i + 1;
    }
    proof {
        assert(r@ =~= buf@.subrange(pos as int, pos + 32));
    }
    r
}

/// Copies the 64 bytes at `pos` out of `buf`.
pub fn read_arr64(buf: &[u8], pos: usize) -> (r: [u8; 64])
    requires
        pos + 64 <= buf@.len(),
    ensures
        r@ == buf@.subrange(pos as int, pos + 64),
{
    let mut r = [0u8; 64];
    let mut i: usize = 0;
    while i < 64
        invariant
            0 <= i <= 64,
            pos + 64 <= buf.len(),
            r@.len() == 64,
            forall|j: int| 0 <= j < i ==> r@[j] == buf@[pos + j],
        decreases 64 - i,
    {
        r[i] = buf[pos + i];
        i = i + 1;
    }
    proof {
        assert(r@ =~= buf@.subrange(pos as int, pos + 64));
    }
    r
}

} // verus!
