//! Byte-level groundwork: lexicographic order on byte strings, and the
//! big-endian form of heights.
//!
//! Height keys are stored big-endian precisely so that the backend's
//! lexicographic byte order agrees with numeric order; `lemma_u64_be_order`
//! is that agreement, and every cursor contract in the crate leans on it.

use vstd::prelude::*;

verus! {

/// Lexicographic strict order on byte strings, as an ordered key-value
/// backend compares keys: a proper prefix sorts before its extensions.
pub open spec fn lex_lt(a: Seq<u8>, b: Seq<u8>) -> bool
    decreases a.len(),
{
    if a.len() == 0 {
        b.len() > 0
    } else if b.len() == 0 {
        false
    } else if a[0] < b[0] {
        true
    } else if b[0] < a[0] {
        false
    } else {
        lex_lt(a.drop_first(), b.drop_first())
    }
}

/// The eight bytes of `x`, most significant first.
pub open spec fn u64_be_bytes(x: u64) -> Seq<u8> {
    seq![
        ((x >> 56) & 0xff) as u8,
        ((x >> 48) & 0xff) as u8,
        ((x >> 40) & 0xff) as u8,
        ((x >> 32) & 0xff) as u8,
        ((x >> 24) & 0xff) as u8,
        ((x >> 16) & 0xff) as u8,
        ((x >> 8) & 0xff) as u8,
        (x & 0xff) as u8,
    ]
}

/// No byte string sorts before itself.
pub proof fn lemma_lex_irrefl(a: Seq<u8>)
    ensures
        !lex_lt(a, a),
    decreases a.len(),
{
    if a.len() > 0 {
        lemma_lex_irrefl(a.drop_first());
    }
}

/// Unrolls `lex_lt` over two eight-byte strings into a byte-by-byte
/// comparison.
proof fn lemma_lex_lt_8(a: Seq<u8>, b: Seq<u8>)
    requires
        a.len() == 8,
        b.len() == 8,
    ensures
        lex_lt(a, b) <==> (a[0] < b[0] || (a[0] == b[0] && (a[1] < b[1] || (a[1] == b[1] && (a[2]
            < b[2] || (a[2] == b[2] && (a[3] < b[3] || (a[3] == b[3] && (a[4] < b[4] || (a[4]
            == b[4] && (a[5] < b[5] || (a[5] == b[5] && (a[6] < b[6] || (a[6] == b[6] && a[7]
            < b[7])))))))))))))),
{
    let a1 = a.drop_first();
    let b1 = b.drop_first();
    let a2 = a1.drop_first();
    let b2 = b1.drop_first();
    let a3 = a2.drop_first();
    let b3 = b2.drop_first();
    let a4 = a3.drop_first();
    let b4 = b3.drop_first();
    let a5 = a4.drop_first();
    let b5 = b4.drop_first();
    let a6 = a5.drop_first();
    let b6 = b5.drop_first();
    let a7 = a6.drop_first();
    let b7 = b6.drop_first();
    assert(a1[0] == a[1] && a1[1] == a[2] && a1[2] == a[3] && a1[3] == a[4] && a1[4] == a[5]
        && a1[5] == a[6] && a1[6] == a[7]);
    assert(a2[0] == a[2] && a3[0] == a[3] && a4[0] == a[4] && a5[0] == a[5] && a6[0] == a[6]
        && a7[0] == a[7]);
    assert(b1[0] == b[1] && b1[1] == b[2] && b1[2] == b[3] && b1[3] == b[4] && b1[4] == b[5]
        && b1[5] == b[6] && b1[6] == b[7]);
    assert(b2[0] == b[2] && b3[0] == b[3] && b4[0] == b[4] && b5[0] == b[5] && b6[0] == b[6]
        && b7[0] == b[7]);
    assert(!lex_lt(a7.drop_first(), b7.drop_first()));
    assert(lex_lt(a7, b7) <==> a[7] < b[7]);
    assert(lex_lt(a6, b6) <==> (a[6] < b[6] || (a[6] == b[6] && lex_lt(a7, b7))));
    assert(lex_lt(a5, b5) <==> (a[5] < b[5] || (a[5] == b[5] && lex_lt(a6, b6))));
    assert(lex_lt(a4, b4) <==> (a[4] < b[4] || (a[4] == b[4] && lex_lt(a5, b5))));
    assert(lex_lt(a3, b3) <==> (a[3] < b[3] || (a[3] == b[3] && lex_lt(a4, b4))));
    assert(lex_lt(a2, b2) <==> (a[2] < b[2] || (a[2] == b[2] && lex_lt(a3, b3))));
    assert(lex_lt(a1, b1) <==> (a[1] < b[1] || (a[1] == b[1] && lex_lt(a2, b2))));
    assert(lex_lt(a, b) <==> (a[0] < b[0] || (a[0] == b[0] && lex_lt(a1, b1))));
}

/// Lexicographic order is transitive.
pub proof fn lemma_lex_trans(a: Seq<u8>, b: Seq<u8>, c: Seq<u8>)
    requires
        lex_lt(a, b),
        lex_lt(b, c),
    ensures
        lex_lt(a, c),
    decreases a.len(),
{
    if a.len() == 0 {
    } else {
        if a[0] == b[0] && b[0] == c[0] {
            lemma_lex_trans(a.drop_first(), b.drop_first(), c.drop_first());
        }
    }
}

/// Two distinct byte strings are lexicographically ordered one way or the
/// other.
pub proof fn lemma_lex_connected(a: Seq<u8>, b: Seq<u8>)
    requires
        a != b,
    ensures
        lex_lt(a, b) || lex_lt(b, a),
    decreases a.len(),
{
    if a.len() == 0 {
        if b.len() == 0 {
            assert(a =~= b);
        }
    } else if b.len() == 0 {
    } else if a[0] == b[0] {
        let at = a.drop_first();
        let bt = b.drop_first();
        if at == bt {
            assert(at.len() == a.len() - 1);
            assert(bt.len() == b.len() - 1);
            assert(a.len() == b.len());
            assert forall|i: int| 0 <= i < a.len() implies a[i] == b[i] by {
                if i > 0 {
                    assert(a[i] == at[i - 1]);
                    assert(b[i] == bt[i - 1]);
                }
            }
            assert(a =~= b);
        } else {
            lemma_lex_connected(at, bt);
        }
    }
}

/// Numeric order of heights agrees with lexicographic order of their
/// big-endian keys.
pub proof fn lemma_u64_be_order(x: u64, y: u64)
    ensures
        lex_lt(u64_be_bytes(x), u64_be_bytes(y)) <==> x < y,
{
    let a = u64_be_bytes(x);
    let b = u64_be_bytes(y);
    lemma_lex_lt_8(a, b);
    assert((x < y) <==> (((x >> 56) & 0xff) < ((y >> 56) & 0xff) || (((x >> 56) & 0xff) == ((y
        >> 56) & 0xff) && (((x >> 48) & 0xff) < ((y >> 48) & 0xff) || (((x >> 48) & 0xff) == ((y
        >> 48) & 0xff) && (((x >> 40) & 0xff) < ((y >> 40) & 0xff) || (((x >> 40) & 0xff) == ((y
        >> 40) & 0xff) && (((x >> 32) & 0xff) < ((y >> 32) & 0xff) || (((x >> 32) & 0xff) == ((y
        >> 32) & 0xff) && (((x >> 24) & 0xff) < ((y >> 24) & 0xff) || (((x >> 24) & 0xff) == ((y
        >> 24) & 0xff) && (((x >> 16) & 0xff) < ((y >> 16) & 0xff) || (((x >> 16) & 0xff) == ((y
        >> 16) & 0xff) && (((x >> 8) & 0xff) < ((y >> 8) & 0xff) || (((x >> 8) & 0xff) == ((y >> 8)
        & 0xff) && (x & 0xff) < (y & 0xff)))))))))))))))) by (bit_vector);
    assert(((x >> 56) & 0xff) < 256 && ((x >> 48) & 0xff) < 256 && ((x >> 40) & 0xff) < 256 && ((x
        >> 32) & 0xff) < 256 && ((x >> 24) & 0xff) < 256 && ((x >> 16) & 0xff) < 256 && ((x >> 8)
        & 0xff) < 256 && (x & 0xff) < 256) by (bit_vector);
    assert(((y >> 56) & 0xff) < 256 && ((y >> 48) & 0xff) < 256 && ((y >> 40) & 0xff) < 256 && ((y
        >> 32) & 0xff) < 256 && ((y >> 24) & 0xff) < 256 && ((y >> 16) & 0xff) < 256 && ((y >> 8)
        & 0xff) < 256 && (y & 0xff) < 256) by (bit_vector);
}

/// Two heights with the same big-endian key are the same height.
pub proof fn lemma_u64_be_injective(x: u64, y: u64)
    ensures
        u64_be_bytes(x) == u64_be_bytes(y) ==> x == y,
{
    if u64_be_bytes(x) == u64_be_bytes(y) && x != y {
        lemma_u64_be_order(x, y);
        lemma_u64_be_order(y, x);
        lemma_lex_irrefl(u64_be_bytes(x));
    }
}

/// Big-endian key of a height.
pub fn u64_to_be(x: u64) -> (r: Vec<u8>)
    ensures
        r@ == u64_be_bytes(x),
{
    proof {
        assert(((x >> 56) & 0xff) < 256 && ((x >> 48) & 0xff) < 256 && ((x >> 40) & 0xff) < 256
            && ((x >> 32) & 0xff) < 256 && ((x >> 24) & 0xff) < 256 && ((x >> 16) & 0xff) < 256
            && ((x >> 8) & 0xff) < 256 && (x & 0xff) < 256) by (bit_vector);
    }
    let mut r: Vec<u8> = Vec::new();
    r.push(((x >> 56) & 0xff) as u8);
    r.push(((x >> 48) & 0xff) as u8);
    r.push(((x >> 40) & 0xff) as u8);
    r.push(((x >> 32) & 0xff) as u8);
    r.push(((x >> 24) & 0xff) as u8);
    r.push(((x >> 16) & 0xff) as u8);
    r.push(((x >> 8) & 0xff) as u8);
    r.push((x & 0xff) as u8);
    proof {
        assert(r@ =~= u64_be_bytes(x));
    }
    r
}

/// Reads a height back out of its big-endian key.
pub fn u64_from_be(s: &[u8]) -> (r: u64)
    requires
        s@.len() == 8,
    ensures
        u64_be_bytes(r) == s@,
{
    let x: u64 = ((s[0] as u64) << 56) | ((s[1] as u64) << 48) | ((s[2] as u64) << 40) | ((s[3]
        as u64) << 32) | ((s[4] as u64) << 24) | ((s[5] as u64) << 16) | ((s[6] as u64) << 8) | (
    s[7] as u64);
    proof {
        let s0 = s@[0] as u64;
        let s1 = s@[1] as u64;
        let s2 = s@[2] as u64;
        let s3 = s@[3] as u64;
        let s4 = s@[4] as u64;
        let s5 = s@[5] as u64;
        let s6 = s@[6] as u64;
        let s7 = s@[7] as u64;
        assert(s0 < 256 && s1 < 256 && s2 < 256 && s3 < 256 && s4 < 256 && s5 < 256 && s6 < 256
            && s7 < 256);
        assert(x == (s0 << 56) | (s1 << 48) | (s2 << 40) | (s3 << 32) | (s4 << 24) | (s5 << 16) | (
        s6 << 8) | s7);
        assert((x == (s0 << 56) | (s1 << 48) | (s2 << 40) | (s3 << 32) | (s4 << 24) | (s5 << 16)
            | (s6 << 8) | s7) && s0 < 256 && s1 < 256 && s2 < 256 && s3 < 256 && s4 < 256 && s5
            < 256 && s6 < 256 && s7 < 256 ==> ((x >> 56) & 0xff) == s0 && ((x >> 48) & 0xff) == s1
            && ((x >> 40) & 0xff) == s2 && ((x >> 32) & 0xff) == s3 && ((x >> 24) & 0xff) == s4
            && ((x >> 16) & 0xff) == s5 && ((x >> 8) & 0xff) == s6 && (x & 0xff) == s7) by (bit_vector);
        assert(u64_be_bytes(x) =~= s@);
    }
    x
}

/// Comparing two byte strings that agree on their first `i` bytes comes
/// down to comparing what follows.
proof fn lemma_lex_common_prefix(a: Seq<u8>, b: Seq<u8>, i: int)
    requires
        0 <= i <= a.len(),
        i <= b.len(),
        forall|j: int| 0 <= j < i ==> a[j] == b[j],
    ensures
        lex_lt(a, b) <==> lex_lt(a.skip(i), b.skip(i)),
    decreases i,
{
    if i == 0 {
        assert(a.skip(0) =~= a);
        assert(b.skip(0) =~= b);
    } else {
        assert(a.drop_first() =~= a.skip(1));
        assert(b.drop_first() =~= b.skip(1));
        lemma_lex_common_prefix(a.skip(1), b.skip(1), i - 1);
        assert(a.skip(1).skip(i - 1) =~= a.skip(i));
        assert(b.skip(1).skip(i - 1) =~= b.skip(i));
    }
}

/// Lexicographic comparison of two byte strings.
pub fn bytes_lt(a: &[u8], b: &[u8]) -> (r: bool)
    ensures
        r <==> lex_lt(a@, b@),
{
    let n = if a.len() < b.len() {
        a.len()
    } else {
        b.len()
    };
    let mut i: usize = 0;
    while i < n
        invariant
            0 <= i <= n,
            n <= a@.len(),
            n <= b@.len(),
            n == a@.len() || n == b@.len(),
            forall|j: int| 0 <= j < i ==> a@[j] == b@[j],
        decreases n - i,
    {
        if a[i] != b[i] {
            proof {
                lemma_lex_common_prefix(a@, b@, i as int);
                assert(a@.skip(i as int)[0] == a@[i as int]);
                assert(b@.skip(i as int)[0] == b@[i as int]);
            }
            return a[i] < b[i];
        }
        i = i + 1;
    }
    proof {
        lemma_lex_common_prefix(a@, b@, n as int);
    }
    a.len() < b.len()
}

/// Byte-for-byte equality of two byte strings.
pub fn bytes_eq(a: &[u8], b: &[u8]) -> (r: bool)
    ensures
        r <==> a@ == b@,
{
    if a.len() != b.len() {
        return false;
    }
    let mut i: usize = 0;
    while i < a.len()
        invariant
            0 <= i <= a@.len(),
            a@.len() == b@.len(),
            forall|j: int| 0 <= j < i ==> a@[j] == b@[j],
        decreases a@.len() - i,
    {
        if a[i] != b[i] {
            return false;
        }
        i = i + 1;
    }
    proof {
        assert(a@ =~= b@);
    }
    true
}

} // verus!
