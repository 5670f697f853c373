//! Length-prefixed binary encoding primitives.
//!
//! All multi-byte integers on the wire are little-endian `u32` values.

use vstd::prelude::*;
use crate::Error;

verus! {

/// The four little-endian bytes of a `u32`.
pub open spec fn u32_le(n: u32) -> Seq<u8> {
    seq![
        (n & 0xff) as u8,
        ((n >> 8) & 0xff) as u8,
        ((n >> 16) & 0xff) as u8,
        ((n >> 24) & 0xff) as u8,
    ]
}

/// The value of four little-endian bytes.
pub open spec fn le_u32(s: Seq<u8>) -> int {
    s[0] + 0x100 * (s[1] + 0x100 * (s[2] + 0x100 * s[3]))
}

/// Little-endian encoding and decoding of a `u32` are mutually inverse.
pub proof fn lemma_u32_le(n: u32)
    ensures
        u32_le(n).len() == 4,
        le_u32(u32_le(n)) == n,
{
    assert(n & 0xff < 0x100 && (n >> 8) & 0xff < 0x100 && (n >> 16) & 0xff < 0x100 && (n >> 24)
        & 0xff < 0x100) by (bit_vector);
    assert((n & 0xff) + 0x100 * (((n >> 8) & 0xff) + 0x100 * (((n >> 16) & 0xff) + 0x100 * ((n
        >> 24) & 0xff))) == n) by (bit_vector);
}

/// Reassembling four bytes little-endian and encoding the result gives the
/// same four bytes back.
pub proof fn lemma_u32_le_bytes(b0: u8, b1: u8, b2: u8, b3: u8, n: u32)
    requires
        n == (b0 as u32) | (b1 as u32) << 8 | (b2 as u32) << 16 | (b3 as u32) << 24,
    ensures
        u32_le(n) == seq![b0, b1, b2, b3],
{
    assert(n & 0xff == b0 as u32 && (n >> 8) & 0xff == b1 as u32 && (n >> 16) & 0xff == b2 as u32
        && (n >> 24) & 0xff == b3 as u32) by (bit_vector)
        requires
            n == (b0 as u32) | (b1 as u32) << 8 | (b2 as u32) << 16 | (b3 as u32) << 24,
    ;
    assert(u32_le(n) =~= seq![b0, b1, b2, b3]);
}

/// Reads one byte at `at`.
pub fn read_u8(data: &[u8], at: usize) -> (r: Result<u8, Error>)
    ensures
        match r {
            Ok(b) => at < data@.len() && b == data@[at as int],
            Err(e) => at >= data@.len() && e == Error::Hard,
        },
{
    if at < data.len() {
        Ok(data[at])
    } else {
        Err(Error::Hard)
    }
}

/// Reads one byte at `at` as a boolean; a byte above 1 is malformed.
pub fn read_u8_bool(data: &[u8], at: usize) -> (r: Result<bool, Error>)
    ensures
        match r {
            Ok(b) => at < data@.len() && (data@[at as int] == 0 || data@[at as int] == 1) && b == (
            data@[at as int] == 1),
            Err(e) => (at >= data@.len() || data@[at as int] > 1) && e == Error::Hard,
        },
{
    let b = read_u8(data, at)?;

    if b > 1 {
        return Err(Error::Hard);
    }

    Ok(b == 1)
}

/// Reads a little-endian `u32` starting at `at`.
pub fn read_u32(data: &[u8], at: usize) -> (r: Result<u32, Error>)
    ensures
        match r {
            Ok(n) => at + 4 <= data@.len() && u32_le(n) == data@.subrange(at as int, at + 4),
            Err(e) => at + 4 > data@.len() && e == Error::Hard,
        },
{
    if data.len() < 4 || at > data.len() - 4 {
        return Err(Error::Hard);
    }

    let n: u32 = data[at] as u32 | (data[at + 1] as u32) << 8 | (data[at + 2] as u32) << 16 | (
    data[at + 3] as u32) << 24;

    proof {
        lemma_u32_le_bytes(data@[at as int], data@[at + 1], data@[at + 2], data@[at + 3], n);
        assert(u32_le(n) =~= data@.subrange(at as int, at + 4));
    }

    Ok(n)
}

/// Reads a little-endian `u32` starting at `at` as a `usize`.
pub fn read_u32_usize(data: &[u8], at: usize) -> (r: Result<usize, Error>)
    ensures
        match r {
            Ok(n) => at + 4 <= data@.len() && n <= u32::MAX && u32_le(n as u32) == data@.subrange(
                at as int,
                at + 4,
            ),
            Err(e) => at + 4 > data@.len() && e == Error::Hard,
        },
{
    let n = read_u32(data, at)?;

    Ok(n as usize)
}

/// Appends one byte.
pub fn write_u8(out: &mut Vec<u8>, b: u8)
    ensures
        final(out)@ == old(out)@ + seq![b],
{
    out.push(b);

    proof {
        assert(final(out)@ =~= old(out)@ + seq![b]);
    }
}

/// Appends a boolean as one byte.
pub fn write_u8_bool(out: &mut Vec<u8>, b: bool)
    ensures
        final(out)@ == old(out)@ + seq![(if b { 1u8 } else { 0u8 })],
{
    write_u8(out, if b { 1 } else { 0 });
}

/// Appends a `u32` in little-endian order.
pub fn write_u32(out: &mut Vec<u8>, n: u32)
    ensures
        final(out)@ == old(out)@ + u32_le(n),
{
    out.push((n & 0xff) as u8);
    out.push(((n >> 8) & 0xff) as u8);
    out.push(((n >> 16) & 0xff) as u8);
    out.push(((n >> 24) & 0xff) as u8);

    proof {
        assert(final(out)@ =~= old(out)@ + u32_le(n));
    }
}

/// Appends a length as a little-endian `u32`; a length above `u32::MAX` is
/// rejected.
pub fn write_u32_usize(out: &mut Vec<u8>, n: usize) -> (r: Result<(), Error>)
    ensures
        match r {
            Ok(()) => n <= u32::MAX && final(out)@ == old(out)@ + u32_le(n as u32),
            Err(e) => n > u32::MAX && final(out)@ == old(out)@ && e == Error::Hard,
        },
{
    if n > u32::MAX as usize {
        return Err(Error::Hard);
    }

    write_u32(out, n as u32);

    Ok(())
}

/// Appends every byte of `bytes`.
pub fn write_bytes(out: &mut Vec<u8>, bytes: &[u8])
    ensures
        final(out)@ == old(out)@ + bytes@,
{
    let mut i: usize = 0;

    while i < bytes.len()
        invariant
            i <= bytes@.len(),
            out@ == old(out)@ + bytes@.take(i as int),
        decreases bytes@.len() - i,
    {
        out.push(bytes[i]);
        i = i + 1;

        proof {
            assert(out@ =~= old(out)@ + bytes@.take(i as int));
        }
    }

    proof {
        assert(bytes@.take(bytes@.len() as int) =~= bytes@);
    }
}

/// Lexicographic strict order on byte strings (a proper prefix is smaller).
pub open spec fn lex_lt(a: Seq<u8>, b: Seq<u8>) -> bool
    decreases a.len(),
{
    if b.len() == 0 {
        false
    } else if a.len() == 0 {
        true
    } else if a[0] < b[0] {
        true
    } else if a[0] > b[0] {
        false
    } else {
        lex_lt(a.skip(1), b.skip(1))
    }
}

/// The order is connected: distinct byte strings compare one way or the
/// other.
pub proof fn lemma_lex_conn(a: Seq<u8>, b: Seq<u8>)
    ensures
        lex_lt(a, b) || lex_lt(b, a) || a == b,
    decreases a.len(),
{
    if a.len() == 0 && b.len() == 0 {
        assert(a =~= b);
    } else if a.len() > 0 && b.len() > 0 && a[0] == b[0] {
        lemma_lex_conn(a.skip(1), b.skip(1));

        if !lex_lt(a, b) && !lex_lt(b, a) {
            assert(a.skip(1) == b.skip(1));
            assert forall|i: int| 0 <= i < a.len() implies a[i] == b[i] by {
                if i > 0 {
                    assert(a[i] == a.skip(1)[i - 1]);
                    assert(b[i] == b.skip(1)[i - 1]);
                }
            }
            assert(a =~= b);
        }
    }
}

/// The order is transitive.
pub proof fn lemma_lex_trans(a: Seq<u8>, b: Seq<u8>, c: Seq<u8>)
    requires
        lex_lt(a, b),
        lex_lt(b, c),
    ensures
        lex_lt(a, c),
    decreases a.len(),
{
    if a.len() > 0 && b.len() > 0 && c.len() > 0 && a[0] == b[0] && b[0] == c[0] {
        lemma_lex_trans(a.skip(1), b.skip(1), c.skip(1));
    }
}

/// Whether `a` is lexicographically smaller than `b`.
pub fn bytes_lt(a: &[u8], b: &[u8]) -> (r: bool)
    ensures
        r == lex_lt(a@, b@),
{
    let alen: usize = a.len();
    let blen: usize = b.len();
    let mut i: usize = 0;

    proof {
        assert(a@.skip(0) =~= a@);
        assert(b@.skip(0) =~= b@);
    }

    while i < alen && i < blen
        invariant
            i <= alen,
            i <= blen,
            alen == a@.len(),
            blen == b@.len(),
            lex_lt(a@, b@) == lex_lt(a@.skip(i as int), b@.skip(i as int)),
        decreases alen - i,
    {
        if a[i] < b[i] {
            return true;
        }

        if a[i] > b[i] {
            return false;
        }

        i = i + 1;

        proof {
            assert(a@.skip(i - 1).skip(1) =~= a@.skip(i as int));
            assert(b@.skip(i - 1).skip(1) =~= b@.skip(i as int));
        }
    }

    proof {
        assert(a@.skip(i as int).len() == a@.len() - i);
        assert(b@.skip(i as int).len() == b@.len() - i);
    }

    alen < blen
}

/// An owned copy of a byte vector.
pub fn dup_bytes(v: &Vec<u8>) -> (r: Vec<u8>)
    ensures
        r@ == v@,
{
    let mut out: Vec<u8> = Vec::new();

    write_bytes(&mut out, v.as_slice());

    out
}

/// Whether two byte strings are equal.
pub fn bytes_eq(a: &[u8], b: &[u8]) -> (r: bool)
    ensures
        r == (a@ == b@),
{
    if a.len() != b.len() {
        proof {
            assert(a@ != b@);
        }
        return false;
    }

    let mut i: usize = 0;

    while i < a.len()
        invariant
            i <= a@.len(),
            a@.len() == b@.len(),
            forall|j: int| 0 <= j < i ==> a@[j] == b@[j],
        decreases a@.len() - i,
    {
        if a[i] != b[i] {
            proof {
                assert(a@[i as int] != b@[i as int]);
            }
            return false;
        }

        i = i + 1;
    }

    proof {
        assert(a@ =~= b@);
    }

    true
}

/// Copies `count` bytes starting at `at` into a fresh vector.
pub fn read_bytes(data: &[u8], at: usize, count: usize) -> (r: Result<Vec<u8>, Error>)
    ensures
        match r {
            Ok(v) => at + count <= data@.len() && v@ == data@.subrange(at as int, at + count),
            Err(e) => at + count > data@.len() && e == Error::Hard,
        },
{
    if count > data.len() || at > data.len() - count {
        return Err(Error::Hard);
    }

    let dlen: usize = data.len();
    let mut v: Vec<u8> = Vec::new();
    let mut i: usize = 0;

    while i < count
        invariant
            i <= count,
            at + count <= dlen,
            dlen == data@.len(),
            v@ == data@.subrange(at as int, at + i),
        decreases count - i,
    {
        v.push(data[at + i]);
        i = i + 1;

        proof {
            assert(v@ =~= data@.subrange(at as int, at + i));
        }
    }

    Ok(v)
}

} // verus!
