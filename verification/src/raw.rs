//! Bounds-checked little-endian reads. Every read of the file goes through here, so every
//! out-of-range access is an error value rather than a panic.

use vstd::prelude::*;

use crate::error::Error;

verus! {

/// Little-endian `u16` at `off`.
pub open spec fn le16(s: Seq<u8>, off: int) -> int {
    s[off] as int + s[off + 1] as int * 256
}

/// Little-endian `u32` at `off`.
pub open spec fn le32(s: Seq<u8>, off: int) -> int {
    s[off] as int + s[off + 1] as int * 256 + s[off + 2] as int * 65536
        + s[off + 3] as int * 16777216
}

/// Whether `len` bytes at `off` lie inside a buffer of `total` bytes.
pub open spec fn in_bounds(total: int, off: int, len: int) -> bool {
    off + len <= total
}

/// The error a read of `len` bytes at `off` reports when it does not fit.
pub open spec fn read_err(off: usize, len: usize) -> Error {
    if off + len > usize::MAX {
        Error::OffsetOverflow { what: "read" }
    } else {
        Error::Truncated { off, need: len }
    }
}

pub open spec fn all_zero_spec(s: Seq<u8>) -> bool {
    forall|i: int| 0 <= i < s.len() ==> s[i] == 0
}

pub fn slice(b: &[u8], off: usize, len: usize) -> (r: Result<&[u8], Error>)
    ensures
        r is Ok <==> in_bounds(b@.len() as int, off as int, len as int),
        r matches Ok(s) ==> s@ == b@.subrange(off as int, off + len),
        r matches Err(e) ==> e == read_err(off, len),
{
    let total = b.len();
    if off > usize::MAX - len {
        assert(total <= usize::MAX);
        return Err(Error::OffsetOverflow { what: "read" });
    }
    let end = off + len;
    if end > b.len() {
        return Err(Error::Truncated { off, need: len });
    }
    Ok(&b[off..end])
}

pub fn u8_at(b: &[u8], off: usize) -> (r: Result<u8, Error>)
    ensures
        r is Ok <==> in_bounds(b@.len() as int, off as int, 1),
        r matches Ok(v) ==> v == b@[off as int],
        r matches Err(e) ==> e == read_err(off, 1),
{
    let s = slice(b, off, 1)?;
    Ok(s[0])
}

pub fn u16_at(b: &[u8], off: usize) -> (r: Result<u16, Error>)
    ensures
        r is Ok <==> in_bounds(b@.len() as int, off as int, 2),
        r matches Ok(v) ==> v as int == le16(b@, off as int),
        r matches Err(e) ==> e == read_err(off, 2),
{
    let s = slice(b, off, 2)?;
    Ok(s[0] as u16 + (s[1] as u16) * 256)
}

pub fn u32_at(b: &[u8], off: usize) -> (r: Result<u32, Error>)
    ensures
        r is Ok <==> in_bounds(b@.len() as int, off as int, 4),
        r matches Ok(v) ==> v as int == le32(b@, off as int),
        r matches Err(e) ==> e == read_err(off, 4),
{
    let s = slice(b, off, 4)?;
    Ok(s[0] as u32 + (s[1] as u32) * 256 + (s[2] as u32) * 65536 + (s[3] as u32) * 16777216)
}

pub fn hash_at(b: &[u8], off: usize) -> (r: Result<[u8; 32], Error>)
    ensures
        r is Ok <==> in_bounds(b@.len() as int, off as int, 32),
        r matches Ok(h) ==> h@ == b@.subrange(off as int, off + 32),
        r matches Err(e) ==> e == read_err(off, 32),
{
    let s = slice(b, off, 32)?;
    let mut h = [0u8; 32];
    let mut i: usize = 0;
    while i < 32
        invariant
            0 <= i <= 32,
            s@.len() == 32,
            h@.len() == 32,
            forall|j: int| 0 <= j < i ==> h@[j] == s@[j],
        decreases 32 - i,
    {
        h.set(i, s[i]);
        i += 1;
    }
    assert(h@ =~= s@);
    Ok(h)
}

pub fn bytes_at(b: &[u8], off: usize, len: usize) -> (r: Result<&[u8], Error>)
    ensures
        r is Ok <==> in_bounds(b@.len() as int, off as int, len as int),
        r matches Ok(s) ==> s@ == b@.subrange(off as int, off + len),
        r matches Err(e) ==> e == read_err(off, len),
{
    slice(b, off, len)
}

/// Reserved bytes must be zero; a reader that skips them has left room for a second meaning.
pub fn all_zero(b: &[u8], off: usize, len: usize, what: &'static str) -> (r: Result<(), Error>)
    ensures
        r is Ok <==> in_bounds(b@.len() as int, off as int, len as int) && all_zero_spec(
            b@.subrange(off as int, off + len),
        ),
        r matches Err(e) ==> e == (if in_bounds(b@.len() as int, off as int, len as int) {
            Error::ReservedNonZero { what }
        } else {
            read_err(off, len)
        }),
{
    let s = slice(b, off, len)?;
    let mut i: usize = 0;
    while i < s.len()
        invariant
            0 <= i <= s@.len(),
            forall|j: int| 0 <= j < i ==> s@[j] == 0,
        decreases s@.len() - i,
    {
        if s[i] != 0 {
            assert(s@[i as int] != 0);
            assert(!all_zero_spec(b@.subrange(off as int, off + len)));
            return Err(Error::ReservedNonZero { what });
        }
        i += 1;
    }
    Ok(())
}

/// Compares two byte strings for equality.
pub fn bytes_eq(a: &[u8], b: &[u8]) -> (r: bool)
    ensures
        r == (a@ == b@),
{
    if a.len() != b.len() {
        return false;
    }
    let mut i: usize = 0;
    while i < a.len()
        invariant
            0 <= i <= a@.len(),
            a@.len() == b@.len(),
            forall|j: int| 0 <= j < i ==> a@[j] == b@[j],
        decreases a@.len() - i,
    {
        if a[i] != b[i] {
            return false;
        }
        i += 1;
    }
    assert(a@ =~= b@);
    true
}

/// Appends `src` to `out`.
pub fn push_all(out: &mut Vec<u8>, src: &[u8])
    ensures
        final(out)@ == old(out)@ + src@,
{
    let ghost start = out@;
    let mut i: usize = 0;
    while i < src.len()
        invariant
            0 <= i <= src@.len(),
            out@ == start + src@.subrange(0, i as int),
        decreases src@.len() - i,
    {
        out.push(src[i]);
        i += 1;
        assert(src@.subrange(0, i as int) =~= src@.subrange(0, i - 1).push(src@[i - 1]));
    }
    assert(src@.subrange(0, src@.len() as int) =~= src@);
}


/// Appends `v` as two little-endian bytes.
pub fn push_u16(out: &mut Vec<u8>, v: u16)
    ensures
        final(out)@.len() == old(out)@.len() + 2,
        final(out)@.subrange(0, old(out)@.len() as int) == old(out)@,
        le16(final(out)@, old(out)@.len() as int) == v,
{
    let ghost start = out@;
    let lo = (v % 256) as u8;
    let hi = (v / 256) as u8;
    out.push(lo);
    out.push(hi);
    assert(out@.subrange(0, start.len() as int) =~= start);
    assert(lo as int + hi as int * 256 == v as int);
}

/// Appends `v` as four little-endian bytes.
pub fn push_u32(out: &mut Vec<u8>, v: u32)
    ensures
        final(out)@.len() == old(out)@.len() + 4,
        final(out)@.subrange(0, old(out)@.len() as int) == old(out)@,
        le32(final(out)@, old(out)@.len() as int) == v,
{
    let ghost start = out@;
    let b0 = (v % 256) as u8;
    let b1 = ((v / 256) % 256) as u8;
    let b2 = ((v / 65536) % 256) as u8;
    let b3 = (v / 16777216) as u8;
    out.push(b0);
    out.push(b1);
    out.push(b2);
    out.push(b3);
    assert(out@.subrange(0, start.len() as int) =~= start);
    assert(v == (v % 256) + ((v / 256) % 256) * 256 + ((v / 65536) % 256) * 65536 + (v / 16777216)
        * 16777216) by (nonlinear_arith);
}

/// Appends `n` zero bytes.
pub fn push_zeros(out: &mut Vec<u8>, n: usize)
    ensures
        final(out)@.len() == old(out)@.len() + n,
        final(out)@.subrange(0, old(out)@.len() as int) == old(out)@,
        all_zero_spec(final(out)@.subrange(old(out)@.len() as int, final(out)@.len() as int)),
{
    let ghost start = out@;
    let mut i: usize = 0;
    while i < n
        invariant
            0 <= i <= n,
            out@.len() == start.len() + i,
            out@.subrange(0, start.len() as int) == start,
            all_zero_spec(out@.subrange(start.len() as int, out@.len() as int)),
        decreases n - i,
    {
        let ghost before = out@;
        out.push(0);
        assert(out@.subrange(0, start.len() as int) =~= before.subrange(0, start.len() as int));
        assert forall|j: int| 0 <= j < out@.subrange(start.len() as int, out@.len() as int).len() implies out@.subrange(start.len() as int, out@.len() as int)[j] == 0 by {
            if j < i {
                assert(out@.subrange(start.len() as int, out@.len() as int)[j] == before.subrange(start.len() as int, before.len() as int)[j]);
            }
        }
        i += 1;
    }
}

/// Appending to a buffer leaves the `u32` fields already in it as they were.
pub proof fn lemma_le32_kept(before: Seq<u8>, after: Seq<u8>, off: int)
    requires
        before.len() <= after.len(),
        after.subrange(0, before.len() as int) == before,
        0 <= off,
        off + 4 <= before.len(),
    ensures
        le32(after, off) == le32(before, off),
{
    assert(after[off] == before[off]);
    assert(after[off + 1] == before[off + 1]);
    assert(after[off + 2] == before[off + 2]);
    assert(after[off + 3] == before[off + 3]);
}

/// Appending to a buffer leaves the `u16` fields already in it as they were.
pub proof fn lemma_le16_kept(before: Seq<u8>, after: Seq<u8>, off: int)
    requires
        before.len() <= after.len(),
        after.subrange(0, before.len() as int) == before,
        0 <= off,
        off + 2 <= before.len(),
    ensures
        le16(after, off) == le16(before, off),
{
    assert(after[off] == before[off]);
    assert(after[off + 1] == before[off + 1]);
}

} // verus!
