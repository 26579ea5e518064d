//! The routing block: every skill's root, name and description, contiguous, immediately after
//! the signature block, at an offset derived from the header alone.
//!
//! ```text
//! 0x00  count u16        skills in this file
//! 0x02  reserved u16     zero
//! 0x04  count × 8        root u32, name_len u16, desc_len u16
//!  …    arena            name then description bytes, per entry, in entry order
//!  …    zero padding to a multiple of 8
//! ```

use vstd::prelude::*;

use vstd::utf8::{decode_utf8, encode_utf8, valid_utf8};

use crate::error::Error;
use crate::raw::{
    all_zero_spec, bytes_at, in_bounds, le16, le32, push_all, push_u16, push_u32, push_zeros, u16_at,
    u32_at,
};
use crate::text::utf8;

verus! {

pub const ENTRY_LEN: usize = 8;

pub const PREFIX_LEN: usize = 4;

#[derive(Debug, Clone, PartialEq, Eq)]
pub struct RoutingEntry {
    pub root: u32,
    pub name: String,
    pub description: String,
}

#[derive(Debug, Clone)]
pub struct Routing {
    pub entries: Vec<RoutingEntry>,
    /// Stored length including the prefix, the entry table, the arena and the padding.
    pub stored_len: usize,
}

/// The smallest multiple of 8 that is at least `n`.
pub open spec fn pad8(n: int) -> int {
    if n % 8 == 0 { n } else { n + (8 - n % 8) }
}

pub open spec fn name_len_at(b: Seq<u8>, off: int, i: int) -> int {
    le16(b, off + 4 + 8 * i + 4)
}

pub open spec fn desc_len_at(b: Seq<u8>, off: int, i: int) -> int {
    le16(b, off + 4 + 8 * i + 6)
}

/// Where entry `i`'s name begins in the arena.
pub open spec fn arena_at(b: Seq<u8>, off: int, count: int, i: int) -> int
    decreases i,
{
    if i <= 0 {
        off + 4 + 8 * count
    } else {
        arena_at(b, off, count, i - 1) + name_len_at(b, off, i - 1) + desc_len_at(b, off, i - 1)
    }
}

/// Entry `i` lies inside the buffer and both of its strings are valid UTF-8.
pub open spec fn entry_ok(b: Seq<u8>, off: int, count: int, i: int) -> bool {
    let a = arena_at(b, off, count, i);
    let n = name_len_at(b, off, i);
    let d = desc_len_at(b, off, i);
    &&& in_bounds(b.len() as int, off + 4 + 8 * i, 8)
    &&& in_bounds(b.len() as int, a, n + d)
    &&& valid_utf8(b.subrange(a, a + n))
    &&& valid_utf8(b.subrange(a + n, a + n + d))
}

/// Entry `i` as read from the buffer.
pub open spec fn entry_reads(b: Seq<u8>, off: int, count: int, i: int, e: RoutingEntry) -> bool {
    let a = arena_at(b, off, count, i);
    let n = name_len_at(b, off, i);
    let d = desc_len_at(b, off, i);
    &&& e.root == le32(b, off + 4 + 8 * i)
    &&& e.name@ == decode_utf8(b.subrange(a, a + n))
    &&& e.description@ == decode_utf8(b.subrange(a + n, a + n + d))
}

/// A routing block at `off` that a reader accepts.
pub open spec fn block_ok(b: Seq<u8>, off: int) -> bool {
    &&& in_bounds(b.len() as int, off, 4)
    &&& le16(b, off) > 0
    &&& le16(b, off + 2) == 0
    &&& forall|i: int| 0 <= i < le16(b, off) ==> entry_ok(b, off, le16(b, off), i)
    &&& pad8(arena_at(b, off, le16(b, off), le16(b, off)) - off) <= usize::MAX
}

proof fn lemma_arena_monotone(b: Seq<u8>, off: int, count: int, i: int)
    requires
        i >= 0,
    ensures
        arena_at(b, off, count, i) >= off + 4 + 8 * count,
    decreases i,
{
    if i > 0 {
        lemma_arena_monotone(b, off, count, i - 1);
    }
}

proof fn lemma_le16_shift(r: Seq<u8>, f: Seq<u8>, off: int, x: int)
    requires
        0 <= off,
        off + r.len() <= f.len(),
        f.subrange(off, off + r.len()) == r,
        0 <= x,
        x + 2 <= r.len(),
    ensures
        le16(f, off + x) == le16(r, x),
{
    assert(f[off + x] == r[x]);
    assert(f[off + x + 1] == r[x + 1]);
}

proof fn lemma_le32_shift(r: Seq<u8>, f: Seq<u8>, off: int, x: int)
    requires
        0 <= off,
        off + r.len() <= f.len(),
        f.subrange(off, off + r.len()) == r,
        0 <= x,
        x + 4 <= r.len(),
    ensures
        crate::raw::le32(f, off + x) == crate::raw::le32(r, x),
{
    assert(f[off + x] == r[x]);
    assert(f[off + x + 1] == r[x + 1]);
    assert(f[off + x + 2] == r[x + 2]);
    assert(f[off + x + 3] == r[x + 3]);
}

proof fn lemma_arena_shift(r: Seq<u8>, f: Seq<u8>, off: int, c: int, i: int)
    requires
        0 <= off,
        off + r.len() <= f.len(),
        f.subrange(off, off + r.len()) == r,
        0 <= i <= c,
        4 + 8 * c <= r.len(),
    ensures
        arena_at(f, off, c, i) == off + arena_at(r, 0, c, i),
    decreases i,
{
    if i > 0 {
        lemma_arena_shift(r, f, off, c, i - 1);
        lemma_le16_shift(r, f, off, 4 + 8 * (i - 1) + 4);
        lemma_le16_shift(r, f, off, 4 + 8 * (i - 1) + 6);
    }
}

proof fn lemma_entry_shift(r: Seq<u8>, f: Seq<u8>, off: int, c: int, i: int)
    requires
        block_ok(r, 0),
        c == le16(r, 0),
        0 <= i < c,
        0 <= off,
        off + r.len() <= f.len(),
        f.subrange(off, off + r.len()) == r,
    ensures
        entry_ok(f, off, c, i),
        crate::raw::le32(f, off + 4 + 8 * i) == crate::raw::le32(r, 4 + 8 * i),
        ({
            let a = arena_at(r, 0, c, i);
            let n = name_len_at(r, 0, i);
            let d = desc_len_at(r, 0, i);
            &&& arena_at(f, off, c, i) == off + a
            &&& name_len_at(f, off, i) == n
            &&& desc_len_at(f, off, i) == d
            &&& f.subrange(off + a, off + a + n) == r.subrange(a, a + n)
            &&& f.subrange(off + a + n, off + a + n + d) == r.subrange(a + n, a + n + d)
        }),
{
    assert(entry_ok(r, 0, c, i));
    assert(entry_ok(r, 0, c, c - 1));
    lemma_arena_shift(r, f, off, c, i);
    lemma_le16_shift(r, f, off, 4 + 8 * i + 4);
    lemma_le16_shift(r, f, off, 4 + 8 * i + 6);
    lemma_le32_shift(r, f, off, 4 + 8 * i);
    lemma_arena_monotone(r, 0, c, i);
    let a = arena_at(r, 0, c, i);
    let n = name_len_at(r, 0, i);
    let d = desc_len_at(r, 0, i);
    assert(f.subrange(off + a, off + a + n) =~= r.subrange(a, a + n));
    assert(f.subrange(off + a + n, off + a + n + d) =~= r.subrange(a + n, a + n + d));
}

/// A routing block placed at `off` of a larger buffer reads there exactly as it reads alone.
pub proof fn lemma_block_shift(r: Seq<u8>, f: Seq<u8>, off: int)
    requires
        block_ok(r, 0),
        0 <= off,
        off + r.len() <= f.len(),
        f.subrange(off, off + r.len()) == r,
    ensures
        block_ok(f, off),
        le16(f, off) == le16(r, 0),
        forall|i: int, e: RoutingEntry|
            0 <= i < le16(r, 0) ==> (entry_reads(f, off, le16(r, 0), i, e) <==> entry_reads(
                r,
                0,
                le16(r, 0),
                i,
                e,
            )),
{
    let c = le16(r, 0);
    lemma_le16_shift(r, f, off, 0);
    lemma_le16_shift(r, f, off, 2);
    assert(entry_ok(r, 0, c, c - 1));
    assert forall|i: int| 0 <= i < c implies entry_ok(f, off, c, i) by {
        lemma_entry_shift(r, f, off, c, i);
    }
    assert forall|i: int, e: RoutingEntry| 0 <= i < c implies (entry_reads(f, off, c, i, e)
        <==> entry_reads(r, 0, c, i, e)) by {
        lemma_entry_shift(r, f, off, c, i);
    }
    lemma_arena_shift(r, f, off, c, c);
}

/// Reads the routing block at `off`.
pub fn read(bytes: &[u8], off: usize) -> (r: Result<Routing, Error>)
    ensures
        r is Ok <==> block_ok(bytes@, off as int),
        r matches Ok(rt) ==> {
            let count = le16(bytes@, off as int);
            &&& rt.entries@.len() == count
            &&& forall|i: int|
                0 <= i < count ==> entry_reads(bytes@, off as int, count, i, #[trigger] rt.entries@[i])
            &&& rt.stored_len == pad8(arena_at(bytes@, off as int, count, count) - off)
        },
{
    let total = bytes.len();
    let count = u16_at(bytes, off)?;
    assert(off + 2 <= total);
    let reserved = u16_at(bytes, off + 2)?;
    if count == 0 {
        return Err(Error::RoutingEmpty);
    }
    if reserved != 0 {
        return Err(Error::ReservedNonZero { what: "routing reserved 0x02" });
    }
    let ghost b = bytes@;
    let ghost o = off as int;
    let ghost c = count as int;
    let table: usize = off + 4;
    if (count as usize) > (usize::MAX - table) / 8 {
        proof {
            let t = table as int;
            let m = usize::MAX as int;
            assert(c * 8 > m - t) by (nonlinear_arith)
                requires
                    c > (m - t) / 8,
                    m - t >= 0,
            ;
            assert(!entry_ok(b, o, c, c - 1));
        }
        return Err(Error::OffsetOverflow { what: "routing" });
    }
    let mut at: usize = table + 8 * count as usize;
    let mut entries: Vec<RoutingEntry> = Vec::new();
    let mut i: u16 = 0;
    while i < count
        invariant
            0 <= i <= count,
            b == bytes@,
            o == off,
            c == count,
            table == off + 4,
            count > 0,
            le16(b, o) == c,
            le16(b, o + 2) == 0,
            in_bounds(b.len() as int, o, 4),
            at == arena_at(b, o, c, i as int),
            entries@.len() == i,
            forall|j: int| 0 <= j < i ==> entry_ok(b, o, c, j),
            forall|j: int| 0 <= j < i ==> entry_reads(b, o, c, j, #[trigger] entries@[j]),
        decreases count - i,
    {
        let e = table + 8 * i as usize;
        let r0 = u32_at(bytes, e);
        let r1 = u16_at(bytes, e + 4);
        let r2 = u16_at(bytes, e + 6);
        if r0.is_err() || r1.is_err() || r2.is_err() {
            assert(!entry_ok(b, o, c, i as int));
            return Err(Error::Truncated { off: e, need: 8 });
        }
        let root = r0.unwrap();
        let name_len = r1.unwrap() as usize;
        let desc_len = r2.unwrap() as usize;
        let name_res = bytes_at(bytes, at, name_len);
        if name_res.is_err() {
            assert(!entry_ok(b, o, c, i as int));
            return Err(Error::Truncated { off: at, need: name_len });
        }
        let name_raw = name_res.unwrap();
        let desc_res = bytes_at(bytes, at + name_len, desc_len);
        if desc_res.is_err() {
            assert(!entry_ok(b, o, c, i as int));
            return Err(Error::Truncated { off: at + name_len, need: desc_len });
        }
        let desc_raw = desc_res.unwrap();
        let name = match utf8(name_raw) {
            Some(s) => s,
            None => {
                assert(!entry_ok(b, o, c, i as int));
                return Err(Error::RoutingNotUtf8);
            },
        };
        let description = match utf8(desc_raw) {
            Some(s) => s,
            None => {
                assert(!entry_ok(b, o, c, i as int));
                return Err(Error::RoutingNotUtf8);
            },
        };
        let ghost prev = entries@;
        entries.push(RoutingEntry { root, name, description });
        at = at + name_len + desc_len;
        i += 1;
        proof {
            assert(entries@ == prev.push(entries@[i - 1]));
            assert forall|j: int| 0 <= j < i implies entry_reads(b, o, c, j, #[trigger] entries@[j]) by {
                if j < i - 1 {
                    assert(entries@[j] == prev[j]);
                }
            }
        }
    }
    proof {
        lemma_arena_monotone(b, o, c, c);
    }
    let used = at - off;
    let pad = if used % 8 == 0 { 0 } else { 8 - used % 8 };
    if used > usize::MAX - pad {
        return Err(Error::OffsetOverflow { what: "routing" });
    }
    Ok(Routing { entries, stored_len: used + pad })
}


/// The bytes an entry's name occupies in the arena.
#[verifier::opaque]
pub open spec fn name_bytes(e: RoutingEntry) -> Seq<u8> {
    encode_utf8(e.name@)
}

/// The bytes an entry's description occupies in the arena.
#[verifier::opaque]
pub open spec fn desc_bytes(e: RoutingEntry) -> Seq<u8> {
    encode_utf8(e.description@)
}

/// How many arena bytes the first `i` entries take.
pub open spec fn arena_sum(es: Seq<RoutingEntry>, i: int) -> int
    decreases i,
{
    if i <= 0 {
        0
    } else {
        arena_sum(es, i - 1) + name_bytes(es[i - 1]).len() + desc_bytes(es[i - 1]).len()
    }
}

/// Entries a routing block can hold: at least one, at most `u16::MAX`, and no name or
/// description longer than its `u16` length field.
pub open spec fn encodable(es: Seq<RoutingEntry>) -> bool {
    &&& 0 < es.len() <= u16::MAX
    &&& forall|i: int|
        0 <= i < es.len() ==> name_bytes(#[trigger] es[i]).len() <= u16::MAX && desc_bytes(
            es[i],
        ).len() <= u16::MAX
}

/// The length of the block that holds `es`, padding included.
pub open spec fn encoded_len(es: Seq<RoutingEntry>) -> int {
    pad8(4 + 8 * es.len() + arena_sum(es, es.len() as int))
}

/// Entries whose names and descriptions take at most 1 KiB each take at most 2 KiB of arena
/// apiece.
pub proof fn lemma_arena_bound(es: Seq<RoutingEntry>, i: int)
    requires
        0 <= i <= es.len(),
        forall|j: int|
            0 <= j < es.len() ==> encode_utf8((#[trigger] es[j]).name@).len() <= 1024
                && encode_utf8(es[j].description@).len() <= 1024,
    ensures
        0 <= arena_sum(es, i) <= 2048 * i,
    decreases i,
{
    reveal(desc_bytes);
    reveal(name_bytes);
    if i > 0 {
        lemma_arena_bound(es, i - 1);
        assert(encode_utf8(es[i - 1].name@).len() <= 1024);
    }
}

/// At most 256 entries, each with a name and a description of at most 1 KiB, can be encoded,
/// in at most 526,344 bytes.
pub proof fn lemma_short_encodable(es: Seq<RoutingEntry>)
    requires
        0 < es.len() <= 256,
        forall|j: int|
            0 <= j < es.len() ==> encode_utf8((#[trigger] es[j]).name@).len() <= 1024
                && encode_utf8(es[j].description@).len() <= 1024,
    ensures
        encodable(es),
        encoded_len(es) <= 526344,
{
    reveal(desc_bytes);
    reveal(name_bytes);
    lemma_arena_bound(es, es.len() as int);
    assert forall|i: int| 0 <= i < es.len() implies name_bytes(#[trigger] es[i]).len() <= u16::MAX
        && desc_bytes(es[i]).len() <= u16::MAX by {
        assert(encode_utf8(es[i].name@).len() <= 1024);
    }
}

proof fn lemma_arena_sum_monotone(es: Seq<RoutingEntry>, i: int, j: int)
    requires
        0 <= i <= j,
    ensures
        arena_sum(es, i) <= arena_sum(es, j),
    decreases j,
{
    if i < j {
        lemma_arena_sum_monotone(es, i, j - 1);
    }
}

proof fn lemma_arena_at_sum(b: Seq<u8>, es: Seq<RoutingEntry>, i: int)
    requires
        0 <= i <= es.len(),
        forall|j: int|
            0 <= j < es.len() ==> name_len_at(b, 0, j) == name_bytes(#[trigger] es[j]).len()
                && desc_len_at(b, 0, j) == desc_bytes(es[j]).len(),
    ensures
        arena_at(b, 0, es.len() as int, i) == 4 + 8 * es.len() + arena_sum(es, i),
    decreases i,
{
    if i > 0 {
        lemma_arena_at_sum(b, es, i - 1);
        assert(name_len_at(b, 0, i - 1) == name_bytes(es[i - 1]).len());
    }
}


/// The entry table of a routing block for `es`, before the prefix.
#[verifier::opaque]
pub open spec fn table_holds(t: Seq<u8>, es: Seq<RoutingEntry>) -> bool {
    &&& t.len() == 8 * es.len()
    &&& forall|j: int|
        0 <= j < es.len() ==> {
            &&& le32(t, 8 * j) == (#[trigger] es[j]).root
            &&& le16(t, 8 * j + 4) == name_bytes(es[j]).len()
            &&& le16(t, 8 * j + 6) == desc_bytes(es[j]).len()
        }
}

/// The arena of a routing block for `es`.
#[verifier::opaque]
pub open spec fn arena_holds(a: Seq<u8>, es: Seq<RoutingEntry>) -> bool {
    &&& a.len() == arena_sum(es, es.len() as int)
    &&& forall|j: int|
        0 <= j < es.len() ==> {
            let s = arena_sum(es, j);
            let n = name_bytes(#[trigger] es[j]).len() as int;
            &&& a.subrange(s, s + n) == name_bytes(es[j])
            &&& a.subrange(s + n, s + n + desc_bytes(es[j]).len()) == desc_bytes(es[j])
        }
}

proof fn lemma_lens_from_table(b: Seq<u8>, t: Seq<u8>, es: Seq<RoutingEntry>)
    requires
        table_holds(t, es),
        b.len() >= 4 + t.len(),
        b.subrange(4, 4 + 8 * es.len() as int) == t,
    ensures
        forall|j: int|
            0 <= j < es.len() ==> name_len_at(b, 0, j) == name_bytes(#[trigger] es[j]).len()
                && desc_len_at(b, 0, j) == desc_bytes(es[j]).len() && le32(b, 4 + 8 * j)
                == es[j].root,
{
    reveal(table_holds);
    let c = es.len() as int;
    assert forall|j: int|
        0 <= j < c implies name_len_at(b, 0, j) == name_bytes(#[trigger] es[j]).len()
            && desc_len_at(b, 0, j) == desc_bytes(es[j]).len() && le32(b, 4 + 8 * j)
            == es[j].root by {
        let sub = b.subrange(4, 4 + 8 * c);
        assert(sub[8 * j] == b[4 + 8 * j]);
        assert(sub[8 * j + 1] == b[4 + 8 * j + 1]);
        assert(sub[8 * j + 2] == b[4 + 8 * j + 2]);
        assert(sub[8 * j + 3] == b[4 + 8 * j + 3]);
        assert(sub[8 * j + 4] == b[4 + 8 * j + 4]);
        assert(sub[8 * j + 5] == b[4 + 8 * j + 5]);
        assert(sub[8 * j + 6] == b[4 + 8 * j + 6]);
        assert(sub[8 * j + 7] == b[4 + 8 * j + 7]);
        assert(le32(t, 8 * j) == es[j].root);
    }
}

proof fn lemma_one_entry(b: Seq<u8>, a: Seq<u8>, es: Seq<RoutingEntry>, j: int)
    requires
        0 <= j < es.len(),
        arena_holds(a, es),
        b.len() >= 4 + 8 * es.len() + a.len(),
        b.subrange(4 + 8 * es.len() as int, 4 + 8 * es.len() as int + a.len() as int) == a,
        arena_at(b, 0, es.len() as int, j) == 4 + 8 * es.len() + arena_sum(es, j),
        name_len_at(b, 0, j) == name_bytes(es[j]).len(),
        desc_len_at(b, 0, j) == desc_bytes(es[j]).len(),
        le32(b, 4 + 8 * j) == es[j].root,
    ensures
        entry_ok(b, 0, es.len() as int, j),
        entry_reads(b, 0, es.len() as int, j, es[j]),
{
    reveal(arena_holds);
    let c = es.len() as int;
    let head = 4 + 8 * c;
    let s = arena_sum(es, j);
    let n = name_bytes(es[j]).len() as int;
    let d = desc_bytes(es[j]).len() as int;
    let at = head + s;
    lemma_arena_sum_monotone(es, j + 1, c);
    lemma_arena_sum_monotone(es, 0, j);
    assert(arena_sum(es, j + 1) == s + n + d);
    assert(0 <= s && s + n + d <= a.len());
    assert forall|k: int| 0 <= k < n implies #[trigger] b.subrange(at, at + n)[k] == a.subrange(s, s + n)[k] by {
        assert(b.subrange(head, head + a.len())[s + k] == a[s + k]);
    }
    assert forall|k: int| 0 <= k < d implies #[trigger] b.subrange(at + n, at + n + d)[k] == a.subrange(s + n, s + n + d)[k] by {
        assert(b.subrange(head, head + a.len())[s + n + k] == a[s + n + k]);
    }
    assert(b.subrange(at, at + n) =~= a.subrange(s, s + n));
    assert(b.subrange(at + n, at + n + d) =~= a.subrange(s + n, s + n + d));
    lemma_entry_text(es[j]);
}

proof fn lemma_holds_lens(t: Seq<u8>, a: Seq<u8>, es: Seq<RoutingEntry>)
    requires
        table_holds(t, es),
        arena_holds(a, es),
    ensures
        t.len() == 8 * es.len(),
        a.len() == arena_sum(es, es.len() as int),
{
    reveal(table_holds);
    reveal(arena_holds);
}

proof fn lemma_prefix_stable(x: Seq<u8>, y: Seq<u8>, s: int, e: int)
    requires
        0 <= s <= e <= x.len(),
    ensures
        (x + y).subrange(s, e) == x.subrange(s, e),
{
    assert((x + y).subrange(s, e) =~= x.subrange(s, e));
}

proof fn lemma_field_bytes(e: RoutingEntry)
    ensures
        name_bytes(e) == encode_utf8(e.name@),
        desc_bytes(e) == encode_utf8(e.description@),
{
    reveal(name_bytes);
    reveal(desc_bytes);
}

proof fn lemma_entry_text(e: RoutingEntry)
    ensures
        valid_utf8(name_bytes(e)),
        valid_utf8(desc_bytes(e)),
        decode_utf8(name_bytes(e)) == e.name@,
        decode_utf8(desc_bytes(e)) == e.description@,
{
    reveal(name_bytes);
    reveal(desc_bytes);
    vstd::utf8::encode_utf8_valid_utf8(e.name@);
    vstd::utf8::encode_utf8_valid_utf8(e.description@);
    vstd::utf8::encode_utf8_decode_utf8(e.name@);
    vstd::utf8::encode_utf8_decode_utf8(e.description@);
}

proof fn lemma_encoded_reads(b: Seq<u8>, t: Seq<u8>, a: Seq<u8>, es: Seq<RoutingEntry>, pad: int)
    requires
        encodable(es),
        table_holds(t, es),
        arena_holds(a, es),
        0 <= pad < 8,
        (4 + t.len() + a.len() + pad) % 8 == 0,
        b.len() == 4 + t.len() + a.len() + pad,
        4 + t.len() + a.len() + pad <= usize::MAX,
        le16(b, 0) == es.len(),
        le16(b, 2) == 0,
        b.subrange(4, 4 + 8 * es.len() as int) == t,
        b.subrange(4 + 8 * es.len() as int, 4 + 8 * es.len() as int + a.len() as int) == a,
    ensures
        block_ok(b, 0),
        forall|i: int| 0 <= i < es.len() ==> entry_reads(b, 0, es.len() as int, i, #[trigger] es[i]),
        b.len() == encoded_len(es),
        b.len() == pad8(arena_at(b, 0, es.len() as int, es.len() as int)),
{
    lemma_holds_lens(t, a, es);
    let c = es.len() as int;
    lemma_lens_from_table(b, t, es);
    assert forall|j: int|
        #![trigger es[j]]
        #![trigger entry_ok(b, 0, c, j)]
        0 <= j < c implies entry_ok(b, 0, c, j) && entry_reads(b, 0, c, j, es[j]) by {
        lemma_arena_at_sum(b, es, j);
        lemma_one_entry(b, a, es, j);
    }
    lemma_arena_at_sum(b, es, c);
    assert(in_bounds(b.len() as int, 0, 4));
    assert(le16(b, 0) > 0);
    assert(arena_at(b, 0, c, c) == 4 + t.len() + a.len());
    assert(pad8(arena_at(b, 0, c, c) - 0) == b.len());
    assert(forall|i: int| 0 <= i < le16(b, 0) ==> entry_ok(b, 0, le16(b, 0), i));
}

/// The entry table for `es` and the arena size it implies, or `None` when a field or the
/// arena would not fit.
fn write_table(es: &[RoutingEntry]) -> (r: Option<(Vec<u8>, usize)>)
    requires
        es@.len() <= 65535,
    ensures
        r matches Some((t, total)) ==> table_holds(t@, es@) && t@.len() == 8 * es@.len() && total
            == arena_sum(es@, es@.len() as int)
            && forall|j: int| 0 <= j < es@.len() ==> name_bytes(#[trigger] es@[j]).len() <= u16::MAX
            && desc_bytes(es@[j]).len() <= u16::MAX,
        r is None ==> !encodable(es@) || arena_sum(es@, es@.len() as int) > usize::MAX,
{
    let c = es.len();
    let mut table: Vec<u8> = Vec::new();
    let mut total: usize = 0;
    let mut i: usize = 0;
    while i < c
        invariant
            c == es@.len(),
            c <= 65535,
            0 <= i <= c,
            table@.len() == 8 * i,
            total == arena_sum(es@, i as int),
            forall|j: int|
                0 <= j < i ==> name_bytes(#[trigger] es@[j]).len() <= u16::MAX && desc_bytes(
                    es@[j],
                ).len() <= u16::MAX,
            forall|j: int|
                0 <= j < i ==> {
                    &&& le32(table@, 8 * j) == (#[trigger] es@[j]).root
                    &&& le16(table@, 8 * j + 4) == name_bytes(es@[j]).len()
                    &&& le16(table@, 8 * j + 6) == desc_bytes(es@[j]).len()
                },
        decreases c - i,
    {
        let e = &es[i];
        let nl = e.name.as_str().as_bytes().len();
        let dl = e.description.as_str().as_bytes().len();
        proof {
            lemma_field_bytes(*e);
        }
        if nl > 65535 || dl > 65535 {
            assert(name_bytes(es@[i as int]).len() > u16::MAX || desc_bytes(es@[i as int]).len()
                > u16::MAX);
            return None;
        }
        if total > usize::MAX - nl - dl {
            proof {
                lemma_arena_sum_monotone(es@, i + 1, c as int);
            }
            return None;
        }
        let ghost before = table@;
        push_u32(&mut table, e.root);
        push_u16(&mut table, nl as u16);
        push_u16(&mut table, dl as u16);
        proof {
            assert forall|j: int| 0 <= j < i implies {
                &&& le32(table@, 8 * j) == (#[trigger] es@[j]).root
                &&& le16(table@, 8 * j + 4) == name_bytes(es@[j]).len()
                &&& le16(table@, 8 * j + 6) == desc_bytes(es@[j]).len()
            } by {
                let pre = table@.subrange(0, before.len() as int);
                assert(pre[8 * j] == table@[8 * j]);
                assert(pre[8 * j + 1] == table@[8 * j + 1]);
                assert(pre[8 * j + 2] == table@[8 * j + 2]);
                assert(pre[8 * j + 3] == table@[8 * j + 3]);
                assert(pre[8 * j + 4] == table@[8 * j + 4]);
                assert(pre[8 * j + 5] == table@[8 * j + 5]);
                assert(pre[8 * j + 6] == table@[8 * j + 6]);
                assert(pre[8 * j + 7] == table@[8 * j + 7]);
            }
        }
        total = total + nl + dl;
        i += 1;
    }
    proof {
        reveal(table_holds);
    }
    Some((table, total))
}

/// The first `k` entries' names and descriptions, laid end to end.
#[verifier::opaque]
pub open spec fn arena_prefix(a: Seq<u8>, es: Seq<RoutingEntry>, k: int) -> bool {
    &&& a.len() == arena_sum(es, k)
    &&& forall|j: int|
        0 <= j < k ==> {
            let s = arena_sum(es, j);
            let n = name_bytes(#[trigger] es[j]).len() as int;
            &&& a.subrange(s, s + n) == name_bytes(es[j])
            &&& a.subrange(s + n, s + n + desc_bytes(es[j]).len()) == desc_bytes(es[j])
        }
}

#[verifier::rlimit(30)]
proof fn lemma_arena_step(before: Seq<u8>, es: Seq<RoutingEntry>, k: int)
    requires
        0 <= k < es.len(),
        arena_prefix(before, es, k),
    ensures
        arena_prefix(before + (name_bytes(es[k]) + desc_bytes(es[k])), es, k + 1),
{
    reveal(arena_prefix);
    let add = name_bytes(es[k]) + desc_bytes(es[k]);
    let after = before + add;
    assert forall|j: int| 0 <= j < k + 1 implies {
        let s = arena_sum(es, j);
        let n = name_bytes(#[trigger] es[j]).len() as int;
        &&& after.subrange(s, s + n) == name_bytes(es[j])
        &&& after.subrange(s + n, s + n + desc_bytes(es[j]).len()) == desc_bytes(es[j])
    } by {
        let s = arena_sum(es, j);
        let n = name_bytes(es[j]).len() as int;
        let d = desc_bytes(es[j]).len() as int;
        lemma_arena_sum_monotone(es, 0, j);
        if j < k {
            lemma_arena_sum_monotone(es, j + 1, k);
            lemma_prefix_stable(before, add, s, s + n);
            lemma_prefix_stable(before, add, s + n, s + n + d);
        } else {
            assert(after.subrange(s, s + n) =~= name_bytes(es[j]));
            assert(after.subrange(s + n, s + n + d) =~= desc_bytes(es[j]));
        }
    }
}

/// The arena for `es`: each name, then its description, entry after entry.
fn write_arena(es: &[RoutingEntry]) -> (a: Vec<u8>)
    ensures
        arena_holds(a@, es@),
        a@.len() == arena_sum(es@, es@.len() as int),
{
    let c = es.len();
    let mut arena: Vec<u8> = Vec::new();
    proof {
        reveal(arena_prefix);
    }
    let mut k: usize = 0;
    while k < c
        invariant
            c == es@.len(),
            0 <= k <= c,
            arena_prefix(arena@, es@, k as int),
        decreases c - k,
    {
        let ghost before = arena@;
        push_all(&mut arena, es[k].name.as_str().as_bytes());
        push_all(&mut arena, es[k].description.as_str().as_bytes());
        proof {
            lemma_field_bytes(es@[k as int]);
            assert(arena@ == before + (name_bytes(es@[k as int]) + desc_bytes(es@[k as int])));
            lemma_arena_step(before, es@, k as int);
        }
        k += 1;
    }
    proof {
        reveal(arena_prefix);
        reveal(arena_holds);
    }
    arena
}

/// Writes the routing block for `es`. Reading the result at offset 0 gives back exactly these
/// entries: the block is accepted, holds `es.len()` entries, and entry `i` reads as `es[i]`.
pub fn encode(es: &[RoutingEntry]) -> (r: Result<Vec<u8>, Error>)
    ensures
        r is Ok <==> encodable(es@) && encoded_len(es@) <= usize::MAX,
        r matches Ok(b) ==> {
            &&& block_ok(b@, 0)
            &&& le16(b@, 0) == es@.len()
            &&& forall|i: int|
                0 <= i < es@.len() ==> entry_reads(b@, 0, es@.len() as int, i, #[trigger] es@[i])
            &&& b@.len() == encoded_len(es@)
            &&& b@.len() == pad8(arena_at(b@, 0, es@.len() as int, es@.len() as int))
        },
        r matches Err(e) ==> e == Error::RoutingTooLong || (e == Error::RoutingEmpty && es@.len() == 0),
{
    let c = es.len();
    if c == 0 {
        return Err(Error::RoutingEmpty);
    }
    if c > 65535 {
        return Err(Error::RoutingTooLong);
    }
    let (table, total) = match write_table(es) {
        Some(x) => x,
        None => {
            return Err(Error::RoutingTooLong);
        },
    };
    let head = 4 + 8 * c;
    if total > usize::MAX - head {
        return Err(Error::RoutingTooLong);
    }
    let used = head + total;
    let pad = if used % 8 == 0 { 0 } else { 8 - used % 8 };
    if used > usize::MAX - pad {
        return Err(Error::RoutingTooLong);
    }
    let arena = write_arena(es);
    let mut out: Vec<u8> = Vec::new();
    push_u16(&mut out, c as u16);
    let ghost o1 = out@;
    push_u16(&mut out, 0);
    let ghost o2 = out@;
    push_all(&mut out, table.as_slice());
    let ghost o3 = out@;
    push_all(&mut out, arena.as_slice());
    let ghost o4 = out@;
    push_zeros(&mut out, pad);
    proof {
        assert(o3 == o2 + table@);
        assert(o4 == o3 + arena@);
        assert(out@.subrange(0, o4.len() as int) == o4);
        assert(out@.subrange(4, 4 + 8 * c) =~= o4.subrange(4, 4 + 8 * c));
        assert(o4.subrange(4, 4 + 8 * c) =~= table@);
        assert(out@.subrange(head as int, used as int) =~= o4.subrange(head as int, used as int));
        assert(o4.subrange(head as int, used as int) =~= arena@);
        assert(o2.subrange(0, 2) == o1);
        assert(out@[0] == o4[0] && out@[1] == o4[1] && out@[2] == o4[2] && out@[3] == o4[3]);
        assert(o4[0] == o2[0] && o4[1] == o2[1] && o4[2] == o2[2] && o4[3] == o2[3]);
        assert(o2[0] == o1[0] && o2[1] == o1[1]);
        assert(le16(out@, 0) == le16(o1, 0));
        assert(le16(out@, 2) == le16(o2, 2));
        lemma_encoded_reads(out@, table@, arena@, es@, pad as int);
    }
    Ok(out)
}

} // verus!
