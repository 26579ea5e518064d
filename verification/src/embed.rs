//! The embedding block: one vector per routing entry, immediately after the routing block.
//!
//! ```text
//! 0x00 magic "SEMB"  0x04 dims u16  0x06 kind u8 (0 = f32 LE)  0x07 reserved u8
//! 0x08 count × dims × 4 bytes, in routing-entry order, then zero padding to a multiple of 8
//! ```
//!
//! The block is self-describing: a file without embeddings is a file whose next bytes are the
//! manifest. Vectors are held here as their stored little-endian bytes and are not normalised;
//! interpreting them as floats is left to the caller.

use vstd::prelude::*;

use vstd::string::StringExecFns;

use crate::error::Error;
use crate::raw::{all_zero, bytes_at, in_bounds, le16, u16_at, u8_at};

verus! {

pub const HEADER_LEN: usize = 8;

pub const KIND_F32: u8 = 0;

pub open spec fn semb() -> Seq<u8> {
    seq![0x53u8, 0x45u8, 0x4Du8, 0x42u8]
}

#[derive(Debug, Clone)]
pub struct Embeddings {
    pub dims: usize,
    pub count: usize,
    pub stored_len: usize,
    /// `count × dims` little-endian `f32` values, as stored.
    pub raw: Vec<u8>,
}

impl Embeddings {
    /// The stored bytes of the vector for routing entry `i`.
    pub fn get(&self, i: usize) -> (r: Option<&[u8]>)
        ensures
            r matches Some(v) ==> v@ == self.raw@.subrange(
                4 * i * self.dims,
                4 * (i + 1) * self.dims,
            ),
            r is Some <==> 4 * (i + 1) * self.dims <= self.raw@.len() && 4 * (i + 1) * self.dims
                <= usize::MAX,
    {
        if self.dims == 0 || i >= usize::MAX / 4 / self.dims || i + 1 > usize::MAX / 4 / self.dims {
            proof {
                if self.dims > 0 {
                    let m = usize::MAX as int;
                    let d = self.dims as int;
                    assert(4 * (i + 1) * d > m) by (nonlinear_arith)
                        requires
                            i + 1 > m / 4 / d,
                            d > 0,
                            m > 0,
                    ;
                }
            }
            if self.dims == 0 {
                return if 0 <= self.raw.len() {
                    Some(&self.raw.as_slice()[0..0])
                } else {
                    None
                };
            }
            return None;
        }
        proof {
            let m = usize::MAX as int;
            let d = self.dims as int;
            assert(4 * (i + 1) * d <= m) by (nonlinear_arith)
                requires
                    i + 1 <= m / 4 / d,
                    d > 0,
            ;
            assert(4 * i * d <= 4 * (i + 1) * d) by (nonlinear_arith)
                requires
                    d > 0,
                    i >= 0,
            ;
        }
        let start = 4 * i * self.dims;
        let end = 4 * (i + 1) * self.dims;
        if end > self.raw.len() {
            return None;
        }
        Some(&self.raw.as_slice()[start..end])
    }
}

/// An embedding block starts at `off`: its magic is there.
pub open spec fn magic_at(b: Seq<u8>, off: int) -> bool {
    in_bounds(b.len() as int, off, 4) && b.subrange(off, off + 4) == semb()
}

/// The block at `off` reads for `count` entries: its header lies in the file with a known
/// value kind, a zero reserved byte and nonzero dimensions, and its vectors lie in the file,
/// with every length within the address space.
pub open spec fn block_fits(b: Seq<u8>, off: int, count: int) -> bool {
    let dims = le16(b, off + 4);
    &&& off + 8 <= b.len()
    &&& b[off + 6] == KIND_F32
    &&& b[off + 7] == 0
    &&& dims > 0
    &&& 8 + 4 * count * dims <= usize::MAX - 8
    &&& off + 8 + 4 * count * dims <= b.len()
}

/// Reads an embedding block at `off` for `count` routing entries, if one is there. A missing
/// magic is how a file without embeddings reads.
pub fn read(bytes: &[u8], off: usize, count: usize) -> (r: Result<Option<Embeddings>, Error>)
    ensures
        !magic_at(bytes@, off as int) ==> r == Ok::<Option<Embeddings>, Error>(None),
        magic_at(bytes@, off as int) ==> (r is Ok <==> block_fits(bytes@, off as int, count as int)),
        magic_at(bytes@, off as int) && r is Ok ==> r matches Ok(Some(_)),
        r matches Ok(Some(e)) ==> {
            &&& e.count == count
            &&& e.dims == le16(bytes@, off + 4)
            &&& e.dims > 0
            &&& bytes@[off + 6] == KIND_F32
            &&& e.raw@ == bytes@.subrange(off + 8, off + 8 + 4 * count * e.dims)
            &&& e.stored_len % 8 == 0
        },
{
    let total = bytes.len();
    let magic = match bytes_at(bytes, off, 4) {
        Ok(m) => m,
        Err(_) => {
            return Ok(None);
        },
    };
    if !(magic[0] == 0x53 && magic[1] == 0x45 && magic[2] == 0x4D && magic[3] == 0x42) {
        proof {
            if magic@ == semb() {
                assert(magic@[0] == 0x53);
            }
        }
        return Ok(None);
    }
    assert(magic@ =~= semb());
    assert(off + 4 <= total);
    let dims = u16_at(bytes, off + 4)? as usize;
    assert(off + 6 <= total);
    let kind = u8_at(bytes, off + 6)?;
    match all_zero(bytes, off + 7, 1, "embedding reserved 0x07") {
        Ok(()) => {},
        Err(e) => {
            proof {
                if off + 8 <= total {
                    assert(bytes@.subrange(off + 7, off + 8)[0] == bytes@[off + 7]);
                }
            }
            return Err(e);
        },
    }
    assert(bytes@.subrange(off + 7, off + 8)[0] == bytes@[off + 7]);
    assert(off + 8 <= total);
    if kind != KIND_F32 {
        return Err(Error::EmbeddingKindUnknown(kind));
    }
    if dims == 0 {
        return Err(Error::EmbeddingShape);
    }
    if count > usize::MAX / dims {
        proof {
            assert(count * dims > usize::MAX) by (nonlinear_arith)
                requires
                    count > usize::MAX / dims,
                    dims > 0,
            ;
            assert(4 * count * dims >= count * dims) by (nonlinear_arith)
                requires
                    dims > 0,
            ;
        }
        return Err(Error::EmbeddingShape);
    }
    proof {
        assert(count * dims <= usize::MAX) by (nonlinear_arith)
            requires
                count <= usize::MAX / dims,
                dims > 0,
        ;
    }
    let n = count * dims;
    proof {
        assert(n * 4 == 4 * count * dims) by (nonlinear_arith)
            requires
                n == count * dims,
        ;
    }
    if n > usize::MAX / 4 {
        return Err(Error::EmbeddingShape);
    }
    let raw = bytes_at(bytes, off + HEADER_LEN, n * 4)?;
    let used = HEADER_LEN + n * 4;
    if used > usize::MAX - 8 {
        return Err(Error::EmbeddingShape);
    }
    let stored_len = if used % 8 == 0 { used } else { used + (8 - used % 8) };
    proof {
        assert(n * 4 == 4 * count * dims) by (nonlinear_arith)
            requires
                n == count * dims,
        ;
    }
    Ok(Some(Embeddings { dims, count, stored_len, raw: crate::text::to_vec(raw) }))
}

/// The exact bytes a writer emits for a set of vectors, each given as the bit patterns of its
/// `f32` components.
pub fn encode(vectors: &[Vec<u32>]) -> (r: Result<Vec<u8>, Error>)
    ensures
        r matches Ok(v) ==> v@.len() % 8 == 0 && v@.len() >= 8 && v@.subrange(0, 4) == semb()
            && vectors@.len() > 0 && le16(v@, 4) == vectors@[0]@.len() && v@[6] == KIND_F32
            && v@[7] == 0,
        r matches Ok(v) ==> {
            let flat = flat_values(vectors@);
            &&& 8 + 4 * flat.len() <= v@.len() < 8 + 4 * flat.len() + 8
            &&& forall|j: int| 0 <= j < flat.len() ==> crate::raw::le32(v@, 8 + 4 * j) == #[trigger] flat[j]
            &&& crate::raw::all_zero_spec(v@.subrange(8 + 4 * flat.len() as int, v@.len() as int))
        },
        r is Ok <==> vectors@.len() > 0 && 0 < vectors@[0]@.len() <= u16::MAX && forall|i: int|
            0 <= i < vectors@.len() ==> (#[trigger] vectors@[i])@.len() == vectors@[0]@.len(),
{
    if vectors.len() == 0 {
        return Err(Error::EmbeddingShape);
    }
    let dims = vectors[0].len();
    if dims == 0 || dims > u16::MAX as usize {
        return Err(Error::EmbeddingShape);
    }
    let mut i: usize = 0;
    while i < vectors.len()
        invariant
            0 <= i <= vectors@.len(),
            dims == vectors@[0]@.len(),
            forall|j: int| 0 <= j < i ==> (#[trigger] vectors@[j])@.len() == dims,
        decreases vectors@.len() - i,
    {
        if vectors[i].len() != dims {
            return Err(Error::EmbeddingShape);
        }
        i += 1;
    }
    let mut out: Vec<u8> = Vec::new();
    out.push(0x53);
    out.push(0x45);
    out.push(0x4D);
    out.push(0x42);
    out.push((dims % 256) as u8);
    out.push((dims / 256) as u8);
    out.push(KIND_F32);
    out.push(0);
    assert(out@.subrange(0, 4) =~= semb());
    let mut v: usize = 0;
    let ghost rows = vectors@.map_values(|r: Vec<u32>| r@);
    while v < vectors.len()
        invariant
            0 <= v <= vectors@.len(),
            rows == vectors@.map_values(|r: Vec<u32>| r@),
            out@.len() >= 8,
            out@.subrange(0, 4) == semb(),
            le16(out@, 4) == dims,
            out@[6] == KIND_F32,
            out@[7] == 0,
            out@.len() == 8 + 4 * rows.subrange(0, v as int).flatten().len(),
            forall|j: int|
                0 <= j < rows.subrange(0, v as int).flatten().len() ==> crate::raw::le32(out@, 8 + 4 * j)
                    == #[trigger] rows.subrange(0, v as int).flatten()[j],
        decreases vectors@.len() - v,
    {
        let row = &vectors[v];
        let ghost done = rows.subrange(0, v as int).flatten();
        let mut k: usize = 0;
        while k < row.len()
            invariant
                0 <= k <= row@.len(),
                out@.len() >= 8,
                out@.subrange(0, 4) == semb(),
                le16(out@, 4) == dims,
                out@[6] == KIND_F32,
                out@[7] == 0,
                out@.len() == 8 + 4 * (done.len() + k),
                forall|j: int| 0 <= j < done.len() ==> crate::raw::le32(out@, 8 + 4 * j) == #[trigger] done[j],
                forall|j: int| 0 <= j < k ==> crate::raw::le32(out@, 8 + 4 * (done.len() + j)) == #[trigger] row@[j],
            decreases row@.len() - k,
        {
            let x = row[k];
            let ghost before = out@;
            out.push((x % 256) as u8);
            out.push(((x / 256) % 256) as u8);
            out.push(((x / 65536) % 256) as u8);
            out.push((x / 16777216) as u8);
            assert(out@.subrange(0, 4) =~= before.subrange(0, 4));
            proof {
                let at = 8 + 4 * (done.len() + k);
                assert(crate::raw::le32(out@, at) == x) by (nonlinear_arith)
                    requires
                        out@[at] == x % 256,
                        out@[at + 1] == (x / 256) % 256,
                        out@[at + 2] == (x / 65536) % 256,
                        out@[at + 3] == x / 16777216,
                        0 <= x < 0x1_0000_0000,
                        crate::raw::le32(out@, at) == out@[at] as int + out@[at + 1] as int * 256
                            + out@[at + 2] as int * 65536 + out@[at + 3] as int * 16777216,
                ;
                assert forall|j: int| 0 <= j < done.len() implies crate::raw::le32(out@, 8 + 4 * j)
                    == #[trigger] done[j] by {
                    assert(crate::raw::le32(before, 8 + 4 * j) == done[j]);
                }
                assert forall|j: int| 0 <= j < k + 1 implies crate::raw::le32(out@, 8 + 4 * (done.len() + j))
                    == #[trigger] row@[j] by {
                    if j < k {
                        assert(crate::raw::le32(before, 8 + 4 * (done.len() + j)) == row@[j]);
                    }
                }
            }
            k += 1;
        }
        proof {
            assert(rows.subrange(0, v + 1) =~= rows.subrange(0, v as int).push(row@));
            rows.subrange(0, v as int).lemma_flatten_push(row@);
            let all = rows.subrange(0, v + 1).flatten();
            assert(all =~= done + row@);
            assert forall|j: int| 0 <= j < all.len() implies crate::raw::le32(out@, 8 + 4 * j)
                == #[trigger] all[j] by {
                if j >= done.len() {
                    assert(crate::raw::le32(out@, 8 + 4 * (done.len() + (j - done.len()))) == row@[j - done.len()]);
                }
            }
        }
        v += 1;
    }
    proof {
        assert(rows.subrange(0, vectors@.len() as int) =~= rows);
    }
    let pad = (8 - out.len() % 8) % 8;
    let mut p: usize = 0;
    let ghost len0 = out@.len();
    while p < pad
        invariant
            0 <= p <= pad,
            pad == (8 - len0 % 8) % 8,
            out@.len() == len0 + p,
            len0 == 8 + 4 * flat_values(vectors@).len(),
            forall|j: int| 0 <= j < flat_values(vectors@).len() ==> crate::raw::le32(out@, 8 + 4 * j)
                == #[trigger] flat_values(vectors@)[j],
            forall|j: int| len0 <= j < out@.len() ==> out@[j] == 0,
            out@.len() >= 8,
            out@.subrange(0, 4) == semb(),
            le16(out@, 4) == dims,
            out@[6] == KIND_F32,
            out@[7] == 0,
        decreases pad - p,
    {
        let ghost before = out@;
        out.push(0);
        assert(out@.subrange(0, 4) =~= before.subrange(0, 4));
        proof {
            assert forall|j: int| 0 <= j < flat_values(vectors@).len() implies crate::raw::le32(out@, 8 + 4 * j)
                == #[trigger] flat_values(vectors@)[j] by {
                assert(crate::raw::le32(before, 8 + 4 * j) == flat_values(vectors@)[j]);
            }
            assert forall|j: int| len0 <= j < out@.len() implies out@[j] == 0 by {
                if j < before.len() {
                    assert(out@[j] == before[j]);
                }
            }
        }
        p += 1;
    }
    proof {
        assert forall|j: int| 0 <= j < out@.len() - len0 implies out@.subrange(len0 as int, out@.len() as int)[j] == 0 by {
            assert(out@[len0 + j] == 0);
        }
    }
    Ok(out)
}

/// The components of every vector, in order, one after another.
pub open spec fn flat_values(vectors: Seq<Vec<u32>>) -> Seq<u32> {
    vectors.map_values(|r: Vec<u32>| r@).flatten()
}

/// What a skill's vector is computed from: its name and description, which are the routing
/// plane. A vector built from the body would describe a document the router may not read.
pub fn routing_text(name: &str, description: &str) -> (r: String)
    ensures
        r@ == name@ + ". "@ + description@,
{
    let mut t = name.to_owned();
    t.append(". ");
    t.append(description);
    t
}

} // verus!
