//! An opened file. Opening performs the reading order through step 6: header, declared length,
//! signatures, manifest bounds, manifest digest, then parsing and validation. Payloads are
//! verified lazily, against the nearest stored subtree commitment, when they are asked for.

use vstd::prelude::*;

use crate::codec::{decompress, decompressed_spec, dict_view, Dictionary};
use crate::embed::{block_fits, magic_at, Embeddings};
use crate::error::Error;
use crate::graph::{Node, NONE32};
use crate::hashing::{blake3_digest, blake3_hash};
use crate::header::{header_err, Header};
use crate::manifest::{Manifest, COLD_ZSTD, HOT_ZSTD, MAX_SECTION_BYTES};
use crate::raw::{bytes_at, bytes_eq, in_bounds, le16, le32};
use crate::routing::{arena_at, block_ok, entry_reads, pad8, RoutingEntry};
use crate::sig::{sigs_accepted, sigs_ok, SigEntry, TrustPolicy};
use crate::validate::{graph, graph_ok, is_cold, on_path, tree_ok};

verus! {

/// An opened, validated file borrowing its bytes.
#[derive(Debug)]
pub struct Skill<'a> {
    pub bytes: &'a [u8],
    pub header: Header,
    pub manifest: Manifest,
    pub nodes: Vec<Node>,
    pub signatures: Vec<SigEntry>,
    /// The routing entries: each skill's root, name and description.
    pub routing: Vec<RoutingEntry>,
    pub children: Vec<Vec<u32>>,
    pub dict: Option<&'a Dictionary>,
}

/// Offset `i` of a region lies in `s`.
pub open spec fn in_span(s: (u32, u32), i: int) -> bool {
    s.0 <= i < s.1
}

/// Some span covers offset `i`.
pub open spec fn covered_by(spans: Seq<(u32, u32)>, i: int) -> bool {
    exists|k: int| 0 <= k < spans.len() && #[trigger] in_span(spans[k], i)
}

/// No byte of a region lies outside every span and is non-zero.
pub open spec fn uncovered_zero(b: Seq<u8>, base: int, len: int, spans: Seq<(u32, u32)>) -> bool {
    forall|i: int| 0 <= i < len && !covered_by(spans, i) ==> #[trigger] b[base + i] == 0
}

/// Every span lies inside a region of `len` bytes.
pub open spec fn spans_inside(len: int, spans: Seq<(u32, u32)>) -> bool {
    forall|k: int| 0 <= k < spans.len() ==> (#[trigger] spans[k]).0 <= spans[k].1 <= len
}

/// Bytes inside a raw payload region that no node claims are covered by no commitment, so a
/// file could change them without any signature noticing. They must be zero.
pub fn check_region_padding(
    bytes: &[u8],
    base: u32,
    len: u32,
    spans: &Vec<(u32, u32)>,
    name: &'static str,
) -> (r: Result<(), Error>)
    requires
        base + len <= bytes@.len(),
    ensures
        r is Ok <==> spans_inside(len as int, spans@) && uncovered_zero(
            bytes@,
            base as int,
            len as int,
            spans@,
        ),
{
    let n = len as usize;
    let mut covered: Vec<bool> = Vec::new();
    let mut i: usize = 0;
    while i < n
        invariant
            0 <= i <= n,
            covered@.len() == i,
            forall|j: int| 0 <= j < i ==> !(#[trigger] covered@[j]),
        decreases n - i,
    {
        covered.push(false);
        i += 1;
    }
    let mut k: usize = 0;
    while k < spans.len()
        invariant
            0 <= k <= spans@.len(),
            n == len,
            covered@.len() == n,
            forall|q: int| 0 <= q < k ==> (#[trigger] spans@[q]).0 <= spans@[q].1 <= len,
            forall|j: int|
                0 <= j < n ==> (#[trigger] covered@[j] <==> exists|q: int|
                    0 <= q < k && #[trigger] in_span(spans@[q], j)),
        decreases spans@.len() - k,
    {
        let (s, e) = spans[k];
        if s > e || e > len {
            return Err(Error::RangeOutOfBounds {
                what: name,
                off: s,
                len: if s <= e {
                    e - s
                } else {
                    0
                },
            });
        }
        let ghost before = covered@;
        let mut c: usize = s as usize;
        while c < e as usize
            invariant
                s <= c <= e,
                e <= len,
                n == len,
                covered@.len() == n,
                forall|j: int|
                    0 <= j < n ==> (#[trigger] covered@[j] <==> (before[j] || (s <= j < c))),
            decreases e - c,
        {
            covered.set(c, true);
            c += 1;
        }
        proof {
            assert forall|j: int| 0 <= j < n implies (#[trigger] covered@[j] <==> exists|q: int|
                0 <= q < k + 1 && #[trigger] in_span(spans@[q], j)) by {
                if covered@[j] && !before[j] {
                    assert(in_span(spans@[k as int], j));
                }
                if exists|q: int| 0 <= q < k + 1 && #[trigger] in_span(spans@[q], j) {
                    let q = choose|q: int| 0 <= q < k + 1 && #[trigger] in_span(spans@[q], j);
                    if q < k {
                        assert(before[j]);
                    }
                }
            }
        }
        k += 1;
    }
    let total = bytes.len();
    let mut j: usize = 0;
    while j < n
        invariant
            0 <= j <= n,
            n == len,
            total == bytes@.len(),
            base + len <= bytes@.len(),
            covered@.len() == n,
            spans_inside(len as int, spans@),
            forall|x: int| 0 <= x < n ==> (#[trigger] covered@[x] <==> covered_by(spans@, x)),
            forall|x: int| 0 <= x < j && !covered_by(spans@, x) ==> #[trigger] bytes@[base + x] == 0,
        decreases n - j,
    {
        if !covered[j] && bytes[base as usize + j] != 0 {
            proof {
                assert(!covered_by(spans@, j as int));
            }
            return Err(Error::UncommittedNonZero {
                region: name,
                off: j as u32,
            });
        }
        j += 1;
    }
    Ok(())
}

/// The payload spans, as (start, end) with the end saturating, of the nodes with a payload in
/// the chosen region, in node order.
pub open spec fn spans_of(nodes: Seq<Node>, cold: bool) -> Seq<(u32, u32)>
    decreases nodes.len(),
{
    if nodes.len() == 0 {
        Seq::empty()
    } else {
        let n = nodes.last();
        let rest = spans_of(nodes.drop_last(), cold);
        if n.payload_len != 0 && ((n.flags / 2) % 2 == 1) == cold {
            rest.push(
                (
                    n.payload_off,
                    if n.payload_off + n.payload_len <= u32::MAX {
                        (n.payload_off + n.payload_len) as u32
                    } else {
                        u32::MAX
                    },
                ),
            )
        } else {
            rest
        }
    }
}

/// The payload spans of the nodes in one region.
fn spans_in(nodes: &Vec<Node>, cold: bool) -> (r: Vec<(u32, u32)>)
    ensures
        r@ == spans_of(nodes@, cold),
{
    let mut out: Vec<(u32, u32)> = Vec::new();
    let mut i: usize = 0;
    while i < nodes.len()
        invariant
            0 <= i <= nodes@.len(),
            out@ == spans_of(nodes@.subrange(0, i as int), cold),
        decreases nodes@.len() - i,
    {
        assert(nodes@.subrange(0, i + 1).drop_last() =~= nodes@.subrange(0, i as int));
        let n = nodes[i];
        if n.payload_len != 0 && ((n.flags / 2) % 2 == 1) == cold {
            let end = if n.payload_off <= u32::MAX - n.payload_len {
                n.payload_off + n.payload_len
            } else {
                u32::MAX
            };
            out.push((n.payload_off, end));
        }
        i += 1;
    }
    assert(nodes@.subrange(0, i as int) =~= nodes@);
    out
}

/// Each node's children, in pre-order.
fn child_lists(nodes: &Vec<Node>) -> (r: Vec<Vec<u32>>)
    requires
        nodes@.len() <= u32::MAX,
    ensures
        r@.len() == nodes@.len(),
        forall|p: int, j: int|
            0 <= p < r@.len() && 0 <= j < r@[p]@.len() ==> (#[trigger] r@[p]@[j]) < nodes@.len()
                && nodes@[r@[p]@[j] as int].parent == p,
        forall|p: int, i: int, j: int|
            0 <= p < r@.len() && 0 <= i < j < r@[p]@.len() ==> (#[trigger] r@[p]@[i]) < (
            #[trigger] r@[p]@[j]),
        forall|c: int|
            1 <= c < nodes@.len() && nodes@[c].parent < nodes@.len() ==> r@[#[trigger] nodes@[c].parent as int]@.contains(
                c as u32,
            ),
{
    let n = nodes.len();
    let mut out: Vec<Vec<u32>> = Vec::new();
    let mut i: usize = 0;
    while i < n
        invariant
            0 <= i <= n,
            out@.len() == i,
            forall|p: int| 0 <= p < i ==> (#[trigger] out@[p])@.len() == 0,
        decreases n - i,
    {
        out.push(Vec::new());
        i += 1;
    }
    let mut c: usize = 1;
    while c < n
        invariant
            1 <= c <= n || n == 0,
            n == nodes@.len(),
            n <= u32::MAX,
            out@.len() == n,
            forall|p: int, j: int|
                0 <= p < out@.len() && 0 <= j < out@[p]@.len() ==> (#[trigger] out@[p]@[j]) < c
                    && nodes@[out@[p]@[j] as int].parent == p,
            forall|p: int, a: int, b: int|
                0 <= p < out@.len() && 0 <= a < b < out@[p]@.len() ==> (#[trigger] out@[p]@[a]) < (
                #[trigger] out@[p]@[b]),
            forall|x: int|
                1 <= x < c && nodes@[x].parent < n ==> out@[#[trigger] nodes@[x].parent as int]@.contains(
                    x as u32,
                ),
        decreases n - c,
    {
        let p = nodes[c].parent;
        if (p as usize) < n {
            let ghost before = out@;
            let mut row = out.remove(p as usize);
            row.push(c as u32);
            let ghost newrow = row;
            out.insert(p as usize, row);
            proof {
                assert(out@ =~= before.update(p as int, newrow));
                assert(newrow@ == before[p as int]@.push(c as u32));
                assert forall|x: int|
                    1 <= x < c + 1 && nodes@[x].parent < n implies out@[#[trigger] nodes@[x].parent as int]@.contains(
                    x as u32) by {
                    let q = nodes@[x].parent as int;
                    if x < c {
                        assert(before[q]@.contains(x as u32));
                        let w = choose|w: int| 0 <= w < before[q]@.len() && before[q]@[w] == x as u32;
                        assert(out@[q]@[w] == x as u32);
                    } else {
                        assert(out@[q]@[out@[q]@.len() - 1] == x as u32);
                    }
                }
            }
        }
        c += 1;
    }
    out
}

/// What an opened file guarantees: every check of the reading order through step 6 passed.
/// Where the routing block ends, and an embedding block would start.
pub open spec fn embeddings_end(bytes: Seq<u8>) -> int {
    let off = 64 + 112 * le16(bytes, 0x1C);
    let count = le16(bytes, off);
    off + pad8(arena_at(bytes, off, count, count) - off)
}

/// The manifest lies inside the declared file length and the header commits to its digest.
pub open spec fn manifest_committed(b: Seq<u8>) -> bool {
    let moff = le32(b, 0x14);
    let mlen = le32(b, 0x18);
    &&& moff + mlen <= le32(b, 0x10)
    &&& b.subrange(0x20, 0x40) == blake3_digest(b.subrange(moff, moff + mlen))
}

pub open spec fn opened(bytes: Seq<u8>, policy: TrustPolicy, dict: Option<Seq<u8>>, s: Skill) -> bool {
    let h = s.header;
    let raw = bytes.subrange(h.manifest_off as int, h.manifest_off + h.manifest_len);
    let count = le16(bytes, h.spec_routing_off());
    &&& header_err(bytes) is None
    &&& h.reads(bytes)
    &&& dict_view(s.dict) == dict
    &&& match s.manifest.dict_hash {
        Some(want) => dict matches Some(d) && blake3_digest(d) == want@,
        None => true,
    }
    &&& sigs_ok(bytes, h.sig_count, policy, s.signatures@)
    &&& h.manifest_off + h.manifest_len <= h.file_len
    &&& h.manifest_root@ == blake3_digest(raw)
    &&& s.manifest.reads_header(raw)
    &&& s.manifest.well_formed()
    &&& graph_ok(s.manifest, s.nodes@)
    &&& block_ok(bytes, h.spec_routing_off())
    &&& s.routing@.len() == count
    &&& forall|i: int|
        0 <= i < count ==> entry_reads(bytes, h.spec_routing_off(), count, i, #[trigger] s.routing@[i])
    &&& forall|i: int|
        0 <= i < count ==> (#[trigger] s.routing@[i]).root < s.nodes@.len() && (s.routing@[i].root == 0
            || s.nodes@[s.routing@[i].root as int].parent == 0)
}

impl<'a> Skill<'a> {
    /// The file's bytes.
    pub open spec fn spec_bytes(&self) -> Seq<u8> {
        self.bytes@
    }

    /// The dictionary the file was opened with.
    pub open spec fn spec_dict(&self) -> Option<Seq<u8>> {
        dict_view(self.dict)
    }

    /// The tree invariants that the methods rely on, which opening established.
    pub open spec fn wf(&self) -> bool {
        &&& self.manifest.hot.0 + self.manifest.hot.1 <= self.bytes@.len()
        &&& self.manifest.cold.0 + self.manifest.cold.1 <= self.bytes@.len()
        &&& self.manifest.well_formed()
        &&& graph_ok(self.manifest, self.nodes@)
        &&& self.nodes@.len() <= u32::MAX
        &&& self.children@.len() == self.nodes@.len()
        &&& forall|p: int, j: int|
            0 <= p < self.children@.len() && 0 <= j < self.children@[p]@.len() ==> (
            #[trigger] self.children@[p]@[j]) < self.nodes@.len()
                && self.nodes@[self.children@[p]@[j] as int].parent == p
        &&& forall|p: int, i: int, j: int|
            0 <= p < self.children@.len() && 0 <= i < j < self.children@[p]@.len() ==> (
            #[trigger] self.children@[p]@[i]) < (#[trigger] self.children@[p]@[j])
        &&& forall|c: int|
            1 <= c < self.nodes@.len() ==> self.children@[#[trigger] self.nodes@[c].parent as int]@.contains(
                c as u32,
            )
    }

    /// Opens a file that needs no dictionary.
    pub fn open(bytes: &'a [u8], policy: &TrustPolicy) -> (r: Result<Skill<'a>, Error>)
        ensures
            header_err(bytes@) matches Some(e) ==> r == Err::<Skill, Error>(e),
            header_err(bytes@) is None && !sigs_accepted(bytes@, le16(bytes@, 0x1C) as u16, *policy)
                ==> r is Err,
            header_err(bytes@) is None && !manifest_committed(bytes@) ==> r is Err,
            header_err(bytes@) is None && policy.require_signature && le16(bytes@, 0x1C) == 0 ==> r
                == Err::<Skill, Error>(Error::Unsigned),
            header_err(bytes@) is None && sigs_accepted(bytes@, le16(bytes@, 0x1C) as u16, *policy)
                && le32(bytes@, 0x14) + le32(bytes@, 0x18) <= le32(bytes@, 0x10)
                && !manifest_committed(bytes@) ==> r == Err::<Skill, Error>(
                Error::ManifestDigestMismatch,
            ),
            r matches Ok(s) ==> opened(bytes@, *policy, None, s) && s.wf() && s.spec_bytes()
                == bytes@ && s.spec_dict() is None,
    {
        Self::open_with(bytes, policy, None)
    }

    /// Opens a file, with the shared dictionary it may name. A file naming a dictionary it was
    /// not given, or another one, is refused rather than read wrong.
    pub fn open_with(bytes: &'a [u8], policy: &TrustPolicy, dict: Option<&'a Dictionary>) -> (r:
        Result<Skill<'a>, Error>)
        ensures
            header_err(bytes@) matches Some(e) ==> r == Err::<Skill, Error>(e),
            header_err(bytes@) is None && !sigs_accepted(bytes@, le16(bytes@, 0x1C) as u16, *policy)
                ==> r is Err,
            header_err(bytes@) is None && !manifest_committed(bytes@) ==> r is Err,
            header_err(bytes@) is None && policy.require_signature && le16(bytes@, 0x1C) == 0 ==> r
                == Err::<Skill, Error>(Error::Unsigned),
            header_err(bytes@) is None && sigs_accepted(bytes@, le16(bytes@, 0x1C) as u16, *policy)
                && le32(bytes@, 0x14) + le32(bytes@, 0x18) <= le32(bytes@, 0x10)
                && !manifest_committed(bytes@) ==> r == Err::<Skill, Error>(
                Error::ManifestDigestMismatch,
            ),
            r matches Ok(s) ==> opened(bytes@, *policy, dict_view(dict), s) && s.wf()
                && s.spec_bytes() == bytes@ && s.spec_dict() == dict_view(dict) && sigs_accepted(
                bytes@,
                le16(bytes@, 0x1C) as u16,
                *policy,
            ) && manifest_committed(bytes@),
    {
        let header = Header::parse(bytes)?;
        let signatures = crate::sig::verify(bytes, header.sig_count, policy)?;
        if header.manifest_off > u32::MAX - header.manifest_len {
            return Err(Error::OffsetOverflow { what: "manifest" });
        }
        let end = header.manifest_off + header.manifest_len;
        if end > header.file_len {
            return Err(Error::RangeOutOfBounds {
                what: "manifest",
                off: header.manifest_off,
                len: header.manifest_len,
            });
        }
        let raw = bytes_at(bytes, header.manifest_off as usize, header.manifest_len as usize)?;
        let digest = blake3_hash(raw);
        if !bytes_eq(digest.as_slice(), header.manifest_root.as_slice()) {
            return Err(Error::ManifestDigestMismatch);
        }
        let manifest = Manifest::parse(raw, dict)?;
        match manifest.dict_hash {
            Some(want) => {
                match dict {
                    None => {
                        return Err(Error::MissingDictionary);
                    },
                    Some(d) => {
                        let have = d.digest();
                        if !bytes_eq(have.as_slice(), want.as_slice()) {
                            return Err(Error::WrongDictionary);
                        }
                    },
                }
            },
            None => {},
        }
        check_region_bounds(&header, manifest.hot, "hot region", manifest.flags & HOT_ZSTD != 0)?;
        check_region_bounds(
            &header,
            manifest.cold,
            "cold region",
            manifest.flags & COLD_ZSTD != 0,
        )?;
        let nodes = graph(&manifest)?;
        let routing_off = header.routing_off();
        let routing = crate::routing::read(bytes, routing_off)?;
        let (rlen, rhash) = match manifest.routing {
            Some(x) => x,
            None => {
                return Err(Error::RoutingUncommitted);
            },
        };
        if routing.stored_len != rlen as usize {
            return Err(Error::RoutingHashMismatch);
        }
        let rbytes = bytes_at(bytes, routing_off, routing.stored_len)?;
        let rdigest = blake3_hash(rbytes);
        if !bytes_eq(rdigest.as_slice(), rhash.as_slice()) {
            return Err(Error::RoutingHashMismatch);
        }
        let n = nodes.len();
        let mut e: usize = 0;
        while e < routing.entries.len()
            invariant
                0 <= e <= routing.entries@.len(),
                n == nodes@.len(),
                forall|i: int|
                    0 <= i < e ==> (#[trigger] routing.entries@[i]).root < n && (
                    routing.entries@[i].root == 0 || nodes@[routing.entries@[i].root as int].parent
                        == 0),
            decreases routing.entries@.len() - e,
        {
            let root = routing.entries[e].root;
            if root as usize >= n || (root != 0 && nodes[root as usize].parent != 0) {
                return Err(Error::RoutingRootNotTopLevel(root));
            }
            e += 1;
        }
        let front_end = routing_off + routing.stored_len;
        let emb = crate::embed::read(bytes, front_end, routing.entries.len())?;
        match (manifest.embeddings, &emb) {
            (None, None) => {},
            (Some((elen, ehash)), Some(em)) => {
                if em.stored_len != elen as usize {
                    return Err(Error::EmbeddingShape);
                }
                let ebytes = bytes_at(bytes, front_end, em.stored_len)?;
                let edigest = blake3_hash(ebytes);
                if !bytes_eq(edigest.as_slice(), ehash.as_slice()) {
                    return Err(Error::EmbeddingHashMismatch);
                }
            },
            _ => {
                return Err(Error::EmbeddingUncommitted);
            },
        }
        if manifest.flags & HOT_ZSTD != 0 || manifest.flags & COLD_ZSTD != 0 {
            if manifest.region_hashes.is_none() {
                return Err(Error::UncommittedRegion(
                    if manifest.flags & HOT_ZSTD != 0 {
                        "hot region"
                    } else {
                        "cold region"
                    },
                ));
            }
        }
        if manifest.flags & HOT_ZSTD == 0 {
            let spans = spans_in(&nodes, false);
            check_region_padding(bytes, manifest.hot.0, manifest.hot.1, &spans, "hot region")?;
        }
        if manifest.flags & COLD_ZSTD == 0 {
            let spans = spans_in(&nodes, true);
            check_region_padding(bytes, manifest.cold.0, manifest.cold.1, &spans, "cold region")?;
        }
        let children = child_lists(&nodes);
        let ghost rawv = raw@;
        proof {
            assert(header_err(bytes@) is None);
            assert(header.reads(bytes@));
            assert(rawv == bytes@.subrange(header.manifest_off as int, header.manifest_off + header.manifest_len));
            assert(header.manifest_root@ == blake3_digest(rawv));
            assert(manifest.reads_header(rawv));
            assert(graph_ok(manifest, nodes@));
            assert(block_ok(bytes@, header.spec_routing_off()));
            crate::validate::lemma_parent_before(nodes@);
            assert(header.file_len == bytes@.len());
        }
        Ok(Skill {
            bytes,
            header,
            manifest,
            nodes,
            signatures,
            routing: routing.entries,
            children,
            dict,
        })
    }
}

/// A region lies inside the file, its declared length is bounded, and a raw region's stored and
/// declared lengths agree.
fn check_region_bounds(h: &Header, region: (u32, u32, u32), what: &'static str, compressed: bool) -> (r:
    Result<(), Error>)
    ensures
        r is Ok <==> region.0 + region.1 <= h.file_len && region.2 <= MAX_SECTION_BYTES && (
        !compressed ==> region.1 == region.2),
{
    if region.0 > u32::MAX - region.1 {
        return Err(Error::OffsetOverflow { what });
    }
    if region.0 + region.1 > h.file_len {
        return Err(Error::RangeOutOfBounds { what, off: region.0, len: region.1 });
    }
    if region.2 > MAX_SECTION_BYTES || (!compressed && region.1 != region.2) {
        return Err(Error::DeclaredLenMismatch { what });
    }
    Ok(())
}


/// The stored bytes of a region.
pub open spec fn stored_region(s: Skill, cold: bool) -> Seq<u8> {
    let r = if cold { s.manifest.cold } else { s.manifest.hot };
    s.bytes@.subrange(r.0 as int, r.0 + r.1)
}

/// Whether a region is stored as a zstd frame.
pub open spec fn region_compressed(s: Skill, cold: bool) -> bool {
    if cold {
        s.manifest.flags & COLD_ZSTD != 0
    } else {
        s.manifest.flags & HOT_ZSTD != 0
    }
}

/// A region's bytes as a reader sees them: a raw region's stored bytes, or what a compressed
/// one decompresses to once its stored bytes match their commitment, at exactly its declared
/// length.
pub open spec fn region_bytes(s: Skill, cold: bool) -> Option<Seq<u8>> {
    let r = if cold { s.manifest.cold } else { s.manifest.hot };
    let stored = stored_region(s, cold);
    if !region_compressed(s, cold) {
        Some(stored)
    } else {
        match s.manifest.region_hashes {
            None => None,
            Some(pair) => {
                let want = if cold { pair.1 } else { pair.0 };
                if blake3_digest(stored) != want@ {
                    None
                } else {
                    match decompressed_spec(stored, r.2 as usize, dict_view(s.dict)) {
                        Some(v) => if v.len() == r.2 { Some(v) } else { None },
                        None => None,
                    }
                }
            },
        }
    }
}

/// Node `i`'s payload, read from its region.
pub open spec fn payload_bytes(s: Skill, i: int) -> Option<Seq<u8>> {
    let n = s.nodes@[i];
    if n.payload_len == 0 {
        Some(Seq::empty())
    } else {
        match region_bytes(s, is_cold(n)) {
            Some(r) => if n.payload_off + n.payload_len <= r.len() {
                Some(r.subrange(n.payload_off as int, n.payload_off + n.payload_len))
            } else {
                None
            },
            None => None,
        }
    }
}

/// Node `i`'s name as bytes: empty when it has none.
pub open spec fn name_bytes(s: Skill, i: int) -> Option<Seq<u8>> {
    let idx = s.nodes@[i].name_idx;
    if idx == NONE32 {
        Some(Seq::empty())
    } else if s.manifest.string_ok(idx as int) {
        Some(s.manifest.string_bytes(idx as int))
    } else {
        None
    }
}

/// The commitments of a node's children from the `k`-th on, in order.
pub open spec fn kid_commitments(s: Skill, i: int, k: int) -> Option<Seq<Seq<u8>>>
    decreases s.nodes@.len() - i, s.children@[i]@.len() - k,
{
    if !(0 <= i < s.nodes@.len()) || k < 0 || k >= s.children@[i]@.len() {
        Some(Seq::empty())
    } else {
        let c = s.children@[i]@[k] as int;
        if !(i < c < s.nodes@.len()) {
            None
        } else {
            match (subtree_commitment(s, c), kid_commitments(s, i, k + 1)) {
                (Some(h), Some(rest)) => Some(seq![h] + rest),
                _ => None,
            }
        }
    }
}

/// The commitment of the subtree at node `i`, computed from the file: its fields, its name,
/// its payload and its children's commitments in order. `None` when something it needs does not
/// resolve.
pub open spec fn subtree_commitment(s: Skill, i: int) -> Option<Seq<u8>>
    decreases s.nodes@.len() - i, s.children@[i]@.len() + 1,
{
    if !(0 <= i < s.nodes@.len()) {
        None
    } else {
        let n = s.nodes@[i];
        match (name_bytes(s, i), payload_bytes(s, i), kid_commitments(s, i, 0)) {
            (Some(nm), Some(pl), Some(ks)) => Some(
                blake3_digest(
                    crate::subtree::subtree_message(
                        n.kind,
                        n.tier,
                        n.flags % 2 == 1,
                        n.depth,
                        n.role,
                        nm,
                        pl,
                        ks.len(),
                        concat_digests(ks),
                    ),
                ),
            ),
            _ => None,
        }
    }
}

/// Digests laid end to end.
pub open spec fn concat_digests(hs: Seq<Seq<u8>>) -> Seq<u8>
    decreases hs.len(),
{
    if hs.len() == 0 {
        Seq::empty()
    } else {
        concat_digests(hs.drop_last()) + hs.last()
    }
}

proof fn lemma_concat_arrays(hs: Seq<[u8; 32]>)
    ensures
        crate::subtree::concat_hashes(hs) == concat_digests(hs.map_values(|a: [u8; 32]| a@)),
    decreases hs.len(),
{
    if hs.len() > 0 {
        lemma_concat_arrays(hs.drop_last());
        assert(hs.drop_last().map_values(|a: [u8; 32]| a@) =~= hs.map_values(|a: [u8; 32]| a@).drop_last());
    }
}

/// The commitment stored for node `i`.
pub open spec fn stored_commitment(s: Skill, i: int) -> Seq<u8> {
    let h = s.nodes@[i].hash_idx as int;
    crate::manifest::sect_bytes(s.manifest.hashes).subrange(32 * h, 32 * h + 32)
}

/// The nearest node at or above `i` that stores a commitment.
pub open spec fn nearest_commitment(nodes: Seq<Node>, i: int) -> Option<int>
    decreases i,
{
    if !(0 <= i < nodes.len()) {
        None
    } else if nodes[i].hash_idx != NONE32 {
        Some(i)
    } else if nodes[i].parent == NONE32 || nodes[i].parent >= i {
        None
    } else {
        nearest_commitment(nodes, nodes[i].parent as int)
    }
}

/// Every stored commitment matches the subtree it commits to.
pub open spec fn all_verify(s: Skill) -> bool {
    forall|i: int|
        0 <= i < s.nodes@.len() && (#[trigger] s.nodes@[i]).hash_idx != NONE32 ==> subtree_commitment(s, i)
            == Some(stored_commitment(s, i))
}

impl<'a> Skill<'a> {
    /// The first skill's name: routing entry 0.
    pub fn name(&self) -> (r: Result<String, Error>)
        ensures
            r is Ok <==> self.routing@.len() > 0,
            r matches Ok(n) ==> n@ == self.routing@[0].name@,
            r matches Err(e) ==> e == Error::RoutingEmpty,
    {
        if self.routing.len() == 0 {
            return Err(Error::RoutingEmpty);
        }
        Ok(self.routing[0].name.clone())
    }

    /// The first skill's description: routing entry 0.
    pub fn description(&self) -> (r: Result<String, Error>)
        ensures
            r is Ok <==> self.routing@.len() > 0,
            r matches Ok(n) ==> n@ == self.routing@[0].description@,
            r matches Err(e) ==> e == Error::RoutingEmpty,
    {
        if self.routing.len() == 0 {
            return Err(Error::RoutingEmpty);
        }
        Ok(self.routing[0].description.clone())
    }

    /// Reads the routing plane alone: the header and the routing block after it. It touches no
    /// body and checks no signature, so it is a hint about what to open, not a verdict.
    pub fn routing_view(bytes: &[u8]) -> (r: Result<Vec<RoutingEntry>, Error>)
        ensures
            r is Ok <==> header_err(bytes@) is None && block_ok(
                bytes@,
                64 + 112 * crate::raw::le16(bytes@, 0x1C),
            ),
            r matches Ok(es) ==> {
                let off = 64 + 112 * crate::raw::le16(bytes@, 0x1C);
                let count = le16(bytes@, off);
                &&& es@.len() == count
                &&& forall|i: int|
                    0 <= i < count ==> entry_reads(bytes@, off, count, i, #[trigger] es@[i])
            },
    {
        let header = Header::parse(bytes)?;
        let rt = crate::routing::read(bytes, header.routing_off())?;
        Ok(rt.entries)
    }

    /// As [`Skill::routing_view`], with the embedding block that may follow the routing block.
    pub fn routing_view_with_embeddings(bytes: &[u8]) -> (r: Result<
        (Vec<RoutingEntry>, Option<Embeddings>),
        Error,
    >)
        ensures
            r is Ok <==> header_err(bytes@) is None && block_ok(
                bytes@,
                64 + 112 * le16(bytes@, 0x1C),
            ) && embeddings_end(bytes@) <= usize::MAX && (magic_at(bytes@, embeddings_end(bytes@))
                ==> block_fits(
                bytes@,
                embeddings_end(bytes@),
                le16(bytes@, 64 + 112 * le16(bytes@, 0x1C)),
            )),
            r matches Ok((_, e)) ==> (e is Some <==> magic_at(bytes@, embeddings_end(bytes@))),
            r is Ok ==> header_err(bytes@) is None,
            r matches Ok((es, _)) ==> {
                let off = 64 + 112 * crate::raw::le16(bytes@, 0x1C);
                let count = le16(bytes@, off);
                &&& block_ok(bytes@, off)
                &&& es@.len() == count
                &&& forall|i: int|
                    0 <= i < count ==> entry_reads(bytes@, off, count, i, #[trigger] es@[i])
            },
    {
        let header = Header::parse(bytes)?;
        let off = header.routing_off();
        let rt = crate::routing::read(bytes, off)?;
        if rt.stored_len > usize::MAX - off {
            return Err(Error::OffsetOverflow { what: "routing" });
        }
        let emb = crate::embed::read(bytes, off + rt.stored_len, rt.entries.len())?;
        Ok((rt.entries, emb))
    }

    /// The children of node `idx`, in pre-order; none for an index out of range.
    pub fn children_of(&self, idx: u32) -> (r: &[u32])
        requires
            self.wf(),
        ensures
            idx < self.nodes@.len() ==> r@ == self.children@[idx as int]@,
            idx >= self.nodes@.len() ==> r@.len() == 0,
    {
        if (idx as usize) < self.children.len() {
            self.children[idx as usize].as_slice()
        } else {
            let empty: &[u32] = &[];
            assert(empty@.len() == 0);
            empty
        }
    }

    /// One payload region as a reader sees it. A compressed region is checked against its
    /// committed hash before it is decompressed, and must decompress to exactly its declared
    /// length.
    pub fn region(&self, cold: bool) -> (r: Result<Vec<u8>, Error>)
        requires
            self.wf(),
        ensures
            r is Ok <==> region_bytes(*self, cold) is Some,
            r matches Ok(v) ==> v@ == region_bytes(*self, cold)->0,
    {
        let (region, flag, which) = if cold {
            (self.manifest.cold, COLD_ZSTD, "cold region")
        } else {
            (self.manifest.hot, HOT_ZSTD, "hot region")
        };
        let total = self.bytes.len();
        assert(region.0 + region.1 <= total);
        let stored = &self.bytes[region.0 as usize..region.0 as usize + region.1 as usize];
        assert(stored@ == stored_region(*self, cold));
        if self.manifest.flags & flag == 0 {
            return Ok(crate::text::to_vec(stored));
        }
        let pair = match self.manifest.region_hashes {
            Some(p) => p,
            None => {
                return Err(Error::UncommittedRegion(which));
            },
        };
        let want = if cold { pair.1 } else { pair.0 };
        let have = blake3_hash(stored);
        if !bytes_eq(have.as_slice(), want.as_slice()) {
            return Err(Error::RegionHashMismatch(which));
        }
        let out = match decompress(stored, region.2 as usize, self.dict) {
            Ok(v) => v,
            Err(_) => {
                return Err(Error::DeclaredLenMismatch { what: which });
            },
        };
        if out.len() != region.2 as usize {
            return Err(Error::DeclaredLenMismatch { what: which });
        }
        Ok(out)
    }

    /// The raw bytes of node `idx`'s payload, unverified: callers that care use
    /// [`Skill::verified_payload`].
    pub fn payload(&self, idx: u32) -> (r: Result<Vec<u8>, Error>)
        requires
            self.wf(),
        ensures
            idx >= self.nodes@.len() ==> r == Err::<Vec<u8>, Error>(Error::NodeIndexOutOfRange(idx)),
            idx < self.nodes@.len() ==> (r is Ok <==> payload_bytes(*self, idx as int) is Some),
            r matches Ok(v) ==> v@ == payload_bytes(*self, idx as int)->0,
    {
        if idx as usize >= self.nodes.len() {
            return Err(Error::NodeIndexOutOfRange(idx));
        }
        let n = self.nodes[idx as usize];
        if n.payload_len == 0 {
            return Ok(Vec::new());
        }
        let region = self.region((n.flags / 2) % 2 == 1)?;
        self.slice_payload(&region, idx)
    }

    fn slice_payload(&self, region: &Vec<u8>, idx: u32) -> (r: Result<Vec<u8>, Error>)
        requires
            idx < self.nodes@.len(),
            self.nodes@[idx as int].payload_len != 0,
            region_bytes(*self, is_cold(self.nodes@[idx as int])) == Some(region@),
        ensures
            r is Ok <==> payload_bytes(*self, idx as int) is Some,
            r matches Ok(v) ==> v@ == payload_bytes(*self, idx as int)->0,
    {
        let n = self.nodes[idx as usize];
        if n.payload_off as usize > region.len() || n.payload_len as usize > region.len()
            - n.payload_off as usize {
            return Err(Error::RangeOutOfBounds {
                what: "payload",
                off: n.payload_off,
                len: n.payload_len,
            });
        }
        let s = &region.as_slice()[n.payload_off as usize..n.payload_off as usize
            + n.payload_len as usize];
        Ok(crate::text::to_vec(s))
    }
}


/// `p` laid before what `o` holds, if it holds anything.
pub open spec fn prepend(p: Seq<Seq<u8>>, o: Option<Seq<Seq<u8>>>) -> Option<Seq<Seq<u8>>> {
    match o {
        Some(r) => Some(p + r),
        None => None,
    }
}

/// A region as loaded, matching what a reader sees of it.
pub open spec fn loaded(s: Skill, cold: bool, r: Result<Vec<u8>, Error>) -> bool {
    &&& (r is Ok <==> region_bytes(s, cold) is Some)
    &&& (r matches Ok(v) ==> v@ == region_bytes(s, cold)->0)
}

impl<'a> Skill<'a> {
    /// The nearest node at or above `idx` that stores a commitment. Interior nodes store none, so
    /// verifying one means verifying the smallest committed subtree that contains it.
    pub fn commitment_for(&self, idx: u32) -> (r: Result<u32, Error>)
        requires
            self.wf(),
        ensures
            idx >= self.nodes@.len() ==> r == Err::<u32, Error>(Error::NodeIndexOutOfRange(idx)),
            idx < self.nodes@.len() ==> r == match nearest_commitment(self.nodes@, idx as int) {
                Some(a) => Ok::<u32, Error>(a as u32),
                None => Err(Error::RootHasNoCommitment),
            },
    {
        if idx as usize >= self.nodes.len() {
            return Err(Error::NodeIndexOutOfRange(idx));
        }
        proof {
            crate::validate::lemma_parent_before(self.nodes@);
        }
        let mut cur = idx;
        loop
            invariant
                self.wf(),
                cur < self.nodes@.len(),
                nearest_commitment(self.nodes@, idx as int) == nearest_commitment(
                    self.nodes@,
                    cur as int,
                ),
                forall|c: int| 1 <= c < self.nodes@.len() ==> #[trigger] self.nodes@[c].parent < c,
                self.nodes@.len() > 0 ==> self.nodes@[0].parent == NONE32,
            decreases cur,
        {
            let n = self.nodes[cur as usize];
            if n.hash_idx != NONE32 {
                return Ok(cur);
            }
            if n.parent == NONE32 {
                return Err(Error::RootHasNoCommitment);
            }
            assert(cur != 0);
            cur = n.parent;
        }
    }

    fn subtree_in(
        &self,
        hot: &Result<Vec<u8>, Error>,
        cold: &Result<Vec<u8>, Error>,
        idx: u32,
    ) -> (r: Result<[u8; 32], Error>)
        requires
            self.wf(),
            idx < self.nodes@.len(),
            loaded(*self, false, *hot),
            loaded(*self, true, *cold),
        ensures
            r is Ok <==> subtree_commitment(*self, idx as int) is Some,
            r matches Ok(h) ==> h@ == subtree_commitment(*self, idx as int)->0,
        decreases self.nodes@.len() - idx,
    {
        proof {
            crate::validate::lemma_parent_before(self.nodes@);
        }
        let ghost s = *self;
        let ghost i = idx as int;
        let n = self.nodes[idx as usize];
        let row = self.children_of(idx);
        let mut kids: Vec<[u8; 32]> = Vec::new();
        let mut k: usize = 0;
        assert(kids@.map_values(|a: [u8; 32]| a@) + Seq::<Seq<u8>>::empty() =~= Seq::<Seq<u8>>::empty());
        assert(prepend(kids@.map_values(|a: [u8; 32]| a@), kid_commitments(s, i, 0))
            =~= kid_commitments(s, i, 0));
        while k < row.len()
            invariant
                self.wf(),
                s == *self,
                i == idx,
                idx < self.nodes@.len(),
                0 <= k <= row@.len(),
                row@ == self.children@[i]@,
                loaded(*self, false, *hot),
                loaded(*self, true, *cold),
                forall|c: int| 1 <= c < self.nodes@.len() ==> #[trigger] self.nodes@[c].parent < c,
                kid_commitments(s, i, 0) == prepend(
                    kids@.map_values(|a: [u8; 32]| a@),
                    kid_commitments(s, i, k as int),
                ),
            decreases row@.len() - k,
        {
            let c = row[k];
            assert(self.children@[i]@[k as int] == c);
            assert(c < self.nodes@.len() && self.nodes@[c as int].parent == idx);
            assert(idx < c);
            let ghost before = kids@.map_values(|a: [u8; 32]| a@);
            let h = match self.subtree_in(hot, cold, c) {
                Ok(h) => h,
                Err(e) => {
                    assert(kid_commitments(s, i, k as int) is None);
                    return Err(e);
                },
            };
            kids.push(h);
            proof {
                assert(kids@.map_values(|a: [u8; 32]| a@) =~= before.push(h@));
                match kid_commitments(s, i, k + 1) {
                    Some(rest) => {
                        assert(before + (seq![h@] + rest) =~= before.push(h@) + rest);
                    },
                    None => {},
                }
            }
            k += 1;
        }
        proof {
            assert(kid_commitments(s, i, k as int) == Some(Seq::<Seq<u8>>::empty()));
            assert(kids@.map_values(|a: [u8; 32]| a@) + Seq::<Seq<u8>>::empty() =~= kids@.map_values(
                |a: [u8; 32]| a@,
            ));
            lemma_concat_arrays(kids@);
        }
        let name: Vec<u8> = if n.name_idx == NONE32 {
            Vec::new()
        } else {
            match self.manifest.string(n.name_idx) {
                Ok(t) => {
                    proof {
                        vstd::utf8::decode_utf8_encode_utf8(self.manifest.string_bytes(n.name_idx as int));
                    }
                    crate::text::to_vec(t.as_str().as_bytes())
                },
                Err(e) => {
                    return Err(e);
                },
            }
        };
        assert(name_bytes(s, i) == Some(name@));
        let payload: Vec<u8> = if n.payload_len == 0 {
            Vec::new()
        } else {
            let region = if (n.flags / 2) % 2 == 1 {
                cold
            } else {
                hot
            };
            match region {
                Ok(v) => self.slice_payload(v, idx)?,
                Err(e) => {
                    return Err(e.clone());
                },
            }
        };
        assert(payload_bytes(s, i) == Some(payload@));
        Ok(
            crate::subtree::subtree_hash(
                n.kind,
                n.tier,
                n.flags % 2 == 1,
                n.depth,
                n.role,
                name.as_slice(),
                payload.as_slice(),
                kids.as_slice(),
            ),
        )
    }

    /// Recomputes the commitment of the subtree at `idx` from the file.
    pub fn compute_subtree(&self, idx: u32) -> (r: Result<[u8; 32], Error>)
        requires
            self.wf(),
        ensures
            idx >= self.nodes@.len() ==> r is Err,
            idx < self.nodes@.len() ==> (r is Ok <==> subtree_commitment(*self, idx as int) is Some),
            r matches Ok(h) ==> h@ == subtree_commitment(*self, idx as int)->0,
    {
        if idx as usize >= self.nodes.len() {
            return Err(Error::NodeIndexOutOfRange(idx));
        }
        let hot = self.region(false);
        let cold = self.region(true);
        self.subtree_in(&hot, &cold, idx)
    }

    /// Node `idx`'s payload, returned only once the nearest stored commitment above it matches the
    /// subtree recomputed from the file.
    pub fn verified_payload(&self, idx: u32) -> (r: Result<Vec<u8>, Error>)
        requires
            self.wf(),
        ensures
            r matches Ok(v) ==> {
                &&& idx < self.nodes@.len()
                &&& commitment_holds(*self, idx as int)
                &&& v@ == payload_bytes(*self, idx as int)->0
            },
            idx < self.nodes@.len() && commitment_differs(*self, idx as int) ==> r == Err::<
                Vec<u8>,
                Error,
            >(Error::PayloadHashMismatch(idx)),
            idx >= self.nodes@.len() ==> r == Err::<Vec<u8>, Error>(Error::NodeIndexOutOfRange(idx)),
            r is Ok <==> idx < self.nodes@.len() && commitment_holds(*self, idx as int) && payload_bytes(
                *self,
                idx as int,
            ) is Some,
    {
        let at = self.commitment_for(idx)?;
        proof {
            crate::validate::lemma_indices(self.manifest, self.nodes@);
            lemma_nearest_is_committed(self.nodes@, idx as int);
        }
        let want = self.manifest.hash(self.nodes[at as usize].hash_idx)?;
        let got = self.compute_subtree(at)?;
        if !bytes_eq(got.as_slice(), want.as_slice()) {
            return Err(Error::PayloadHashMismatch(idx));
        }
        self.payload(idx)
    }

    /// Checks every stored commitment against the subtree it commits to.
    pub fn verify_all(&self) -> (r: Result<(), Error>)
        requires
            self.wf(),
        ensures
            r is Ok <==> all_verify(*self),
    {
        proof {
            crate::validate::lemma_indices(self.manifest, self.nodes@);
        }
        let n = self.nodes.len();
        let mut i: usize = 0;
        while i < n
            invariant
                self.wf(),
                n == self.nodes@.len(),
                0 <= i <= n,
                forall|j: int|
                    0 <= j < self.nodes@.len() ==> (#[trigger] self.nodes@[j].hash_idx == NONE32
                        || self.nodes@[j].hash_idx < self.manifest.spec_hash_count()),
                forall|j: int|
                    0 <= j < i && (#[trigger] self.nodes@[j]).hash_idx != NONE32 ==> subtree_commitment(
                        *self,
                        j,
                    ) == Some(stored_commitment(*self, j)),
            decreases n - i,
        {
            let h = self.nodes[i].hash_idx;
            if h != NONE32 {
                let want = self.manifest.hash(h)?;
                let got = match self.compute_subtree(i as u32) {
                    Ok(g) => g,
                    Err(e) => {
                        return Err(e);
                    },
                };
                if !bytes_eq(got.as_slice(), want.as_slice()) {
                    return Err(Error::PayloadHashMismatch(i as u32));
                }
            }
            i += 1;
        }
        Ok(())
    }
}

/// The nearest stored commitment above node `i` matches the subtree recomputed from the file.
pub open spec fn commitment_holds(s: Skill, i: int) -> bool {
    match nearest_commitment(s.nodes@, i) {
        Some(a) => subtree_commitment(s, a) == Some(stored_commitment(s, a)),
        None => false,
    }
}

/// The subtree under the nearest stored commitment above node `i` resolves, and to something
/// other than what is stored.
pub open spec fn commitment_differs(s: Skill, i: int) -> bool {
    match nearest_commitment(s.nodes@, i) {
        Some(a) => match subtree_commitment(s, a) {
            Some(h) => h != stored_commitment(s, a),
            None => false,
        },
        None => false,
    }
}

proof fn lemma_nearest_is_committed(nodes: Seq<Node>, i: int)
    ensures
        nearest_commitment(nodes, i) matches Some(a) ==> 0 <= a < nodes.len() && nodes[a].hash_idx
            != NONE32,
    decreases i,
{
    if 0 <= i < nodes.len() && nodes[i].hash_idx == NONE32 && nodes[i].parent != NONE32
        && nodes[i].parent < i {
        lemma_nearest_is_committed(nodes, nodes[i].parent as int);
    }
}

/// Tier never decreases from a parent to its child in a file a reader accepts, and node 0 is
/// routing-tier: so the nodes loaded up to any tier form a subtree closed under taking parents,
/// and no loaded node hangs below one that was not loaded.
pub proof fn loaded_tiers_are_closed_under_parents(s: Skill, t: crate::graph::Tier)
    requires
        s.wf(),
    ensures
        s.nodes@.len() > 0 ==> s.nodes@[0].tier == crate::graph::Tier::Routing,
        forall|c: int|
            1 <= c < s.nodes@.len() && crate::graph::tier_code(#[trigger] s.nodes@[c].tier)
                <= crate::graph::tier_code(t) ==> s.nodes@[c].parent < c && crate::graph::tier_code(
                s.nodes@[s.nodes@[c].parent as int].tier,
            ) <= crate::graph::tier_code(t),
{
    reveal(tree_ok);
}

} // verus!
