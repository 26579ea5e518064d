//! The manifest: a 48-byte header, a directory of sections, and the fixed-width tables the
//! directory points at. Tables may be stored zstd-compressed; each is decoded once, into a
//! buffer bounded by its declared length, when the manifest is parsed.
//!
//! ```text
//! 0x00 sect_count u16   0x02 flags u16      0x04 reserved[8]
//! 0x0C version_idx u32  0x10 license_idx u32 0x14 node_count u32
//! 0x18 hot_off  0x1C hot_len  0x20 cold_off  0x24 cold_len  0x28 hot_orig  0x2C cold_orig
//! ```

use vstd::prelude::*;

use vstd::utf8::{decode_utf8, valid_utf8};

use crate::codec::{decompress, decompressed_spec, dict_view, Dictionary};
use crate::error::Error;
use crate::graph::{
    abi_code, edge_code, kind_code, tier_code, Abi, Edge, EdgeKind, Kind, Node, Segment, Tier,
    TrustClass, CONTAINS_TAG, EDGE_EXTERNAL,
};
use crate::raw::{
    all_zero, bytes_at, hash_at, in_bounds, le16, le32, u16_at, u32_at, u8_at,
};
use crate::text::utf8;

verus! {

pub const MANIFEST_HDR_LEN: usize = 48;

pub const DIR_ENTRY_LEN: usize = 24;

pub const NODE_LEN: usize = 32;

pub const EDGE_LEN: usize = 8;

pub const SEGMENT_LEN: usize = 96;

pub const CAP_LEN: usize = 8;

pub const HASH_LEN: usize = 32;

pub const SECT_STRINGS: u16 = 1;

pub const SECT_NODES: u16 = 2;

pub const SECT_EDGES: u16 = 3;

pub const SECT_HASHES: u16 = 4;

pub const SECT_SEGMENTS: u16 = 5;

pub const SECT_CAPS: u16 = 6;

pub const SECT_EXTREFS: u16 = 7;

pub const SECT_SRCSPANS: u16 = 8;

pub const SECT_DICTREF: u16 = 9;

pub const SECT_REGIONS: u16 = 10;

pub const SECT_ROUTING: u16 = 11;

pub const SECT_EMBEDDINGS: u16 = 12;

/// Section flag bit 0: a reader that does not know this section must refuse the file.
pub const SECT_MUST_UNDERSTAND: u16 = 1;

/// Section flag bit 1: the section is stored as one zstd frame.
pub const SECT_ZSTD: u16 = 2;

/// Manifest flag bit 0: the HOT region is one zstd frame.
pub const HOT_ZSTD: u16 = 1;

/// Manifest flag bit 1: the COLD region is one zstd frame.
pub const COLD_ZSTD: u16 = 2;

/// Manifest flag bit 2: the file needs a shared dictionary.
pub const USES_DICT: u16 = 4;

/// No declared length may ask the reader for more than this; a decompression bomb is refused
/// before anything is allocated.
pub const MAX_SECTION_BYTES: u32 = 0x1000_0000;

/// One table, decoded.
#[derive(Debug, Clone)]
pub struct Section {
    pub data: Vec<u8>,
    pub count: u32,
}

#[derive(Debug)]
pub struct Manifest {
    pub flags: u16,
    pub version_idx: u32,
    pub license_idx: u32,
    pub node_count: u32,
    /// `(offset, stored length, decompressed length)` of the HOT region.
    pub hot: (u32, u32, u32),
    /// `(offset, stored length, decompressed length)` of the COLD region.
    pub cold: (u32, u32, u32),
    /// The BLAKE3 of the shared dictionary this file requires.
    pub dict_hash: Option<[u8; 32]>,
    /// BLAKE3 of the stored HOT and COLD bytes.
    pub region_hashes: Option<([u8; 32], [u8; 32])>,
    /// Length and BLAKE3 of the routing block.
    pub routing: Option<(u32, [u8; 32])>,
    /// Length and BLAKE3 of the embedding block.
    pub embeddings: Option<(u32, [u8; 32])>,
    pub strings: Option<Section>,
    pub nodes: Option<Section>,
    pub edges: Option<Section>,
    pub hashes: Option<Section>,
    pub segments: Option<Section>,
    pub caps: Option<Section>,
}

pub open spec fn sect_count_of(s: Option<Section>) -> u32 {
    match s {
        Some(x) => x.count,
        None => 0,
    }
}

pub open spec fn sect_bytes(s: Option<Section>) -> Seq<u8> {
    match s {
        Some(x) => x.data@,
        None => Seq::empty(),
    }
}

/// A table whose length is a whole number of records agreeing with its declared count.
pub open spec fn fixed_ok(s: Option<Section>, unit: int) -> bool {
    match s {
        Some(x) => (x.data@.len() as int) % unit == 0 && (x.data@.len() as int) / unit == x.count,
        None => true,
    }
}

/// Node `i` as its 32-byte record encodes it.
pub open spec fn node_reads(b: Seq<u8>, i: int, n: Node) -> bool {
    let o = 32 * i;
    &&& kind_code(n.kind) == b[o]
    &&& tier_code(n.tier) == b[o + 1]
    &&& n.flags == b[o + 2]
    &&& n.depth == b[o + 3]
    &&& n.role == le16(b, o + 4)
    &&& n.edge_cnt == le16(b, o + 6)
    &&& n.name_idx == le32(b, o + 8)
    &&& n.edge_off == le32(b, o + 12)
    &&& n.payload_off == le32(b, o + 16)
    &&& n.payload_len == le32(b, o + 20)
    &&& n.hash_idx == le32(b, o + 24)
    &&& n.parent == le32(b, o + 28)
}

/// Edge `i` as its 8-byte record encodes it; bit 7 of the tag marks an external target.
pub open spec fn edge_reads(b: Seq<u8>, i: int, e: Edge) -> bool {
    let o = 8 * i;
    &&& e.dst == le32(b, o)
    &&& e.external == (b[o + 4] >= 128)
    &&& edge_code(e.kind) == b[o + 4] % 128
    &&& e.ordinal == b[o + 5]
    &&& e.label == le16(b, o + 6)
}

/// Directory entry `i` of the manifest `raw` has id `id` and its bytes are `data`: the stored
/// range itself, or, when the entry is flagged compressed, what that range decompresses to
/// under its declared length.
pub open spec fn entry_data(raw: Seq<u8>, dict: Option<Seq<u8>>, i: int, id: u16, data: Seq<u8>) -> bool {
    let o = 48 + 24 * i;
    let soff = le32(raw, o + 4);
    let slen = le32(raw, o + 8);
    &&& 0 <= i < le16(raw, 0)
    &&& le16(raw, o) == id
    &&& soff + slen <= raw.len()
    &&& if (le16(raw, o + 2) / 2) % 2 == 1 {
        decompressed_spec(raw.subrange(soff, soff + slen), le32(raw, o + 16) as usize, dict)
            == Some(data)
    } else {
        data == raw.subrange(soff, soff + slen)
    }
}

/// A table the manifest holds came from a directory entry with its id.
pub open spec fn holds_entry(raw: Seq<u8>, dict: Option<Seq<u8>>, id: u16, s: Option<Section>) -> bool {
    s matches Some(sec) ==> exists|i: int| #[trigger] entry_data(raw, dict, i, id, sec.data@)
}

impl Manifest {
    /// The manifest header fields as read from `raw`.
    pub open spec fn reads_header(self, raw: Seq<u8>) -> bool {
        &&& self.flags == le16(raw, 0x02)
        &&& self.version_idx == le32(raw, 0x0C)
        &&& self.license_idx == le32(raw, 0x10)
        &&& self.node_count == le32(raw, 0x14)
        &&& self.hot == (le32(raw, 0x18) as u32, le32(raw, 0x1C) as u32, le32(raw, 0x28) as u32)
        &&& self.cold == (le32(raw, 0x20) as u32, le32(raw, 0x24) as u32, le32(raw, 0x2C) as u32)
    }

    /// Every table has a whole number of records matching its count, and the node table holds
    /// exactly `node_count` records.
    pub open spec fn well_formed(self) -> bool {
        &&& fixed_ok(self.nodes, 32)
        &&& fixed_ok(self.edges, 8)
        &&& fixed_ok(self.hashes, 32)
        &&& fixed_ok(self.segments, 96)
        &&& fixed_ok(self.caps, 8)
        &&& self.node_count == sect_count_of(self.nodes)
    }

    pub open spec fn spec_string_count(self) -> u32 {
        sect_count_of(self.strings)
    }

    pub open spec fn spec_edge_count(self) -> u32 {
        sect_count_of(self.edges)
    }

    pub open spec fn spec_hash_count(self) -> u32 {
        sect_count_of(self.hashes)
    }

    pub open spec fn spec_segment_count(self) -> u32 {
        sect_count_of(self.segments)
    }

    /// Parses the manifest header and directory, decoding every table it knows.
    pub fn parse(raw: &[u8], dict: Option<&Dictionary>) -> (r: Result<Manifest, Error>)
        ensures
            r matches Ok(m) ==> m.reads_header(raw@) && m.well_formed(),
            r matches Ok(m) ==> holds_entry(raw@, dict_view(dict), SECT_STRINGS, m.strings),
            r matches Ok(m) ==> holds_entry(raw@, dict_view(dict), SECT_NODES, m.nodes),
            r matches Ok(m) ==> holds_entry(raw@, dict_view(dict), SECT_EDGES, m.edges),
            r matches Ok(m) ==> holds_entry(raw@, dict_view(dict), SECT_HASHES, m.hashes),
            r matches Ok(m) ==> holds_entry(raw@, dict_view(dict), SECT_SEGMENTS, m.segments),
            r matches Ok(m) ==> holds_entry(raw@, dict_view(dict), SECT_CAPS, m.caps),
            raw@.len() < 48 ==> r == Err::<Manifest, Error>(
                Error::Truncated { off: 0, need: 48 },
            ),
    {
        if raw.len() < MANIFEST_HDR_LEN {
            return Err(Error::Truncated { off: 0, need: MANIFEST_HDR_LEN });
        }
        all_zero(raw, 0x04, 8, "manifest reserved 0x04")?;
        let sect_count = u16_at(raw, 0x00)?;
        let flags = u16_at(raw, 0x02)?;
        let mut m = Manifest {
            flags,
            version_idx: u32_at(raw, 0x0C)?,
            license_idx: u32_at(raw, 0x10)?,
            node_count: u32_at(raw, 0x14)?,
            hot: (u32_at(raw, 0x18)?, u32_at(raw, 0x1C)?, u32_at(raw, 0x28)?),
            cold: (u32_at(raw, 0x20)?, u32_at(raw, 0x24)?, u32_at(raw, 0x2C)?),
            dict_hash: None,
            region_hashes: None,
            routing: None,
            embeddings: None,
            strings: None,
            nodes: None,
            edges: None,
            hashes: None,
            segments: None,
            caps: None,
        };
        let mut i: u16 = 0;
        while i < sect_count
            invariant
                m.reads_header(raw@),
                sect_count == le16(raw@, 0),
                holds_entry(raw@, dict_view(dict), SECT_STRINGS, m.strings),
                holds_entry(raw@, dict_view(dict), SECT_NODES, m.nodes),
                holds_entry(raw@, dict_view(dict), SECT_EDGES, m.edges),
                holds_entry(raw@, dict_view(dict), SECT_HASHES, m.hashes),
                holds_entry(raw@, dict_view(dict), SECT_SEGMENTS, m.segments),
                holds_entry(raw@, dict_view(dict), SECT_CAPS, m.caps),
                fixed_ok(m.nodes, 32),
                fixed_ok(m.edges, 8),
                fixed_ok(m.hashes, 32),
                fixed_ok(m.segments, 96),
                fixed_ok(m.caps, 8),
            decreases sect_count - i,
        {
            let off = MANIFEST_HDR_LEN + DIR_ENTRY_LEN * i as usize;
            let id = u16_at(raw, off)?;
            let sflags = u16_at(raw, off + 0x02)?;
            let soff = u32_at(raw, off + 0x04)?;
            let slen = u32_at(raw, off + 0x08)?;
            let count = u32_at(raw, off + 0x0C)?;
            let orig_len = u32_at(raw, off + 0x10)?;
            all_zero(raw, off + 0x14, 4, "section reserved 0x14")?;
            i += 1;
            if soff > u32::MAX - slen {
                return Err(Error::OffsetOverflow { what: "section" });
            }
            let end = soff + slen;
            if end as usize > raw.len() {
                return Err(Error::RangeOutOfBounds { what: "section", off: soff, len: slen });
            }
            if soff % 8 != 0 {
                return Err(Error::SectionMisaligned(id));
            }
            let known = id == SECT_STRINGS || id == SECT_NODES || id == SECT_EDGES || id
                == SECT_HASHES || id == SECT_SEGMENTS || id == SECT_CAPS || id == SECT_DICTREF
                || id == SECT_REGIONS || id == SECT_ROUTING || id == SECT_EMBEDDINGS;
            if id == SECT_EXTREFS || id == SECT_SRCSPANS {
                continue;
            }
            if !known {
                if sflags % 2 == 1 {
                    return Err(Error::UnknownSection(id));
                }
                continue;
            }
            let stored = &raw[soff as usize..end as usize];
            let data: Vec<u8> = if (sflags / 2) % 2 == 1 {
                if orig_len > MAX_SECTION_BYTES {
                    return Err(Error::DeclaredLenMismatch { what: "section" });
                }
                match decompress(stored, orig_len as usize, dict) {
                    Ok(v) => {
                        if v.len() != orig_len as usize {
                            return Err(Error::DeclaredLenMismatch { what: "section" });
                        }
                        v
                    },
                    Err(_) => {
                        return Err(Error::DeclaredLenMismatch { what: "section" });
                    },
                }
            } else {
                if orig_len != slen {
                    return Err(Error::DeclaredLenMismatch { what: "section" });
                }
                crate::text::to_vec(stored)
            };
            let unit: usize = if id == SECT_NODES || id == SECT_HASHES || id == SECT_DICTREF {
                32
            } else if id == SECT_EDGES || id == SECT_CAPS {
                8
            } else if id == SECT_SEGMENTS {
                96
            } else if id == SECT_REGIONS {
                64
            } else if id == SECT_ROUTING || id == SECT_EMBEDDINGS {
                36
            } else {
                1
            };
            if unit != 1 {
                if data.len() % unit != 0 {
                    return Err(Error::SectionLenNotMultiple { id, len: slen, unit });
                }
                if data.len() / unit != count as usize {
                    return Err(Error::SectionCountMismatch { id });
                }
            }
            assert(entry_data(raw@, dict_view(dict), i - 1, id, data@));
            let ghost dv = data@;
            let sect = Section { data, count };
            assert(sect.data@ == dv);
            if id == SECT_STRINGS {
                if m.strings.is_some() {
                    return Err(Error::DuplicateSection(id));
                }
                m.strings = Some(sect);
                assert(entry_data(raw@, dict_view(dict), i - 1, SECT_STRINGS, m.strings->0.data@));
            } else if id == SECT_NODES {
                if m.nodes.is_some() {
                    return Err(Error::DuplicateSection(id));
                }
                m.nodes = Some(sect);
                assert(entry_data(raw@, dict_view(dict), i - 1, SECT_NODES, m.nodes->0.data@));
            } else if id == SECT_EDGES {
                if m.edges.is_some() {
                    return Err(Error::DuplicateSection(id));
                }
                m.edges = Some(sect);
                assert(entry_data(raw@, dict_view(dict), i - 1, SECT_EDGES, m.edges->0.data@));
            } else if id == SECT_HASHES {
                if m.hashes.is_some() {
                    return Err(Error::DuplicateSection(id));
                }
                m.hashes = Some(sect);
                assert(entry_data(raw@, dict_view(dict), i - 1, SECT_HASHES, m.hashes->0.data@));
            } else if id == SECT_SEGMENTS {
                if m.segments.is_some() {
                    return Err(Error::DuplicateSection(id));
                }
                m.segments = Some(sect);
                assert(entry_data(raw@, dict_view(dict), i - 1, SECT_SEGMENTS, m.segments->0.data@));
            } else if id == SECT_CAPS {
                if m.caps.is_some() {
                    return Err(Error::DuplicateSection(id));
                }
                m.caps = Some(sect);
                assert(entry_data(raw@, dict_view(dict), i - 1, SECT_CAPS, m.caps->0.data@));
            } else if id == SECT_DICTREF {
                if m.dict_hash.is_some() || count != 1 {
                    return Err(Error::DuplicateSection(id));
                }
                m.dict_hash = Some(hash_at(sect.data.as_slice(), 0)?);
            } else if id == SECT_REGIONS {
                if m.region_hashes.is_some() || count != 1 {
                    return Err(Error::DuplicateSection(id));
                }
                let a = hash_at(sect.data.as_slice(), 0)?;
                let b = hash_at(sect.data.as_slice(), 32)?;
                m.region_hashes = Some((a, b));
            } else if id == SECT_ROUTING {
                if m.routing.is_some() || count != 1 {
                    return Err(Error::DuplicateSection(id));
                }
                let len = u32_at(sect.data.as_slice(), 0)?;
                let h = hash_at(sect.data.as_slice(), 4)?;
                m.routing = Some((len, h));
            } else {
                if m.embeddings.is_some() || count != 1 {
                    return Err(Error::DuplicateSection(id));
                }
                let len = u32_at(sect.data.as_slice(), 0)?;
                let h = hash_at(sect.data.as_slice(), 4)?;
                m.embeddings = Some((len, h));
            }
        }
        let have = match &m.nodes {
            Some(s) => s.count,
            None => 0,
        };
        if m.node_count != have {
            return Err(Error::SectionCountMismatch { id: SECT_NODES });
        }
        Ok(m)
    }

    pub fn string_count(&self) -> (r: u32)
        ensures
            r == self.spec_string_count(),
    {
        match &self.strings {
            Some(s) => s.count,
            None => 0,
        }
    }

    pub fn edge_count(&self) -> (r: u32)
        ensures
            r == self.spec_edge_count(),
    {
        match &self.edges {
            Some(s) => s.count,
            None => 0,
        }
    }

    pub fn hash_count(&self) -> (r: u32)
        ensures
            r == self.spec_hash_count(),
    {
        match &self.hashes {
            Some(s) => s.count,
            None => 0,
        }
    }

    pub fn segment_count(&self) -> (r: u32)
        ensures
            r == self.spec_segment_count(),
    {
        match &self.segments {
            Some(s) => s.count,
            None => 0,
        }
    }

    /// The bytes of string `idx`, located through the heap's offset table.
    pub open spec fn string_bytes(self, idx: int) -> Seq<u8> {
        let b = sect_bytes(self.strings);
        let c = self.spec_string_count() as int;
        let start = le32(b, 4 + 4 * idx);
        let end = le32(b, 4 + 4 * (idx + 1));
        b.subrange(4 + 4 * (c + 1) + start, 4 + 4 * (c + 1) + end)
    }

    /// String `idx` exists: its offsets are in bounds, ordered, and name valid UTF-8.
    pub open spec fn string_ok(self, idx: int) -> bool {
        let b = sect_bytes(self.strings);
        let c = self.spec_string_count() as int;
        let start = le32(b, 4 + 4 * idx);
        let end = le32(b, 4 + 4 * (idx + 1));
        &&& 0 <= idx < c
        &&& in_bounds(b.len() as int, 4 + 4 * (idx + 1), 4)
        &&& start <= end
        &&& in_bounds(b.len() as int, 4 + 4 * (c + 1) + start, end - start)
        &&& valid_utf8(self.string_bytes(idx))
    }

    /// String `idx` of the sorted heap.
    pub fn string(&self, idx: u32) -> (r: Result<String, Error>)
        ensures
            r is Ok <==> self.string_ok(idx as int),
            r matches Ok(s) ==> s@ == decode_utf8(self.string_bytes(idx as int)),
            r matches Err(e) ==> e == Error::StringIndexOutOfRange(idx) || e is Truncated
                || e is OffsetOverflow,
            idx >= self.spec_string_count() ==> r == Err::<String, Error>(
                Error::StringIndexOutOfRange(idx),
            ),
    {
        let s = match &self.strings {
            Some(s) => s,
            None => {
                return Err(Error::StringIndexOutOfRange(idx));
            },
        };
        if idx >= s.count {
            return Err(Error::StringIndexOutOfRange(idx));
        }
        let b = s.data.as_slice();
        let total = b.len();
        let i = idx as usize;
        if i > (usize::MAX - 12) / 4 {
            proof {
                let m = usize::MAX as int;
                assert(4 + 4 * (i + 1) + 4 > m) by (nonlinear_arith)
                    requires
                        i > (m - 12) / 4,
                        m > 12,
                ;
            }
            assert(!self.string_ok(idx as int));
            return Err(Error::StringIndexOutOfRange(idx));
        }
        if s.count as usize > (usize::MAX - 8) / 4 {
            proof {
                let m = usize::MAX as int;
                let c = s.count as int;
                assert(4 + 4 * (c + 1) > m) by (nonlinear_arith)
                    requires
                        c > (m - 8) / 4,
                        m > 8,
                ;
            }
            assert(!self.string_ok(idx as int));
            return Err(Error::StringIndexOutOfRange(idx));
        }
        let start = match u32_at(b, 4 + 4 * i) {
            Ok(v) => v as usize,
            Err(e) => {
                return Err(e);
            },
        };
        let end = match u32_at(b, 4 + 4 * (i + 1)) {
            Ok(v) => v as usize,
            Err(e) => {
                return Err(e);
            },
        };
        if end < start {
            return Err(Error::StringIndexOutOfRange(idx));
        }
        let heap = 4 + 4 * (s.count as usize + 1);
        if heap > usize::MAX - start {
            assert(!self.string_ok(idx as int));
            return Err(Error::StringIndexOutOfRange(idx));
        }
        let raw = match bytes_at(b, heap + start, end - start) {
            Ok(x) => x,
            Err(e) => {
                return Err(e);
            },
        };
        match utf8(raw) {
            Some(t) => Ok(t),
            None => Err(Error::StringIndexOutOfRange(idx)),
        }
    }

    /// Hash `idx` of the hash table.
    pub fn hash(&self, idx: u32) -> (r: Result<[u8; 32], Error>)
        requires
            self.well_formed(),
        ensures
            r is Ok <==> idx < self.spec_hash_count(),
            r matches Ok(h) ==> h@ == sect_bytes(self.hashes).subrange(32 * idx, 32 * idx + 32),
            r matches Err(e) ==> e == Error::HashIndexOutOfRange(idx),
    {
        let s = match &self.hashes {
            Some(s) => s,
            None => {
                return Err(Error::HashIndexOutOfRange(idx));
            },
        };
        if idx >= s.count {
            return Err(Error::HashIndexOutOfRange(idx));
        }
        let total = s.data.len();
        proof {
            assert(32 * (idx as int) + 32 <= total) by (nonlinear_arith)
                requires
                    idx < s.count,
                    (total as int) % 32 == 0,
                    (total as int) / 32 == s.count,
            ;
        }
        match hash_at(s.data.as_slice(), 32 * idx as usize) {
            Ok(h) => Ok(h),
            Err(_) => Err(Error::HashIndexOutOfRange(idx)),
        }
    }

    /// Node `idx`, with its kind and tier checked: an unknown kind is refused, never skipped.
    pub fn node(&self, idx: u32) -> (r: Result<Node, Error>)
        requires
            self.well_formed(),
        ensures
            r is Ok ==> idx < self.node_count,
            r matches Ok(n) ==> node_reads(sect_bytes(self.nodes), idx as int, n),
            idx >= self.node_count ==> r == Err::<Node, Error>(Error::NodeIndexOutOfRange(idx)),
            idx < self.node_count ==> (r is Ok <==> (1 <= sect_bytes(self.nodes)[32 * idx]
                <= 6 && sect_bytes(self.nodes)[32 * idx + 1] <= 2)),
    {
        let s = match &self.nodes {
            Some(s) => s,
            None => {
                return Err(Error::NodeIndexOutOfRange(idx));
            },
        };
        if idx >= s.count {
            return Err(Error::NodeIndexOutOfRange(idx));
        }
        let b = s.data.as_slice();
        let total = b.len();
        proof {
            assert(32 * (idx as int) + 32 <= total) by (nonlinear_arith)
                requires
                    idx < s.count,
                    (total as int) % 32 == 0,
                    (total as int) / 32 == s.count,
            ;
        }
        let o = NODE_LEN * idx as usize;
        assert(o + 32 <= b@.len()) by (nonlinear_arith)
            requires
                o == 32 * idx,
                idx < s.count,
                b@.len() == 32 * s.count,
        ;
        let kind = Kind::from_u8(b[o])?;
        let tier = Tier::from_u8(b[o + 1])?;
        Ok(Node {
            kind,
            tier,
            flags: b[o + 2],
            depth: b[o + 3],
            role: u16_at(b, o + 4)?,
            edge_cnt: u16_at(b, o + 6)?,
            name_idx: u32_at(b, o + 8)?,
            edge_off: u32_at(b, o + 12)?,
            payload_off: u32_at(b, o + 16)?,
            payload_len: u32_at(b, o + 20)?,
            hash_idx: u32_at(b, o + 24)?,
            parent: u32_at(b, o + 28)?,
        })
    }

    /// Edge `idx`. Tag 1 (`CONTAINS`) is reserved and rejected.
    pub fn edge(&self, idx: u32) -> (r: Result<Edge, Error>)
        requires
            self.well_formed(),
        ensures
            r is Ok ==> idx < self.spec_edge_count(),
            r matches Ok(e) ==> edge_reads(sect_bytes(self.edges), idx as int, e),
            idx >= self.spec_edge_count() ==> r == Err::<Edge, Error>(
                Error::NodeIndexOutOfRange(idx),
            ),
            idx < self.spec_edge_count() ==> (r is Ok <==> 2 <= sect_bytes(self.edges)[8 * idx
                + 4] % 128 <= 6),
            idx < self.spec_edge_count() && sect_bytes(self.edges)[8 * idx + 4] % 128 == 1 ==> r
                == Err::<Edge, Error>(Error::ContainsInEdgeTable(idx)),
            idx < self.spec_edge_count() && sect_bytes(self.edges)[8 * idx + 4] % 128 != 1 && !(2
                <= sect_bytes(self.edges)[8 * idx + 4] % 128 <= 6) ==> r == Err::<Edge, Error>(
                Error::UnknownEdgeKind((sect_bytes(self.edges)[8 * idx + 4] % 128) as u8),
            ),
    {
        let s = match &self.edges {
            Some(s) => s,
            None => {
                return Err(Error::NodeIndexOutOfRange(idx));
            },
        };
        if idx >= s.count {
            return Err(Error::NodeIndexOutOfRange(idx));
        }
        let b = s.data.as_slice();
        let total = b.len();
        proof {
            assert(8 * (idx as int) + 8 <= total) by (nonlinear_arith)
                requires
                    idx < s.count,
                    (total as int) % 8 == 0,
                    (total as int) / 8 == s.count,
            ;
        }
        let o = EDGE_LEN * idx as usize;
        assert(o + 8 <= b@.len()) by (nonlinear_arith)
            requires
                o == 8 * idx,
                idx < s.count,
                b@.len() == 8 * s.count,
        ;
        let tag = b[o + 4];
        let external = tag >= EDGE_EXTERNAL;
        let base = if external { tag - EDGE_EXTERNAL } else { tag };
        if base == CONTAINS_TAG {
            return Err(Error::ContainsInEdgeTable(idx));
        }
        assert(base == b@[o + 4] % 128);
        let kind = match EdgeKind::from_u8(base) {
            Ok(k) => k,
            Err(e) => {
                return Err(e);
            },
        };
        Ok(Edge {
            dst: u32_at(b, o)?,
            kind,
            external,
            ordinal: b[o + 5],
            label: u16_at(b, o + 6)?,
        })
    }

    /// Segment record `idx`. Its reserved tail must be zero.
    /// Segment record `idx` exists, its reserved tail is zero and its ABI code is known.
    pub open spec fn segment_reads(self, idx: int) -> bool {
        let b = sect_bytes(self.segments);
        let o = 96 * idx;
        &&& 0 <= idx < self.spec_segment_count()
        &&& crate::raw::all_zero_spec(b.subrange(o + 0x44, o + 0x60))
        &&& 1 <= le16(b, o + 0x24) <= 6
    }

    pub fn segment(&self, idx: u32) -> (r: Result<Segment, Error>)
        requires
            self.well_formed(),
        ensures
            r is Ok <==> self.segment_reads(idx as int),
            r is Ok ==> idx < self.spec_segment_count(),
            r matches Ok(g) ==> {
                let b = sect_bytes(self.segments);
                let o = 96 * idx;
                &&& g.root@ == b.subrange(o, o + 32)
                &&& g.orig_len == le32(b, o + 0x20)
                &&& abi_code(g.abi) == le16(b, o + 0x24)
                &&& g.codec == b[o + 0x26]
                &&& (g.trust_class == TrustClass::Portable <==> b[o + 0x27] == 0)
                &&& g.cap_off == le32(b, o + 0x28)
                &&& g.cap_cnt == le16(b, o + 0x2C)
                &&& g.flags == le16(b, o + 0x2E)
                &&& g.mem_kib == le32(b, o + 0x30)
                &&& g.cpu_ms == le32(b, o + 0x34)
                &&& g.wall_ms == le32(b, o + 0x38)
                &&& g.dict_idx == le32(b, o + 0x3C)
                &&& g.signer_idx == le32(b, o + 0x40)
            },
            idx >= self.spec_segment_count() ==> r == Err::<Segment, Error>(
                Error::SegmentIndexOutOfRange(idx),
            ),
            idx < self.spec_segment_count() && !crate::raw::all_zero_spec(
                sect_bytes(self.segments).subrange(96 * idx + 0x44, 96 * idx + 0x60),
            ) ==> r == Err::<Segment, Error>(
                Error::ReservedNonZero { what: "segment reserved 0x44" },
            ),
            idx < self.spec_segment_count() && crate::raw::all_zero_spec(
                sect_bytes(self.segments).subrange(96 * idx + 0x44, 96 * idx + 0x60),
            ) && !(1 <= le16(sect_bytes(self.segments), 96 * idx + 0x24) <= 6) ==> r == Err::<
                Segment,
                Error,
            >(Error::UnknownAbi(le16(sect_bytes(self.segments), 96 * idx + 0x24) as u16)),
    {
        let s = match &self.segments {
            Some(s) => s,
            None => {
                return Err(Error::SegmentIndexOutOfRange(idx));
            },
        };
        if idx >= s.count {
            return Err(Error::SegmentIndexOutOfRange(idx));
        }
        let b = s.data.as_slice();
        let total = b.len();
        proof {
            assert(96 * (idx as int) + 96 <= total) by (nonlinear_arith)
                requires
                    idx < s.count,
                    (total as int) % 96 == 0,
                    (total as int) / 96 == s.count,
            ;
        }
        let o = SEGMENT_LEN * idx as usize;
        assert(o + 96 <= b@.len()) by (nonlinear_arith)
            requires
                o == 96 * idx,
                idx < s.count,
                b@.len() == 96 * s.count,
        ;
        match all_zero(b, o + 0x44, 28, "segment reserved 0x44") {
            Ok(()) => {},
            Err(e) => {
                return Err(e);
            },
        }
        let code = u16_at(b, o + 0x24)?;
        let abi = match Abi::from_u16(code) {
            Ok(a) => a,
            Err(e) => {
                return Err(e);
            },
        };
        Ok(Segment {
            root: hash_at(b, o)?,
            orig_len: u32_at(b, o + 0x20)?,
            abi,
            codec: b[o + 0x26],
            trust_class: if b[o + 0x27] == 0 {
                TrustClass::Portable
            } else {
                TrustClass::HostTrusted
            },
            cap_off: u32_at(b, o + 0x28)?,
            cap_cnt: u16_at(b, o + 0x2C)?,
            flags: u16_at(b, o + 0x2E)?,
            mem_kib: u32_at(b, o + 0x30)?,
            cpu_ms: u32_at(b, o + 0x34)?,
            wall_ms: u32_at(b, o + 0x38)?,
            dict_idx: u32_at(b, o + 0x3C)?,
            signer_idx: u32_at(b, o + 0x40)?,
        })
    }

    /// Capability record `idx`: `(kind, flags, arg_idx)`, the argument a string-heap index.
    pub fn cap(&self, idx: u32) -> (r: Result<(u16, u16, u32), Error>)
        requires
            self.well_formed(),
        ensures
            r is Ok <==> idx < sect_count_of(self.caps),
            r matches Ok(c) ==> {
                let b = sect_bytes(self.caps);
                c.0 == le16(b, 8 * idx) && c.1 == le16(b, 8 * idx + 2) && c.2 == le32(
                    b,
                    8 * idx + 4,
                )
            },
            r matches Err(e) ==> e == Error::CapIndexOutOfRange(idx),
    {
        let s = match &self.caps {
            Some(s) => s,
            None => {
                return Err(Error::CapIndexOutOfRange(idx));
            },
        };
        if idx >= s.count {
            return Err(Error::CapIndexOutOfRange(idx));
        }
        let b = s.data.as_slice();
        let total = b.len();
        proof {
            assert(8 * (idx as int) + 8 <= total) by (nonlinear_arith)
                requires
                    idx < s.count,
                    (total as int) % 8 == 0,
                    (total as int) / 8 == s.count,
            ;
        }
        let o = CAP_LEN * idx as usize;
        assert(o + 8 <= b@.len()) by (nonlinear_arith)
            requires
                o == 8 * idx,
                idx < s.count,
                b@.len() == 8 * s.count,
        ;
        let kind = u16_at(b, o)?;
        let flags = u16_at(b, o + 2)?;
        let arg = u32_at(b, o + 4)?;
        Ok((kind, flags, arg))
    }
}

} // verus!
