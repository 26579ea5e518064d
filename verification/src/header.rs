//! The fixed 64-byte header. It is the entire commitment: it names the manifest root, the
//! manifest names every section, and every node names its subtree hash. Signing these 64 bytes
//! signs the file.

use vstd::prelude::*;

use crate::error::Error;
use crate::hashing::{blake3_digest, blake3_hash};
use crate::raw::{hash_at, le16, le32, u16_at, u32_at};

verus! {

/// `8F 53 4B 4C 0D 0A 1A 0A`: the high bit, `SKL`, a CRLF pair, DOS EOF and a lone LF, so
/// that every common way of mangling a binary file in transit changes these bytes.
pub const MAGIC: [u8; 8] = [0x8F, 0x53, 0x4B, 0x4C, 0x0D, 0x0A, 0x1A, 0x0A];

pub const HEADER_LEN: usize = 64;

pub const VERSION_MAJOR: u16 = 2;

pub const VERSION_MINOR: u16 = 0;

/// Every feature bit this reader implements. A file asserting anything outside this mask is
/// rejected rather than partially honoured.
pub const SUPPORTED_FEATURES: u32 = 0;

pub const SIG_LEN: usize = 112;

pub open spec fn magic_seq() -> Seq<u8> {
    seq![0x8Fu8, 0x53u8, 0x4Bu8, 0x4Cu8, 0x0Du8, 0x0Au8, 0x1Au8, 0x0Au8]
}

#[derive(Debug, Clone, Copy, PartialEq, Eq)]
pub struct Header {
    pub ver_major: u16,
    pub ver_minor: u16,
    pub feature_flags: u32,
    pub file_len: u32,
    pub manifest_off: u32,
    pub manifest_len: u32,
    pub sig_count: u16,
    pub manifest_root: [u8; 32],
}

/// The first failing check of the header, in the order the reading order performs them.
pub open spec fn header_err(b: Seq<u8>) -> Option<Error> {
    if b.len() < 64 {
        Some(Error::Truncated { off: 0, need: 64 })
    } else if b.subrange(0, 8) != magic_seq() {
        Some(Error::BadMagic)
    } else if le16(b, 0x08) != VERSION_MAJOR {
        Some(Error::UnsupportedMajor(le16(b, 0x08) as u16))
    } else if (le32(b, 0x0C) as u32) & !SUPPORTED_FEATURES != 0 {
        Some(Error::UnknownFeatureFlags((le32(b, 0x0C) as u32) & !SUPPORTED_FEATURES))
    } else if le16(b, 0x1E) != 0 {
        Some(Error::ReservedNonZero { what: "header 0x1E" })
    } else if le32(b, 0x10) != b.len() {
        Some(Error::LengthMismatch { declared: le32(b, 0x10) as u32, actual: b.len() as usize })
    } else {
        None
    }
}

impl Header {
    /// The fields of a header read from `b`.
    pub open spec fn reads(self, b: Seq<u8>) -> bool {
        &&& self.ver_major == le16(b, 0x08)
        &&& self.ver_minor == le16(b, 0x0A)
        &&& self.feature_flags == le32(b, 0x0C)
        &&& self.file_len == le32(b, 0x10)
        &&& self.manifest_off == le32(b, 0x14)
        &&& self.manifest_len == le32(b, 0x18)
        &&& self.sig_count == le16(b, 0x1C)
        &&& self.manifest_root@ == b.subrange(0x20, 0x40)
    }

    /// Checks magic, major version, feature mask, reserved field and declared length, touching
    /// exactly the first 64 bytes.
    pub fn parse(bytes: &[u8]) -> (r: Result<Header, Error>)
        ensures
            r is Ok <==> header_err(bytes@) is None,
            r matches Ok(h) ==> h.reads(bytes@),
            r matches Err(e) ==> header_err(bytes@) == Some(e),
    {
        if bytes.len() < HEADER_LEN {
            return Err(Error::Truncated { off: 0, need: HEADER_LEN });
        }
        let head = &bytes[0..HEADER_LEN];
        assert(head@ == bytes@.subrange(0, 64));
        let mut i: usize = 0;
        while i < 8
            invariant
                0 <= i <= 8,
                head@.len() == 64,
                forall|j: int| 0 <= j < i ==> head@[j] == magic_seq()[j],
            decreases 8 - i,
        {
            if head[i] != MAGIC[i] {
                assert(head@[i as int] != magic_seq()[i as int]);
                assert(bytes@.subrange(0, 8)[i as int] != magic_seq()[i as int]);
                return Err(Error::BadMagic);
            }
            i += 1;
        }
        assert(bytes@.subrange(0, 8) =~= magic_seq());
        let ver_major = u16_at(head, 0x08)?;
        if ver_major != VERSION_MAJOR {
            return Err(Error::UnsupportedMajor(ver_major));
        }
        let feature_flags = u32_at(head, 0x0C)?;
        if feature_flags & !SUPPORTED_FEATURES != 0 {
            return Err(Error::UnknownFeatureFlags(feature_flags & !SUPPORTED_FEATURES));
        }
        let reserved = u16_at(head, 0x1E)?;
        if reserved != 0 {
            return Err(Error::ReservedNonZero { what: "header 0x1E" });
        }
        let file_len = u32_at(head, 0x10)?;
        if file_len as usize != bytes.len() {
            return Err(Error::LengthMismatch { declared: file_len, actual: bytes.len() });
        }
        let ver_minor = u16_at(head, 0x0A)?;
        let manifest_off = u32_at(head, 0x14)?;
        let manifest_len = u32_at(head, 0x18)?;
        let sig_count = u16_at(head, 0x1C)?;
        let manifest_root = hash_at(head, 0x20)?;
        assert(head@.subrange(0x20, 0x40) =~= bytes@.subrange(0x20, 0x40));
        Ok(Header {
            ver_major,
            ver_minor,
            feature_flags,
            file_len,
            manifest_off,
            manifest_len,
            sig_count,
            manifest_root,
        })
    }

    /// Where the routing block begins: derived from the header alone, immediately after the
    /// signature block.
    pub open spec fn spec_routing_off(self) -> int {
        64 + 112 * self.sig_count
    }

    pub fn routing_off(&self) -> (r: usize)
        ensures
            r == self.spec_routing_off(),
    {
        HEADER_LEN + SIG_LEN * self.sig_count as usize
    }

    /// The digest every signature is computed over: BLAKE3 of the 64 header bytes.
    pub fn signing_digest(bytes: &[u8]) -> (r: [u8; 32])
        requires
            bytes@.len() >= 64,
        ensures
            r@ == blake3_digest(bytes@.subrange(0, 64)),
    {
        blake3_hash(&bytes[0..HEADER_LEN])
    }
}

} // verus!
