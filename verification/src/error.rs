//! Every rejection names the verification step of the reading order at which a conforming
//! reader refuses the file, so a hostile corpus can assert *where* a malformed file dies.

use vstd::prelude::*;

verus! {

#[allow(inconsistent_fields)]
#[derive(Debug, Clone, PartialEq, Eq)]
pub enum Error {
    BadMagic,
    UnsupportedMajor(u16),
    UnknownFeatureFlags(u32),
    LengthMismatch { declared: u32, actual: usize },
    Truncated { off: usize, need: usize },
    OffsetOverflow { what: &'static str },
    RangeOutOfBounds { what: &'static str, off: u32, len: u32 },
    RangeOverlap { a: u32, b: u32 },
    ReservedNonZero { what: &'static str },
    Unsigned,
    UntrustedKey(Box<[u8; 32]>),
    BadSignature(u16),
    DuplicateKeyId,
    ManifestDigestMismatch,
    UnknownSection(u16),
    DuplicateSection(u16),
    SectionMisaligned(u16),
    SectionLenNotMultiple { id: u16, len: u32, unit: usize },
    SectionCountMismatch { id: u16 },
    UnknownNodeKind(u8),
    UnknownEdgeKind(u8),
    UnknownTier(u8),
    UnknownAbi(u16),
    NodeIndexOutOfRange(u32),
    StringIndexOutOfRange(u32),
    HashIndexOutOfRange(u32),
    CapIndexOutOfRange(u32),
    RootHasParent,
    RootNotRouting,
    UncommittedNonZero { region: &'static str, off: u32 },
    NonRootWithoutParent(u32),
    ParentNotBefore { node: u32, parent: u32 },
    NotPreOrder(u32),
    ContainsInEdgeTable(u32),
    SeqNotForward { src: u32, dst: u32 },
    NeedsCycle(u32),
    ObligationCycle(u32),
    NeedsBadTarget { src: u32, dst: u32 },
    TierNotMonotone { node: u32, parent: u32 },
    GuardsFromNonContract(u32),
    DuplicateAltOrdinal { src: u32, ordinal: u8 },
    StringHeapUnsorted(u32),
    PayloadHashMismatch(u32),
    SegmentHashMismatch(u32),
    SegmentIndexOutOfRange(u32),
    PortableClaimOnNonWasm(u32),
    SegmentCountMismatch { nodes: u32, records: u32 },
    DeclaredLenMismatch { what: &'static str },
    RootHasNoCommitment,
    RoutingNotUtf8,
    RoutingEmpty,
    RoutingRootNotTopLevel(u32),
    RoutingTooLong,
    RoutingUncommitted,
    RoutingHashMismatch,
    EmbeddingKindUnknown(u8),
    EmbeddingShape,
    EmbeddingUncommitted,
    EmbeddingHashMismatch,
    MissingDictionary,
    WrongDictionary,
    UncommittedRegion(&'static str),
    RegionHashMismatch(&'static str),
}

/// The step of the normative reading order at which each rejection happens: 1 header,
/// 2 declared length, 3 signatures, 4 manifest bounds, 5 manifest digest, 6 parse and
/// validate, 7 lazy payload verification.
pub open spec fn spec_step(e: Error) -> u8 {
    match e {
        Error::BadMagic | Error::UnsupportedMajor(_) | Error::UnknownFeatureFlags(_) => 1,
        Error::LengthMismatch { .. } => 2,
        Error::Unsigned | Error::UntrustedKey(_) | Error::BadSignature(_)
        | Error::DuplicateKeyId => 3,
        Error::Truncated { .. } | Error::OffsetOverflow { .. } | Error::RangeOutOfBounds { .. } => 4,
        Error::ManifestDigestMismatch => 5,
        Error::PayloadHashMismatch(_) | Error::SegmentHashMismatch(_)
        | Error::RegionHashMismatch(_) => 7,
        _ => 6,
    }
}

impl Error {
    /// The verification step at which a conforming reader rejects this file.
    pub fn step(&self) -> (r: u8)
        ensures
            r == spec_step(*self),
            1 <= r <= 7,
    {
        match self {
            Error::BadMagic | Error::UnsupportedMajor(_) | Error::UnknownFeatureFlags(_) => 1,
            Error::LengthMismatch { .. } => 2,
            Error::Unsigned | Error::UntrustedKey(_) | Error::BadSignature(_)
            | Error::DuplicateKeyId => 3,
            Error::Truncated { .. } | Error::OffsetOverflow { .. }
            | Error::RangeOutOfBounds { .. } => 4,
            Error::ManifestDigestMismatch => 5,
            Error::PayloadHashMismatch(_) | Error::SegmentHashMismatch(_)
            | Error::RegionHashMismatch(_) => 7,
            _ => 6,
        }
    }
}

/// Every rejection names a step of the reading order, and the steps run from 1 to 7.
pub proof fn every_rejection_names_a_step(e: Error)
    ensures
        1 <= spec_step(e) <= 7,
{
}

} // verus!
