//! The data model: node kinds, edge kinds, tiers and segment records. Two nodes share a kind
//! when the runtime dispatches on them identically; vocabulary lives in `role` and never
//! drives dispatch.

use vstd::prelude::*;

use crate::error::Error;

verus! {

/// `0xFFFFFFFF`: an absent index.
pub const NONE32: u32 = 0xFFFF_FFFF;

/// Node flag bit 0: must-understand.
pub const NODE_MUST_UNDERSTAND: u8 = 1;

/// Node flag bit 1: the payload lives in the COLD region.
pub const NODE_PAYLOAD_COLD: u8 = 2;

/// Node flag bit 2: the payload is compressed.
pub const NODE_PAYLOAD_COMPRESSED: u8 = 4;

/// Edge tag bit 7: the destination is an external reference.
pub const EDGE_EXTERNAL: u8 = 0x80;

/// Edge tag 1, `CONTAINS`, is reserved: the tree is carried by parent pointers alone.
pub const CONTAINS_TAG: u8 = 1;

#[derive(Debug, Clone, Copy, PartialEq, Eq, Hash, Structural)]
pub enum Kind {
    Applicability,
    Prose,
    Contract,
    Segment,
    Resource,
    Binding,
}

pub open spec fn kind_code(k: Kind) -> u8 {
    match k {
        Kind::Applicability => 1,
        Kind::Prose => 2,
        Kind::Contract => 3,
        Kind::Segment => 4,
        Kind::Resource => 5,
        Kind::Binding => 6,
    }
}

impl Kind {
    pub fn code(self) -> (r: u8)
        ensures
            r == kind_code(self),
    {
        match self {
            Kind::Applicability => 1,
            Kind::Prose => 2,
            Kind::Contract => 3,
            Kind::Segment => 4,
            Kind::Resource => 5,
            Kind::Binding => 6,
        }
    }

    /// An unknown kind is refused, never skipped.
    pub fn from_u8(v: u8) -> (r: Result<Kind, Error>)
        ensures
            r is Ok <==> 1 <= v <= 6,
            r matches Ok(k) ==> kind_code(k) == v,
            r matches Err(e) ==> e == Error::UnknownNodeKind(v),
    {
        match v {
            1 => Ok(Kind::Applicability),
            2 => Ok(Kind::Prose),
            3 => Ok(Kind::Contract),
            4 => Ok(Kind::Segment),
            5 => Ok(Kind::Resource),
            6 => Ok(Kind::Binding),
            _ => Err(Error::UnknownNodeKind(v)),
        }
    }
}

/// `CONTAINS` is deliberately absent: the tree is carried by `Node::parent` plus pre-order
/// position, and storing it again as an edge would be a second encoding of one fact.
#[derive(Debug, Clone, Copy, PartialEq, Eq, Hash, Structural)]
pub enum EdgeKind {
    Sequence,
    Guards,
    Needs,
    Alt,
    Cites,
}

pub open spec fn edge_code(k: EdgeKind) -> u8 {
    match k {
        EdgeKind::Sequence => 2,
        EdgeKind::Guards => 3,
        EdgeKind::Needs => 4,
        EdgeKind::Alt => 5,
        EdgeKind::Cites => 6,
    }
}

impl EdgeKind {
    pub fn code(self) -> (r: u8)
        ensures
            r == edge_code(self),
    {
        match self {
            EdgeKind::Sequence => 2,
            EdgeKind::Guards => 3,
            EdgeKind::Needs => 4,
            EdgeKind::Alt => 5,
            EdgeKind::Cites => 6,
        }
    }

    pub fn from_u8(v: u8) -> (r: Result<EdgeKind, Error>)
        ensures
            r is Ok <==> 2 <= v <= 6,
            r matches Ok(k) ==> edge_code(k) == v,
            r matches Err(e) ==> e == Error::UnknownEdgeKind(v),
    {
        match v {
            2 => Ok(EdgeKind::Sequence),
            3 => Ok(EdgeKind::Guards),
            4 => Ok(EdgeKind::Needs),
            5 => Ok(EdgeKind::Alt),
            6 => Ok(EdgeKind::Cites),
            _ => Err(Error::UnknownEdgeKind(v)),
        }
    }
}

/// Progressive disclosure: 0 is the routing plane, 1 the body loaded on activation, 2 what is
/// fetched on demand. Tier never decreases from parent to child.
#[derive(Debug, Clone, Copy, PartialEq, Eq, PartialOrd, Ord, Hash, Structural)]
pub enum Tier {
    Routing,
    Body,
    OnDemand,
}

pub open spec fn tier_code(t: Tier) -> u8 {
    match t {
        Tier::Routing => 0,
        Tier::Body => 1,
        Tier::OnDemand => 2,
    }
}

impl Tier {
    pub fn code(self) -> (r: u8)
        ensures
            r == tier_code(self),
    {
        match self {
            Tier::Routing => 0,
            Tier::Body => 1,
            Tier::OnDemand => 2,
        }
    }

    pub fn from_u8(v: u8) -> (r: Result<Tier, Error>)
        ensures
            r is Ok <==> v <= 2,
            r matches Ok(t) ==> tier_code(t) == v,
            r matches Err(e) ==> e == Error::UnknownTier(v),
    {
        match v {
            0 => Ok(Tier::Routing),
            1 => Ok(Tier::Body),
            2 => Ok(Tier::OnDemand),
            _ => Err(Error::UnknownTier(v)),
        }
    }

    /// `self` is strictly hotter than `other`.
    pub fn hotter_than(self, other: Tier) -> (r: bool)
        ensures
            r == (tier_code(self) < tier_code(other)),
    {
        self.code() < other.code()
    }
}

#[derive(Debug, Clone, Copy, PartialEq, Eq, Structural)]
pub enum Abi {
    Wasm32Wasip2,
    Sh,
    Python3,
    Node,
    Native,
    Wasm32Core,
}

pub open spec fn abi_code(a: Abi) -> u16 {
    match a {
        Abi::Wasm32Wasip2 => 1,
        Abi::Sh => 2,
        Abi::Python3 => 3,
        Abi::Node => 4,
        Abi::Native => 5,
        Abi::Wasm32Core => 6,
    }
}

pub open spec fn abi_portable(a: Abi) -> bool {
    a == Abi::Wasm32Wasip2 || a == Abi::Wasm32Core
}

impl Abi {
    pub fn code(self) -> (r: u16)
        ensures
            r == abi_code(self),
    {
        match self {
            Abi::Wasm32Wasip2 => 1,
            Abi::Sh => 2,
            Abi::Python3 => 3,
            Abi::Node => 4,
            Abi::Native => 5,
            Abi::Wasm32Core => 6,
        }
    }

    pub fn from_u16(v: u16) -> (r: Result<Abi, Error>)
        ensures
            r is Ok <==> 1 <= v <= 6,
            r matches Ok(a) ==> abi_code(a) == v,
            r matches Err(e) ==> e == Error::UnknownAbi(v),
    {
        match v {
            1 => Ok(Abi::Wasm32Wasip2),
            2 => Ok(Abi::Sh),
            3 => Ok(Abi::Python3),
            4 => Ok(Abi::Node),
            5 => Ok(Abi::Native),
            6 => Ok(Abi::Wasm32Core),
            _ => Err(Error::UnknownAbi(v)),
        }
    }

    /// Only wasm can be contained; everything else can only be labelled.
    pub fn is_portable(self) -> (r: bool)
        ensures
            r == abi_portable(self),
    {
        match self {
            Abi::Wasm32Wasip2 | Abi::Wasm32Core => true,
            _ => false,
        }
    }

    /// The ABI's name as the format documents it.
    pub fn name(self) -> (r: &'static str)
        ensures
            r@ == abi_name_spec(self),
    {
        match self {
            Abi::Wasm32Wasip2 => "wasm32-wasip2",
            Abi::Sh => "sh",
            Abi::Python3 => "python3",
            Abi::Node => "node",
            Abi::Native => "native",
            Abi::Wasm32Core => "wasm32-core",
        }
    }
}

pub open spec fn abi_name_spec(a: Abi) -> Seq<char> {
    match a {
        Abi::Wasm32Wasip2 => "wasm32-wasip2"@,
        Abi::Sh => "sh"@,
        Abi::Python3 => "python3"@,
        Abi::Node => "node"@,
        Abi::Native => "native"@,
        Abi::Wasm32Core => "wasm32-core"@,
    }
}

#[derive(Debug, Clone, Copy, PartialEq, Eq, Structural)]
pub enum TrustClass {
    Portable,
    HostTrusted,
}

#[derive(Debug, Clone, Copy, PartialEq, Eq, Structural)]
pub struct Node {
    pub kind: Kind,
    pub tier: Tier,
    pub flags: u8,
    pub depth: u8,
    pub role: u16,
    pub edge_cnt: u16,
    pub name_idx: u32,
    pub edge_off: u32,
    pub payload_off: u32,
    pub payload_len: u32,
    pub hash_idx: u32,
    pub parent: u32,
}

#[derive(Debug, Clone, Copy, PartialEq, Eq, Structural)]
pub struct Edge {
    pub dst: u32,
    pub kind: EdgeKind,
    pub external: bool,
    pub ordinal: u8,
    pub label: u16,
}

#[derive(Debug, Clone, Copy, PartialEq, Eq)]
pub struct Segment {
    pub root: [u8; 32],
    pub orig_len: u32,
    pub abi: Abi,
    pub codec: u8,
    pub trust_class: TrustClass,
    pub cap_off: u32,
    pub cap_cnt: u16,
    pub flags: u16,
    pub mem_kib: u32,
    pub cpu_ms: u32,
    pub wall_ms: u32,
    pub dict_idx: u32,
    pub signer_idx: u32,
}

} // verus!
