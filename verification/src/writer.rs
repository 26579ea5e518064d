//! The canonical writer. Callers describe a tree; the builder chooses the pre-order, the string
//! ordering, the payload placement and which commitments to store, so there is no way to ask
//! it for a non-canonical file.

use vstd::prelude::*;

use crate::codec::{compress, compressed_spec, dict_view, Dictionary};
use crate::error::Error;
use crate::graph::{
    abi_code, abi_portable, tier_code, Abi, EdgeKind, Kind, Node, Tier, TrustClass, NONE32,
};
use crate::hashing::blake3_hash;
use crate::raw::all_zero_spec;
use crate::header::{header_err, magic_seq, HEADER_LEN, VERSION_MAJOR};
use crate::manifest::{
    COLD_ZSTD, DIR_ENTRY_LEN, HOT_ZSTD, MANIFEST_HDR_LEN, SECT_CAPS, SECT_DICTREF, SECT_EDGES,
    SECT_EMBEDDINGS, SECT_HASHES, SECT_NODES, SECT_REGIONS, SECT_ROUTING, SECT_SEGMENTS,
    SECT_STRINGS, SECT_ZSTD, USES_DICT, node_reads,
};
use crate::hashing::blake3_digest;
use crate::raw::{
    bytes_eq, le16, le32, lemma_le16_kept, lemma_le32_kept, push_all, push_u16, push_u32, push_zeros,
};
use crate::routing::{block_ok, entry_reads, RoutingEntry};
use crate::preorder::{
    lemma_all_under_root, lemma_walk_len, lists_children, parents_first, single_rooted, under, visit,
};
use crate::subtree::subtree_hash;
use crate::validate::{bytes_lt, lex_lt};
use vstd::utf8::encode_utf8;

verus! {

/// At most 1 KiB once encoded as UTF-8.
pub open spec fn short_text(t: Seq<char>) -> bool {
    encode_utf8(t).len() <= 1024
}

/// A node of at most 64 KiB of payload, 16 edges, and 16 capabilities whose arguments and whose
/// name are short.
pub open spec fn node_within_limits(n: NodeView, caps: Seq<Seq<char>>) -> bool {
    &&& n.payload.len() <= 0x10000
    &&& n.edge_count <= 16
    &&& (n.name matches Some(t) ==> short_text(t))
    &&& caps.len() <= 16
    &&& forall|c: int| 0 <= c < caps.len() ==> short_text(#[trigger] caps[c])
}

/// A node of the tree being built, by its position in the order it was added.
#[derive(Debug, Clone, Copy, PartialEq, Eq)]
pub struct NodeId(pub(crate) usize);

impl NodeId {
    /// The position of this node in the order it was added.
    pub closed spec fn index(self) -> nat {
        self.0 as nat
    }
}

/// How much of a file is compressed. A compressed encoding is kept only when it is smaller.
#[derive(Debug, Clone, Copy, PartialEq, Eq, Structural)]
pub enum Profile {
    /// Every byte in place.
    Uncompressed,
    /// Payload regions compressed, tables readable in place.
    Mapped,
    /// Payload regions and tables compressed.
    Compact,
}

impl Default for Profile {
    fn default() -> (p: Profile)
        ensures
            p == Profile::Mapped,
    {
        Profile::Mapped
    }
}

/// One capability a segment declares: a kind from `cap_kind`, flags, and an argument.
#[derive(Debug, Clone)]
pub struct Cap {
    pub kind: u16,
    pub flags: u16,
    pub arg: String,
}

/// What a segment node declares about the code it carries.
#[derive(Debug, Clone)]
pub struct SegmentSpec {
    pub abi: Abi,
    pub trust_class: TrustClass,
    pub caps: Vec<Cap>,
    pub mem_kib: u32,
    pub cpu_ms: u32,
    pub wall_ms: u32,
}

impl SegmentSpec {
    /// A segment that declares nothing: no capabilities, no budget, and `Portable` only when
    /// its ABI can actually be contained.
    pub fn inert(abi: Abi) -> (s: SegmentSpec)
        ensures
            s.abi == abi,
            s.trust_class == (if abi_portable(abi) {
                TrustClass::Portable
            } else {
                TrustClass::HostTrusted
            }),
            s.caps@.len() == 0,
            s.mem_kib == 0,
            s.cpu_ms == 0,
            s.wall_ms == 0,
    {
        SegmentSpec {
            abi,
            trust_class: if abi.is_portable() {
                TrustClass::Portable
            } else {
                TrustClass::HostTrusted
            },
            caps: Vec::new(),
            mem_kib: 0,
            cpu_ms: 0,
            wall_ms: 0,
        }
    }
}

/// An edge as described to the builder: kind, destination, ordinal, label.
#[derive(Debug, Clone, Copy)]
struct BuildEdge {
    kind: EdgeKind,
    dst: usize,
    ordinal: u8,
    label: u16,
}

#[derive(Debug, Clone)]
struct BuildNode {
    kind: Kind,
    tier: Tier,
    must_understand: bool,
    depth: u8,
    role: u16,
    name: Option<String>,
    payload: Vec<u8>,
    parent: Option<usize>,
    edges: Vec<BuildEdge>,
    segment: Option<SegmentSpec>,
}

/// What the builder holds for one node.
pub struct NodeView {
    pub kind: Kind,
    pub tier: Tier,
    pub depth: u8,
    pub role: u16,
    pub name: Option<Seq<char>>,
    pub payload: Seq<u8>,
    pub parent: Option<nat>,
    pub edge_count: nat,
}

/// Builds one file: a single skill, or a bundle of skills under a synthetic root.
#[derive(Debug)]
pub struct Builder {
    /// Routing entries: name, description and the node each one's skill starts at.
    entries: Vec<(String, String, usize)>,
    version: Option<String>,
    license: Option<String>,
    nodes: Vec<BuildNode>,
    profile: Profile,
    dict: Option<Dictionary>,
    vectors: Vec<Vec<u32>>,
}

pub open spec fn opt_view(s: Option<String>) -> Option<Seq<char>> {
    match s {
        Some(x) => Some(x@),
        None => None,
    }
}

pub open spec fn str_opt_view(s: Option<&str>) -> Option<Seq<char>> {
    match s {
        Some(x) => Some(x@),
        None => None,
    }
}

fn owned(s: Option<&str>) -> (r: Option<String>)
    ensures
        opt_view(r) == str_opt_view(s),
{
    match s {
        Some(x) => Some(x.to_owned()),
        None => None,
    }
}

impl Builder {
    /// Every parent was added before its child and every edge names a node that exists.
    pub closed spec fn wf(&self) -> bool {
        &&& forall|i: int|
            0 <= i < self.nodes@.len() ==> match (#[trigger] self.nodes@[i]).parent {
                Some(p) => p < i,
                None => true,
            }
        &&& forall|i: int, k: int|
            0 <= i < self.nodes@.len() && 0 <= k < self.nodes@[i].edges@.len() ==> (
            #[trigger] self.nodes@[i].edges@[k]).dst < self.nodes@.len()
    }

    /// How many nodes have been added.
    pub closed spec fn len(&self) -> nat {
        self.nodes@.len()
    }

    /// Node `i` as it was described.
    pub closed spec fn node(&self, i: int) -> NodeView {
        let n = self.nodes@[i];
        NodeView {
            kind: n.kind,
            tier: n.tier,
            depth: n.depth,
            role: n.role,
            name: opt_view(n.name),
            payload: n.payload@,
            parent: match n.parent {
                Some(p) => Some(p as nat),
                None => None,
            },
            edge_count: n.edges@.len(),
        }
    }

    /// The routing entries, as (name, description, starting node).
    pub closed spec fn skills(&self) -> Seq<(Seq<char>, Seq<char>, nat)> {
        self.entries@.map_values(|e: (String, String, usize)| (e.0@, e.1@, e.2 as nat))
    }

    pub closed spec fn spec_profile(&self) -> Profile {
        self.profile
    }

    /// The version string the file will carry, if one was given.
    pub closed spec fn spec_version(&self) -> Option<Seq<char>> {
        opt_view(self.version)
    }

    /// The licence string the file will carry, if one was given.
    pub closed spec fn spec_license(&self) -> Option<Seq<char>> {
        opt_view(self.license)
    }

    /// The bytes of the shared dictionary the file is compressed against, if any.
    pub closed spec fn spec_dict(&self) -> Option<Seq<u8>> {
        match self.dict {
            Some(d) => Some(d.spec_raw()),
            None => None,
        }
    }

    /// How many routing vectors the builder holds.
    pub closed spec fn vector_count(&self) -> nat {
        self.vectors@.len()
    }

    /// The capability arguments node `i` declares.
    pub closed spec fn cap_args(&self, i: int) -> Seq<Seq<char>> {
        seg_caps(self.nodes@[i]).map_values(|c: Cap| c.arg@)
    }

    /// Sizes under which every table of the file fits its 32-bit fields, whatever the
    /// compressor does: at most 4096 nodes, each with a payload of at most 64 KiB, at most 16
    /// edges and at most 16 capabilities; at most 256 routing entries; and every name,
    /// description, version, licence and capability argument at most 1 KiB of UTF-8.
    pub open spec fn within_limits(&self) -> bool {
        &&& self.len() <= 4096
        &&& self.skills().len() <= 256
        &&& forall|e: int|
            0 <= e < self.skills().len() ==> short_text(#[trigger] self.skills()[e].0) && short_text(
                self.skills()[e].1,
            )
        &&& (self.spec_version() matches Some(t) ==> short_text(t))
        &&& (self.spec_license() matches Some(t) ==> short_text(t))
        &&& forall|i: int|
            0 <= i < self.len() ==> node_within_limits(#[trigger] self.node(i), self.cap_args(i))
    }

    /// A builder changed from one within the limits stays within them when it has at most 4096
    /// nodes, the same routing entries, version and licence, and every node is either one it
    /// had unchanged or itself within the limits.
    pub proof fn lemma_limits_step(a: Builder, b: Builder)
        requires
            a.within_limits(),
            b.len() <= 4096,
            b.skills() == a.skills(),
            b.spec_version() == a.spec_version(),
            b.spec_license() == a.spec_license(),
            forall|i: int|
                0 <= i < b.len() ==> (i < a.len() && #[trigger] b.node(i) == a.node(i) && b.cap_args(i)
                    == a.cap_args(i)) || node_within_limits(b.node(i), b.cap_args(i)),
        ensures
            b.within_limits(),
    {
        assert forall|i: int| 0 <= i < b.len() implies node_within_limits(
            #[trigger] b.node(i),
            b.cap_args(i),
        ) by {
            if !node_within_limits(b.node(i), b.cap_args(i)) {
                assert(node_within_limits(a.node(i), a.cap_args(i)));
            }
        }
    }

    /// Within the limits, every node is small and every heap string is at most 1 KiB.
    proof fn lemma_limits(&self)
        requires
            self.within_limits(),
        ensures
            nodes_small(self.nodes@),
            forall|x: Seq<u8>|
                #[trigger] needs_before(*self, self.nodes@.len() as int, x) ==> x.len() <= 1024,
    {
        assert forall|i: int| 0 <= i < self.nodes@.len() implies #[trigger] node_small(
            self.nodes@[i],
        ) by {
            assert(node_within_limits(self.node(i), self.cap_args(i)));
        }
        assert forall|x: Seq<u8>|
            #[trigger] needs_before(*self, self.nodes@.len() as int, x) implies x.len() <= 1024 by {
            if exists|k: int|
                0 <= k < self.nodes@.len() && node_needs(
                    #[trigger] self.nodes@[k],
                    x,
                    cap_count(self.nodes@[k]),
                ) {
                let k = choose|k: int|
                    0 <= k < self.nodes@.len() && node_needs(
                        #[trigger] self.nodes@[k],
                        x,
                        cap_count(self.nodes@[k]),
                    );
                assert(node_within_limits(self.node(k), self.cap_args(k)));
                let n = self.nodes@[k];
                if !encodes(n.name, x) {
                    let spec = n.segment->0;
                    let c = choose|c: int|
                        0 <= c < cap_count(n) && c < spec.caps@.len() && x == encode_utf8(
                            (#[trigger] spec.caps@[c]).arg@,
                        );
                    assert(self.cap_args(k)[c] == spec.caps@[c].arg@);
                }
            }
        }
    }

    /// Only the first node added has no parent: the tree has one root, and it is node 0.
    pub open spec fn one_root(&self) -> bool {
        forall|i: int| 0 <= i < self.len() ==> ((#[trigger] self.node(i)).parent is None <==> i == 0)
    }

    /// No node is hotter than its parent.
    pub open spec fn tiers_cool(&self) -> bool {
        forall|i: int, p: nat|
            #![trigger self.node(i), self.node(p as int)]
            0 <= i < self.len() && self.node(i).parent == Some(p) ==> tier_code(self.node(i).tier)
                >= tier_code(self.node(p as int).tier)
    }

    /// Every routing entry starts at node 0 or at one of its children.
    pub open spec fn entries_top(&self) -> bool {
        forall|e: int|
            0 <= e < self.skills().len() ==> (#[trigger] self.skills()[e]).2 < self.len() && (
            self.skills()[e].2 == 0 || self.node(self.skills()[e].2 as int).parent == Some(0nat))
    }

    /// What `build` needs of the tree: 32-bit node indices, a single root that is node 0 and
    /// routing-tier, tiers that never get hotter from a parent to a child, routing entries that
    /// start at the root or one of its children, and no vectors or one per entry.
    pub open spec fn buildable(&self) -> bool {
        &&& self.len() <= u32::MAX
        &&& self.len() == 0 || self.one_root()
        &&& self.len() > 0 ==> self.node(0).tier == Tier::Routing
        &&& self.tiers_cool()
        &&& self.entries_top()
        &&& self.vector_count() == 0 || self.vector_count() == self.skills().len()
    }

    /// A single routing-tier root at node 0, tiers that never get hotter from a parent to a
    /// child, and routing entries that start at the root or one of its children.
    pub open spec fn well_shaped(&self) -> bool {
        &&& self.len() > 0
        &&& self.one_root()
        &&& self.node(0).tier == Tier::Routing
        &&& self.tiers_cool()
        &&& self.entries_top()
    }

    /// A single skill named `name`. Its root is the first node added.
    pub fn new(name: &str, description: &str) -> (b: Builder)
        ensures
            b.vector_count() == 0,
            b.wf(),
            b.len() == 0,
            b.skills() == seq![(name@, description@, 0nat)],
            b.spec_profile() == Profile::Mapped,
            b.spec_version() is None,
            b.spec_license() is None,
    {
        let mut entries: Vec<(String, String, usize)> = Vec::new();
        entries.push((name.to_owned(), description.to_owned(), 0));
        let b = Builder {
            entries,
            version: None,
            license: None,
            nodes: Vec::new(),
            profile: Profile::Mapped,
            dict: None,
            vectors: Vec::new(),
        };
        assert(b.skills() =~= seq![(name@, description@, 0nat)]);
        b
    }

    /// Several skills in one file: node 0 is a synthetic routing-tier root, and each skill added
    /// with [`Builder::add_skill`] is one of its children.
    pub fn bundle() -> (b: Builder)
        ensures
            b.vector_count() == 0,
            b.wf(),
            b.len() == 1,
            b.node(0).kind == Kind::Prose,
            b.node(0).tier == Tier::Routing,
            b.node(0).parent is None,
            b.skills().len() == 0,
            b.spec_profile() == Profile::Mapped,
    {
        let mut nodes: Vec<BuildNode> = Vec::new();
        nodes.push(
            BuildNode {
                kind: Kind::Prose,
                tier: Tier::Routing,
                must_understand: false,
                depth: 0,
                role: 0,
                name: None,
                payload: Vec::new(),
                parent: None,
                edges: Vec::new(),
                segment: None,
            },
        );
        let b = Builder {
            entries: Vec::new(),
            version: None,
            license: None,
            nodes,
            profile: Profile::Mapped,
            dict: None,
            vectors: Vec::new(),
        };
        assert(b.skills() =~= Seq::<(Seq<char>, Seq<char>, nat)>::empty());
        b
    }

    pub fn version(self, v: &str) -> (b: Builder)
        requires
            self.wf(),
        ensures
            forall|i: int| 0 <= i < self.len() ==> b.cap_args(i) == self.cap_args(i),
            b.spec_version() == Some(v@),
            b.spec_license() == self.spec_license(),
            b.spec_dict() == self.spec_dict(),
            b.spec_profile() == self.spec_profile(),
            b.vector_count() == self.vector_count(),
            b.wf(),
            b.len() == self.len(),
            b.skills() == self.skills(),
            forall|i: int| 0 <= i < self.len() ==> b.node(i) == self.node(i),
    {
        let mut b = self;
        b.version = Some(v.to_owned());
        b
    }

    pub fn license(self, v: &str) -> (b: Builder)
        requires
            self.wf(),
        ensures
            forall|i: int| 0 <= i < self.len() ==> b.cap_args(i) == self.cap_args(i),
            b.spec_license() == Some(v@),
            b.spec_version() == self.spec_version(),
            b.spec_dict() == self.spec_dict(),
            b.spec_profile() == self.spec_profile(),
            b.vector_count() == self.vector_count(),
            b.wf(),
            b.len() == self.len(),
            b.skills() == self.skills(),
            forall|i: int| 0 <= i < self.len() ==> b.node(i) == self.node(i),
    {
        let mut b = self;
        b.license = Some(v.to_owned());
        b
    }

    pub fn profile(self, p: Profile) -> (b: Builder)
        requires
            self.wf(),
        ensures
            b.spec_version() == self.spec_version(),
            b.spec_license() == self.spec_license(),
            forall|i: int| 0 <= i < self.len() ==> b.cap_args(i) == self.cap_args(i),
            b.vector_count() == self.vector_count(),
            b.wf(),
            b.len() == self.len(),
            b.skills() == self.skills(),
            b.spec_profile() == p,
            forall|i: int| 0 <= i < self.len() ==> b.node(i) == self.node(i),
    {
        let mut b = self;
        b.profile = p;
        b
    }

    /// Compresses against a shared dictionary, which the file then names and requires.
    pub fn dictionary(self, d: Dictionary) -> (b: Builder)
        requires
            self.wf(),
        ensures
            forall|i: int| 0 <= i < self.len() ==> b.cap_args(i) == self.cap_args(i),
            b.spec_dict() == Some(d.spec_raw()),
            b.spec_version() == self.spec_version(),
            b.spec_license() == self.spec_license(),
            b.vector_count() == self.vector_count(),
            b.wf(),
            b.len() == self.len(),
            b.skills() == self.skills(),
            b.spec_profile() == self.spec_profile(),
            forall|i: int| 0 <= i < self.len() ==> b.node(i) == self.node(i),
    {
        let mut b = self;
        b.dict = Some(d);
        b
    }

    /// One embedding per routing entry, each given as the bit patterns of its `f32` components.
    pub fn vectors(self, v: Vec<Vec<u32>>) -> (b: Builder)
        requires
            self.wf(),
        ensures
            b.wf(),
            b.vector_count() == v@.len(),
            b.len() == self.len(),
            b.skills() == self.skills(),
            b.spec_profile() == self.spec_profile(),
            forall|i: int| 0 <= i < self.len() ==> b.node(i) == self.node(i),
    {
        let mut b = self;
        b.vectors = v;
        b
    }

    fn push(
        &mut self,
        kind: Kind,
        tier: Tier,
        role: u16,
        payload: Vec<u8>,
        parent: Option<usize>,
        name: Option<&str>,
        depth: u8,
        segment: Option<SegmentSpec>,
    ) -> (id: NodeId)
        requires
            old(self).wf(),
            parent matches Some(p) ==> p < old(self).len(),
        ensures
            final(self).spec_version() == old(self).spec_version(),
            final(self).spec_license() == old(self).spec_license(),
            forall|i: int| 0 <= i < old(self).len() ==> final(self).cap_args(i) == old(self).cap_args(i),
            final(self).cap_args(id.index() as int) == match segment {
                Some(sp) => sp.caps@.map_values(|c: Cap| c.arg@),
                None => Seq::empty(),
            },
            final(self).vector_count() == old(self).vector_count(),
            final(self).wf(),
            id.index() == old(self).len(),
            final(self).len() == old(self).len() + 1,
            final(self).skills() == old(self).skills(),
            final(self).spec_profile() == old(self).spec_profile(),
            forall|i: int| 0 <= i < old(self).len() ==> final(self).node(i) == old(self).node(i),
            final(self).node(id.index() as int) == (NodeView {
                kind,
                tier,
                depth,
                role,
                name: str_opt_view(name),
                payload: payload@,
                parent: match parent {
                    Some(p) => Some(p as nat),
                    None => None,
                },
                edge_count: 0,
            }),
    {
        let at = self.nodes.len();
        self.nodes.push(
            BuildNode {
                kind,
                tier,
                must_understand: false,
                depth,
                role,
                name: owned(name),
                payload,
                parent,
                edges: Vec::new(),
                segment,
            },
        );
        proof {
            assert forall|i: int| 0 <= i < at implies final(self).node(i) == old(self).node(i) by {
                assert(self.nodes@[i] == old(self).nodes@[i]);
            }
            assert forall|i: int, k: int|
                0 <= i < self.nodes@.len() && 0 <= k < self.nodes@[i].edges@.len() implies (
                #[trigger] self.nodes@[i].edges@[k]).dst < self.nodes@.len() by {
                if i < at {
                    assert(self.nodes@[i] == old(self).nodes@[i]);
                }
            }
        }
        NodeId(at)
    }

    /// The root of a single-skill file.
    pub fn root(&mut self, kind: Kind, tier: Tier, role: u16, payload: Vec<u8>) -> (id: NodeId)
        requires
            old(self).wf(),
        ensures
            final(self).spec_version() == old(self).spec_version(),
            final(self).spec_license() == old(self).spec_license(),
            forall|i: int| 0 <= i < old(self).len() ==> final(self).cap_args(i) == old(self).cap_args(i),
            final(self).cap_args(id.index() as int) == Seq::<Seq<char>>::empty(),
            final(self).vector_count() == old(self).vector_count(),
            final(self).wf(),
            id.index() == old(self).len(),
            final(self).len() == old(self).len() + 1,
            final(self).skills() == old(self).skills(),
            final(self).spec_profile() == old(self).spec_profile(),
            forall|i: int| 0 <= i < old(self).len() ==> final(self).node(i) == old(self).node(i),
            final(self).node(id.index() as int) == (NodeView {
                kind,
                tier,
                depth: 0,
                role,
                name: None,
                payload: payload@,
                parent: None,
                edge_count: 0,
            }),
    {
        self.push(kind, tier, role, payload, None, None, 0, None)
    }

    /// A child of `parent`. `depth` is the heading depth it was written at, 0 for none.
    pub fn child(
        &mut self,
        parent: NodeId,
        kind: Kind,
        tier: Tier,
        role: u16,
        name: Option<&str>,
        payload: Vec<u8>,
        depth: u8,
    ) -> (id: NodeId)
        requires
            old(self).wf(),
            parent.index() < old(self).len(),
        ensures
            final(self).spec_version() == old(self).spec_version(),
            final(self).spec_license() == old(self).spec_license(),
            forall|i: int| 0 <= i < old(self).len() ==> final(self).cap_args(i) == old(self).cap_args(i),
            final(self).cap_args(id.index() as int) == Seq::<Seq<char>>::empty(),
            final(self).vector_count() == old(self).vector_count(),
            final(self).wf(),
            id.index() == old(self).len(),
            final(self).len() == old(self).len() + 1,
            final(self).skills() == old(self).skills(),
            final(self).spec_profile() == old(self).spec_profile(),
            forall|i: int| 0 <= i < old(self).len() ==> final(self).node(i) == old(self).node(i),
            final(self).node(id.index() as int) == (NodeView {
                kind,
                tier,
                depth,
                role,
                name: str_opt_view(name),
                payload: payload@,
                parent: Some(parent.index()),
                edge_count: 0,
            }),
    {
        self.push(kind, tier, role, payload, Some(parent.0), name, depth, None)
    }

    /// A `Segment` node under `parent` carrying `bytes`, declared as `spec` says. Segments are
    /// fetched on demand.
    pub fn segment(
        &mut self,
        parent: NodeId,
        name: Option<&str>,
        bytes: Vec<u8>,
        spec: SegmentSpec,
        depth: u8,
    ) -> (id: NodeId)
        requires
            old(self).wf(),
            parent.index() < old(self).len(),
        ensures
            final(self).spec_version() == old(self).spec_version(),
            final(self).spec_license() == old(self).spec_license(),
            forall|i: int| 0 <= i < old(self).len() ==> final(self).cap_args(i) == old(self).cap_args(i),
            final(self).cap_args(id.index() as int) == spec.caps@.map_values(|c: Cap| c.arg@),
            final(self).vector_count() == old(self).vector_count(),
            final(self).wf(),
            id.index() == old(self).len(),
            final(self).len() == old(self).len() + 1,
            final(self).skills() == old(self).skills(),
            final(self).spec_profile() == old(self).spec_profile(),
            forall|i: int| 0 <= i < old(self).len() ==> final(self).node(i) == old(self).node(i),
            final(self).node(id.index() as int) == (NodeView {
                kind: Kind::Segment,
                tier: Tier::OnDemand,
                depth,
                role: 0,
                name: str_opt_view(name),
                payload: bytes@,
                parent: Some(parent.index()),
                edge_count: 0,
            }),
    {
        self.push(
            Kind::Segment,
            Tier::OnDemand,
            0,
            bytes,
            Some(parent.0),
            name,
            depth,
            Some(spec),
        )
    }

    /// A new top-level skill of a bundle, with its own routing entry.
    pub fn add_skill(&mut self, name: &str, description: &str) -> (id: NodeId)
        requires
            old(self).wf(),
            old(self).len() >= 1,
        ensures
            final(self).vector_count() == old(self).vector_count(),
            final(self).wf(),
            id.index() == old(self).len(),
            final(self).len() == old(self).len() + 1,
            final(self).skills() == old(self).skills().push((name@, description@, id.index())),
            final(self).spec_profile() == old(self).spec_profile(),
            forall|i: int| 0 <= i < old(self).len() ==> final(self).node(i) == old(self).node(i),
            final(self).node(id.index() as int) == (NodeView {
                kind: Kind::Prose,
                tier: Tier::Routing,
                depth: 0,
                role: 0,
                name: None,
                payload: Seq::empty(),
                parent: Some(0),
                edge_count: 0,
            }),
    {
        let id = self.push(Kind::Prose, Tier::Routing, 0, Vec::new(), Some(0), None, 0, None);
        let ghost before = self.entries@;
        self.entries.push((name.to_owned(), description.to_owned(), id.0));
        proof {
            assert(self.skills() =~= old(self).skills().push((name@, description@, id.index())));
        }
        id
    }

    /// Replaces a node's payload.
    pub fn set_payload(&mut self, id: NodeId, payload: Vec<u8>)
        requires
            old(self).wf(),
            id.index() < old(self).len(),
        ensures
            final(self).spec_version() == old(self).spec_version(),
            final(self).spec_license() == old(self).spec_license(),
            forall|i: int| 0 <= i < old(self).len() ==> final(self).cap_args(i) == old(self).cap_args(i),
            final(self).vector_count() == old(self).vector_count(),
            final(self).wf(),
            final(self).len() == old(self).len(),
            final(self).skills() == old(self).skills(),
            final(self).spec_profile() == old(self).spec_profile(),
            forall|i: int|
                0 <= i < old(self).len() && i != id.index() ==> final(self).node(i) == old(
                    self,
                ).node(i),
            final(self).node(id.index() as int) == (NodeView {
                payload: payload@,
                ..old(self).node(id.index() as int)
            }),
    {
        let ghost orig = *old(self);
        let mut n = self.nodes.remove(id.0);
        n.payload = payload;
        let ghost nn = n;
        self.nodes.insert(id.0, n);
        proof {
            assert(self.nodes@ =~= orig.nodes@.update(id.index() as int, nn));
            lemma_update_keeps_wf(orig, id.index() as int, nn, self.nodes@);
        }
    }

    /// Replaces a node's role.
    pub fn set_role(&mut self, id: NodeId, role: u16)
        requires
            old(self).wf(),
            id.index() < old(self).len(),
        ensures
            final(self).spec_version() == old(self).spec_version(),
            final(self).spec_license() == old(self).spec_license(),
            forall|i: int| 0 <= i < old(self).len() ==> final(self).cap_args(i) == old(self).cap_args(i),
            final(self).vector_count() == old(self).vector_count(),
            final(self).wf(),
            final(self).len() == old(self).len(),
            final(self).skills() == old(self).skills(),
            final(self).spec_profile() == old(self).spec_profile(),
            forall|i: int|
                0 <= i < old(self).len() && i != id.index() ==> final(self).node(i) == old(
                    self,
                ).node(i),
            final(self).node(id.index() as int) == (NodeView {
                role,
                ..old(self).node(id.index() as int)
            }),
    {
        let ghost orig = *old(self);
        let mut n = self.nodes.remove(id.0);
        n.role = role;
        let ghost nn = n;
        self.nodes.insert(id.0, n);
        proof {
            assert(self.nodes@ =~= orig.nodes@.update(id.index() as int, nn));
            lemma_update_keeps_wf(orig, id.index() as int, nn, self.nodes@);
        }
    }

    /// An edge from `src` to `dst`.
    pub fn edge(&mut self, src: NodeId, kind: EdgeKind, dst: NodeId, ordinal: u8, label: u16)
        requires
            old(self).wf(),
            src.index() < old(self).len(),
            dst.index() < old(self).len(),
        ensures
            final(self).spec_version() == old(self).spec_version(),
            final(self).spec_license() == old(self).spec_license(),
            forall|i: int| 0 <= i < old(self).len() ==> final(self).cap_args(i) == old(self).cap_args(i),
            final(self).vector_count() == old(self).vector_count(),
            final(self).wf(),
            final(self).len() == old(self).len(),
            final(self).skills() == old(self).skills(),
            final(self).spec_profile() == old(self).spec_profile(),
            forall|i: int|
                0 <= i < old(self).len() && i != src.index() ==> final(self).node(i) == old(
                    self,
                ).node(i),
            final(self).node(src.index() as int) == (NodeView {
                edge_count: old(self).node(src.index() as int).edge_count + 1,
                ..old(self).node(src.index() as int)
            }),
    {
        let ghost orig = *old(self);
        let mut n = self.nodes.remove(src.0);
        let ghost before = n.edges@;
        n.edges.push(BuildEdge { kind, dst: dst.0, ordinal, label });
        assert forall|k: int| 0 <= k < n.edges@.len() implies (#[trigger] n.edges@[k]).dst < old(
            self,
        ).len() by {
            if k < before.len() {
                assert(n.edges@[k] == before[k]);
            }
        }
        let ghost nn = n;
        self.nodes.insert(src.0, n);
        proof {
            assert(self.nodes@ =~= orig.nodes@.update(src.index() as int, nn));
            lemma_update_keeps_wf(orig, src.index() as int, nn, self.nodes@);
        }
    }

}

/// A node added under an existing parent, and no hotter than it, keeps a builder well shaped.
pub proof fn lemma_child_keeps_shape(a: Builder, b: Builder)
    requires
        b.wf(),
        a.well_shaped(),
        b.len() == a.len() + 1,
        b.skills() == a.skills(),
        forall|i: int| 0 <= i < a.len() ==> b.node(i) == a.node(i),
        b.node(a.len() as int).parent matches Some(p) && p < a.len() && tier_code(
            b.node(a.len() as int).tier,
        ) >= tier_code(a.node(p as int).tier),
    ensures
        b.well_shaped(),
{
    assert forall|i: int, p: nat|
        #![trigger b.node(i), b.node(p as int)]
        0 <= i < b.len() && b.node(i).parent == Some(p) implies tier_code(b.node(i).tier) >= tier_code(
            b.node(p as int).tier,
        ) by {
        if i < a.len() {
            assert(a.node(i).parent == Some(p));
            assert(b.node(i) == a.node(i));
            assert(b.wf());
            assert(b.nodes@[i].parent == Some(p as usize));
            assert(p < i);
            assert(b.node(p as int) == a.node(p as int));
        }
    }
    assert forall|i: int| 0 <= i < b.len() implies ((#[trigger] b.node(i)).parent is None <==> i == 0) by {
        if i < a.len() {
            assert(b.node(i) == a.node(i));
        }
    }
    assert forall|e: int| 0 <= e < b.skills().len() implies (#[trigger] b.skills()[e]).2 < b.len() && (
    b.skills()[e].2 == 0 || b.node(b.skills()[e].2 as int).parent == Some(0nat)) by {
        assert(a.skills()[e].2 < a.len());
        assert(b.node(a.skills()[e].2 as int) == a.node(a.skills()[e].2 as int));
    }
    assert(b.node(0) == a.node(0));
}

/// A new top-level skill, a routing-tier child of node 0 with its entry, keeps a builder well
/// shaped.
pub proof fn lemma_skill_keeps_shape(a: Builder, b: Builder, name: Seq<char>, description: Seq<char>)
    requires
        b.wf(),
        a.well_shaped(),
        b.len() == a.len() + 1,
        b.skills() == a.skills().push((name, description, a.len())),
        forall|i: int| 0 <= i < a.len() ==> b.node(i) == a.node(i),
        b.node(a.len() as int).parent == Some(0nat),
        b.node(a.len() as int).tier == Tier::Routing,
    ensures
        b.well_shaped(),
{
    assert forall|i: int, p: nat|
        #![trigger b.node(i), b.node(p as int)]
        0 <= i < b.len() && b.node(i).parent == Some(p) implies tier_code(b.node(i).tier) >= tier_code(
            b.node(p as int).tier,
        ) by {
        if i < a.len() {
            assert(a.node(i).parent == Some(p));
            assert(b.node(i) == a.node(i));
            assert(b.wf());
            assert(b.nodes@[i].parent == Some(p as usize));
            assert(b.node(p as int) == a.node(p as int));
        } else {
            assert(b.node(0) == a.node(0));
        }
    }
    assert forall|i: int| 0 <= i < b.len() implies ((#[trigger] b.node(i)).parent is None <==> i == 0) by {
        if i < a.len() {
            assert(b.node(i) == a.node(i));
        }
    }
    assert forall|e: int| 0 <= e < b.skills().len() implies (#[trigger] b.skills()[e]).2 < b.len() && (
    b.skills()[e].2 == 0 || b.node(b.skills()[e].2 as int).parent == Some(0nat)) by {
        if e < a.skills().len() {
            assert(b.skills()[e] == a.skills()[e]);
            assert(a.skills()[e].2 < a.len());
            assert(b.node(a.skills()[e].2 as int) == a.node(a.skills()[e].2 as int));
        }
    }
    assert(b.node(0) == a.node(0));
}

/// A lone routing-tier root with no routing entries is well shaped.
pub proof fn lemma_root_alone_shaped(b: Builder)
    requires
        b.len() == 1,
        b.node(0).parent is None,
        b.node(0).tier == Tier::Routing,
        b.skills().len() == 0,
    ensures
        b.well_shaped(),
{
    assert forall|q: int| 0 <= q < b.len() implies ((#[trigger] b.node(q)).parent is None <==> q == 0) by {}
    assert forall|q: int, p: nat|
        #![trigger b.node(q), b.node(p as int)]
        0 <= q < b.len() && b.node(q).parent == Some(p) implies tier_code(b.node(q).tier) >= tier_code(
            b.node(p as int).tier,
        ) by {}
}

/// Changing what nodes hold, but not their tiers or parents, keeps a builder well shaped.
pub proof fn lemma_relabel_keeps_shape(a: Builder, b: Builder)
    requires
        b.wf(),
        a.well_shaped(),
        b.len() == a.len(),
        b.skills() == a.skills(),
        forall|i: int|
            0 <= i < a.len() ==> (#[trigger] b.node(i)).tier == a.node(i).tier && b.node(i).parent
                == a.node(i).parent,
    ensures
        b.well_shaped(),
{
    assert forall|i: int, p: nat|
        #![trigger b.node(i), b.node(p as int)]
        0 <= i < b.len() && b.node(i).parent == Some(p) implies tier_code(b.node(i).tier) >= tier_code(
            b.node(p as int).tier,
        ) by {
        assert(a.node(i).parent == Some(p));
        assert(b.wf());
        assert(b.nodes@[i].parent == Some(p as usize));
        assert(b.node(p as int).tier == a.node(p as int).tier);
    }
    assert forall|i: int| 0 <= i < b.len() implies ((#[trigger] b.node(i)).parent is None <==> i == 0) by {
        assert(b.node(i).parent == a.node(i).parent);
    }
    assert forall|e: int| 0 <= e < b.skills().len() implies (#[trigger] b.skills()[e]).2 < b.len() && (
    b.skills()[e].2 == 0 || b.node(b.skills()[e].2 as int).parent == Some(0nat)) by {
        assert(b.node(a.skills()[e].2 as int).parent == a.node(a.skills()[e].2 as int).parent);
    }
    assert(b.node(0).tier == a.node(0).tier);
}

proof fn lemma_update_keeps_wf(b: Builder, i: int, n: BuildNode, nodes: Seq<BuildNode>)
    requires
        b.wf(),
        0 <= i < b.nodes@.len(),
        nodes == b.nodes@.update(i, n),
        n.parent == b.nodes@[i].parent,
        forall|k: int| 0 <= k < n.edges@.len() ==> (#[trigger] n.edges@[k]).dst < b.nodes@.len(),
    ensures
        forall|j: int|
            0 <= j < nodes.len() ==> match (#[trigger] nodes[j]).parent {
                Some(p) => p < j,
                None => true,
            },
        forall|j: int, k: int|
            0 <= j < nodes.len() && 0 <= k < nodes[j].edges@.len() ==> (
            #[trigger] nodes[j].edges@[k]).dst < nodes.len(),
{
    assert forall|j: int| 0 <= j < nodes.len() implies match (#[trigger] nodes[j]).parent {
        Some(p) => p < j,
        None => true,
    } by {
        assert(b.nodes@[j].parent == nodes[j].parent);
    }
    assert forall|j: int, k: int|
        0 <= j < nodes.len() && 0 <= k < nodes[j].edges@.len() implies (
        #[trigger] nodes[j].edges@[k]).dst < nodes.len() by {
        if j != i {
            assert(nodes[j] == b.nodes@[j]);
        }
    }
}


/// The parent of each node, in the order the nodes were added.
spec fn parents(nodes: Seq<BuildNode>) -> Seq<Option<usize>> {
    nodes.map_values(|n: BuildNode| n.parent)
}

/// Each node's children, in the order they were added. Every child comes after its parent.
fn children_lists(nodes: &Vec<BuildNode>) -> (kids: Vec<Vec<usize>>)
    requires
        forall|i: int|
            0 <= i < nodes@.len() ==> match (#[trigger] nodes@[i]).parent {
                Some(p) => p < i,
                None => true,
            },
    ensures
        kids@.len() == nodes@.len(),
        forall|p: int, j: int|
            0 <= p < kids@.len() && 0 <= j < kids@[p]@.len() ==> p < (#[trigger] kids@[p]@[j])
                < nodes@.len(),
        lists_children(parents(nodes@), kids@),
{
    let ghost par = parents(nodes@);
    let n = nodes.len();
    let mut kids: Vec<Vec<usize>> = Vec::new();
    let mut i: usize = 0;
    while i < n
        invariant
            0 <= i <= n,
            n == nodes@.len(),
            kids@.len() == i,
            forall|p: int| 0 <= p < i ==> (#[trigger] kids@[p])@.len() == 0,
        decreases n - i,
    {
        kids.push(Vec::new());
        i += 1;
    }
    let mut c: usize = 0;
    while c < n
        invariant
            0 <= c <= n,
            n == nodes@.len(),
            kids@.len() == n,
            par == parents(nodes@),
            forall|i: int|
                0 <= i < nodes@.len() ==> match (#[trigger] nodes@[i]).parent {
                    Some(p) => p < i,
                    None => true,
                },
            forall|p: int, j: int|
                0 <= p < kids@.len() && 0 <= j < kids@[p]@.len() ==> p < (#[trigger] kids@[p]@[j])
                    < c && par[kids@[p]@[j] as int] == Some(p as usize),
            forall|i: int|
                0 <= i < c && (#[trigger] par[i]) is Some ==> kids@[par[i]->0 as int]@.contains(
                    i as usize,
                ),
            forall|p: int, j: int, k: int|
                0 <= p < kids@.len() && 0 <= j < k < kids@[p]@.len() ==> #[trigger] kids@[p]@[j]
                    < #[trigger] kids@[p]@[k],
        decreases n - c,
    {
        assert(par[c as int] == nodes@[c as int].parent);
        match nodes[c].parent {
            Some(p) => {
                let ghost before = kids@;
                let mut row = kids.remove(p);
                row.push(c);
                kids.insert(p, row);
                proof {
                    assert forall|q: int, j: int|
                        0 <= q < kids@.len() && 0 <= j < kids@[q]@.len() implies q < (
                        #[trigger] kids@[q]@[j]) < c + 1 && par[kids@[q]@[j] as int] == Some(
                            q as usize,
                        ) by {
                        if q != p {
                            assert(kids@[q] == before[q]);
                        } else if j < before[q]@.len() {
                            assert(kids@[q]@[j] == before[q]@[j]);
                        }
                    }
                    assert forall|i: int|
                        0 <= i < c + 1 && (#[trigger] par[i]) is Some implies kids@[par[i]->0 as int]@.contains(
                            i as usize,
                        ) by {
                        let q = par[i]->0 as int;
                        if i == c {
                            assert(kids@[q]@[kids@[q]@.len() - 1] == c);
                        } else if q != p {
                            assert(kids@[q] == before[q]);
                        } else {
                            let j = choose|j: int| 0 <= j < before[q]@.len() && before[q]@[j] == i as usize;
                            assert(kids@[q]@[j] == i as usize);
                        }
                    }
                    assert forall|q: int, j: int, k: int|
                        0 <= q < kids@.len() && 0 <= j < k < kids@[q]@.len() implies #[trigger] kids@[q]@[j]
                            < #[trigger] kids@[q]@[k] by {
                        if q != p {
                            assert(kids@[q] == before[q]);
                        } else if k < before[q]@.len() {
                            assert(kids@[q]@[j] == before[q]@[j] && kids@[q]@[k] == before[q]@[k]);
                        } else {
                            assert(kids@[q]@[j] == before[q]@[j]);
                        }
                    }
                }
            },
            None => {},
        }
        c += 1;
    }
    kids
}

/// The order of edge keys: kind, then destination, then ordinal; the label does not count.
spec fn key_before(a: (u8, u32, u8, u16), b: (u8, u32, u8, u16)) -> bool {
    ||| a.0 < b.0
    ||| a.0 == b.0 && a.1 < b.1
    ||| a.0 == b.0 && a.1 == b.1 && a.2 < b.2
}

/// `a` sorts before `b` as an edge key: kind, then destination, then ordinal.
fn key_lt(a: (u8, u32, u8, u16), b: (u8, u32, u8, u16)) -> (r: bool)
    ensures
        r == key_before(a, b),
{
    a.0 < b.0 || (a.0 == b.0 && (a.1 < b.1 || (a.1 == b.1 && a.2 < b.2)))
}

/// Inserts `k` after every key that does not sort after it, so equal keys keep their order.
fn insert_sorted(v: &mut Vec<(u8, u32, u8, u16)>, k: (u8, u32, u8, u16))
    ensures
        final(v)@.len() == old(v)@.len() + 1,
{
    let mut i: usize = 0;
    while i < v.len() && !key_lt(k, v[i])
        invariant
            0 <= i <= v@.len(),
        decreases v@.len() - i,
    {
        i += 1;
    }
    v.insert(i, k);
}

/// Where `s` goes in `set`: after every string that sorts before it, and before the first one
/// that does not.
spec fn intern_at(set: Seq<Vec<u8>>, s: Seq<u8>, i: int) -> bool {
    &&& 0 <= i <= set.len()
    &&& forall|j: int| 0 <= j < i ==> lex_lt(#[trigger] set[j]@, s)
    &&& i < set.len() ==> !lex_lt(set[i]@, s)
}

/// Whether `x` is one of the strings in `set`.
spec fn holds_string(set: Seq<Vec<u8>>, x: Seq<u8>) -> bool {
    exists|j: int| 0 <= j < set.len() && (#[trigger] set[j])@ == x
}

/// Adds `s` to the sorted, duplicate-free set of heap strings: at the first string that does
/// not sort before it, unless that string is `s` itself.
fn intern(set: &mut Vec<Vec<u8>>, s: &[u8])
    ensures
        final(set)@.len() <= old(set)@.len() + 1,
        forall|x: Seq<u8>|
            #[trigger] holds_string(final(set)@, x) <==> (holds_string(old(set)@, x) || x == s@),
        exists|i: int|
            #![trigger intern_at(old(set)@, s@, i)]
            intern_at(old(set)@, s@, i) && if i < old(set)@.len() && old(set)@[i]@ == s@ {
                final(set)@ == old(set)@
            } else {
                &&& final(set)@.len() == old(set)@.len() + 1
                &&& final(set)@[i]@ == s@
                &&& forall|j: int| 0 <= j < i ==> #[trigger] final(set)@[j] == old(set)@[j]
                &&& forall|j: int|
                    i < j < final(set)@.len() ==> #[trigger] final(set)@[j] == old(set)@[j - 1]
            },
{
    let mut i: usize = 0;
    while i < set.len() && bytes_lt(set[i].as_slice(), s)
        invariant
            0 <= i <= set@.len(),
            forall|j: int| 0 <= j < i ==> lex_lt(#[trigger] set@[j]@, s@),
        decreases set@.len() - i,
    {
        i += 1;
    }
    assert(intern_at(set@, s@, i as int));
    if i < set.len() && bytes_eq(set[i].as_slice(), s) {
        assert(set@[i as int]@ == s@);
        return;
    }
    let ghost before = set@;
    set.insert(i, crate::text::to_vec(s));
    assert forall|x: Seq<u8>|
        #[trigger] holds_string(set@, x) <==> (holds_string(before, x) || x == s@) by {
        if holds_string(set@, x) {
            let j = choose|j: int| 0 <= j < set@.len() && (#[trigger] set@[j])@ == x;
            if j < i {
                assert(before[j]@ == x);
            } else if j > i {
                assert(before[j - 1]@ == x);
            }
        }
        if holds_string(before, x) {
            let j = choose|j: int| 0 <= j < before.len() && (#[trigger] before[j])@ == x;
            if j < i {
                assert(set@[j]@ == x);
            } else {
                assert(set@[j + 1]@ == x);
            }
        }
        if x == s@ {
            assert(set@[i as int]@ == x);
        }
    }
}

/// String `j` is the first in `set` that is `x`.
spec fn first_string(set: Seq<Vec<u8>>, x: Seq<u8>, j: int) -> bool {
    &&& 0 <= j < set.len()
    &&& set[j]@ == x
    &&& forall|i: int| 0 <= i < j ==> (#[trigger] set[i])@ != x
}

/// The index of `x` in the heap `set`, or `NONE32` when it is not there below `NONE32`.
spec fn string_idx(set: Seq<Vec<u8>>, x: Seq<u8>) -> u32 {
    if exists|j: int| first_string(set, x, j) && j < NONE32 {
        (choose|j: int| first_string(set, x, j) && j < NONE32) as u32
    } else {
        NONE32
    }
}

proof fn lemma_first_string(set: Seq<Vec<u8>>, x: Seq<u8>, j: int)
    requires
        first_string(set, x, j),
    ensures
        forall|k: int| #[trigger] first_string(set, x, k) ==> k == j,
{
    assert forall|k: int| #[trigger] first_string(set, x, k) implies k == j by {
        if k < j {
            assert(set[k]@ != x);
        } else if k > j {
            assert(set[j]@ != x);
        }
    }
}

/// Where `s` sits in the heap, or `NONE32` when it was never interned.
fn string_index(set: &Vec<Vec<u8>>, s: &[u8]) -> (r: u32)
    ensures
        r == string_idx(set@, s@),
        r != NONE32 ==> r < set@.len() && set@[r as int]@ == s@ && forall|j: int|
            0 <= j < r ==> (#[trigger] set@[j])@ != s@,
        r == NONE32 ==> forall|j: int|
            0 <= j < set@.len() && j < NONE32 ==> (#[trigger] set@[j])@ != s@,
{
    let mut i: usize = 0;
    while i < set.len()
        invariant
            0 <= i <= set@.len(),
            forall|j: int| 0 <= j < i ==> (#[trigger] set@[j])@ != s@,
        decreases set@.len() - i,
    {
        if bytes_eq(set[i].as_slice(), s) {
            proof {
                assert(first_string(set@, s@, i as int));
                lemma_first_string(set@, s@, i as int);
            }
            return if i < NONE32 as usize {
                i as u32
            } else {
                NONE32
            };
        }
        i += 1;
    }
    NONE32
}

/// The combined length of the first `i` strings.
spec fn heap_total(set: Seq<Vec<u8>>, i: int) -> int
    decreases i,
{
    if i <= 0 {
        0
    } else {
        heap_total(set, i - 1) + set[i - 1]@.len()
    }
}

proof fn lemma_heap_total_grows(set: Seq<Vec<u8>>, i: int, j: int)
    requires
        0 <= i <= j,
    ensures
        heap_total(set, i) <= heap_total(set, j),
    decreases j - i,
{
    if i < j {
        lemma_heap_total_grows(set, i, j - 1);
    }
}

/// `out` is the string heap over `set`: the count, the `count + 1` running offsets, then the
/// strings back to back, string `j` between offsets `j` and `j + 1`.
spec fn heap_image(out: Seq<u8>, set: Seq<Vec<u8>>) -> bool {
    let n = set.len() as int;
    let base = 4 + 4 * (n + 1);
    &&& out.len() == base + heap_total(set, n)
    &&& le32(out, 0) == n
    &&& forall|j: int| 0 <= j <= n ==> #[trigger] le32(out, 4 + 4 * j) == heap_total(set, j)
    &&& forall|j: int|
        0 <= j < n ==> out.subrange(base + heap_total(set, j), base + heap_total(set, j + 1))
            == (#[trigger] set[j])@
}

/// The string heap: count, `count + 1` offsets, then the bytes.
#[verifier::spinoff_prover]
#[verifier::rlimit(60)]
fn heap_bytes(set: &Vec<Vec<u8>>) -> (r: Result<Vec<u8>, Error>)
    ensures
        r matches Err(e) ==> e is OffsetOverflow,
        r is Ok <==> set@.len() < u32::MAX && heap_total(set@, set@.len() as int) <= u32::MAX,
        r matches Ok(out) ==> heap_image(out@, set@),
{
    if set.len() > u32::MAX as usize - 1 {
        return Err(Error::OffsetOverflow { what: "strings" });
    }
    let ghost n = set@.len() as int;
    let mut out: Vec<u8> = Vec::new();
    push_u32(&mut out, set.len() as u32);
    let mut cur: u32 = 0;
    let mut i: usize = 0;
    while i < set.len()
        invariant
            0 <= i <= set@.len(),
            n == set@.len(),
            out@.len() == 4 + 4 * i,
            le32(out@, 0) == n,
            forall|j: int| 0 <= j < i ==> #[trigger] le32(out@, 4 + 4 * j) == heap_total(set@, j),
            cur == heap_total(set@, i as int),
        decreases set@.len() - i,
    {
        let ghost before = out@;
        push_u32(&mut out, cur);
        proof {
            lemma_le32_kept(before, out@, 0);
            assert forall|j: int| 0 <= j < i + 1 implies #[trigger] le32(out@, 4 + 4 * j)
                == heap_total(set@, j) by {
                if j < i {
                    lemma_le32_kept(before, out@, 4 + 4 * j);
                }
            }
        }
        let l = set[i].len();
        if l > (u32::MAX - cur) as usize {
            proof {
                lemma_heap_total_grows(set@, i + 1, n);
            }
            return Err(Error::OffsetOverflow { what: "strings" });
        }
        cur = cur + l as u32;
        i += 1;
    }
    let ghost before = out@;
    push_u32(&mut out, cur);
    proof {
        lemma_le32_kept(before, out@, 0);
        assert forall|j: int| 0 <= j <= n implies #[trigger] le32(out@, 4 + 4 * j) == heap_total(
            set@,
            j,
        ) by {
            if j < n {
                lemma_le32_kept(before, out@, 4 + 4 * j);
            }
        }
    }
    let ghost hdr = out@;
    let ghost base = 4 + 4 * (n + 1);
    let mut k: usize = 0;
    while k < set.len()
        invariant
            0 <= k <= set@.len(),
            n == set@.len(),
            base == 4 + 4 * (n + 1),
            hdr.len() == base,
            out@.len() == base + heap_total(set@, k as int),
            out@.subrange(0, base) == hdr,
            forall|j: int|
                0 <= j < k ==> out@.subrange(
                    base + heap_total(set@, j),
                    base + heap_total(set@, j + 1),
                ) == (#[trigger] set@[j])@,
        decreases set@.len() - k,
    {
        let ghost before = out@;
        push_all(&mut out, set[k].as_slice());
        proof {
            lemma_heap_step(before, out@, set@, base, k as int);
        }
        k += 1;
    }
    proof {
        lemma_heap_done(hdr, out@, set@);
    }
    Ok(out)
}

/// Appending string `k` to a heap body that holds the first `k` keeps them and places it.
#[verifier::spinoff_prover]
proof fn lemma_heap_step(before: Seq<u8>, after: Seq<u8>, set: Seq<Vec<u8>>, base: int, k: int)
    requires
        0 <= k < set.len(),
        0 <= base,
        before.len() == base + heap_total(set, k),
        after == before + set[k]@,
        forall|j: int|
            0 <= j < k ==> before.subrange(base + heap_total(set, j), base + heap_total(set, j + 1))
                == (#[trigger] set[j])@,
    ensures
        after.len() == base + heap_total(set, k + 1),
        after.subrange(0, base) == before.subrange(0, base),
        forall|j: int|
            0 <= j < k + 1 ==> after.subrange(base + heap_total(set, j), base + heap_total(set, j + 1))
                == (#[trigger] set[j])@,
{
    lemma_heap_total_grows(set, 0, k);
    assert(after.subrange(0, base) =~= before.subrange(0, base));
    assert forall|j: int| 0 <= j < k + 1 implies after.subrange(
        base + heap_total(set, j),
        base + heap_total(set, j + 1),
    ) == (#[trigger] set[j])@ by {
        lemma_heap_total_grows(set, 0, j);
        if j < k {
            lemma_heap_total_grows(set, j + 1, k);
            assert(after.subrange(base + heap_total(set, j), base + heap_total(set, j + 1))
                =~= before.subrange(base + heap_total(set, j), base + heap_total(set, j + 1)));
        } else {
            assert(after.subrange(base + heap_total(set, j), base + heap_total(set, j + 1))
                =~= set[j]@);
        }
    }
}

/// The count and offsets written first, and every string placed after them, make the heap.
proof fn lemma_heap_done(hdr: Seq<u8>, out: Seq<u8>, set: Seq<Vec<u8>>)
    requires
        hdr.len() == 4 + 4 * (set.len() + 1),
        out.len() == hdr.len() + heap_total(set, set.len() as int),
        out.subrange(0, hdr.len() as int) == hdr,
        le32(hdr, 0) == set.len(),
        forall|j: int|
            0 <= j <= set.len() ==> #[trigger] le32(hdr, 4 + 4 * j) == heap_total(set, j),
        forall|j: int|
            0 <= j < set.len() ==> out.subrange(
                hdr.len() + heap_total(set, j),
                hdr.len() + heap_total(set, j + 1),
            ) == (#[trigger] set[j])@,
    ensures
        heap_image(out, set),
{
    lemma_heap_total_grows(set, 0, set.len() as int);
    assert forall|j: int| 0 <= j <= set.len() implies #[trigger] le32(out, 4 + 4 * j)
        == heap_total(set, j) by {
        lemma_le32_kept(hdr, out, 4 + 4 * j);
    }
    lemma_le32_kept(hdr, out, 0);
}

fn as_u32(v: usize, what: &'static str) -> (r: Result<u32, Error>)
    ensures
        r matches Ok(x) ==> x == v,
        r is Ok <==> v <= u32::MAX,
        r matches Err(e) ==> e is OffsetOverflow,
{
    if v > u32::MAX as usize {
        Err(Error::OffsetOverflow { what })
    } else {
        Ok(v as u32)
    }
}

/// `src` compressed at the file's level, kept only when it is strictly smaller.
fn maybe_compress(src: &[u8], dict: Option<&Dictionary>) -> (r: Option<Vec<u8>>)
    ensures
        r is Some <==> (compressed_spec(src@, dict_view(dict)) matches Some(c) && c.len()
            < src@.len()),
        r matches Some(c) ==> c@ == compressed_spec(src@, dict_view(dict))->0 && c@.len()
            < src@.len(),
{
    match compress(src, dict) {
        Ok(c) => {
            if c.len() < src.len() {
                Some(c)
            } else {
                None
            }
        },
        Err(_) => None,
    }
}

/// At most ten sections, each of at most 128 MiB.
spec fn secs_bounded(secs: Seq<StoredSection>) -> bool {
    &&& secs.len() <= 10
    &&& forall|j: int| 0 <= j < secs.len() ==> (#[trigger] secs[j]).data@.len() <= 0x800_0000
}

/// The tables of a file before compression.
struct Tables {
    set: Vec<Vec<u8>>,
    heap: Vec<u8>,
    hot: Vec<u8>,
    cold: Vec<u8>,
    hashes: Vec<u8>,
    hash_count: u32,
    edges: Vec<u8>,
    edge_count: u32,
    nodes_sec: Vec<u8>,
    segs: Vec<u8>,
    seg_count: u32,
    caps: Vec<u8>,
    cap_count: u32,
}

impl Tables {
    /// The tables of a tree of `n` nodes within the builder's limits: each well under 128 MiB, the
    /// two payload regions together at most 256 MiB.
    spec fn small(&self, n: int) -> bool {
        &&& n <= 4096
        &&& self.set@.len() <= 2 + 17 * 4096
        &&& self.heap@.len() <= 0x800_0000
        &&& self.hot@.len() + self.cold@.len() <= 0x1000_0000
        &&& self.hashes@.len() <= 32 * 4096
        &&& self.edges@.len() <= 8 * 16 * 4096
        &&& self.nodes_sec@.len() == 32 * n
        &&& self.segs@.len() <= 96 * 4096
        &&& self.caps@.len() <= 8 * 16 * 4096
    }
}

/// The bytes of one section as stored, with its directory fields.
struct StoredSection {
    id: u16,
    flags: u16,
    data: Vec<u8>,
    count: u32,
    orig_len: u32,
}


/// A vector of `n` copies of `v`.
fn filled_u32(v: u32, n: usize) -> (r: Vec<u32>)
    ensures
        r@.len() == n,
        forall|i: int| 0 <= i < n ==> #[trigger] r@[i] == v,
{
    let mut r: Vec<u32> = Vec::new();
    let mut i: usize = 0;
    while i < n
        invariant
            0 <= i <= n,
            r@.len() == i,
            forall|k: int| 0 <= k < i ==> #[trigger] r@[k] == v,
        decreases n - i,
    {
        r.push(v);
        i += 1;
    }
    r
}

/// A pre-order of the tree and, for each node as added, its position in that order. Refuses a
/// tree whose only root is not the first node, and one too large for 32-bit node indices.
fn order_and_rank(nodes: &Vec<BuildNode>, kids: &Vec<Vec<usize>>) -> (r: Result<
    (Vec<usize>, Vec<u32>),
    Error,
>)
    requires
        kids@.len() == nodes@.len(),
        forall|p: int, j: int|
            0 <= p < kids@.len() && 0 <= j < kids@[p]@.len() ==> p < (#[trigger] kids@[p]@[j])
                < kids@.len(),
        lists_children(parents(nodes@), kids@),
        parents_first(parents(nodes@)),
    ensures
        r is Ok <==> nodes@.len() <= u32::MAX && (nodes@.len() == 0 || single_rooted(
            parents(nodes@),
        )),
        nodes@.len() > u32::MAX ==> r == Err::<(Vec<usize>, Vec<u32>), Error>(
            Error::OffsetOverflow { what: "nodes" },
        ),
        nodes@.len() <= u32::MAX && nodes@.len() > 0 && !single_rooted(parents(nodes@)) ==> r
            == Err::<(Vec<usize>, Vec<u32>), Error>(Error::RootHasParent),
        r matches Ok((order, rank)) ==> {
            &&& order@.len() == nodes@.len()
            &&& rank@.len() == nodes@.len()
            &&& nodes@.len() <= u32::MAX
            &&& forall|k: int| 0 <= k < order@.len() ==> #[trigger] order@[k] < nodes@.len()
            &&& forall|k: int| 0 <= k < rank@.len() ==> #[trigger] rank@[k] < nodes@.len()
            &&& forall|i: usize| i < nodes@.len() ==> #[trigger] order@.contains(i)
        },
{
    let ghost par = parents(nodes@);
    let n = nodes.len();
    if n > u32::MAX as usize {
        return Err(Error::OffsetOverflow { what: "nodes" });
    }
    let mut order: Vec<usize> = Vec::new();
    if n == 0 {
        return Ok((order, Vec::new()));
    }
    let mut extra_root = false;
    let mut i: usize = 1;
    while i < n
        invariant
            1 <= i <= n,
            n == nodes@.len(),
            par == parents(nodes@),
            extra_root <==> exists|q: int| 1 <= q < i && (#[trigger] par[q]) is None,
        decreases n - i,
    {
        assert(par[i as int] == nodes@[i as int].parent);
        if nodes[i].parent.is_none() {
            extra_root = true;
        }
        i += 1;
    }
    assert(par[0] == nodes@[0].parent);
    if nodes[0].parent.is_some() || extra_root {
        return Err(Error::RootHasParent);
    }
    assert(single_rooted(par));
    visit(kids, 0, &mut order, Ghost(par));
    proof {
        assert forall|v: usize| v < n implies #[trigger] order@.contains(v) by {
            lemma_all_under_root(par, v as int);
            let k = choose|k: int| 0 <= k < order@.len() && order@[k] == v;
        }
        lemma_walk_len(order@, n as int);
    }
    if order.len() != n {
        return Err(Error::NotPreOrder(0));
    }
    let mut rank = filled_u32(0, n);
    let mut k: usize = 0;
    while k < n
        invariant
            0 <= k <= n,
            n == nodes@.len(),
            n <= u32::MAX,
            order@.len() == n,
            rank@.len() == n,
            forall|q: int| 0 <= q < order@.len() ==> #[trigger] order@[q] < n,
            forall|q: int| 0 <= q < rank@.len() ==> #[trigger] rank@[q] < n,
        decreases n - k,
    {
        let old = order[k];
        rank.set(old, k as u32);
        k += 1;
    }
    Ok((order, rank))
}

/// The commitment of every subtree, indexed as the nodes were added. Children are visited in
/// the order they were added, which is the order a reader finds them in.
fn subtree_hashes(nodes: &Vec<BuildNode>, kids: &Vec<Vec<usize>>) -> (r: Vec<[u8; 32]>)
    requires
        kids@.len() == nodes@.len(),
        forall|p: int, j: int|
            0 <= p < kids@.len() && 0 <= j < kids@[p]@.len() ==> p < (#[trigger] kids@[p]@[j])
                < kids@.len(),
    ensures
        r@.len() == nodes@.len(),
{
    let n = nodes.len();
    let mut out: Vec<[u8; 32]> = Vec::new();
    let mut i: usize = 0;
    while i < n
        invariant
            0 <= i <= n,
            out@.len() == i,
        decreases n - i,
    {
        out.push([0u8; 32]);
        i += 1;
    }
    let mut at: usize = n;
    while at > 0
        invariant
            0 <= at <= n,
            n == nodes@.len(),
            out@.len() == n,
            kids@.len() == n,
            forall|p: int, j: int|
                0 <= p < kids@.len() && 0 <= j < kids@[p]@.len() ==> p < (#[trigger] kids@[p]@[j])
                    < kids@.len(),
        decreases at,
    {
        at -= 1;
        let node = &nodes[at];
        let row = &kids[at];
        let mut ch: Vec<[u8; 32]> = Vec::new();
        let mut j: usize = 0;
        while j < row.len()
            invariant
                0 <= j <= row@.len(),
                row == &kids@[at as int],
                at < n,
                out@.len() == n,
                kids@.len() == n,
                forall|p: int, q: int|
                    0 <= p < kids@.len() && 0 <= q < kids@[p]@.len() ==> p < (
                    #[trigger] kids@[p]@[q]) < kids@.len(),
            decreases row@.len() - j,
        {
            assert(row@[j as int] < n);
            ch.push(out[row[j]]);
            j += 1;
        }
        let empty: &str = "";
        let name: &str = match &node.name {
            Some(s) => s.as_str(),
            None => empty,
        };
        let h = subtree_hash(
            node.kind,
            node.tier,
            node.must_understand,
            node.depth,
            node.role,
            name.as_bytes(),
            node.payload.as_slice(),
            ch.as_slice(),
        );
        out.set(at, h);
    }
    out
}

/// A node within the sizes a build always fits: a payload of at most 64 KiB, at most 16 edges
/// and at most 16 capabilities.
spec fn node_small(n: BuildNode) -> bool {
    &&& n.payload@.len() <= 0x10000
    &&& n.edges@.len() <= 16
    &&& cap_count(n) <= 16
}

/// At most 4096 nodes, each within [`node_small`].
spec fn nodes_small(nodes: Seq<BuildNode>) -> bool {
    &&& nodes.len() <= 4096
    &&& forall|i: int| 0 <= i < nodes.len() ==> #[trigger] node_small(nodes[i])
}

/// Places every payload in its region: tier 0 in HOT, the rest in COLD. Identical bytes in one
/// region are stored once; a payload is never placed inside another.
fn place_payloads(nodes: &Vec<BuildNode>, order: &Vec<usize>) -> (r: Result<
    (Vec<u8>, Vec<u8>, Vec<(u32, u32, bool)>),
    Error,
>)
    requires
        order@.len() == nodes@.len(),
        forall|k: int| 0 <= k < order@.len() ==> #[trigger] order@[k] < nodes@.len(),
    ensures
        r matches Ok((hot, cold, placed)) ==> placed@.len() == nodes@.len(),
        r matches Err(e) ==> e is OffsetOverflow,
        nodes_small(nodes@) ==> (r matches Ok((hot, cold, placed)) && hot@.len() + cold@.len()
            <= 0x10000 * nodes@.len()),
{
    let n = nodes.len();
    let mut hot: Vec<u8> = Vec::new();
    let mut cold: Vec<u8> = Vec::new();
    let mut placed: Vec<(u32, u32, bool)> = Vec::new();
    let mut i: usize = 0;
    while i < n
        invariant
            0 <= i <= n,
            placed@.len() == i,
        decreases n - i,
    {
        placed.push((0, 0, false));
        i += 1;
    }
    // (region, offset, the node whose bytes these are)
    let mut blobs: Vec<(bool, u32, usize)> = Vec::new();
    let mut k: usize = 0;
    while k < n
        invariant
            0 <= k <= n,
            n == nodes@.len(),
            order@.len() == n,
            placed@.len() == n,
            forall|q: int| 0 <= q < order@.len() ==> #[trigger] order@[q] < n,
            forall|q: int| 0 <= q < blobs@.len() ==> (#[trigger] blobs@[q]).2 < n,
            nodes_small(nodes@) ==> hot@.len() + cold@.len() <= 0x10000 * k,
        decreases n - k,
    {
        let old = order[k];
        proof {
            if nodes_small(nodes@) {
                assert(node_small(nodes@[old as int]));
            }
        }
        let node = &nodes[old];
        let is_cold = node.tier != Tier::Routing;
        let len = as_u32(node.payload.len(), "payload")?;
        let mut off: u32 = 0;
        if len > 0 {
            let mut found = false;
            let mut b: usize = 0;
            while b < blobs.len()
                invariant
                    0 <= b <= blobs@.len(),
                    forall|q: int| 0 <= q < blobs@.len() ==> (#[trigger] blobs@[q]).2 < n,
                    n == nodes@.len(),
                decreases blobs@.len() - b,
            {
                let (c, o, who) = blobs[b];
                if c == is_cold && bytes_eq(nodes[who].payload.as_slice(), node.payload.as_slice()) {
                    off = o;
                    found = true;
                    break;
                }
                b += 1;
            }
            if !found {
                let region = if is_cold { &mut cold } else { &mut hot };
                off = as_u32(region.len(), "payload")?;
                push_all(region, node.payload.as_slice());
                blobs.push((is_cold, off, old));
            }
        }
        placed.set(old, (off, len, is_cold));
        k += 1;
    }
    Ok((hot, cold, placed))
}


/// The edge table, grouped by source in pre-order and sorted within a source by kind, then
/// destination, then ordinal; and each node's `(edge_off, edge_cnt)`, indexed as added.
fn edge_table(nodes: &Vec<BuildNode>, order: &Vec<usize>, rank: &Vec<u32>) -> (r: Result<
    (Vec<u8>, Vec<(u32, u16)>, u32),
    Error,
>)
    requires
        order@.len() == nodes@.len(),
        rank@.len() == nodes@.len(),
        forall|k: int| 0 <= k < order@.len() ==> #[trigger] order@[k] < nodes@.len(),
        forall|i: int, k: int|
            0 <= i < nodes@.len() && 0 <= k < nodes@[i].edges@.len() ==> (
            #[trigger] nodes@[i].edges@[k]).dst < nodes@.len(),
    ensures
        r matches Ok((t, spans, cnt)) ==> spans@.len() == nodes@.len() && t@.len() == 8 * cnt && (
        nodes_small(nodes@) ==> cnt <= 16 * nodes@.len()),
        r matches Err(e) ==> e is OffsetOverflow,
        nodes_small(nodes@) ==> r is Ok,
{
    let n = nodes.len();
    let mut spans: Vec<(u32, u16)> = Vec::new();
    let mut i: usize = 0;
    while i < n
        invariant
            0 <= i <= n,
            spans@.len() == i,
        decreases n - i,
    {
        spans.push((0, 0));
        i += 1;
    }
    let mut out: Vec<u8> = Vec::new();
    let mut count: u32 = 0;
    let mut k: usize = 0;
    while k < n
        invariant
            0 <= k <= n,
            n == nodes@.len(),
            order@.len() == n,
            rank@.len() == n,
            spans@.len() == n,
            forall|q: int| 0 <= q < order@.len() ==> #[trigger] order@[q] < n,
            forall|i: int, e: int|
                0 <= i < nodes@.len() && 0 <= e < nodes@[i].edges@.len() ==> (
                #[trigger] nodes@[i].edges@[e]).dst < nodes@.len(),
            out@.len() == 8 * count,
            nodes_small(nodes@) ==> count <= 16 * k,
        decreases n - k,
    {
        let old = order[k];
        let node = &nodes[old];
        proof {
            if nodes_small(nodes@) {
                assert(node_small(nodes@[old as int]));
            }
        }
        let mut keys: Vec<(u8, u32, u8, u16)> = Vec::new();
        let mut e: usize = 0;
        while e < node.edges.len()
            invariant
                0 <= e <= node.edges@.len(),
                keys@.len() == e,
                node == &nodes@[old as int],
                old < n,
                n == nodes@.len(),
                rank@.len() == n,
                forall|i: int, q: int|
                    0 <= i < nodes@.len() && 0 <= q < nodes@[i].edges@.len() ==> (
                    #[trigger] nodes@[i].edges@[q]).dst < nodes@.len(),
            decreases node.edges@.len() - e,
        {
            let ed = node.edges[e];
            assert(nodes@[old as int].edges@[e as int].dst < n);
            insert_sorted(&mut keys, (ed.kind.code(), rank[ed.dst], ed.ordinal, ed.label));
            e += 1;
        }
        let start = count;
        let mut q: usize = 0;
        while q < keys.len()
            invariant
                0 <= q <= keys@.len(),
                out@.len() == 8 * count,
                count == start + q,
                keys@.len() == node.edges@.len(),
                node == &nodes@[old as int],
                nodes_small(nodes@) ==> start <= 16 * k && keys@.len() <= 16 && k < 4096,
            decreases keys@.len() - q,
        {
            let (kind, dst, ordinal, label) = keys[q];
            push_u32(&mut out, dst);
            out.push(kind);
            out.push(ordinal);
            push_u16(&mut out, label);
            if count == u32::MAX {
                return Err(Error::OffsetOverflow { what: "edges" });
            }
            count += 1;
            q += 1;
        }
        if keys.len() > u16::MAX as usize {
            return Err(Error::OffsetOverflow { what: "edges" });
        }
        spans.set(old, (start, keys.len() as u16));
        k += 1;
    }
    Ok((out, spans, count))
}

/// A commitment is stored only where something can be verified on its own: the root, every
/// `Segment` node, and every node that steps up a tier from its parent.
fn stores_commitment(nodes: &Vec<BuildNode>, old: usize) -> (r: bool)
    requires
        old < nodes@.len(),
        forall|i: int|
            0 <= i < nodes@.len() ==> match (#[trigger] nodes@[i]).parent {
                Some(p) => p < i,
                None => true,
            },
    ensures
        r == match nodes@[old as int].parent {
            None => true,
            Some(p) => nodes@[old as int].kind == Kind::Segment || tier_code(nodes@[p as int].tier)
                < tier_code(nodes@[old as int].tier),
        },
{
    let n = &nodes[old];
    match n.parent {
        None => true,
        Some(p) => {
            assert(match nodes@[old as int].parent {
                Some(p) => p < old,
                None => true,
            });
            n.kind == Kind::Segment || nodes[p].tier.hotter_than(n.tier)
        },
    }
}

/// The hash table, deduplicated, and each node's `hash_idx`, indexed as added.
fn hash_table(nodes: &Vec<BuildNode>, order: &Vec<usize>, subtrees: &Vec<[u8; 32]>) -> (r: Result<
    (Vec<u8>, Vec<u32>, u32),
    Error,
>)
    requires
        order@.len() == nodes@.len(),
        subtrees@.len() == nodes@.len(),
        forall|k: int| 0 <= k < order@.len() ==> #[trigger] order@[k] < nodes@.len(),
        forall|i: int|
            0 <= i < nodes@.len() ==> match (#[trigger] nodes@[i]).parent {
                Some(p) => p < i,
                None => true,
            },
    ensures
        r matches Ok((t, idx, cnt)) ==> idx@.len() == nodes@.len() && t@.len() == 32 * cnt && cnt
            <= nodes@.len(),
        r matches Err(e) ==> e is OffsetOverflow,
        nodes@.len() <= u32::MAX ==> r is Ok,
{
    let n = nodes.len();
    let mut idx = filled_u32(NONE32, n);
    let mut table: Vec<[u8; 32]> = Vec::new();
    let mut k: usize = 0;
    while k < n
        invariant
            0 <= k <= n,
            table@.len() <= k,
            n <= u32::MAX ==> k <= u32::MAX,
            n == nodes@.len(),
            order@.len() == n,
            subtrees@.len() == n,
            idx@.len() == n,
            forall|q: int| 0 <= q < order@.len() ==> #[trigger] order@[q] < n,
            forall|i: int|
                0 <= i < nodes@.len() ==> match (#[trigger] nodes@[i]).parent {
                    Some(p) => p < i,
                    None => true,
                },
        decreases n - k,
    {
        let old = order[k];
        if stores_commitment(nodes, old) {
            let h = subtrees[old];
            let mut at: usize = 0;
            while at < table.len() && !bytes_eq(table[at].as_slice(), h.as_slice())
                invariant
                    0 <= at <= table@.len(),
                decreases table@.len() - at,
            {
                at += 1;
            }
            if at == table.len() {
                table.push(h);
            }
            let i = as_u32(at, "hashes")?;
            idx.set(old, i);
        }
        k += 1;
    }
    let count = as_u32(table.len(), "hashes")?;
    let mut out: Vec<u8> = Vec::new();
    let mut t: usize = 0;
    while t < table.len()
        invariant
            0 <= t <= table@.len(),
            out@.len() == 32 * t,
        decreases table@.len() - t,
    {
        push_all(&mut out, table[t].as_slice());
        t += 1;
    }
    Ok((out, idx, count))
}

/// `x` is the UTF-8 encoding of `s`, which is present.
spec fn encodes(s: Option<String>, x: Seq<u8>) -> bool {
    s matches Some(t) && x == encode_utf8(t@)
}

/// How many capabilities node `n` declares.
spec fn cap_count(n: BuildNode) -> int {
    match n.segment {
        Some(spec) => spec.caps@.len() as int,
        None => 0,
    }
}

/// `x` is the name of node `n`, or the argument of one of its first `c` capabilities.
spec fn node_needs(n: BuildNode, x: Seq<u8>, c: int) -> bool {
    ||| encodes(n.name, x)
    ||| n.segment matches Some(spec) && exists|k: int|
        0 <= k < c && k < spec.caps@.len() && x == encode_utf8((#[trigger] spec.caps@[k]).arg@)
}

/// `x` is the version, the licence, or a string of one of the first `i` nodes.
spec fn needs_before(b: Builder, i: int, x: Seq<u8>) -> bool {
    ||| encodes(b.version, x)
    ||| encodes(b.license, x)
    ||| exists|k: int| 0 <= k < i && node_needs(#[trigger] b.nodes@[k], x, cap_count(b.nodes@[k]))
}

/// How many strings the first `i` nodes can add to the heap: a name and each capability argument.
spec fn heap_calls(nodes: Seq<BuildNode>, i: int) -> int
    decreases i,
{
    if i <= 0 {
        0
    } else {
        heap_calls(nodes, i - 1) + 1 + cap_count(nodes[i - 1])
    }
}

proof fn lemma_heap_calls(nodes: Seq<BuildNode>, k: int)
    requires
        nodes_small(nodes),
        0 <= k <= nodes.len(),
    ensures
        0 <= heap_calls(nodes, k) <= 17 * k,
    decreases k,
{
    if k > 0 {
        lemma_heap_calls(nodes, k - 1);
        assert(node_small(nodes[k - 1]));
    }
}

proof fn lemma_heap_total_short(set: Seq<Vec<u8>>, k: int)
    requires
        0 <= k <= set.len(),
        forall|j: int| 0 <= j < set.len() ==> (#[trigger] set[j])@.len() <= 1024,
    ensures
        0 <= heap_total(set, k) <= 1024 * k,
    decreases k,
{
    if k > 0 {
        lemma_heap_total_short(set, k - 1);
    }
}

/// Every heap string the file needs: version, licence, node names and capability arguments.
fn heap_strings(b: &Builder) -> (r: Vec<Vec<u8>>)
    ensures
        forall|x: Seq<u8>|
            #[trigger] holds_string(r@, x) <==> needs_before(*b, b.nodes@.len() as int, x),
        r@.len() <= 2 + heap_calls(b.nodes@, b.nodes@.len() as int),
{
    let mut set: Vec<Vec<u8>> = Vec::new();
    match &b.version {
        Some(v) => intern(&mut set, v.as_str().as_bytes()),
        None => {},
    }
    match &b.license {
        Some(v) => intern(&mut set, v.as_str().as_bytes()),
        None => {},
    }
    assert forall|x: Seq<u8>| #[trigger] holds_string(set@, x) <==> needs_before(*b, 0, x) by {}
    let mut i: usize = 0;
    while i < b.nodes.len()
        invariant
            0 <= i <= b.nodes@.len(),
            forall|x: Seq<u8>| #[trigger] holds_string(set@, x) <==> needs_before(*b, i as int, x),
            set@.len() <= 2 + heap_calls(b.nodes@, i as int),
        decreases b.nodes@.len() - i,
    {
        let n = &b.nodes[i];
        let ghost len0 = set@.len();
        match &n.name {
            Some(s) => intern(&mut set, s.as_str().as_bytes()),
            None => {},
        }
        assert(set@.len() <= len0 + 1);
        assert forall|x: Seq<u8>|
            #[trigger] holds_string(set@, x) <==> (needs_before(*b, i as int, x) || node_needs(
                *n,
                x,
                0,
            )) by {}
        match &n.segment {
            Some(spec) => {
                let mut c: usize = 0;
                while c < spec.caps.len()
                    invariant
                        0 <= c <= spec.caps@.len(),
                        n.segment == Some(*spec),
                        set@.len() <= len0 + 1 + c,
                        forall|x: Seq<u8>|
                            #[trigger] holds_string(set@, x) <==> (needs_before(*b, i as int, x)
                                || node_needs(*n, x, c as int)),
                    decreases spec.caps@.len() - c,
                {
                    intern(&mut set, spec.caps[c].arg.as_str().as_bytes());
                    assert forall|x: Seq<u8>|
                        #[trigger] holds_string(set@, x) <==> (needs_before(*b, i as int, x)
                            || node_needs(*n, x, c + 1)) by {
                        if x == encode_utf8(spec.caps@[c as int].arg@) {
                            assert(node_needs(*n, x, c + 1));
                        }
                        if node_needs(*n, x, c + 1) && !node_needs(*n, x, c as int) {
                            let k = choose|k: int|
                                0 <= k < c + 1 && k < spec.caps@.len() && x == encode_utf8(
                                    (#[trigger] spec.caps@[k]).arg@,
                                );
                            assert(k == c);
                        }
                    }
                    c += 1;
                }
            },
            None => {},
        }
        assert forall|x: Seq<u8>|
            #[trigger] holds_string(set@, x) <==> needs_before(*b, i + 1, x) by {
            if node_needs(*n, x, cap_count(*n)) {
                assert(b.nodes@[i as int] == *n);
            }
            if needs_before(*b, i + 1, x) && !needs_before(*b, i as int, x) {
                let k = choose|k: int|
                    0 <= k < i + 1 && node_needs(#[trigger] b.nodes@[k], x, cap_count(b.nodes@[k]));
                assert(k == i);
            }
        }
        i += 1;
    }
    set
}

/// Appending to a buffer leaves the records already in it as they were.
proof fn lemma_node_reads_kept(before: Seq<u8>, after: Seq<u8>, i: int, n: Node)
    requires
        before.len() <= after.len(),
        after.subrange(0, before.len() as int) == before,
        0 <= i,
        32 * i + 32 <= before.len(),
        node_reads(before, i, n),
    ensures
        node_reads(after, i, n),
{
    let o = 32 * i;
    assert(after[o] == before[o]);
    assert(after[o + 1] == before[o + 1]);
    assert(after[o + 2] == before[o + 2]);
    assert(after[o + 3] == before[o + 3]);
    lemma_le16_kept(before, after, o + 4);
    lemma_le16_kept(before, after, o + 6);
    lemma_le32_kept(before, after, o + 8);
    lemma_le32_kept(before, after, o + 12);
    lemma_le32_kept(before, after, o + 16);
    lemma_le32_kept(before, after, o + 20);
    lemma_le32_kept(before, after, o + 24);
    lemma_le32_kept(before, after, o + 28);
}

/// Appends node `n` as record `i` of the node table.
fn push_node_record(out: &mut Vec<u8>, n: Node, Ghost(i): Ghost<int>)
    requires
        old(out)@.len() == 32 * i,
    ensures
        final(out)@.len() == old(out)@.len() + 32,
        final(out)@.subrange(0, old(out)@.len() as int) == old(out)@,
        node_reads(final(out)@, i, n),
{
    let ghost o = 32 * i;
    out.push(n.kind.code());
    let ghost d1 = out@;
    out.push(n.tier.code());
    let ghost d2 = out@;
    out.push(n.flags);
    let ghost d3 = out@;
    out.push(n.depth);
    let ghost d4 = out@;
    push_u16(out, n.role);
    let ghost d5 = out@;
    push_u16(out, n.edge_cnt);
    let ghost d6 = out@;
    push_u32(out, n.name_idx);
    let ghost d7 = out@;
    push_u32(out, n.edge_off);
    let ghost d8 = out@;
    push_u32(out, n.payload_off);
    let ghost d9 = out@;
    push_u32(out, n.payload_len);
    let ghost d10 = out@;
    push_u32(out, n.hash_idx);
    let ghost d11 = out@;
    push_u32(out, n.parent);
    proof {
        let f = out@;
        assert(f.subrange(0, d11.len() as int) == d11);
        assert(f.subrange(0, d10.len() as int) =~= d10);
        assert(f.subrange(0, d9.len() as int) =~= d9);
        assert(f.subrange(0, d8.len() as int) =~= d8);
        assert(f.subrange(0, d7.len() as int) =~= d7);
        assert(f.subrange(0, d6.len() as int) =~= d6);
        assert(f.subrange(0, d5.len() as int) =~= d5);
        assert(f.subrange(0, d4.len() as int) =~= d4);
        assert(f.subrange(0, d3.len() as int) =~= d3);
        assert(f.subrange(0, d2.len() as int) =~= d2);
        assert(f.subrange(0, d1.len() as int) =~= d1);
        assert(f.subrange(0, o) =~= old(out)@);
        assert(f[o] == d1[o]);
        assert(f[o + 1] == d2[o + 1]);
        assert(f[o + 2] == d3[o + 2]);
        assert(f[o + 3] == d4[o + 3]);
        lemma_le16_kept(d5, f, o + 4);
        lemma_le16_kept(d6, f, o + 6);
        lemma_le32_kept(d7, f, o + 8);
        lemma_le32_kept(d8, f, o + 12);
        lemma_le32_kept(d9, f, o + 16);
        lemma_le32_kept(d10, f, o + 20);
        lemma_le32_kept(d11, f, o + 24);
    }
}

/// The record the node table holds for `n`: where its payload was placed and whether cold,
/// where its edges start and how many there are, its commitment, and its parent's position.
spec fn node_record(
    n: BuildNode,
    placed: (u32, u32, bool),
    span: (u32, u16),
    hash_idx: u32,
    parent: u32,
    set: Seq<Vec<u8>>,
) -> Node {
    Node {
        kind: n.kind,
        tier: n.tier,
        flags: ((if n.must_understand {
            1int
        } else {
            0int
        }) + (if placed.2 {
            2int
        } else {
            0int
        })) as u8,
        depth: n.depth,
        role: n.role,
        edge_cnt: span.1,
        name_idx: match n.name {
            Some(s) => string_idx(set, encode_utf8(s@)),
            None => NONE32,
        },
        edge_off: span.0,
        payload_off: placed.0,
        payload_len: placed.1,
        hash_idx,
        parent,
    }
}

/// Record `k` of the node table: node `order[k]`, with its placement, edge span, commitment and
/// its parent's position in the order.
spec fn table_record(
    nodes: Seq<BuildNode>,
    order: Seq<usize>,
    rank: Seq<u32>,
    placed: Seq<(u32, u32, bool)>,
    spans: Seq<(u32, u16)>,
    hash_idx: Seq<u32>,
    set: Seq<Vec<u8>>,
    k: int,
) -> Node {
    let old = order[k] as int;
    node_record(
        nodes[old],
        placed[old],
        spans[old],
        hash_idx[old],
        match nodes[old].parent {
            Some(p) => rank[p as int],
            None => NONE32,
        },
        set,
    )
}

/// The node table in pre-order.
fn node_table(
    nodes: &Vec<BuildNode>,
    order: &Vec<usize>,
    rank: &Vec<u32>,
    placed: &Vec<(u32, u32, bool)>,
    spans: &Vec<(u32, u16)>,
    hash_idx: &Vec<u32>,
    set: &Vec<Vec<u8>>,
) -> (r: Vec<u8>)
    requires
        order@.len() == nodes@.len(),
        rank@.len() == nodes@.len(),
        placed@.len() == nodes@.len(),
        spans@.len() == nodes@.len(),
        hash_idx@.len() == nodes@.len(),
        forall|k: int| 0 <= k < order@.len() ==> #[trigger] order@[k] < nodes@.len(),
        forall|i: int|
            0 <= i < nodes@.len() ==> match (#[trigger] nodes@[i]).parent {
                Some(p) => p < i,
                None => true,
            },
    ensures
        r@.len() == 32 * nodes@.len(),
        forall|k: int|
            0 <= k < nodes@.len() ==> #[trigger] node_reads(
                r@,
                k,
                table_record(nodes@, order@, rank@, placed@, spans@, hash_idx@, set@, k),
            ),
{
    let n = nodes.len();
    let mut out: Vec<u8> = Vec::new();
    let mut k: usize = 0;
    while k < n
        invariant
            0 <= k <= n,
            n == nodes@.len(),
            order@.len() == n,
            rank@.len() == n,
            placed@.len() == n,
            spans@.len() == n,
            hash_idx@.len() == n,
            forall|q: int| 0 <= q < order@.len() ==> #[trigger] order@[q] < n,
            forall|i: int|
                0 <= i < nodes@.len() ==> match (#[trigger] nodes@[i]).parent {
                    Some(p) => p < i,
                    None => true,
                },
            out@.len() == 32 * k,
            forall|j: int|
                0 <= j < k ==> #[trigger] node_reads(
                    out@,
                    j,
                    table_record(nodes@, order@, rank@, placed@, spans@, hash_idx@, set@, j),
                ),
        decreases n - k,
    {
        let old = order[k];
        let node = &nodes[old];
        let (poff, plen, is_cold) = placed[old];
        let (eoff, ecnt) = spans[old];
        let mut flags: u8 = 0;
        if node.must_understand {
            flags = flags + 1;
        }
        if is_cold {
            flags = flags + 2;
        }
        let name_idx = match &node.name {
            Some(s) => string_index(set, s.as_str().as_bytes()),
            None => NONE32,
        };
        let parent = match node.parent {
            Some(p) => {
                assert(match nodes@[old as int].parent {
                    Some(p) => p < old,
                    None => true,
                });
                rank[p]
            },
            None => NONE32,
        };
        let rec = Node {
            kind: node.kind,
            tier: node.tier,
            flags,
            depth: node.depth,
            role: node.role,
            edge_cnt: ecnt,
            name_idx,
            edge_off: eoff,
            payload_off: poff,
            payload_len: plen,
            hash_idx: hash_idx[old],
            parent,
        };
        let ghost before = out@;
        push_node_record(&mut out, rec, Ghost(k as int));
        proof {
            assert forall|j: int| 0 <= j < k + 1 implies #[trigger] node_reads(
                out@,
                j,
                table_record(nodes@, order@, rank@, placed@, spans@, hash_idx@, set@, j),
            ) by {
                if j < k {
                    lemma_node_reads_kept(before, out@, j, table_record(nodes@, order@, rank@, placed@, spans@, hash_idx@, set@, j));
                } else {
                    assert(rec == table_record(nodes@, order@, rank@, placed@, spans@, hash_idx@, set@, j));
                }
            }
        }
        k += 1;
    }
    out
}

/// What segment node `n` declares; a `Segment` node given no declaration declares nothing for
/// a native ABI.
spec fn seg_abi(n: BuildNode) -> Abi {
    match n.segment {
        Some(s) => s.abi,
        None => Abi::Native,
    }
}

spec fn seg_trust_byte(n: BuildNode) -> u8 {
    match n.segment {
        Some(s) => match s.trust_class {
            TrustClass::Portable => 0u8,
            TrustClass::HostTrusted => 1u8,
        },
        None => if abi_portable(Abi::Native) {
            0u8
        } else {
            1u8
        },
    }
}

spec fn seg_caps(n: BuildNode) -> Seq<Cap> {
    match n.segment {
        Some(s) => s.caps@,
        None => Seq::empty(),
    }
}

/// The budget fields of what node `n` declares: memory, CPU and wall-clock limits.
spec fn seg_budget(n: BuildNode) -> (u32, u32, u32) {
    match n.segment {
        Some(s) => (s.mem_kib, s.cpu_ms, s.wall_ms),
        None => (0, 0, 0),
    }
}

/// Entry `k` of the pre-order is a `Segment` node.
spec fn seg_at(nodes: Seq<BuildNode>, order: Seq<usize>, k: int) -> bool {
    nodes[order[k] as int].kind == Kind::Segment
}

/// How many of the first `k` entries of the pre-order are `Segment` nodes.
spec fn segs_before(nodes: Seq<BuildNode>, order: Seq<usize>, k: int) -> int
    decreases k,
{
    if k <= 0 {
        0
    } else {
        segs_before(nodes, order, k - 1) + if seg_at(nodes, order, k - 1) {
            1int
        } else {
            0int
        }
    }
}

/// How many capabilities the `Segment` nodes among the first `k` entries declare.
spec fn caps_before(nodes: Seq<BuildNode>, order: Seq<usize>, k: int) -> int
    decreases k,
{
    if k <= 0 {
        0
    } else {
        caps_before(nodes, order, k - 1) + if seg_at(nodes, order, k - 1) {
            seg_caps(nodes[order[k - 1] as int]).len() as int
        } else {
            0int
        }
    }
}

proof fn lemma_before_grow(nodes: Seq<BuildNode>, order: Seq<usize>, i: int, j: int)
    requires
        0 <= i <= j,
    ensures
        segs_before(nodes, order, i) <= segs_before(nodes, order, j),
        caps_before(nodes, order, i) <= caps_before(nodes, order, j),
    decreases j - i,
{
    if i < j {
        lemma_before_grow(nodes, order, i, j - 1);
    }
}

/// Segment record `m` in `b`: the BLAKE3 root and length of `n`'s payload, what `n` declares,
/// and where its capabilities start among the capability records.
#[verifier::opaque]
spec fn seg_record_reads(b: Seq<u8>, m: int, n: BuildNode, cap_off: int) -> bool {
    let o = 96 * m;
    &&& b.subrange(o, o + 32) == blake3_digest(n.payload@)
    &&& le32(b, o + 0x20) == n.payload@.len()
    &&& le16(b, o + 0x24) == abi_code(seg_abi(n))
    &&& b[o + 0x26] == 0
    &&& b[o + 0x27] == seg_trust_byte(n)
    &&& le32(b, o + 0x28) == cap_off
    &&& le16(b, o + 0x2C) == seg_caps(n).len()
    &&& le16(b, o + 0x2E) == 0
    &&& le32(b, o + 0x30) == seg_budget(n).0
    &&& le32(b, o + 0x34) == seg_budget(n).1
    &&& le32(b, o + 0x38) == seg_budget(n).2
    &&& le32(b, o + 0x3C) == NONE32
    &&& le32(b, o + 0x40) == NONE32
    &&& all_zero_spec(b.subrange(o + 0x44, o + 0x60))
}

/// Capability record `i` in `b`: the kind, the flags and the heap index of the argument.
#[verifier::opaque]
spec fn cap_record_reads(b: Seq<u8>, i: int, cap: Cap, set: Seq<Vec<u8>>) -> bool {
    &&& le16(b, 8 * i) == cap.kind
    &&& le16(b, 8 * i + 2) == cap.flags
    &&& le32(b, 8 * i + 4) == string_idx(set, encode_utf8(cap.arg@))
}

proof fn lemma_seg_record_kept(before: Seq<u8>, after: Seq<u8>, m: int, n: BuildNode, cap_off: int)
    requires
        before.len() <= after.len(),
        after.subrange(0, before.len() as int) == before,
        0 <= m,
        96 * m + 96 <= before.len(),
        seg_record_reads(before, m, n, cap_off),
    ensures
        seg_record_reads(after, m, n, cap_off),
{
    reveal(seg_record_reads);
    let o = 96 * m;
    lemma_in_prefix(after, before, o, o + 32);
    lemma_in_prefix(after, before, o + 0x44, o + 0x60);
    assert(after[o + 0x26] == before[o + 0x26]);
    assert(after[o + 0x27] == before[o + 0x27]);
    lemma_le32_kept(before, after, o + 0x20);
    lemma_le16_kept(before, after, o + 0x24);
    lemma_le32_kept(before, after, o + 0x28);
    lemma_le16_kept(before, after, o + 0x2C);
    lemma_le16_kept(before, after, o + 0x2E);
    lemma_le32_kept(before, after, o + 0x30);
    lemma_le32_kept(before, after, o + 0x34);
    lemma_le32_kept(before, after, o + 0x38);
    lemma_le32_kept(before, after, o + 0x3C);
    lemma_le32_kept(before, after, o + 0x40);
}

proof fn lemma_cap_record_kept(before: Seq<u8>, after: Seq<u8>, i: int, cap: Cap, set: Seq<Vec<u8>>)
    requires
        before.len() <= after.len(),
        after.subrange(0, before.len() as int) == before,
        0 <= i,
        8 * i + 8 <= before.len(),
        cap_record_reads(before, i, cap, set),
    ensures
        cap_record_reads(after, i, cap, set),
{
    reveal(cap_record_reads);
    lemma_le16_kept(before, after, 8 * i);
    lemma_le16_kept(before, after, 8 * i + 2);
    lemma_le32_kept(before, after, 8 * i + 4);
}

/// Appends the capability record of `cap` as record `i`.
fn push_cap_record(caps: &mut Vec<u8>, cap: &Cap, set: &Vec<Vec<u8>>, Ghost(i): Ghost<int>)
    requires
        old(caps)@.len() == 8 * i,
    ensures
        final(caps)@.len() == old(caps)@.len() + 8,
        final(caps)@.subrange(0, old(caps)@.len() as int) == old(caps)@,
        cap_record_reads(final(caps)@, i, *cap, set@),
{
    proof {
        reveal(cap_record_reads);
    }
    let ghost d0 = caps@;
    push_u16(caps, cap.kind);
    let ghost d1 = caps@;
    push_u16(caps, cap.flags);
    let ghost d2 = caps@;
    push_u32(caps, string_index(set, cap.arg.as_str().as_bytes()));
    proof {
        let f = caps@;
        assert(f.subrange(0, d2.len() as int) == d2);
        assert(f.subrange(0, d1.len() as int) =~= d1);
        assert(f.subrange(0, d0.len() as int) =~= d0);
        lemma_le16_kept(d1, f, 8 * i);
        lemma_le16_kept(d2, f, 8 * i + 2);
    }
}

/// Appends the segment record of node `n` as record `m`, its capabilities starting at
/// `cap_off`.
fn push_seg_record(
    segs: &mut Vec<u8>,
    n: &BuildNode,
    len: u32,
    abi: Abi,
    trust: u8,
    cap_off: u32,
    cap_cnt: u16,
    budget: (u32, u32, u32),
    Ghost(m): Ghost<int>,
)
    requires
        old(segs)@.len() == 96 * m,
        len == n.payload@.len(),
        abi == seg_abi(*n),
        trust == seg_trust_byte(*n),
        cap_cnt == seg_caps(*n).len(),
        budget == seg_budget(*n),
    ensures
        final(segs)@.len() == old(segs)@.len() + 96,
        final(segs)@.subrange(0, old(segs)@.len() as int) == old(segs)@,
        seg_record_reads(final(segs)@, m, *n, cap_off as int),
{
    proof {
        reveal(seg_record_reads);
    }
    let ghost o = 96 * m;
    let ghost d0 = segs@;
    let root = blake3_hash(n.payload.as_slice());
    push_all(segs, root.as_slice());
    let ghost d1 = segs@;
    push_u32(segs, len);
    let ghost d2 = segs@;
    push_u16(segs, abi.code());
    let ghost d3 = segs@;
    segs.push(0);
    let ghost d4 = segs@;
    segs.push(trust);
    let ghost d5 = segs@;
    push_u32(segs, cap_off);
    let ghost d6 = segs@;
    push_u16(segs, cap_cnt);
    let ghost d7 = segs@;
    push_u16(segs, 0);
    let ghost d8 = segs@;
    push_u32(segs, budget.0);
    let ghost d9 = segs@;
    push_u32(segs, budget.1);
    let ghost d10 = segs@;
    push_u32(segs, budget.2);
    let ghost d11 = segs@;
    push_u32(segs, NONE32);
    let ghost d12 = segs@;
    push_u32(segs, NONE32);
    let ghost d13 = segs@;
    push_zeros(segs, 28);
    proof {
        let f = segs@;
        assert(f.subrange(0, d13.len() as int) == d13);
        assert(f.subrange(0, d12.len() as int) =~= d12);
        assert(f.subrange(0, d11.len() as int) =~= d11);
        assert(f.subrange(0, d10.len() as int) =~= d10);
        assert(f.subrange(0, d9.len() as int) =~= d9);
        assert(f.subrange(0, d8.len() as int) =~= d8);
        assert(f.subrange(0, d7.len() as int) =~= d7);
        assert(f.subrange(0, d6.len() as int) =~= d6);
        assert(f.subrange(0, d5.len() as int) =~= d5);
        assert(f.subrange(0, d4.len() as int) =~= d4);
        assert(f.subrange(0, d3.len() as int) =~= d3);
        assert(f.subrange(0, d2.len() as int) =~= d2);
        assert(f.subrange(0, d1.len() as int) =~= d1);
        assert(f.subrange(0, o) =~= d0);
        assert(d1 == d0 + root@);
        lemma_in_prefix(f, d1, o, o + 32);
        assert(d1.subrange(o, o + 32) =~= root@);
        lemma_le32_kept(d2, f, o + 0x20);
        lemma_le16_kept(d3, f, o + 0x24);
        assert(f[o + 0x26] == d4[o + 0x26]);
        assert(f[o + 0x27] == d5[o + 0x27]);
        lemma_le32_kept(d6, f, o + 0x28);
        lemma_le16_kept(d7, f, o + 0x2C);
        lemma_le16_kept(d8, f, o + 0x2E);
        lemma_le32_kept(d9, f, o + 0x30);
        lemma_le32_kept(d10, f, o + 0x34);
        lemma_le32_kept(d11, f, o + 0x38);
        lemma_le32_kept(d12, f, o + 0x3C);
        lemma_le32_kept(d13, f, o + 0x40);
    }
}

/// Every `Segment` node among the first `k` entries of the pre-order has a payload whose length
/// fits in 32 bits and at most `u16::MAX` capabilities, and the running counts of segments and
/// capabilities fit in 32 bits.
#[verifier::opaque]
spec fn segs_fit(nodes: Seq<BuildNode>, order: Seq<usize>, k: int) -> bool {
    forall|j: int|
        0 <= j < k && #[trigger] seg_at(nodes, order, j) ==> {
            &&& nodes[order[j] as int].payload@.len() <= u32::MAX
            &&& seg_caps(nodes[order[j] as int]).len() <= u16::MAX
            &&& caps_before(nodes, order, j + 1) <= u32::MAX
            &&& segs_before(nodes, order, j + 1) <= u32::MAX
        }
}

proof fn lemma_segs_fit_step(nodes: Seq<BuildNode>, order: Seq<usize>, k: int, n: int)
    requires
        0 <= k < n,
        segs_fit(nodes, order, k),
    ensures
        segs_fit(nodes, order, k + 1) <==> (seg_at(nodes, order, k) ==> {
            &&& nodes[order[k] as int].payload@.len() <= u32::MAX
            &&& seg_caps(nodes[order[k] as int]).len() <= u16::MAX
            &&& caps_before(nodes, order, k + 1) <= u32::MAX
            &&& segs_before(nodes, order, k + 1) <= u32::MAX
        }),
        !segs_fit(nodes, order, k + 1) ==> !segs_fit(nodes, order, n),
{
    reveal(segs_fit);
}

proof fn lemma_before_small(nodes: Seq<BuildNode>, order: Seq<usize>, k: int)
    requires
        nodes_small(nodes),
        order.len() == nodes.len(),
        forall|q: int| 0 <= q < order.len() ==> #[trigger] order[q] < nodes.len(),
        0 <= k <= nodes.len(),
    ensures
        0 <= segs_before(nodes, order, k) <= k,
        0 <= caps_before(nodes, order, k) <= 16 * k,
    decreases k,
{
    if k > 0 {
        lemma_before_small(nodes, order, k - 1);
        assert(node_small(nodes[order[k - 1] as int]));
    }
}

proof fn lemma_segs_fit_small(nodes: Seq<BuildNode>, order: Seq<usize>)
    requires
        nodes_small(nodes),
        order.len() == nodes.len(),
        forall|q: int| 0 <= q < order.len() ==> #[trigger] order[q] < nodes.len(),
    ensures
        segs_fit(nodes, order, nodes.len() as int),
{
    reveal(segs_fit);
    assert forall|j: int| 0 <= j < nodes.len() && #[trigger] seg_at(nodes, order, j) implies {
        &&& nodes[order[j] as int].payload@.len() <= u32::MAX
        &&& seg_caps(nodes[order[j] as int]).len() <= u16::MAX
        &&& caps_before(nodes, order, j + 1) <= u32::MAX
        &&& segs_before(nodes, order, j + 1) <= u32::MAX
    } by {
        lemma_before_small(nodes, order, j + 1);
        assert(node_small(nodes[order[j] as int]));
    }
}

/// The segment records, parallel to the `Segment` nodes in pre-order, and the capability
/// records they point into.
fn segment_tables(nodes: &Vec<BuildNode>, order: &Vec<usize>, set: &Vec<Vec<u8>>) -> (r: Result<
    (Vec<u8>, u32, Vec<u8>, u32),
    Error,
>)
    requires
        order@.len() == nodes@.len(),
        forall|k: int| 0 <= k < order@.len() ==> #[trigger] order@[k] < nodes@.len(),
    ensures
        r matches Err(e) ==> e is OffsetOverflow,
        r is Ok <==> segs_fit(nodes@, order@, nodes@.len() as int),
        nodes_small(nodes@) ==> r is Ok,
        r matches Ok((segs, seg_count, caps, cap_count)) ==> nodes_small(nodes@) ==> seg_count
            <= nodes@.len() && cap_count <= 16 * nodes@.len(),
        r matches Ok((segs, seg_count, caps, cap_count)) ==> {
            &&& seg_count == segs_before(nodes@, order@, nodes@.len() as int)
            &&& cap_count == caps_before(nodes@, order@, nodes@.len() as int)
            &&& segs@.len() == 96 * seg_count
            &&& caps@.len() == 8 * cap_count
            &&& forall|k: int|
                0 <= k < nodes@.len() && #[trigger] seg_at(nodes@, order@, k) ==> seg_record_reads(
                    segs@,
                    segs_before(nodes@, order@, k),
                    nodes@[order@[k] as int],
                    caps_before(nodes@, order@, k),
                )
            &&& forall|k: int, c: int|
                0 <= k < nodes@.len() && #[trigger] seg_at(nodes@, order@, k) && 0 <= c < seg_caps(
                    nodes@[order@[k] as int],
                ).len() ==> #[trigger] cap_record_reads(
                    caps@,
                    caps_before(nodes@, order@, k) + c,
                    seg_caps(nodes@[order@[k] as int])[c],
                    set@,
                )
        },
{
    let n = nodes.len();
    let mut segs: Vec<u8> = Vec::new();
    let mut caps: Vec<u8> = Vec::new();
    let mut seg_count: u32 = 0;
    let mut cap_count: u32 = 0;
    let fallback = SegmentSpec::inert(Abi::Native);
    let mut k: usize = 0;
    assert(segs_fit(nodes@, order@, 0)) by {
        reveal(segs_fit);
    }
    proof {
        if nodes_small(nodes@) {
            lemma_segs_fit_small(nodes@, order@);
            lemma_before_small(nodes@, order@, n as int);
        }
    }
    while k < n
        invariant
            0 <= k <= n,
            n == nodes@.len(),
            order@.len() == n,
            forall|q: int| 0 <= q < order@.len() ==> #[trigger] order@[q] < n,
            fallback.abi == Abi::Native,
            fallback.trust_class == (if abi_portable(Abi::Native) {
                TrustClass::Portable
            } else {
                TrustClass::HostTrusted
            }),
            fallback.caps@.len() == 0,
            fallback.mem_kib == 0,
            fallback.cpu_ms == 0,
            fallback.wall_ms == 0,
            segs_fit(nodes@, order@, k as int),
            seg_count == segs_before(nodes@, order@, k as int),
            cap_count == caps_before(nodes@, order@, k as int),
            segs@.len() == 96 * seg_count,
            caps@.len() == 8 * cap_count,
            forall|j: int|
                0 <= j < k && #[trigger] seg_at(nodes@, order@, j) ==> seg_record_reads(
                    segs@,
                    segs_before(nodes@, order@, j),
                    nodes@[order@[j] as int],
                    caps_before(nodes@, order@, j),
                ),
            forall|j: int, c: int|
                0 <= j < k && #[trigger] seg_at(nodes@, order@, j) && 0 <= c < seg_caps(
                    nodes@[order@[j] as int],
                ).len() ==> #[trigger] cap_record_reads(
                    caps@,
                    caps_before(nodes@, order@, j) + c,
                    seg_caps(nodes@[order@[j] as int])[c],
                    set@,
                ),
        decreases n - k,
    {
        proof {
            lemma_segs_fit_step(nodes@, order@, k as int, n as int);
            lemma_before_grow(nodes@, order@, k as int, k + 1);
        }
        let node = &nodes[order[k]];
        if node.kind == Kind::Segment {
            let spec = match &node.segment {
                Some(s) => s,
                None => &fallback,
            };
            assert(spec.caps@ == seg_caps(*node));
            let len = match as_u32(node.payload.len(), "segment") {
                Ok(v) => v,
                Err(e) => {
                    return Err(e);
                },
            };
            if spec.caps.len() > u16::MAX as usize {
                return Err(Error::OffsetOverflow { what: "caps" });
            }
            let trust: u8 = match spec.trust_class {
                TrustClass::Portable => 0,
                TrustClass::HostTrusted => 1,
            };
            let ghost s0 = segs@;
            push_seg_record(
                &mut segs,
                node,
                len,
                spec.abi,
                trust,
                cap_count,
                spec.caps.len() as u16,
                (spec.mem_kib, spec.cpu_ms, spec.wall_ms),
                Ghost(seg_count as int),
            );
            proof {
                assert forall|j: int|
                    0 <= j < k && #[trigger] seg_at(nodes@, order@, j) implies seg_record_reads(
                        segs@,
                        segs_before(nodes@, order@, j),
                        nodes@[order@[j] as int],
                        caps_before(nodes@, order@, j),
                    ) by {
                    lemma_before_grow(nodes@, order@, j + 1, k as int);
                    lemma_before_grow(nodes@, order@, 0, j);
                    lemma_seg_record_kept(
                        s0,
                        segs@,
                        segs_before(nodes@, order@, j),
                        nodes@[order@[j] as int],
                        caps_before(nodes@, order@, j),
                    );
                }
            }
            let ghost c0 = caps@;
            let mut c: usize = 0;
            while c < spec.caps.len()
                invariant
                    0 <= c <= spec.caps@.len(),
                    spec.caps@ == seg_caps(nodes@[order@[k as int] as int]),
                    seg_at(nodes@, order@, k as int),
                    cap_count == caps_before(nodes@, order@, k as int) + c,
                    caps@.len() == 8 * cap_count,
                    caps@.subrange(0, c0.len() as int) == c0,
                    c0.len() == 8 * caps_before(nodes@, order@, k as int),
                    forall|d: int|
                        0 <= d < c ==> #[trigger] cap_record_reads(
                            caps@,
                            caps_before(nodes@, order@, k as int) + d,
                            spec.caps@[d],
                            set@,
                        ),
                decreases spec.caps@.len() - c,
            {
                let cap = &spec.caps[c];
                let ghost q0 = caps@;
                push_cap_record(&mut caps, cap, set, Ghost(cap_count as int));
                proof {
                    assert(caps@.subrange(0, c0.len() as int) =~= c0);
                    assert forall|d: int| 0 <= d < c + 1 implies #[trigger] cap_record_reads(
                        caps@,
                        caps_before(nodes@, order@, k as int) + d,
                        spec.caps@[d],
                        set@,
                    ) by {
                        if d < c {
                            lemma_cap_record_kept(
                                q0,
                                caps@,
                                caps_before(nodes@, order@, k as int) + d,
                                spec.caps@[d],
                                set@,
                            );
                        }
                    }
                }
                if cap_count == u32::MAX {
                    return Err(Error::OffsetOverflow { what: "caps" });
                }
                cap_count += 1;
                c += 1;
            }
            proof {
                assert forall|j: int, e: int|
                    0 <= j < k && #[trigger] seg_at(nodes@, order@, j) && 0 <= e < seg_caps(
                        nodes@[order@[j] as int],
                    ).len() implies #[trigger] cap_record_reads(
                        caps@,
                        caps_before(nodes@, order@, j) + e,
                        seg_caps(nodes@[order@[j] as int])[e],
                        set@,
                    ) by {
                    lemma_before_grow(nodes@, order@, j + 1, k as int);
                    lemma_before_grow(nodes@, order@, 0, j);
                    lemma_cap_record_kept(
                        c0,
                        caps@,
                        caps_before(nodes@, order@, j) + e,
                        seg_caps(nodes@[order@[j] as int])[e],
                        set@,
                    );
                }
            }
            if seg_count == u32::MAX {
                return Err(Error::OffsetOverflow { what: "segments" });
            }
            seg_count += 1;
        }
        k += 1;
    }
    Ok((segs, seg_count, caps, cap_count))
}

/// The fixed header of a file.
fn header_bytes(file_len: u32, manifest_off: u32, manifest_len: u32, root: &[u8; 32]) -> (h: Vec<
    u8,
>)
    ensures
        h@.len() == 64,
        h@.subrange(0, 8) == magic_seq(),
        le16(h@, 0x08) == VERSION_MAJOR,
        le32(h@, 0x0C) == 0,
        le32(h@, 0x10) == file_len,
        le32(h@, 0x14) == manifest_off,
        le32(h@, 0x18) == manifest_len,
        le16(h@, 0x1C) == 0,
        le16(h@, 0x1E) == 0,
        h@.subrange(0x20, 0x40) == root@,
{
    let mut h: Vec<u8> = Vec::new();
    let magic: [u8; 8] = [0x8F, 0x53, 0x4B, 0x4C, 0x0D, 0x0A, 0x1A, 0x0A];
    push_all(&mut h, magic.as_slice());
    assert(h@ =~= magic_seq());
    let ghost h0 = h@;
    push_u16(&mut h, VERSION_MAJOR);
    let ghost h1 = h@;
    push_u16(&mut h, 0);
    let ghost h2 = h@;
    push_u32(&mut h, 0);
    let ghost h3 = h@;
    push_u32(&mut h, file_len);
    let ghost h4 = h@;
    push_u32(&mut h, manifest_off);
    let ghost h5 = h@;
    push_u32(&mut h, manifest_len);
    let ghost h6 = h@;
    push_u16(&mut h, 0);
    let ghost h7 = h@;
    push_u16(&mut h, 0);
    let ghost h8 = h@;
    push_all(&mut h, root.as_slice());
    proof {
        assert(h@.subrange(0, 32) == h8);
        assert(h8.subrange(0, 30) == h7);
        assert(h7.subrange(0, 28) == h6);
        assert(h6.subrange(0, 24) == h5);
        assert(h5.subrange(0, 20) == h4);
        assert(h4.subrange(0, 16) == h3);
        assert(h3.subrange(0, 12) == h2);
        assert(h2.subrange(0, 10) == h1);
        assert(h1.subrange(0, 8) == h0);
        assert(h@.subrange(0, 8) =~= magic_seq()) by {
            assert forall|i: int| 0 <= i < 8 implies h@[i] == magic_seq()[i] by {
                assert(h@[i] == h8[i]);
                assert(h8[i] == h7[i]);
                assert(h7[i] == h6[i]);
                assert(h6[i] == h5[i]);
                assert(h5[i] == h4[i]);
                assert(h4[i] == h3[i]);
                assert(h3[i] == h2[i]);
                assert(h2[i] == h1[i]);
                assert(h1[i] == h0[i]);
            }
        }
        assert forall|i: int| 8 <= i < 10 implies h@[i] == h1[i] by {
            assert(h@[i] == h8[i] && h8[i] == h7[i] && h7[i] == h6[i] && h6[i] == h5[i]);
            assert(h5[i] == h4[i] && h4[i] == h3[i] && h3[i] == h2[i] && h2[i] == h1[i]);
        }
        assert forall|i: int| 12 <= i < 16 implies h@[i] == h3[i] by {
            assert(h@[i] == h8[i] && h8[i] == h7[i] && h7[i] == h6[i] && h6[i] == h5[i]);
            assert(h5[i] == h4[i] && h4[i] == h3[i]);
        }
        assert forall|i: int| 16 <= i < 20 implies h@[i] == h4[i] by {
            assert(h@[i] == h8[i] && h8[i] == h7[i] && h7[i] == h6[i] && h6[i] == h5[i]);
            assert(h5[i] == h4[i]);
        }
        assert forall|i: int| 20 <= i < 24 implies h@[i] == h5[i] by {
            assert(h@[i] == h8[i] && h8[i] == h7[i] && h7[i] == h6[i] && h6[i] == h5[i]);
        }
        assert forall|i: int| 24 <= i < 28 implies h@[i] == h6[i] by {
            assert(h@[i] == h8[i] && h8[i] == h7[i] && h7[i] == h6[i]);
        }
        assert forall|i: int| 28 <= i < 30 implies h@[i] == h7[i] by {
            assert(h@[i] == h8[i] && h8[i] == h7[i]);
        }
        assert forall|i: int| 30 <= i < 32 implies h@[i] == h8[i] by {
            assert(h@[i] == h8[i]);
        }
        assert(h@.subrange(0x20, 0x40) =~= root@);
    }
    h
}

proof fn lemma_prefix_reads(h: Seq<u8>, rest: Seq<u8>)
    requires
        h.len() == 64,
    ensures
        (h + rest).subrange(0, 8) == h.subrange(0, 8),
        (h + rest).subrange(0x20, 0x40) == h.subrange(0x20, 0x40),
        forall|o: int| 0 <= o <= 62 ==> #[trigger] le16(h + rest, o) == le16(h, o),
        forall|o: int| 0 <= o <= 60 ==> #[trigger] le32(h + rest, o) == le32(h, o),
{
    assert((h + rest).subrange(0, 8) =~= h.subrange(0, 8));
    assert((h + rest).subrange(0x20, 0x40) =~= h.subrange(0x20, 0x40));
}

/// Pads `v` with zeros to a multiple of 8.
/// `l` rounded up to a multiple of 8.
#[verifier::opaque]
spec fn pad8(l: int) -> int {
    if l % 8 == 0 {
        l
    } else {
        l + 8 - l % 8
    }
}

/// A stretch inside a known prefix reads as that stretch of the prefix.
proof fn lemma_in_prefix(s: Seq<u8>, x: Seq<u8>, a: int, b: int)
    requires
        x.len() <= s.len(),
        s.subrange(0, x.len() as int) == x,
        0 <= a <= b <= x.len(),
    ensures
        s.subrange(a, b) == x.subrange(a, b),
{
    assert forall|k: int| 0 <= k < b - a implies s.subrange(a, b)[k] == x.subrange(a, b)[k] by {
        assert(s.subrange(0, x.len() as int)[a + k] == s[a + k]);
    }
    assert(s.subrange(a, b) =~= x.subrange(a, b));
}

proof fn lemma_pad8(l: int)
    requires
        0 <= l,
    ensures
        l <= pad8(l) < l + 8,
        pad8(l) % 8 == 0,
        forall|b: int| b >= 0 && b % 8 == 0 ==> #[trigger] pad8(b + l) == b + pad8(l),
{
    reveal(pad8);
    assert forall|b: int| b >= 0 && b % 8 == 0 implies #[trigger] pad8(b + l) == b + pad8(l) by {
        assert((b + l) % 8 == l % 8) by (nonlinear_arith)
            requires
                b % 8 == 0,
                b >= 0,
                l >= 0,
        ;
    }
}

fn pad_to_8(v: &mut Vec<u8>)
    ensures
        final(v)@.subrange(0, old(v)@.len() as int) == old(v)@,
        final(v)@.len() % 8 == 0,
        final(v)@.len() < old(v)@.len() + 8,
        final(v)@.len() == pad8(old(v)@.len() as int),
{
    proof {
        reveal(pad8);
    }
    let r = v.len() % 8;
    if r != 0 {
        push_zeros(v, 8 - r);
    } else {
        assert(v@.subrange(0, v@.len() as int) =~= v@);
    }
}

/// One section, compressed when the profile asks for it and that makes it smaller.
fn section(id: u16, data: Vec<u8>, count: u32, compact: bool, dict: Option<&Dictionary>) -> (r:
    Result<StoredSection, Error>)
    ensures
        r matches Err(e) ==> e is OffsetOverflow,
        r is Err <==> data@.len() > u32::MAX,
        r matches Ok(st) ==> {
            &&& st.id == id
            &&& st.count == count
            &&& st.orig_len == data@.len()
            &&& if compact && (compressed_spec(data@, dict_view(dict)) matches Some(c) && c.len()
                < data@.len()) {
                st.flags == SECT_ZSTD && st.data@ == compressed_spec(data@, dict_view(dict))->0
            } else {
                st.flags == 0 && st.data@ == data@
            }
        },
{
    let orig_len = as_u32(data.len(), "section")?;
    if compact {
        match maybe_compress(data.as_slice(), dict) {
            Some(c) => {
                return Ok(StoredSection { id, flags: SECT_ZSTD, data: c, count, orig_len });
            },
            None => {},
        }
    }
    Ok(StoredSection { id, flags: 0, data, count, orig_len })
}

/// Directory entry at `o` in `d` describes section `s`, stored at `off`.
#[verifier::opaque]
spec fn dir_entry_at(d: Seq<u8>, o: int, s: StoredSection, off: int) -> bool {
    &&& le16(d, o) == s.id
    &&& le16(d, o + 2) == s.flags
    &&& le32(d, o + 4) == off
    &&& le32(d, o + 8) == s.data@.len()
    &&& le32(d, o + 12) == s.count
    &&& le32(d, o + 16) == s.orig_len
    &&& le32(d, o + 20) == 0
}

/// A directory entry read at `x` in `d` reads the same at `base + x` once `d` sits at `base`.
proof fn lemma_dir_entry_shift(d: Seq<u8>, m: Seq<u8>, base: int, x: int, s: StoredSection, off: int)
    requires
        0 <= base,
        0 <= x,
        x + 24 <= d.len(),
        base + d.len() <= m.len(),
        m.subrange(base, base + d.len()) == d,
        dir_entry_at(d, x, s, off),
    ensures
        dir_entry_at(m, base + x, s, off),
{
    reveal(dir_entry_at);
    assert(m[base + x] == d[x]);
    assert(m[base + x + 1] == d[x + 1]);
    assert(m[base + x + 2] == d[x + 2]);
    assert(m[base + x + 3] == d[x + 3]);
    assert(m[base + x + 4] == d[x + 4]);
    assert(m[base + x + 5] == d[x + 5]);
    assert(m[base + x + 6] == d[x + 6]);
    assert(m[base + x + 7] == d[x + 7]);
    assert(m[base + x + 8] == d[x + 8]);
    assert(m[base + x + 9] == d[x + 9]);
    assert(m[base + x + 10] == d[x + 10]);
    assert(m[base + x + 11] == d[x + 11]);
    assert(m[base + x + 12] == d[x + 12]);
    assert(m[base + x + 13] == d[x + 13]);
    assert(m[base + x + 14] == d[x + 14]);
    assert(m[base + x + 15] == d[x + 15]);
    assert(m[base + x + 16] == d[x + 16]);
    assert(m[base + x + 17] == d[x + 17]);
    assert(m[base + x + 18] == d[x + 18]);
    assert(m[base + x + 19] == d[x + 19]);
    assert(m[base + x + 20] == d[x + 20]);
    assert(m[base + x + 21] == d[x + 21]);
    assert(m[base + x + 22] == d[x + 22]);
    assert(m[base + x + 23] == d[x + 23]);
}

/// Appends the directory entry of section `s`, stored at `off`.
fn push_dir_entry(dir: &mut Vec<u8>, s: &StoredSection, off: u32, len: u32)
    requires
        len == s.data@.len(),
    ensures
        final(dir)@.len() == old(dir)@.len() + 24,
        final(dir)@.subrange(0, old(dir)@.len() as int) == old(dir)@,
        dir_entry_at(final(dir)@, old(dir)@.len() as int, *s, off as int),
{
    proof {
        reveal(dir_entry_at);
    }
    let ghost d0 = dir@;
    let ghost o = d0.len() as int;
    push_u16(dir, s.id);
    let ghost d1 = dir@;
    push_u16(dir, s.flags);
    let ghost d2 = dir@;
    push_u32(dir, off);
    let ghost d3 = dir@;
    push_u32(dir, len);
    let ghost d4 = dir@;
    push_u32(dir, s.count);
    let ghost d5 = dir@;
    push_u32(dir, s.orig_len);
    let ghost d6 = dir@;
    push_u32(dir, 0);
    proof {
        let f = dir@;
        assert(f.subrange(0, d6.len() as int) == d6);
        assert(f.subrange(0, d5.len() as int) =~= d5);
        assert(f.subrange(0, d4.len() as int) =~= d4);
        assert(f.subrange(0, d3.len() as int) =~= d3);
        assert(f.subrange(0, d2.len() as int) =~= d2);
        assert(f.subrange(0, d1.len() as int) =~= d1);
        assert(f.subrange(0, o) =~= d0);
        lemma_le16_kept(d1, f, o);
        lemma_le16_kept(d2, f, o + 2);
        lemma_le32_kept(d3, f, o + 4);
        lemma_le32_kept(d4, f, o + 8);
        lemma_le32_kept(d5, f, o + 12);
        lemma_le32_kept(d6, f, o + 16);
    }
}

/// The manifest header's fields: the section count, the flags, the version and licence string
/// indices, the node count, and the two payload regions.
#[verifier::opaque]
spec fn header_fields(
    m: Seq<u8>,
    n: int,
    flags: u16,
    version_idx: u32,
    license_idx: u32,
    node_count: u32,
    regions: (u32, u32, u32, u32, u32, u32),
) -> bool {
    &&& le16(m, 0) == n
    &&& le16(m, 2) == flags
    &&& forall|k: int| 4 <= k < 12 ==> #[trigger] m[k] == 0
    &&& le32(m, 12) == version_idx
    &&& le32(m, 16) == license_idx
    &&& le32(m, 20) == node_count
    &&& le32(m, 24) == regions.0
    &&& le32(m, 28) == regions.1
    &&& le32(m, 32) == regions.2
    &&& le32(m, 36) == regions.3
    &&& le32(m, 40) == regions.4
    &&& le32(m, 44) == regions.5
}

/// The 48-byte manifest header.
fn manifest_header(
    n: u16,
    flags: u16,
    version_idx: u32,
    license_idx: u32,
    node_count: u32,
    regions: (u32, u32, u32, u32, u32, u32),
) -> (m: Vec<u8>)
    ensures
        m@.len() == 48,
        header_fields(m@, n as int, flags, version_idx, license_idx, node_count, regions),
{
    proof {
        reveal(header_fields);
    }
    let (hot_off, hot_len, cold_off, cold_len, hot_orig, cold_orig) = regions;
    let mut m: Vec<u8> = Vec::new();
    push_u16(&mut m, n);
    let ghost d1 = m@;
    push_u16(&mut m, flags);
    let ghost d2 = m@;
    push_zeros(&mut m, 8);
    let ghost d3 = m@;
    push_u32(&mut m, version_idx);
    let ghost d4 = m@;
    push_u32(&mut m, license_idx);
    let ghost d5 = m@;
    push_u32(&mut m, node_count);
    let ghost d6 = m@;
    push_u32(&mut m, hot_off);
    let ghost d7 = m@;
    push_u32(&mut m, hot_len);
    let ghost d8 = m@;
    push_u32(&mut m, cold_off);
    let ghost d9 = m@;
    push_u32(&mut m, cold_len);
    let ghost d10 = m@;
    push_u32(&mut m, hot_orig);
    let ghost d11 = m@;
    push_u32(&mut m, cold_orig);
    proof {
        let f = m@;
        assert(f.subrange(0, d11.len() as int) == d11);
        assert(f.subrange(0, d10.len() as int) =~= d10);
        assert(f.subrange(0, d9.len() as int) =~= d9);
        assert(f.subrange(0, d8.len() as int) =~= d8);
        assert(f.subrange(0, d7.len() as int) =~= d7);
        assert(f.subrange(0, d6.len() as int) =~= d6);
        assert(f.subrange(0, d5.len() as int) =~= d5);
        assert(f.subrange(0, d4.len() as int) =~= d4);
        assert(f.subrange(0, d3.len() as int) =~= d3);
        assert(f.subrange(0, d2.len() as int) =~= d2);
        assert(f.subrange(0, d1.len() as int) =~= d1);
        lemma_le16_kept(d1, f, 0);
        lemma_le16_kept(d2, f, 2);
        assert forall|k: int| 4 <= k < 12 implies #[trigger] f[k] == 0 by {
            assert(d3.subrange(4, 12)[k - 4] == d3[k]);
        }
        lemma_le32_kept(d4, f, 12);
        lemma_le32_kept(d5, f, 16);
        lemma_le32_kept(d6, f, 20);
        lemma_le32_kept(d7, f, 24);
        lemma_le32_kept(d8, f, 28);
        lemma_le32_kept(d9, f, 32);
        lemma_le32_kept(d10, f, 36);
        lemma_le32_kept(d11, f, 40);
    }
    m
}

/// The 8-aligned bytes of the first `i` sections, back to back.
spec fn body_total(secs: Seq<StoredSection>, i: int) -> int
    decreases i,
{
    if i <= 0 {
        0
    } else {
        body_total(secs, i - 1) + pad8(secs[i - 1].data@.len() as int)
    }
}

proof fn lemma_body_total_grows(secs: Seq<StoredSection>, i: int, j: int)
    requires
        0 <= i <= j,
    ensures
        body_total(secs, i) <= body_total(secs, j),
    decreases j - i,
{
    if i < j {
        lemma_body_total_grows(secs, i, j - 1);
        lemma_pad8(secs[j - 1].data@.len() as int);
    }
}

/// Where section `i` starts in the manifest: after the header, the directory and the sections
/// before it.
spec fn sect_off(secs: Seq<StoredSection>, i: int) -> int {
    48 + 24 * secs.len() + body_total(secs, i)
}

/// The offset and length of each of the first `n` sections fit in 32 bits.
#[verifier::opaque]
spec fn parts_fit(secs: Seq<StoredSection>, n: int) -> bool {
    forall|i: int|
        0 <= i < n ==> sect_off(secs, i) <= u32::MAX && (#[trigger] secs[i]).data@.len()
            <= u32::MAX
}

/// Every section's count fits the directory, and every offset and length fits in 32 bits.
spec fn manifest_fits(secs: Seq<StoredSection>) -> bool {
    &&& secs.len() <= u16::MAX
    &&& parts_fit(secs, secs.len() as int)
}

proof fn lemma_parts_fit_step(secs: Seq<StoredSection>, i: int)
    requires
        0 <= i < secs.len(),
        parts_fit(secs, i),
    ensures
        parts_fit(secs, i + 1) <==> (sect_off(secs, i) <= u32::MAX && secs[i].data@.len()
            <= u32::MAX),
        !(sect_off(secs, i) <= u32::MAX && secs[i].data@.len() <= u32::MAX) ==> !parts_fit(
            secs,
            secs.len() as int,
        ),
{
    reveal(parts_fit);
    if !(sect_off(secs, i) <= u32::MAX && secs[i].data@.len() <= u32::MAX) {
        assert(!(sect_off(secs, i) <= u32::MAX && secs[i].data@.len() <= u32::MAX));
    }
}

/// `m` is the manifest: its header, then one directory entry per section giving where its
/// bytes start, then those bytes, each section 8-aligned.
spec fn manifest_image(
    m: Seq<u8>,
    flags: u16,
    version_idx: u32,
    license_idx: u32,
    node_count: u32,
    regions: (u32, u32, u32, u32, u32, u32),
    secs: Seq<StoredSection>,
) -> bool {
    let n = secs.len() as int;
    &&& m.len() == 48 + 24 * n + body_total(secs, n)
    &&& header_fields(m, n, flags, version_idx, license_idx, node_count, regions)
    &&& forall|i: int|
        0 <= i < n ==> dir_entry_at(m, 48 + 24 * i, #[trigger] secs[i], sect_off(secs, i))
    &&& forall|i: int|
        0 <= i < n ==> m.subrange(sect_off(secs, i), sect_off(secs, i) + secs[i].data@.len())
            == (#[trigger] secs[i]).data@
}

/// Appending section `i`, padded, to a body holding the first `i` keeps them and places it.
#[verifier::spinoff_prover]
proof fn lemma_body_step(before: Seq<u8>, after: Seq<u8>, secs: Seq<StoredSection>, i: int)
    requires
        0 <= i < secs.len(),
        before.len() == body_total(secs, i),
        after.len() == pad8((before.len() + secs[i].data@.len()) as int),
        after.subrange(0, (before.len() + secs[i].data@.len()) as int) == before + secs[i].data@,
        forall|j: int|
            0 <= j < i ==> before.subrange(
                body_total(secs, j),
                body_total(secs, j) + secs[j].data@.len(),
            ) == (#[trigger] secs[j]).data@,
    ensures
        after.len() == body_total(secs, i + 1),
        forall|j: int|
            0 <= j < i + 1 ==> after.subrange(
                body_total(secs, j),
                body_total(secs, j) + secs[j].data@.len(),
            ) == (#[trigger] secs[j]).data@,
{
    let l = secs[i].data@.len() as int;
    assert(before.len() % 8 == 0) by {
        lemma_body_aligned(secs, i);
    }
    let b = before.len() as int;
    lemma_pad8(l);
    assert(pad8(b + l) == b + pad8(l));
    assert(body_total(secs, i + 1) == b + pad8(l));
    assert forall|j: int| 0 <= j < i + 1 implies after.subrange(
        body_total(secs, j),
        body_total(secs, j) + secs[j].data@.len(),
    ) == (#[trigger] secs[j]).data@ by {
        lemma_body_total_grows(secs, 0, j);
        let x = before + secs[i].data@;
        let s0 = body_total(secs, j);
        let e0 = s0 + secs[j].data@.len();
        if j < i {
            lemma_body_total_grows(secs, j + 1, i);
            lemma_pad8(secs[j].data@.len() as int);
            assert(body_total(secs, j + 1) == body_total(secs, j) + pad8(secs[j].data@.len() as int));
            lemma_in_prefix(after, x, s0, e0);
            assert(x.subrange(s0, e0) =~= before.subrange(s0, e0));
        } else {
            lemma_in_prefix(after, x, s0, e0);
            assert(x.subrange(s0, e0) =~= secs[j].data@);
        }
    }
}

/// The sections before `i` end on a multiple of 8.
proof fn lemma_body_aligned(secs: Seq<StoredSection>, i: int)
    requires
        0 <= i,
    ensures
        body_total(secs, i) % 8 == 0,
        body_total(secs, i) >= 0,
    decreases i,
{
    if i > 0 {
        lemma_body_aligned(secs, i - 1);
        lemma_pad8(secs[i - 1].data@.len() as int);
    }
}

/// Bytes appended after the header leave its fields as they were.
proof fn lemma_header_kept(
    hdr: Seq<u8>,
    m: Seq<u8>,
    n: int,
    flags: u16,
    version_idx: u32,
    license_idx: u32,
    node_count: u32,
    regions: (u32, u32, u32, u32, u32, u32),
)
    requires
        hdr.len() == 48,
        m.len() >= 48,
        m.subrange(0, 48) == hdr,
        header_fields(hdr, n, flags, version_idx, license_idx, node_count, regions),
    ensures
        header_fields(m, n, flags, version_idx, license_idx, node_count, regions),
{
    reveal(header_fields);
    lemma_le16_kept(hdr, m, 0);
    lemma_le16_kept(hdr, m, 2);
    lemma_le32_kept(hdr, m, 12);
    lemma_le32_kept(hdr, m, 16);
    lemma_le32_kept(hdr, m, 20);
    lemma_le32_kept(hdr, m, 24);
    lemma_le32_kept(hdr, m, 28);
    lemma_le32_kept(hdr, m, 32);
    lemma_le32_kept(hdr, m, 36);
    lemma_le32_kept(hdr, m, 40);
    lemma_le32_kept(hdr, m, 44);
    assert forall|k: int| 4 <= k < 12 implies #[trigger] m[k] == 0 by {
        assert(m[k] == hdr[k]);
    }
}

/// Appending to a directory keeps the entries of the first `i` sections.
#[verifier::spinoff_prover]
proof fn lemma_dir_grows(d0: Seq<u8>, d: Seq<u8>, secs: Seq<StoredSection>, i: int)
    requires
        0 <= i < secs.len(),
        d0.len() == 24 * i,
        d.len() == d0.len() + 24,
        d.subrange(0, d0.len() as int) == d0,
        dir_entry_at(d, 24 * i, secs[i], sect_off(secs, i)),
        forall|j: int|
            0 <= j < i ==> dir_entry_at(d0, 24 * j, #[trigger] secs[j], sect_off(secs, j)),
    ensures
        forall|j: int|
            0 <= j < i + 1 ==> dir_entry_at(d, 24 * j, #[trigger] secs[j], sect_off(secs, j)),
{
    assert forall|j: int| 0 <= j < i + 1 implies dir_entry_at(
        d,
        24 * j,
        #[trigger] secs[j],
        sect_off(secs, j),
    ) by {
        if j < i {
            lemma_dir_entry_shift(d0, d, 0, 24 * j, secs[j], sect_off(secs, j));
        }
    }
}

/// The header, the directory and the body laid end to end make the manifest.
#[verifier::spinoff_prover]
proof fn lemma_manifest_done(
    hdr: Seq<u8>,
    dir: Seq<u8>,
    body: Seq<u8>,
    m: Seq<u8>,
    flags: u16,
    version_idx: u32,
    license_idx: u32,
    node_count: u32,
    regions: (u32, u32, u32, u32, u32, u32),
    secs: Seq<StoredSection>,
)
    requires
        hdr.len() == 48,
        header_fields(hdr, secs.len() as int, flags, version_idx, license_idx, node_count, regions),
        dir.len() == 24 * secs.len(),
        forall|i: int|
            0 <= i < secs.len() ==> dir_entry_at(dir, 24 * i, #[trigger] secs[i], sect_off(secs, i)),
        body.len() == body_total(secs, secs.len() as int),
        forall|j: int|
            0 <= j < secs.len() ==> body.subrange(
                body_total(secs, j),
                body_total(secs, j) + secs[j].data@.len(),
            ) == (#[trigger] secs[j]).data@,
        m == hdr + dir + body,
    ensures
        manifest_image(m, flags, version_idx, license_idx, node_count, regions, secs),
{
    let n = secs.len() as int;
    assert(m.subrange(0, 48) =~= hdr);
    lemma_header_kept(hdr, m, n, flags, version_idx, license_idx, node_count, regions);
    assert(m.subrange(48, 48 + dir.len() as int) =~= dir);
    assert forall|i: int| 0 <= i < n implies dir_entry_at(
        m,
        48 + 24 * i,
        #[trigger] secs[i],
        sect_off(secs, i),
    ) by {
        lemma_dir_entry_shift(dir, m, 48, 24 * i, secs[i], sect_off(secs, i));
    }
    assert forall|i: int| 0 <= i < n implies m.subrange(
        sect_off(secs, i),
        sect_off(secs, i) + secs[i].data@.len(),
    ) == (#[trigger] secs[i]).data@ by {
        lemma_body_total_grows(secs, 0, i);
        lemma_body_total_grows(secs, i + 1, n);
        lemma_pad8(secs[i].data@.len() as int);
        assert(body_total(secs, i) + secs[i].data@.len() <= body_total(secs, i + 1));
        assert(m.subrange(sect_off(secs, i), sect_off(secs, i) + secs[i].data@.len()) =~= body.subrange(
            body_total(secs, i),
            body_total(secs, i) + secs[i].data@.len(),
        ));
    }
}

/// The directory and the body of the manifest over `sections`, which number at most `u16::MAX`.
#[verifier::spinoff_prover]
fn manifest_parts(sections: &Vec<StoredSection>) -> (r: Result<(Vec<u8>, Vec<u8>), Error>)
    requires
        sections@.len() <= u16::MAX,
    ensures
        r matches Err(e) ==> e is OffsetOverflow,
        r is Ok <==> manifest_fits(sections@),
        r matches Ok((dir, body)) ==> {
            &&& dir@.len() == 24 * sections@.len()
            &&& forall|i: int|
                0 <= i < sections@.len() ==> dir_entry_at(
                    dir@,
                    24 * i,
                    #[trigger] sections@[i],
                    sect_off(sections@, i),
                )
            &&& body@.len() == body_total(sections@, sections@.len() as int)
            &&& forall|j: int|
                0 <= j < sections@.len() ==> body@.subrange(
                    body_total(sections@, j),
                    body_total(sections@, j) + sections@[j].data@.len(),
                ) == (#[trigger] sections@[j]).data@
        },
{
    let dir_len = DIR_ENTRY_LEN * sections.len();
    let mut dir: Vec<u8> = Vec::new();
    let mut body: Vec<u8> = Vec::new();
    let mut i: usize = 0;
    assert(parts_fit(sections@, 0)) by {
        reveal(parts_fit);
    }
    while i < sections.len()
        invariant
            0 <= i <= sections@.len(),
            sections@.len() <= u16::MAX,
            dir_len == 24 * sections@.len(),
            dir@.len() == 24 * i,
            body@.len() == body_total(sections@, i as int),
            forall|j: int|
                0 <= j < i ==> dir_entry_at(
                    dir@,
                    24 * j,
                    #[trigger] sections@[j],
                    sect_off(sections@, j),
                ),
            forall|j: int|
                0 <= j < i ==> body@.subrange(
                    body_total(sections@, j),
                    body_total(sections@, j) + sections@[j].data@.len(),
                ) == (#[trigger] sections@[j]).data@,
            parts_fit(sections@, i as int),
        decreases sections@.len() - i,
    {
        let s = &sections[i];
        proof {
            lemma_parts_fit_step(sections@, i as int);
        }
        if body.len() > usize::MAX - MANIFEST_HDR_LEN - dir_len {
            assert(sect_off(sections@, i as int) > u32::MAX);
            return Err(Error::OffsetOverflow { what: "section" });
        }
        let off = match as_u32(MANIFEST_HDR_LEN + dir_len + body.len(), "section") {
            Ok(v) => v,
            Err(e) => {
                assert(sect_off(sections@, i as int) > u32::MAX);
                return Err(e);
            },
        };
        let len = match as_u32(s.data.len(), "section") {
            Ok(v) => v,
            Err(e) => {
                assert(sections@[i as int] == *s);
                return Err(e);
            },
        };
        assert(sect_off(sections@, i as int) == off);
        let ghost d0 = dir@;
        push_dir_entry(&mut dir, s, off, len);
        proof {
            lemma_dir_grows(d0, dir@, sections@, i as int);
        }
        let ghost b0 = body@;
        push_all(&mut body, s.data.as_slice());
        let ghost b1 = body@;
        pad_to_8(&mut body);
        proof {
            assert(body@.subrange(0, b1.len() as int) == b1);
            lemma_body_step(b0, body@, sections@, i as int);
        }
        i += 1;
    }
    Ok((dir, body))
}

/// The manifest: header, directory, then every section's bytes, each 8-aligned.
fn manifest_bytes(
    flags: u16,
    version_idx: u32,
    license_idx: u32,
    node_count: u32,
    regions: (u32, u32, u32, u32, u32, u32),
    sections: &Vec<StoredSection>,
) -> (r: Result<Vec<u8>, Error>)
    ensures
        r matches Err(e) ==> e is OffsetOverflow,
        r is Ok <==> manifest_fits(sections@),
        r matches Ok(m) ==> manifest_image(
            m@,
            flags,
            version_idx,
            license_idx,
            node_count,
            regions,
            sections@,
        ),
{
    if sections.len() > u16::MAX as usize {
        return Err(Error::OffsetOverflow { what: "section" });
    }
    let (dir, body) = manifest_parts(sections)?;
    let mut m = manifest_header(
        sections.len() as u16,
        flags,
        version_idx,
        license_idx,
        node_count,
        regions,
    );
    let ghost hdr = m@;
    push_all(&mut m, dir.as_slice());
    push_all(&mut m, body.as_slice());
    proof {
        assert(m@ =~= hdr + dir@ + body@);
        lemma_manifest_done(
            hdr,
            dir@,
            body@,
            m@,
            flags,
            version_idx,
            license_idx,
            node_count,
            regions,
            sections@,
        );
    }
    Ok(m)
}

/// The header, then a directory entry and the 8-aligned bytes of each of the first `n` sections.
spec fn manifest_total(secs: Seq<StoredSection>, n: int) -> int
    decreases n,
{
    if n <= 0 {
        48
    } else {
        manifest_total(secs, n - 1) + 24 + pad8(secs[n - 1].data@.len() as int)
    }
}

proof fn lemma_total_grows(secs: Seq<StoredSection>, i: int, j: int)
    requires
        0 <= i <= j,
    ensures
        manifest_total(secs, i) <= manifest_total(secs, j),
    decreases j - i,
{
    if i < j {
        lemma_total_grows(secs, i, j - 1);
        lemma_pad8(secs[j - 1].data@.len() as int);
    }
}

/// Sections of at most 128 MiB each make a manifest of at most that much per section, plus the
/// header, directory entry and padding.
proof fn lemma_total_bounded(secs: Seq<StoredSection>, k: int)
    requires
        0 <= k <= secs.len(),
        forall|j: int| 0 <= j < secs.len() ==> (#[trigger] secs[j]).data@.len() <= 0x800_0000,
    ensures
        manifest_total(secs, k) <= 48 + 0x800_0020 * k,
    decreases k,
{
    if k > 0 {
        lemma_total_bounded(secs, k - 1);
        lemma_pad8(secs[k - 1].data@.len() as int);
    }
}

proof fn lemma_fits_bounded(secs: Seq<StoredSection>)
    requires
        secs.len() <= 10,
        forall|j: int| 0 <= j < secs.len() ==> (#[trigger] secs[j]).data@.len() <= 0x800_0000,
    ensures
        manifest_fits(secs),
{
    reveal(parts_fit);
    let n = secs.len() as int;
    assert forall|i: int| 0 <= i < n implies #[trigger] sect_off(secs, i) <= u32::MAX by {
        lemma_body_bounded(secs, i);
        assert(body_total(secs, i) <= 0x800_0008 * 10);
        assert(24 * secs.len() <= 240);
    }
    assert forall|i: int| 0 <= i < n implies sect_off(secs, i) <= u32::MAX && (
    #[trigger] secs[i]).data@.len() <= u32::MAX by {
        assert(sect_off(secs, i) <= u32::MAX);
    }
    assert(parts_fit(secs, n));
    assert(secs.len() <= u16::MAX);
}

proof fn lemma_body_bounded(secs: Seq<StoredSection>, k: int)
    requires
        0 <= k <= secs.len(),
        forall|j: int| 0 <= j < secs.len() ==> (#[trigger] secs[j]).data@.len() <= 0x800_0000,
    ensures
        0 <= body_total(secs, k) <= 0x800_0008 * k,
    decreases k,
{
    if k > 0 {
        lemma_body_bounded(secs, k - 1);
        lemma_pad8(secs[k - 1].data@.len() as int);
    }
}

/// The length a manifest over `sections` will have.
fn manifest_len(sections: &Vec<StoredSection>) -> (r: Result<u32, Error>)
    ensures
        r matches Err(e) ==> e is OffsetOverflow,
        r is Ok <==> manifest_total(sections@, sections@.len() as int) <= u32::MAX,
        r matches Ok(v) ==> v == manifest_total(sections@, sections@.len() as int),
{
    proof {
        reveal(pad8);
    }
    let mut total: usize = MANIFEST_HDR_LEN;
    let mut i: usize = 0;
    while i < sections.len()
        invariant
            0 <= i <= sections@.len(),
            total == manifest_total(sections@, i as int),
        decreases sections@.len() - i,
    {
        let l = sections[i].data.len();
        let padded = if l % 8 == 0 { l } else if l <= usize::MAX - 8 { l + (8 - l % 8) } else {
            proof {
                lemma_total_grows(sections@, i + 1, sections@.len() as int);
            }
            return Err(Error::OffsetOverflow { what: "manifest" });
        };
        if padded > usize::MAX - DIR_ENTRY_LEN || total > usize::MAX - DIR_ENTRY_LEN - padded {
            proof {
                lemma_total_grows(sections@, i + 1, sections@.len() as int);
            }
            return Err(Error::OffsetOverflow { what: "manifest" });
        }
        total = total + DIR_ENTRY_LEN + padded;
        i += 1;
    }
    as_u32(total, "manifest")
}

/// What a written file guarantees before anything variable-length is read: a header a reader
/// accepts, no signatures yet, a manifest inside the file, and a manifest root that is the
/// BLAKE3 of the manifest's bytes.
pub open spec fn file_front_ok(b: Seq<u8>) -> bool {
    let moff = le32(b, 0x14);
    let mlen = le32(b, 0x18);
    &&& header_err(b) is None
    &&& le16(b, 0x1C) == 0
    &&& moff + mlen <= b.len()
    &&& b.subrange(0x20, 0x40) == blake3_digest(b.subrange(moff, moff + mlen))
}

/// The routing plane at offset 64 lists `skills` in order, by name and description.
pub open spec fn lists_skills(b: Seq<u8>, skills: Seq<(Seq<char>, Seq<char>, nat)>) -> bool {
    &&& block_ok(b, 64)
    &&& le16(b, 64) == skills.len()
    &&& forall|i: int, e: RoutingEntry|
        0 <= i < skills.len() && #[trigger] entry_reads(b, 64, skills.len() as int, i, e) ==> e.name@
            == skills[i].0 && e.description@ == skills[i].1
}

/// What the writer lists in a file's routing plane, the routing view reads back: on a built
/// file the view succeeds, and gives one entry per skill the builder was given, in order, with
/// its name and description.
pub proof fn routing_reads_back_what_was_built(
    bytes: Seq<u8>,
    skills: Seq<(Seq<char>, Seq<char>, nat)>,
    es: Seq<RoutingEntry>,
)
    requires
        file_front_ok(bytes),
        lists_skills(bytes, skills),
        es.len() == le16(bytes, 64 + 112 * le16(bytes, 0x1C)),
        forall|i: int|
            0 <= i < es.len() ==> entry_reads(
                bytes,
                64 + 112 * le16(bytes, 0x1C),
                es.len() as int,
                i,
                #[trigger] es[i],
            ),
    ensures
        header_err(bytes) is None,
        block_ok(bytes, 64 + 112 * le16(bytes, 0x1C)),
        es.len() == skills.len(),
        forall|i: int|
            0 <= i < es.len() ==> (#[trigger] es[i]).name@ == skills[i].0 && es[i].description@
                == skills[i].1,
{
    assert forall|i: int| 0 <= i < es.len() implies (#[trigger] es[i]).name@ == skills[i].0
        && es[i].description@ == skills[i].1 by {
        assert(entry_reads(bytes, 64, skills.len() as int, i, es[i]));
    }
}

/// Lays the parts out: header, routing block, embedding block, manifest, HOT, COLD.
fn assemble(routing: &Vec<u8>, emb: &Vec<u8>, manifest: &Vec<u8>, hot: &Vec<u8>, cold: &Vec<u8>) -> (r:
    Result<Vec<u8>, Error>)
    ensures
        r matches Ok(b) ==> file_front_ok(b@) && b@.len() >= 64 + routing@.len() && b@.subrange(
            64,
            64 + routing@.len() as int,
        ) == routing@ && le32(b@, 0x14) == 64 + routing@.len() + emb@.len() && le32(b@, 0x18)
            == manifest@.len(),
        r matches Err(e) ==> e is OffsetOverflow,
        64 + routing@.len() + emb@.len() + manifest@.len() + hot@.len() + cold@.len() <= u32::MAX
            ==> r is Ok,
{
    let parts: usize = 64;
    if routing.len() > u32::MAX as usize || emb.len() > u32::MAX as usize || manifest.len()
        > u32::MAX as usize || hot.len() > u32::MAX as usize || cold.len() > u32::MAX as usize {
        return Err(Error::OffsetOverflow { what: "file" });
    }
    let total: u64 = 64 + routing.len() as u64 + emb.len() as u64 + manifest.len() as u64
        + hot.len() as u64 + cold.len() as u64;
    if total > u32::MAX as u64 {
        return Err(Error::OffsetOverflow { what: "file" });
    }
    let moff = (64 + routing.len() + emb.len()) as u32;
    let root = blake3_hash(manifest.as_slice());
    let h = header_bytes(total as u32, moff, manifest.len() as u32, &root);
    let mut out: Vec<u8> = Vec::new();
    push_all(&mut out, h.as_slice());
    let ghost o1 = out@;
    push_all(&mut out, routing.as_slice());
    let ghost o2 = out@;
    push_all(&mut out, emb.as_slice());
    let ghost o3 = out@;
    push_all(&mut out, manifest.as_slice());
    let ghost o4 = out@;
    push_all(&mut out, hot.as_slice());
    push_all(&mut out, cold.as_slice());
    proof {
        let b = out@;
        let rest = routing@ + emb@ + manifest@ + hot@ + cold@;
        assert(b =~= h@ + rest);
        lemma_prefix_reads(h@, rest);
        assert(o1 =~= h@);
        assert(b.subrange(64, 64 + routing@.len() as int) =~= routing@);
        let mo = moff as int;
        assert(b.subrange(mo, mo + manifest@.len()) =~= manifest@);
        assert(b.len() == total);
        assert(le32(b, 0x10) == b.len());
        assert(le32(b, 0x0C) == 0);
        assert(((0u32) & !0u32) == 0) by (bit_vector);
        assert(b.subrange(0, 8) == magic_seq());
        assert(le16(b, 0x08) == VERSION_MAJOR);
        assert(le16(b, 0x1E) == 0);
        assert(header_err(b) is None);
        assert(le16(b, 0x1C) == 0);
        assert(b.subrange(0x20, 0x40) == root@);
        assert(file_front_ok(b));
    }
    Ok(out)
}

/// A refusal for size alone: a table, region or file past the format's 32-bit offsets, or
/// routing text or a routing count past its 16-bit fields.
pub open spec fn size_refusal(e: Error) -> bool {
    e is OffsetOverflow || e == Error::RoutingTooLong
}

impl Builder {
    /// Node `i` is no hotter than its parent.
    spec fn cool_at(&self, i: int) -> bool {
        match self.nodes@[i].parent {
            Some(p) => tier_code(self.nodes@[i].tier) >= tier_code(self.nodes@[p as int].tier),
            None => true,
        }
    }

    proof fn lemma_tiers_cool(&self)
        ensures
            self.tiers_cool() <==> forall|i: int| 0 <= i < self.nodes@.len() ==> #[trigger] self.cool_at(i),
    {
        if self.tiers_cool() {
            assert forall|i: int| 0 <= i < self.nodes@.len() implies #[trigger] self.cool_at(i) by {
                match self.nodes@[i].parent {
                    Some(p) => {
                        assert(self.node(i).parent == Some(p as nat));
                        assert(self.node(p as int).tier == self.nodes@[p as int].tier);
                    },
                    None => {},
                }
            }
        }
        if forall|i: int| 0 <= i < self.nodes@.len() ==> #[trigger] self.cool_at(i) {
            assert forall|i: int, p: nat|
                #![trigger self.node(i), self.node(p as int)]
                0 <= i < self.len() && self.node(i).parent == Some(p) implies tier_code(
                    self.node(i).tier,
                ) >= tier_code(self.node(p as int).tier) by {
                assert(self.cool_at(i));
            }
        }
    }

    /// Checks that no node is hotter than its parent, walking the nodes in pre-order.
    fn check_tiers(&self, order: &Vec<usize>, rank: &Vec<u32>) -> (r: Result<(), Error>)
        requires
            self.wf(),
            order@.len() == self.nodes@.len(),
            rank@.len() == self.nodes@.len(),
            forall|k: int| 0 <= k < order@.len() ==> #[trigger] order@[k] < self.nodes@.len(),
            forall|i: usize| i < self.nodes@.len() ==> #[trigger] order@.contains(i),
        ensures
            r is Ok <==> self.tiers_cool(),
            r is Err ==> r matches Err(Error::TierNotMonotone { .. }),
    {
        proof {
            self.lemma_tiers_cool();
        }
        let n = self.nodes.len();
        let mut k: usize = 0;
        while k < n
            invariant
                0 <= k <= n,
                n == self.nodes@.len(),
                order@.len() == n,
                rank@.len() == n,
                forall|q: int| 0 <= q < order@.len() ==> #[trigger] order@[q] < n,
                forall|q: int| 0 <= q < k ==> self.cool_at(#[trigger] order@[q] as int),
                self.wf(),
            decreases n - k,
        {
            let old = order[k];
            match self.nodes[old].parent {
                Some(p) => {
                    assert(match self.nodes@[old as int].parent {
                        Some(p) => p < old,
                        None => true,
                    });
                    if self.nodes[old].tier.hotter_than(self.nodes[p].tier) {
                        assert(!self.cool_at(old as int));
                        return Err(Error::TierNotMonotone { node: rank[old], parent: rank[p] });
                    }
                },
                None => {},
            }
            k += 1;
        }
        proof {
            assert forall|i: int| 0 <= i < self.nodes@.len() implies #[trigger] self.cool_at(i) by {
                assert(order@.contains(i as usize));
                let q = choose|q: int| 0 <= q < order@.len() && order@[q] == i as usize;
                assert(self.cool_at(order@[q] as int));
            }
        }
        Ok(())
    }

    /// The routing entries, each checked to start at node 0 or one of its children, with its
    /// root renumbered by the pre-order.
    fn top_entries(&self, rank: &Vec<u32>) -> (r: Result<Vec<RoutingEntry>, Error>)
        requires
            self.wf(),
            rank@.len() == self.nodes@.len(),
            forall|k: int| 0 <= k < rank@.len() ==> #[trigger] rank@[k] < self.nodes@.len(),
        ensures
            r is Ok <==> self.entries_top(),
            r is Err ==> r matches Err(Error::RoutingRootNotTopLevel(_)),
            r matches Ok(entries) ==> entries@.len() == self.entries@.len() && forall|j: int|
                0 <= j < entries@.len() ==> (#[trigger] entries@[j]).name@ == self.entries@[j].0@
                    && entries@[j].description@ == self.entries@[j].1@,
    {
        let n = self.nodes.len();
        // Routing entries start at node 0 or one of its children.
        let mut entries: Vec<RoutingEntry> = Vec::new();
        let mut e: usize = 0;
        while e < self.entries.len()
            invariant
                0 <= e <= self.entries@.len(),
                n == self.nodes@.len(),
                rank@.len() == n,
                forall|q: int| 0 <= q < rank@.len() ==> #[trigger] rank@[q] < n,
                entries@.len() == e,
                forall|j: int|
                    0 <= j < e ==> (#[trigger] entries@[j]).name@ == self.entries@[j].0@
                        && entries@[j].description@ == self.entries@[j].1@,
                forall|j: int|
                    0 <= j < e ==> (#[trigger] self.entries@[j]).2 < n && (self.entries@[j].2 == 0
                        || self.nodes@[self.entries@[j].2 as int].parent == Some(0usize)),
            decreases self.entries@.len() - e,
        {
            let (name, desc, at) = &self.entries[e];
            let at = *at;
            proof {
                assert(self.skills()[e as int].2 == at);
            }
            if at >= n {
                return Err(Error::RoutingRootNotTopLevel(if at <= u32::MAX as usize {
                    at as u32
                } else {
                    NONE32
                }));
            }
            let top = at == 0 || match self.nodes[at].parent {
                Some(p) => p == 0,
                None => false,
            };
            if !top {
                proof {
                    assert(!self.entries_top());
                }
                return Err(Error::RoutingRootNotTopLevel(rank[at]));
            }
            entries.push(RoutingEntry { root: rank[at], name: name.clone(), description: desc.clone() });
            e += 1;
        }
        proof {
            assert forall|j: int|
                0 <= j < self.skills().len() implies (#[trigger] self.skills()[j]).2 < self.len() && (
                self.skills()[j].2 == 0 || self.node(self.skills()[j].2 as int).parent == Some(0nat)) by {
                assert(self.skills()[j].2 == self.entries@[j].2);
            }
        }
        Ok(entries)
    }

    /// The tree's shape, checked: each node's children, the pre-order and each node's place in
    /// it, and the routing entries with their roots renumbered by that order.
    fn shape(&self) -> (r: Result<(Vec<Vec<usize>>, Vec<usize>, Vec<u32>, Vec<RoutingEntry>), Error>)
        requires
            self.wf(),
        ensures
            r is Ok <==> self.len() <= u32::MAX && (self.len() == 0 || self.one_root()) && (self.len()
                > 0 ==> self.node(0).tier == Tier::Routing) && self.tiers_cool() && self.entries_top(),
            self.len() > u32::MAX ==> r matches Err(Error::OffsetOverflow { what: "nodes" }),
            self.len() <= u32::MAX && self.len() > 0 && !self.one_root() ==> r matches Err(
                Error::RootHasParent,
            ),
            self.len() <= u32::MAX && self.len() > 0 && self.one_root() && self.node(0).tier
                != Tier::Routing ==> r matches Err(Error::RootNotRouting),
            self.len() <= u32::MAX && (self.len() == 0 || self.one_root()) && (self.len() > 0
                ==> self.node(0).tier == Tier::Routing) && !self.tiers_cool() ==> r matches Err(
                Error::TierNotMonotone { .. },
            ),
            self.len() <= u32::MAX && (self.len() == 0 || self.one_root()) && (self.len() > 0
                ==> self.node(0).tier == Tier::Routing) && self.tiers_cool() && !self.entries_top()
                ==> r matches Err(Error::RoutingRootNotTopLevel(_)),
            r matches Ok((kids, order, rank, entries)) ==> {
                &&& kids@.len() == self.nodes@.len()
                &&& forall|p: int, j: int|
                    0 <= p < kids@.len() && 0 <= j < kids@[p]@.len() ==> p < (#[trigger] kids@[p]@[j])
                        < kids@.len()
                &&& order@.len() == self.nodes@.len()
                &&& rank@.len() == self.nodes@.len()
                &&& self.nodes@.len() <= u32::MAX
                &&& forall|k: int| 0 <= k < order@.len() ==> #[trigger] order@[k] < self.nodes@.len()
                &&& forall|k: int| 0 <= k < rank@.len() ==> #[trigger] rank@[k] < self.nodes@.len()
                &&& entries@.len() == self.entries@.len()
                &&& forall|j: int|
                    0 <= j < entries@.len() ==> (#[trigger] entries@[j]).name@ == self.entries@[j].0@
                        && entries@[j].description@ == self.entries@[j].1@
            },
    {
        proof {
            let par = parents(self.nodes@);
            assert(par.len() == self.len());
            assert forall|i: int|
                #![trigger par[i]]
                #![trigger self.node(i)]
                0 <= i < self.len() implies (par[i] is None <==> self.node(i).parent is None) by {}
            assert(single_rooted(par) <==> self.one_root());
        }
        let n = self.nodes.len();
        let kids = children_lists(&self.nodes);
        let (order, rank) = match order_and_rank(&self.nodes, &kids) {
            Ok(x) => x,
            Err(e) => {
                return Err(e);
            },
        };
        if n > 0 && self.nodes[0].tier != Tier::Routing {
            return Err(Error::RootNotRouting);
        }
        match self.check_tiers(&order, &rank) {
            Ok(()) => {},
            Err(e) => {
                return Err(e);
            },
        }
        let entries = match self.top_entries(&rank) {
            Ok(x) => x,
            Err(e) => {
                return Err(e);
            },
        };
        Ok((kids, order, rank, entries))
    }

    /// Writes the file.
    ///
    /// Refuses a tree that is not single-rooted at node 0, whose root is not routing-tier, whose
    /// tiers decrease from a parent to a child, whose routing entries do not start at node 0 or
    /// one of its children, or whose tables would exceed the format's 32-bit addressing.
    pub fn build(self) -> (r: Result<Vec<u8>, Error>)
        requires
            self.wf(),
        ensures
            r matches Ok(b) ==> self.buildable() && file_front_ok(b@) && lists_skills(b@, self.skills()),
            self.len() > u32::MAX ==> r matches Err(Error::OffsetOverflow { what: "nodes" }),
            self.len() <= u32::MAX && self.len() > 0 && !self.one_root() ==> r matches Err(
                Error::RootHasParent,
            ),
            self.len() <= u32::MAX && self.len() > 0 && self.one_root() && self.node(0).tier
                != Tier::Routing ==> r matches Err(Error::RootNotRouting),
            self.len() <= u32::MAX && (self.len() == 0 || self.one_root()) && (self.len() > 0
                ==> self.node(0).tier == Tier::Routing) && !self.tiers_cool() ==> r matches Err(
                Error::TierNotMonotone { .. },
            ),
            self.len() <= u32::MAX && (self.len() == 0 || self.one_root()) && (self.len() > 0
                ==> self.node(0).tier == Tier::Routing) && self.tiers_cool() && !self.entries_top()
                ==> r matches Err(Error::RoutingRootNotTopLevel(_)),
            !self.buildable() ==> r is Err,
            r matches Err(e) ==> !self.buildable() || self.vector_count() > 0 || size_refusal(e) || (e
                == Error::RoutingEmpty && self.skills().len() == 0),
            self.buildable() && self.within_limits() && self.vector_count() == 0 && self.skills().len()
                > 0 ==> r is Ok,
    {
        match self.shape() {
            Ok((kids, order, rank, entries)) => self.write(kids, order, rank, entries),
            Err(e) => Err(e),
        }
    }

    /// Every table of the file, before compression: the string heap and the set it was built
    /// from, the two payload regions, the hash, edge, node, segment and capability tables.
    #[verifier::spinoff_prover]
    fn tables(&self, kids: &Vec<Vec<usize>>, order: &Vec<usize>, rank: &Vec<u32>) -> (r: Result<
        Tables,
        Error,
    >)
        requires
            self.wf(),
            kids@.len() == self.nodes@.len(),
            forall|p: int, j: int|
                0 <= p < kids@.len() && 0 <= j < kids@[p]@.len() ==> p < (#[trigger] kids@[p]@[j])
                    < kids@.len(),
            order@.len() == self.nodes@.len(),
            rank@.len() == self.nodes@.len(),
            self.nodes@.len() <= u32::MAX,
            forall|k: int| 0 <= k < order@.len() ==> #[trigger] order@[k] < self.nodes@.len(),
            forall|k: int| 0 <= k < rank@.len() ==> #[trigger] rank@[k] < self.nodes@.len(),
        ensures
            r matches Err(e) ==> e is OffsetOverflow,
            self.within_limits() ==> r is Ok,
            r matches Ok(t) ==> self.within_limits() ==> t.small(self.nodes@.len() as int),
    {
        let n = self.nodes.len();
        let ghost lim = self.within_limits();
        let set = heap_strings(self);
        proof {
            if lim {
                self.lemma_limits();
                lemma_heap_calls(self.nodes@, n as int);
                assert forall|j: int| 0 <= j < set@.len() implies (#[trigger] set@[j])@.len() <= 1024 by {
                    assert(holds_string(set@, set@[j]@));
                }
                lemma_heap_total_short(set@, set@.len() as int);
            }
        }
        let heap = heap_bytes(&set)?;
        let (hot, cold, placed) = place_payloads(&self.nodes, order)?;
        let subtrees = subtree_hashes(&self.nodes, kids);
        let (hashes, hash_idx, hash_count) = hash_table(&self.nodes, order, &subtrees)?;
        let (edges, spans, edge_count) = edge_table(&self.nodes, order, rank)?;
        let nodes_sec = node_table(&self.nodes, order, rank, &placed, &spans, &hash_idx, &set);
        let (segs, seg_count, caps, cap_count) = segment_tables(&self.nodes, order, &set)?;
        Ok(
            Tables {
                set,
                heap,
                hot,
                cold,
                hashes,
                hash_count,
                edges,
                edge_count,
                nodes_sec,
                segs,
                seg_count,
                caps,
                cap_count,
            },
        )
    }

    /// Lays out and writes a file whose tree has been checked.
    #[verifier::spinoff_prover]
    #[verifier::rlimit(100)]
    fn write(
        self,
        kids: Vec<Vec<usize>>,
        order: Vec<usize>,
        rank: Vec<u32>,
        entries: Vec<RoutingEntry>,
    ) -> (r: Result<Vec<u8>, Error>)
        requires
            self.wf(),
            kids@.len() == self.nodes@.len(),
            forall|p: int, j: int|
                0 <= p < kids@.len() && 0 <= j < kids@[p]@.len() ==> p < (#[trigger] kids@[p]@[j])
                    < kids@.len(),
            order@.len() == self.nodes@.len(),
            rank@.len() == self.nodes@.len(),
            self.nodes@.len() <= u32::MAX,
            forall|k: int| 0 <= k < order@.len() ==> #[trigger] order@[k] < self.nodes@.len(),
            forall|k: int| 0 <= k < rank@.len() ==> #[trigger] rank@[k] < self.nodes@.len(),
            entries@.len() == self.entries@.len(),
            forall|j: int|
                0 <= j < entries@.len() ==> (#[trigger] entries@[j]).name@ == self.entries@[j].0@
                    && entries@[j].description@ == self.entries@[j].1@,
        ensures
            r matches Ok(b) ==> file_front_ok(b@) && lists_skills(b@, self.skills()) && (
            self.vector_count() == 0 || self.vector_count() == self.skills().len()),
            r matches Err(e) ==> size_refusal(e) || (e == Error::RoutingEmpty && self.skills().len()
                == 0) || self.vector_count() > 0,
            self.within_limits() && self.vector_count() == 0 && self.skills().len() > 0 ==> r is Ok,
    {
        let ghost lim = self.within_limits() && self.vector_count() == 0 && self.skills().len() > 0;
        proof {
            if lim {
                self.lemma_limits();
                assert forall|j: int| 0 <= j < entries@.len() implies encode_utf8(
                    (#[trigger] entries@[j]).name@,
                ).len() <= 1024 && encode_utf8(entries@[j].description@).len() <= 1024 by {
                    assert(short_text(self.skills()[j].0) && short_text(self.skills()[j].1));
                }
                crate::routing::lemma_short_encodable(entries@);
            }
        }
        let n = self.nodes.len();
        let routing = crate::routing::encode(entries.as_slice())?;
        let emb: Vec<u8> = if self.vectors.len() == 0 {
            Vec::new()
        } else {
            if self.vectors.len() != self.entries.len() {
                return Err(Error::EmbeddingShape);
            }
            crate::embed::encode(self.vectors.as_slice())?
        };

        let t = self.tables(&kids, &order, &rank)?;
        let Tables {
            set,
            heap,
            hot,
            cold,
            hashes,
            hash_count,
            edges,
            edge_count,
            nodes_sec,
            segs,
            seg_count,
            caps,
            cap_count,
        } = t;

        let compressing = self.profile != Profile::Uncompressed;
        let compact = self.profile == Profile::Compact;
        let dict: Option<&Dictionary> = match &self.dict {
            Some(d) => {
                if compressing {
                    Some(d)
                } else {
                    None
                }
            },
            None => None,
        };
        let mut flags: u16 = 0;
        let hot_orig = as_u32(hot.len(), "hot region")?;
        let cold_orig = as_u32(cold.len(), "cold region")?;
        let hot_stored = if compressing {
            match maybe_compress(hot.as_slice(), dict) {
                Some(c) => {
                    flags = flags | HOT_ZSTD;
                    c
                },
                None => hot,
            }
        } else {
            hot
        };
        let cold_stored = if compressing {
            match maybe_compress(cold.as_slice(), dict) {
                Some(c) => {
                    flags = flags | COLD_ZSTD;
                    c
                },
                None => cold,
            }
        } else {
            cold
        };
        let mut sections: Vec<StoredSection> = Vec::new();
        assert(secs_bounded(sections@));
        sections.push(section(SECT_STRINGS, heap, as_u32(set.len(), "strings")?, compact, dict)?);
        assert(lim ==> secs_bounded(sections@));
        sections.push(section(SECT_NODES, nodes_sec, as_u32(n, "nodes")?, compact, dict)?);
        assert(lim ==> secs_bounded(sections@));
        if edge_count > 0 {
            sections.push(section(SECT_EDGES, edges, edge_count, compact, dict)?);
            assert(lim ==> secs_bounded(sections@));
        }
        sections.push(section(SECT_HASHES, hashes, hash_count, compact, dict)?);
        assert(lim ==> secs_bounded(sections@));
        if seg_count > 0 {
            sections.push(section(SECT_SEGMENTS, segs, seg_count, compact, dict)?);
            assert(lim ==> secs_bounded(sections@));
        }
        if cap_count > 0 {
            sections.push(section(SECT_CAPS, caps, cap_count, compact, dict)?);
            assert(lim ==> secs_bounded(sections@));
        }
        match dict {
            Some(d) => {
                flags = flags | USES_DICT;
                let digest = d.digest();
                let mut v: Vec<u8> = Vec::new();
                push_all(&mut v, digest.as_slice());
                sections.push(StoredSection { id: SECT_DICTREF, flags: 0, data: v, count: 1, orig_len: 32 });
                assert(lim ==> secs_bounded(sections@));
            },
            None => {},
        }
        if flags & (HOT_ZSTD | COLD_ZSTD) != 0 {
            let a = blake3_hash(hot_stored.as_slice());
            let b = blake3_hash(cold_stored.as_slice());
            let mut v: Vec<u8> = Vec::new();
            push_all(&mut v, a.as_slice());
            push_all(&mut v, b.as_slice());
            sections.push(StoredSection { id: SECT_REGIONS, flags: 0, data: v, count: 1, orig_len: 64 });
            assert(lim ==> secs_bounded(sections@));
        }
        {
            let mut v: Vec<u8> = Vec::new();
            push_u32(&mut v, as_u32(routing.len(), "routing")?);
            let h = blake3_hash(routing.as_slice());
            push_all(&mut v, h.as_slice());
            sections.push(StoredSection { id: SECT_ROUTING, flags: 0, data: v, count: 1, orig_len: 36 });
            assert(lim ==> secs_bounded(sections@));
        }
        if emb.len() > 0 {
            let mut v: Vec<u8> = Vec::new();
            push_u32(&mut v, as_u32(emb.len(), "embeddings")?);
            let h = blake3_hash(emb.as_slice());
            push_all(&mut v, h.as_slice());
            sections.push(StoredSection { id: SECT_EMBEDDINGS, flags: 0, data: v, count: 1, orig_len: 36 });
            assert(lim ==> secs_bounded(sections@));
        }

        let version_idx = match &self.version {
            Some(v) => string_index(&set, v.as_str().as_bytes()),
            None => NONE32,
        };
        let license_idx = match &self.license {
            Some(v) => string_index(&set, v.as_str().as_bytes()),
            None => NONE32,
        };
        proof {
            if lim {
                lemma_total_bounded(sections@, sections@.len() as int);
                lemma_fits_bounded(sections@);
            }
        }
        let mlen = manifest_len(&sections)?;
        let front: u64 = 64 + routing.len() as u64 + emb.len() as u64 + mlen as u64;
        if front > u32::MAX as u64 || hot_stored.len() > u32::MAX as usize {
            return Err(Error::OffsetOverflow { what: "file" });
        }
        let hot_off = front as u32;
        let hot_len = hot_stored.len() as u32;
        if hot_len > u32::MAX - hot_off {
            return Err(Error::OffsetOverflow { what: "file" });
        }
        let cold_off = hot_off + hot_len;
        let cold_len = as_u32(cold_stored.len(), "cold region")?;
        let manifest = manifest_bytes(
            flags,
            version_idx,
            license_idx,
            as_u32(n, "nodes")?,
            (hot_off, hot_len, cold_off, cold_len, hot_orig, cold_orig),
            &sections,
        )?;
        proof {
            if lim {
                lemma_body_bounded(sections@, sections@.len() as int);
                assert(manifest@.len() <= 48 + 240 + 0x800_0008 * 10);
                assert(hot_stored@.len() + cold_stored@.len() <= 0x1000_0000);
            }
        }
        let out = assemble(&routing, &emb, &manifest, &hot_stored, &cold_stored)?;
        proof {
            crate::routing::lemma_block_shift(routing@, out@, 64);
            let c = self.skills().len();
            assert(entries@.len() == c);
            assert forall|i: int, e: RoutingEntry|
                0 <= i < c && #[trigger] entry_reads(out@, 64, c as int, i, e) implies e.name@
                    == self.skills()[i].0 && e.description@ == self.skills()[i].1 by {
                assert(entry_reads(routing@, 0, c as int, i, e));
                assert(entry_reads(routing@, 0, c as int, i, entries@[i]));
                assert(entries@[i].name@ == self.entries@[i].0@);
            }
        }
        Ok(out)
    }
}

} // verus!
