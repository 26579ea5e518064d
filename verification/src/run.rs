//! The checkpoint in front of a wasm segment: it runs under exactly the capabilities it declared, and
//! no others.
//!
//! Enforcement happens at linking, not at calling. A module reaches the host only through its
//! imports, so refusing to satisfy an import the segment did not declare leaves no call site to
//! guard. This module holds every decision on the way there: which segment and node, whether
//! its bytes match the signed commitment, whether the policy admits its trust class, ABI and
//! budgets, which capabilities it declared, and whether each import is covered by one. Compiling
//! and executing the module is the engine's work, done by the caller between these decisions.

use vstd::prelude::*;

use vstd::string::StrSliceExecFns;

use crate::cap_kind;
use crate::graph::{abi_code, Abi, Kind, Segment, TrustClass};
use crate::manifest::{sect_bytes, sect_count_of, Manifest};
use crate::raw::{le16, le32};
use crate::skill::{commitment_differs, commitment_holds, payload_bytes, Skill};
use crate::text::same;

verus! {

#[derive(Debug, Clone, PartialEq, Eq)]
pub enum RunError {
    NoSuchSegment(u32),
    /// The stored bytes do not match the signed commitment.
    IntegrityFailed(u32),
    /// The format can label a shell script; it cannot contain one. A policy has to opt in
    /// explicitly to get anything else.
    NotPortable { abi: &'static str, trust: &'static str },
    UnsupportedAbi(&'static str),
    /// The module imports something the segment never declared. Refused before instantiation.
    UndeclaredImport { module: String, name: String, needs: &'static str },
    /// The segment asked for more than the policy's ceiling.
    LimitExceedsPolicy { what: &'static str, asked: u32, ceiling: u32 },
    Compile(String),
    Instantiate(String),
    NoSuchEntry(String),
    /// The segment burned its declared `cpu_ms`: a budget too small is the operator's problem,
    /// where a trap is the author's.
    OutOfFuel,
    /// The segment outran its declared `wall_ms`.
    Interrupted,
    Trap(String),
}

/// Ceilings the host imposes whatever a segment requests. A segment asking for more is refused
/// rather than silently clamped.
#[derive(Debug, Clone, Copy)]
pub struct Policy {
    pub allow_host_trusted: bool,
    pub max_mem_kib: u32,
    pub max_cpu_ms: u32,
    pub max_wall_ms: u32,
    /// Fuel per millisecond of declared CPU budget: a calibration constant, since fuel counts
    /// instructions and not time.
    pub fuel_per_ms: u64,
}

impl Default for Policy {
    fn default() -> (p: Policy)
        ensures
            !p.allow_host_trusted,
            p.max_mem_kib == 64 * 1024,
            p.max_cpu_ms == 5_000,
            p.max_wall_ms == 10_000,
            p.fuel_per_ms == 1_000_000,
    {
        Policy {
            allow_host_trusted: false,
            max_mem_kib: 64 * 1024,
            max_cpu_ms: 5_000,
            max_wall_ms: 10_000,
            fuel_per_ms: 1_000_000,
        }
    }
}

#[derive(Debug, Clone)]
pub struct Outcome {
    pub stdout: Vec<u8>,
    pub fuel_used: u64,
    pub granted: Vec<&'static str>,
}

/// `name` begins with `prefix`.
pub open spec fn begins(name: Seq<char>, prefix: Seq<char>) -> bool {
    name.len() >= prefix.len() && name.subrange(0, prefix.len() as int) == prefix
}

/// The capability an import requires: `Some(0)` for one that needs none, `None` for one this
/// host does not recognise, which the import check treats as a refusal.
pub open spec fn capability_of(module: Seq<char>, name: Seq<char>) -> Option<u16> {
    if module == "wasi_snapshot_preview1"@ {
        if name == "proc_exit"@ {
            Some(0)
        } else if name == "fd_write"@ || name == "fd_read"@ || name == "fd_close"@ || name
            == "fd_fdstat_get"@ {
            Some(cap_kind::STDIO)
        } else if name == "path_open"@ || name == "fd_prestat_get"@ || name
            == "fd_prestat_dir_name"@ || name == "fd_readdir"@ {
            Some(cap_kind::FS_READ)
        } else if name == "path_create_directory"@ || name == "path_unlink_file"@ || name
            == "fd_allocate"@ {
            Some(cap_kind::FS_WRITE)
        } else if name == "environ_get"@ || name == "environ_sizes_get"@ || name == "args_get"@
            || name == "args_sizes_get"@ {
            Some(cap_kind::ENV)
        } else if name == "clock_time_get"@ || name == "clock_res_get"@ {
            Some(cap_kind::CLOCK)
        } else if name == "random_get"@ {
            Some(cap_kind::RAND)
        } else if begins(name, "sock_"@) {
            Some(cap_kind::NET_HOST)
        } else {
            None
        }
    } else if module == "skill"@ && name == "yield"@ {
        Some(0)
    } else {
        None
    }
}

/// The capability an import requires, or `None` if this host does not recognise it. An
/// unrecognised import is not harmless by default: a host that shrugs at imports it does not
/// understand has no capability model at all.
pub fn required_capability(module: &str, name: &str) -> (r: Option<u16>)
    ensures
        r == capability_of(module@, name@),
{
    if same(module, "wasi_snapshot_preview1") {
        if same(name, "proc_exit") {
            Some(0)
        } else if same(name, "fd_write") || same(name, "fd_read") || same(name, "fd_close")
            || same(name, "fd_fdstat_get") {
            Some(cap_kind::STDIO)
        } else if same(name, "path_open") || same(name, "fd_prestat_get") || same(
            name,
            "fd_prestat_dir_name",
        ) || same(name, "fd_readdir") {
            Some(cap_kind::FS_READ)
        } else if same(name, "path_create_directory") || same(name, "path_unlink_file") || same(
            name,
            "fd_allocate",
        ) {
            Some(cap_kind::FS_WRITE)
        } else if same(name, "environ_get") || same(name, "environ_sizes_get") || same(
            name,
            "args_get",
        ) || same(name, "args_sizes_get") {
            Some(cap_kind::ENV)
        } else if same(name, "clock_time_get") || same(name, "clock_res_get") {
            Some(cap_kind::CLOCK)
        } else if same(name, "random_get") {
            Some(cap_kind::RAND)
        } else if starts_with(name, "sock_") {
            Some(cap_kind::NET_HOST)
        } else {
            None
        }
    } else if same(module, "skill") && same(name, "yield") {
        Some(0)
    } else {
        None
    }
}

pub(crate) fn starts_with(name: &str, prefix: &str) -> (r: bool)
    ensures
        r == begins(name@, prefix@),
{
    let n = name.unicode_len();
    let p = prefix.unicode_len();
    if n < p {
        return false;
    }
    same(name.substring_char(0, p), prefix)
}

/// How many of the first `i` nodes carry segment bytes.
pub open spec fn segments_before(kinds: Seq<Kind>, i: int) -> int
    decreases i,
{
    if i <= 0 {
        0
    } else {
        segments_before(kinds, i - 1) + if kinds[i - 1] == Kind::Segment {
            1int
        } else {
            0int
        }
    }
}

pub open spec fn kinds_of(s: Skill) -> Seq<Kind> {
    s.nodes@.map_values(|n: crate::graph::Node| n.kind)
}

/// Node `i` carries the bytes of segment record `seg`: records and segment nodes are
/// parallel-indexed in pre-order.
pub open spec fn carries(s: Skill, i: int, seg: int) -> bool {
    &&& 0 <= i < s.nodes@.len()
    &&& s.nodes@[i].kind == Kind::Segment
    &&& segments_before(kinds_of(s), i) == seg
}

/// The node that carries segment record `seg_idx`.
pub fn segment_node(skill: &Skill, seg_idx: u32) -> (r: Option<u32>)
    requires
        skill.nodes@.len() <= u32::MAX,
    ensures
        r matches Some(i) ==> carries(*skill, i as int, seg_idx as int),
        r is None ==> forall|i: int| !carries(*skill, i, seg_idx as int),
{
    let n = skill.nodes.len();
    let ghost kinds = kinds_of(*skill);
    let mut seen: u32 = 0;
    let mut i: usize = 0;
    while i < n
        invariant
            0 <= i <= n,
            n == skill.nodes@.len(),
            n <= u32::MAX,
            kinds == kinds_of(*skill),
            seen == segments_before(kinds, i as int),
            seen <= seg_idx,
            forall|j: int| 0 <= j < i ==> !carries(*skill, j, seg_idx as int),
        decreases n - i,
    {
        proof {
            assert(kinds[i as int] == skill.nodes@[i as int].kind);
        }
        if skill.nodes[i].kind == Kind::Segment {
            if seen == seg_idx {
                return Some(i as u32);
            }
            seen += 1;
        }
        i += 1;
    }
    proof {
        assert forall|j: int| !carries(*skill, j, seg_idx as int) by {
            if 0 <= j < n {
            } else {
                assert(!(0 <= j < skill.nodes@.len()));
            }
        }
    }
    None
}

/// `g` is segment record `idx` as the table stores it.
pub open spec fn record_at(m: Manifest, idx: int, g: Segment) -> bool {
    let b = sect_bytes(m.segments);
    let o = 96 * idx;
    &&& 0 <= idx < m.spec_segment_count()
    &&& g.root@ == b.subrange(o, o + 32)
    &&& g.orig_len == le32(b, o + 0x20)
    &&& abi_code(g.abi) == le16(b, o + 0x24)
    &&& g.codec == b[o + 0x26]
    &&& (g.trust_class == TrustClass::Portable <==> b[o + 0x27] == 0)
    &&& g.cap_off == le32(b, o + 0x28)
    &&& g.cap_cnt == le16(b, o + 0x2C)
    &&& g.flags == le16(b, o + 0x2E)
    &&& g.mem_kib == le32(b, o + 0x30)
    &&& g.cpu_ms == le32(b, o + 0x34)
    &&& g.wall_ms == le32(b, o + 0x38)
    &&& g.dict_idx == le32(b, o + 0x3C)
    &&& g.signer_idx == le32(b, o + 0x40)
}

/// The capability kinds among the first `cnt` entries of the table from `off`, skipping any
/// that lie past its end.
pub open spec fn declared_caps(m: Manifest, off: int, cnt: nat) -> Seq<u16>
    decreases cnt,
{
    if cnt == 0 {
        Seq::empty()
    } else {
        let prev = declared_caps(m, off, (cnt - 1) as nat);
        let idx = off + cnt - 1;
        if idx < sect_count_of(m.caps) {
            prev.push(le16(sect_bytes(m.caps), 8 * idx) as u16)
        } else {
            prev
        }
    }
}

pub open spec fn abi_str(a: Abi) -> &'static str {
    match a {
        Abi::Wasm32Wasip2 => "wasm32-wasip2",
        Abi::Sh => "sh",
        Abi::Python3 => "python3",
        Abi::Node => "node",
        Abi::Native => "native",
        Abi::Wasm32Core => "wasm32-core",
    }
}

fn abi_name(abi: Abi) -> (r: &'static str)
    ensures
        r == abi_str(abi),
{
    match abi {
        Abi::Wasm32Wasip2 => "wasm32-wasip2",
        Abi::Sh => "sh",
        Abi::Python3 => "python3",
        Abi::Node => "node",
        Abi::Native => "native",
        Abi::Wasm32Core => "wasm32-core",
    }
}

/// What the policy says of a record whose bytes checked out: `None` when it may run, else the
/// refusal, trust class first, then ABI, then each budget.
pub open spec fn verdict(g: Segment, p: Policy) -> Option<RunError> {
    if g.trust_class != TrustClass::Portable && !p.allow_host_trusted {
        Some(RunError::NotPortable { abi: abi_str(g.abi), trust: "HostTrusted" })
    } else if g.abi != Abi::Wasm32Core {
        Some(RunError::UnsupportedAbi(abi_str(g.abi)))
    } else if g.mem_kib > p.max_mem_kib {
        Some(RunError::LimitExceedsPolicy { what: "mem_kib", asked: g.mem_kib, ceiling: p.max_mem_kib })
    } else if g.cpu_ms > p.max_cpu_ms {
        Some(RunError::LimitExceedsPolicy { what: "cpu_ms", asked: g.cpu_ms, ceiling: p.max_cpu_ms })
    } else if g.wall_ms > p.max_wall_ms {
        Some(
            RunError::LimitExceedsPolicy { what: "wall_ms", asked: g.wall_ms, ceiling: p.max_wall_ms },
        )
    } else {
        None
    }
}

/// A segment the policy admits asks for no more memory, CPU time or wall-clock time than the
/// policy's ceilings, runs under the one ABI this host executes, and is portable unless the
/// policy admits host-trusted code; and any such segment is admitted.
pub proof fn admitted_within_ceilings(g: Segment, p: Policy)
    ensures
        verdict(g, p) is None <==> {
            &&& g.mem_kib <= p.max_mem_kib
            &&& g.cpu_ms <= p.max_cpu_ms
            &&& g.wall_ms <= p.max_wall_ms
            &&& g.abi == Abi::Wasm32Core
            &&& (g.trust_class == TrustClass::Portable || p.allow_host_trusted)
        },
        g.wall_ms > p.max_wall_ms ==> verdict(g, p) is Some,
        g.cpu_ms > p.max_cpu_ms ==> verdict(g, p) is Some,
        g.mem_kib > p.max_mem_kib ==> verdict(g, p) is Some,
{
}

/// A refused segment is told the first rule it breaks, in the order trust class, ABI, memory,
/// CPU time, wall-clock time, and for a budget what it asked and what the policy allows.
pub proof fn refusal_names_the_first_breach(g: Segment, p: Policy)
    ensures
        g.trust_class != TrustClass::Portable && !p.allow_host_trusted ==> verdict(g, p) == Some(
            RunError::NotPortable { abi: abi_str(g.abi), trust: "HostTrusted" },
        ),
        (g.trust_class == TrustClass::Portable || p.allow_host_trusted) && g.abi != Abi::Wasm32Core
            ==> verdict(g, p) == Some(RunError::UnsupportedAbi(abi_str(g.abi))),
        (g.trust_class == TrustClass::Portable || p.allow_host_trusted) && g.abi == Abi::Wasm32Core
            && g.mem_kib > p.max_mem_kib ==> verdict(g, p) == Some(
            RunError::LimitExceedsPolicy { what: "mem_kib", asked: g.mem_kib, ceiling: p.max_mem_kib },
        ),
        (g.trust_class == TrustClass::Portable || p.allow_host_trusted) && g.abi == Abi::Wasm32Core
            && g.mem_kib <= p.max_mem_kib && g.cpu_ms > p.max_cpu_ms ==> verdict(g, p) == Some(
            RunError::LimitExceedsPolicy { what: "cpu_ms", asked: g.cpu_ms, ceiling: p.max_cpu_ms },
        ),
        (g.trust_class == TrustClass::Portable || p.allow_host_trusted) && g.abi == Abi::Wasm32Core
            && g.mem_kib <= p.max_mem_kib && g.cpu_ms <= p.max_cpu_ms && g.wall_ms > p.max_wall_ms
            ==> verdict(g, p) == Some(
            RunError::LimitExceedsPolicy { what: "wall_ms", asked: g.wall_ms, ceiling: p.max_wall_ms },
        ),
{
}

proof fn lemma_count_prefix(s: Skill, i: int)
    requires
        0 <= i <= s.nodes@.len(),
    ensures
        crate::validate::count_segments(s.nodes@.subrange(0, i)) == segments_before(kinds_of(s), i),
    decreases i,
{
    if i > 0 {
        lemma_count_prefix(s, i - 1);
        assert(s.nodes@.subrange(0, i).drop_last() =~= s.nodes@.subrange(0, i - 1));
        assert(kinds_of(s)[i - 1] == s.nodes@[i - 1].kind);
    }
}

proof fn lemma_carrier_exists(s: Skill, n: int, idx: int)
    requires
        0 <= n <= s.nodes@.len(),
        0 <= idx < segments_before(kinds_of(s), n),
    ensures
        exists|i: int| 0 <= i < n && carries(s, i, idx),
    decreases n,
{
    if n > 0 {
        if idx < segments_before(kinds_of(s), n - 1) {
            lemma_carrier_exists(s, n - 1, idx);
            let i = choose|i: int| 0 <= i < n - 1 && carries(s, i, idx);
            assert(0 <= i < n && carries(s, i, idx));
        } else {
            assert(kinds_of(s)[n - 1] == s.nodes@[n - 1].kind);
            assert(carries(s, n - 1, idx));
        }
    }
}

/// A node carries a record the table holds.
pub(crate) proof fn lemma_carrier_below(s: Skill, i: int, idx: int)
    requires
        s.wf(),
        carries(s, i, idx),
    ensures
        idx < s.manifest.spec_segment_count(),
{
    reveal(crate::validate::segments_ok);
    lemma_count_prefix(s, s.nodes@.len() as int);
    assert(s.nodes@.subrange(0, s.nodes@.len() as int) =~= s.nodes@);
    lemma_segments_grow(kinds_of(s), i + 1, s.nodes@.len() as int);
    assert(kinds_of(s)[i] == s.nodes@[i].kind);
}

/// In an accepted file every segment record reads and is carried by some node.
pub(crate) proof fn lemma_records_carried(s: Skill, idx: int)
    requires
        s.wf(),
        0 <= idx < s.manifest.spec_segment_count(),
    ensures
        s.manifest.segment_reads(idx),
        exists|i: int| carries(s, i, idx),
{
    reveal(crate::validate::segments_ok);
    lemma_count_prefix(s, s.nodes@.len() as int);
    assert(s.nodes@.subrange(0, s.nodes@.len() as int) =~= s.nodes@);
    lemma_carrier_exists(s, s.nodes@.len() as int, idx);
}

/// A segment cleared to run: its record, the node carrying it, its verified bytes and the
/// capability kinds it declared.
#[derive(Debug, Clone)]
pub struct Admission {
    pub record: Segment,
    pub node: u32,
    pub code: Vec<u8>,
    pub declared: Vec<u16>,
}

/// Everything the host decides before it compiles a segment: the record and the node that
/// carries it, the integrity of its bytes against the signed commitment, and the policy's word
/// on its trust class, ABI and budgets.
pub fn clear(skill: &Skill, seg_idx: u32, policy: &Policy) -> (r: Result<Admission, RunError>)
    requires
        skill.wf(),
    ensures
        seg_idx >= skill.manifest.spec_segment_count() <==> r == Err::<Admission, RunError>(
            RunError::NoSuchSegment(seg_idx),
        ),
        r matches Err(RunError::NoSuchSegment(x)) ==> x == seg_idx,
        r matches Err(RunError::IntegrityFailed(x)) ==> x == seg_idx,
        forall|i: int|
            carries(*skill, i, seg_idx as int) && commitment_differs(*skill, i) ==> r == Err::<
                Admission,
                RunError,
            >(RunError::IntegrityFailed(seg_idx)),
        r matches Ok(a) ==> {
            &&& record_at(skill.manifest, seg_idx as int, a.record)
            &&& carries(*skill, a.node as int, seg_idx as int)
            &&& commitment_holds(*skill, a.node as int)
            &&& a.code@ == payload_bytes(*skill, a.node as int)->0
            &&& a.declared@ == declared_caps(skill.manifest, a.record.cap_off as int, a.record.cap_cnt as nat)
            &&& verdict(a.record, *policy) is None
            &&& a.record.mem_kib <= policy.max_mem_kib
            &&& a.record.cpu_ms <= policy.max_cpu_ms
            &&& a.record.wall_ms <= policy.max_wall_ms
            &&& a.record.abi == Abi::Wasm32Core
            &&& (a.record.trust_class == TrustClass::Portable || policy.allow_host_trusted)
        },
        !(r matches Err(RunError::NoSuchSegment(_))) && !(r matches Err(RunError::IntegrityFailed(_)))
            ==> exists|g: Segment|
            record_at(skill.manifest, seg_idx as int, g) && (r matches Ok(a) ==> a.record == g) && (
            r is Err ==> r == Err::<Admission, RunError>(verdict(g, *policy)->0)) && (r is Ok
                <==> verdict(g, *policy) is None),
{
    if seg_idx < skill.manifest.segment_count() {
        proof {
            lemma_records_carried(*skill, seg_idx as int);
        }
    }
    let rec = match skill.manifest.segment(seg_idx) {
        Ok(g) => g,
        Err(_) => {
            proof {
                if seg_idx < skill.manifest.spec_segment_count() {
                    lemma_records_carried(*skill, seg_idx as int);
                }
                assert forall|i: int| !carries(*skill, i, seg_idx as int) by {
                    if carries(*skill, i, seg_idx as int) {
                        lemma_carrier_below(*skill, i, seg_idx as int);
                    }
                }
            }
            return Err(RunError::NoSuchSegment(seg_idx));
        },
    };
    proof {
        assert(record_at(skill.manifest, seg_idx as int, rec));
    }
    let node = match segment_node(skill, seg_idx) {
        Some(i) => i,
        None => {
            proof {
                lemma_records_carried(*skill, seg_idx as int);
            }
            return Err(RunError::NoSuchSegment(seg_idx));
        },
    };
    let code = match skill.verified_payload(node) {
        Ok(v) => v,
        Err(_) => {
            proof {
                assert forall|i: int| carries(*skill, i, seg_idx as int) implies i == node by {
                    lemma_carrier_unique(*skill, i, node as int, seg_idx as int);
                }
            }
            return Err(RunError::IntegrityFailed(seg_idx));
        },
    };
    proof {
        assert forall|i: int| carries(*skill, i, seg_idx as int) implies !commitment_differs(*skill, i) by {
            lemma_carrier_unique(*skill, i, node as int, seg_idx as int);
            lemma_holds_not_differs(*skill, node as int);
        }
    }
    if rec.trust_class != TrustClass::Portable && !policy.allow_host_trusted {
        return Err(RunError::NotPortable { abi: abi_name(rec.abi), trust: "HostTrusted" });
    }
    if rec.abi != Abi::Wasm32Core {
        return Err(RunError::UnsupportedAbi(abi_name(rec.abi)));
    }
    if rec.mem_kib > policy.max_mem_kib {
        return Err(
            RunError::LimitExceedsPolicy {
                what: "mem_kib",
                asked: rec.mem_kib,
                ceiling: policy.max_mem_kib,
            },
        );
    }
    if rec.cpu_ms > policy.max_cpu_ms {
        return Err(
            RunError::LimitExceedsPolicy { what: "cpu_ms", asked: rec.cpu_ms, ceiling: policy.max_cpu_ms },
        );
    }
    if rec.wall_ms > policy.max_wall_ms {
        return Err(
            RunError::LimitExceedsPolicy {
                what: "wall_ms",
                asked: rec.wall_ms,
                ceiling: policy.max_wall_ms,
            },
        );
    }
    let declared = declared_kinds(&skill.manifest, rec.cap_off, rec.cap_cnt);
    Ok(Admission { record: rec, node, code, declared })
}

proof fn lemma_carrier_unique(s: Skill, i: int, j: int, seg: int)
    requires
        carries(s, i, seg),
        carries(s, j, seg),
    ensures
        i == j,
{
    if i < j {
        lemma_segments_grow(kinds_of(s), i + 1, j);
        assert(kinds_of(s)[i] == s.nodes@[i].kind);
    } else if j < i {
        lemma_segments_grow(kinds_of(s), j + 1, i);
        assert(kinds_of(s)[j] == s.nodes@[j].kind);
    }
}

proof fn lemma_segments_grow(kinds: Seq<Kind>, a: int, b: int)
    requires
        0 <= a <= b,
    ensures
        segments_before(kinds, a) <= segments_before(kinds, b),
    decreases b - a,
{
    if a < b {
        lemma_segments_grow(kinds, a, b - 1);
    }
}

proof fn lemma_holds_not_differs(s: Skill, i: int)
    requires
        commitment_holds(s, i),
    ensures
        !commitment_differs(s, i),
{
}

/// The capability kinds a record declares, in table order.
fn declared_kinds(m: &Manifest, off: u32, cnt: u16) -> (r: Vec<u16>)
    requires
        m.well_formed(),
    ensures
        r@ == declared_caps(*m, off as int, cnt as nat),
{
    let mut out: Vec<u16> = Vec::new();
    let mut k: u16 = 0;
    while k < cnt
        invariant
            0 <= k <= cnt,
            m.well_formed(),
            out@ == declared_caps(*m, off as int, k as nat),
        decreases cnt - k,
    {
        let ghost idx = off as int + k as int;
        match off.checked_add(k as u32) {
            Some(at) => {
                match m.cap(at) {
                    Ok(c) => {
                        proof {
                            assert(c.0 == le16(sect_bytes(m.caps), 8 * idx));
                        }
                        out.push(c.0);
                    },
                    Err(_) => {},
                }
            },
            None => {
                proof {
                    assert(idx > u32::MAX);
                }
            },
        }
        k += 1;
    }
    out
}

/// The capability kind that stands for "needs none": an import of that kind is always allowed.
pub const FREE: u16 = 0;

/// An import is covered when the host knows it and it needs no capability, or the capability it
/// needs was declared.
pub open spec fn covered(declared: Seq<u16>, module: Seq<char>, name: Seq<char>) -> bool {
    match capability_of(module, name) {
        Some(kind) => kind == FREE || declared.contains(kind),
        None => false,
    }
}

/// An import whose required capability is the free kind is allowed even when the segment
/// declares no capabilities at all.
pub proof fn free_imports_need_no_declaration(declared: Seq<u16>, module: Seq<char>, name: Seq<char>)
    requires
        capability_of(module, name) == Some(FREE),
    ensures
        covered(declared, module, name),
{
}

/// What a refusal says the refused import needed.
pub open spec fn need_name(module: Seq<char>, name: Seq<char>) -> Seq<char> {
    match capability_of(module, name) {
        Some(kind) => cap_kind::name_spec(kind),
        None => "unknown"@,
    }
}

/// The import check: every import must need a capability the segment declared, and the first that
/// does not is refused by name, before anything is instantiated.
pub fn check_imports(declared: &Vec<u16>, imports: &Vec<(String, String)>) -> (r: Result<(), RunError>)
    ensures
        r is Ok <==> forall|k: int|
            0 <= k < imports@.len() ==> #[trigger] covered(declared@, imports@[k].0@, imports@[k].1@),
        r matches Err(e) ==> exists|k: int|
            0 <= k < imports@.len() && !covered(declared@, imports@[k].0@, imports@[k].1@) && (forall|j: int|
                0 <= j < k ==> #[trigger] covered(declared@, imports@[j].0@, imports@[j].1@)) && (
            e matches RunError::UndeclaredImport { module, name, needs } && module@ == imports@[k].0@
                && name@ == imports@[k].1@ && needs@ == need_name(imports@[k].0@, imports@[k].1@)),
{
    let mut k: usize = 0;
    while k < imports.len()
        invariant
            0 <= k <= imports@.len(),
            forall|j: int|
                0 <= j < k ==> #[trigger] covered(declared@, imports@[j].0@, imports@[j].1@),
        decreases imports@.len() - k,
    {
        let (module, name) = (&imports[k].0, &imports[k].1);
        let needs = required_capability(module.as_str(), name.as_str());
        let ok = match needs {
            Some(kind) => kind == FREE || contains_kind(declared, kind),
            None => false,
        };
        if !ok {
            proof {
                assert(!covered(declared@, imports@[k as int].0@, imports@[k as int].1@));
            }
            let label = match needs {
                Some(kind) => cap_kind::name(kind),
                None => "unknown",
            };
            return Err(
                RunError::UndeclaredImport {
                    module: module.clone(),
                    name: name.clone(),
                    needs: label,
                },
            );
        }
        k += 1;
    }
    Ok(())
}

fn contains_kind(declared: &Vec<u16>, kind: u16) -> (r: bool)
    ensures
        r == declared@.contains(kind),
{
    let mut i: usize = 0;
    while i < declared.len()
        invariant
            0 <= i <= declared@.len(),
            forall|j: int| 0 <= j < i ==> declared@[j] != kind,
        decreases declared@.len() - i,
    {
        if declared[i] == kind {
            return true;
        }
        i += 1;
    }
    false
}

/// The fuel a segment gets: its CPU budget, at least one millisecond, times the policy's rate,
/// saturating.
pub fn fuel_budget(cpu_ms: u32, fuel_per_ms: u64) -> (r: u64)
    ensures
        r == (if cpu_ms == 0 { 1int } else { cpu_ms as int }) * fuel_per_ms <= u64::MAX ==> r == (if cpu_ms
            == 0 {
            1int
        } else {
            cpu_ms as int
        }) * fuel_per_ms,
        (if cpu_ms == 0 { 1int } else { cpu_ms as int }) * fuel_per_ms > u64::MAX ==> r == u64::MAX,
{
    let ms: u64 = if cpu_ms == 0 { 1 } else { cpu_ms as u64 };
    match ms.checked_mul(fuel_per_ms) {
        Some(v) => v,
        None => u64::MAX,
    }
}

/// The memory a segment may grow to, in bytes: its budget, at least one KiB, saturating.
pub fn memory_budget(mem_kib: u32) -> (r: usize)
    ensures
        (if mem_kib == 0 { 1int } else { mem_kib as int }) * 1024 <= usize::MAX ==> r == (if mem_kib
            == 0 {
            1int
        } else {
            mem_kib as int
        }) * 1024,
        (if mem_kib == 0 { 1int } else { mem_kib as int }) * 1024 > usize::MAX ==> r == usize::MAX,
{
    let kib: usize = if mem_kib == 0 { 1 } else { mem_kib as usize };
    match kib.checked_mul(1024) {
        Some(v) => v,
        None => usize::MAX,
    }
}

/// The fuel a run consumed, given the budget and what was left.
pub fn fuel_used(budget: u64, left: u64) -> (r: u64)
    ensures
        r == (if left <= budget { budget - left } else { 0 }),
{
    budget.saturating_sub(left)
}

/// The names of the capabilities a run was granted, in declaration order.
pub fn granted(declared: &Vec<u16>) -> (r: Vec<&'static str>)
    ensures
        r@.len() == declared@.len(),
        forall|i: int| 0 <= i < r@.len() ==> (#[trigger] r@[i])@ == cap_kind::name_spec(declared@[i]),
{
    let mut out: Vec<&'static str> = Vec::new();
    let mut i: usize = 0;
    while i < declared.len()
        invariant
            0 <= i <= declared@.len(),
            out@.len() == i,
            forall|j: int| 0 <= j < i ==> (#[trigger] out@[j])@ == cap_kind::name_spec(declared@[j]),
        decreases declared@.len() - i,
    {
        out.push(cap_kind::name(declared[i]));
        i += 1;
    }
    out
}

/// A wasm32 guest address, which arrives as an `i32`: its bits reinterpreted, never
/// sign-extended.
pub fn guest_ptr(v: i32) -> (r: usize)
    ensures
        r == (if v >= 0 {
            v as int
        } else {
            v + 0x1_0000_0000
        }),
{
    if v >= 0 {
        v as usize
    } else {
        let u: u32 = (v as i64 + 0x1_0000_0000i64) as u32;
        u as usize
    }
}

/// One iovec entry as wasm32 lays it out: a little-endian 32-bit address, then a 32-bit length.
pub fn iovec(hdr: &[u8; 8]) -> (r: (u32, u32))
    ensures
        r.0 as int == le32(hdr@, 0),
        r.1 as int == le32(hdr@, 4),
{
    (
        hdr[0] as u32 + (hdr[1] as u32) * 256 + (hdr[2] as u32) * 65536 + (hdr[3] as u32) * 16777216,
        hdr[4] as u32 + (hdr[5] as u32) * 256 + (hdr[6] as u32) * 65536 + (hdr[7] as u32) * 16777216,
    )
}

/// The descriptors a segment's writes are captured from: standard output and standard error.
/// A write to any other is reported unsupported, so a segment cannot believe it wrote a file.
pub fn captured(fd: i32) -> (r: bool)
    ensures
        r == (fd == 1 || fd == 2),
{
    fd == 1 || fd == 2
}

/// The imports a declared capability links to a host that answers every call as unsupported:
/// the segment is authorized, and this host has nothing behind the door yet.
pub open spec fn stub_names(kind: u16) -> Seq<Seq<char>> {
    if kind == cap_kind::STDIO {
        seq!["fd_read"@, "fd_close"@, "fd_fdstat_get"@]
    } else if kind == cap_kind::FS_READ {
        seq!["path_open"@, "fd_prestat_get"@, "fd_prestat_dir_name"@, "fd_readdir"@]
    } else if kind == cap_kind::FS_WRITE {
        seq!["path_create_directory"@, "path_unlink_file"@, "fd_allocate"@]
    } else if kind == cap_kind::ENV {
        seq!["environ_get"@, "environ_sizes_get"@, "args_get"@, "args_sizes_get"@]
    } else if kind == cap_kind::CLOCK {
        seq!["clock_time_get"@, "clock_res_get"@]
    } else if kind == cap_kind::RAND {
        seq!["random_get"@]
    } else {
        Seq::empty()
    }
}

/// The WASI imports capability `kind` links to unsupported-answering hosts, in order.
pub fn stub_hosts(kind: u16) -> (r: Vec<&'static str>)
    ensures
        r@.map_values(|s: &'static str| s@) == stub_names(kind),
{
    let r: Vec<&'static str> = if kind == cap_kind::STDIO {
        vec!["fd_read", "fd_close", "fd_fdstat_get"]
    } else if kind == cap_kind::FS_READ {
        vec!["path_open", "fd_prestat_get", "fd_prestat_dir_name", "fd_readdir"]
    } else if kind == cap_kind::FS_WRITE {
        vec!["path_create_directory", "path_unlink_file", "fd_allocate"]
    } else if kind == cap_kind::ENV {
        vec!["environ_get", "environ_sizes_get", "args_get", "args_sizes_get"]
    } else if kind == cap_kind::CLOCK {
        vec!["clock_time_get", "clock_res_get"]
    } else if kind == cap_kind::RAND {
        vec!["random_get"]
    } else {
        Vec::new()
    };
    assert(r@.map_values(|s: &'static str| s@) =~= stub_names(kind));
    r
}

/// Each import given an unsupported-answering host falls under the capability that links it.
proof fn lemma_stub_capabilities()
    ensures
        capability_of("wasi_snapshot_preview1"@, "fd_read"@) == Some(cap_kind::STDIO),
        capability_of("wasi_snapshot_preview1"@, "fd_close"@) == Some(cap_kind::STDIO),
        capability_of("wasi_snapshot_preview1"@, "fd_fdstat_get"@) == Some(cap_kind::STDIO),
        capability_of("wasi_snapshot_preview1"@, "path_open"@) == Some(cap_kind::FS_READ),
        capability_of("wasi_snapshot_preview1"@, "fd_prestat_get"@) == Some(cap_kind::FS_READ),
        capability_of("wasi_snapshot_preview1"@, "fd_prestat_dir_name"@) == Some(cap_kind::FS_READ),
        capability_of("wasi_snapshot_preview1"@, "fd_readdir"@) == Some(cap_kind::FS_READ),
        capability_of("wasi_snapshot_preview1"@, "path_create_directory"@) == Some(cap_kind::FS_WRITE),
        capability_of("wasi_snapshot_preview1"@, "path_unlink_file"@) == Some(cap_kind::FS_WRITE),
        capability_of("wasi_snapshot_preview1"@, "fd_allocate"@) == Some(cap_kind::FS_WRITE),
        capability_of("wasi_snapshot_preview1"@, "environ_get"@) == Some(cap_kind::ENV),
        capability_of("wasi_snapshot_preview1"@, "environ_sizes_get"@) == Some(cap_kind::ENV),
        capability_of("wasi_snapshot_preview1"@, "args_get"@) == Some(cap_kind::ENV),
        capability_of("wasi_snapshot_preview1"@, "args_sizes_get"@) == Some(cap_kind::ENV),
        capability_of("wasi_snapshot_preview1"@, "clock_time_get"@) == Some(cap_kind::CLOCK),
        capability_of("wasi_snapshot_preview1"@, "clock_res_get"@) == Some(cap_kind::CLOCK),
        capability_of("wasi_snapshot_preview1"@, "random_get"@) == Some(cap_kind::RAND),
{
    reveal_strlit("wasi_snapshot_preview1");
    reveal_strlit("proc_exit");
    reveal_strlit("fd_write");
    reveal_strlit("fd_read");
    reveal_strlit("fd_close");
    reveal_strlit("fd_fdstat_get");
    reveal_strlit("path_open");
    reveal_strlit("fd_prestat_get");
    reveal_strlit("fd_prestat_dir_name");
    reveal_strlit("fd_readdir");
    reveal_strlit("path_create_directory");
    reveal_strlit("path_unlink_file");
    reveal_strlit("fd_allocate");
    reveal_strlit("environ_get");
    reveal_strlit("environ_sizes_get");
    reveal_strlit("args_get");
    reveal_strlit("args_sizes_get");
    reveal_strlit("clock_time_get");
    reveal_strlit("clock_res_get");
    reveal_strlit("random_get");
    assert("fd_read"@[0] != "proc_exit"@[0]);
    assert("fd_close"@[0] != "proc_exit"@[0]);
    assert("fd_fdstat_get"@[0] != "proc_exit"@[0]);
    assert("path_open"@[1] != "proc_exit"@[1]);
    assert("path_open"@[0] != "fd_write"@[0]);
    assert("path_open"@[0] != "fd_read"@[0]);
    assert("path_open"@[0] != "fd_close"@[0]);
    assert("path_open"@[0] != "fd_fdstat_get"@[0]);
    assert("fd_prestat_get"@[0] != "proc_exit"@[0]);
    assert("fd_prestat_get"@[3] != "fd_write"@[3]);
    assert("fd_prestat_get"@[3] != "fd_read"@[3]);
    assert("fd_prestat_get"@[3] != "fd_close"@[3]);
    assert("fd_prestat_get"@[3] != "fd_fdstat_get"@[3]);
    assert("fd_prestat_dir_name"@[0] != "proc_exit"@[0]);
    assert("fd_prestat_dir_name"@[3] != "fd_write"@[3]);
    assert("fd_prestat_dir_name"@[3] != "fd_read"@[3]);
    assert("fd_prestat_dir_name"@[3] != "fd_close"@[3]);
    assert("fd_prestat_dir_name"@[3] != "fd_fdstat_get"@[3]);
    assert("fd_readdir"@[0] != "proc_exit"@[0]);
    assert("fd_readdir"@[3] != "fd_write"@[3]);
    assert("fd_readdir"@.len() != "fd_read"@.len());
    assert("fd_readdir"@[3] != "fd_close"@[3]);
    assert("fd_readdir"@[3] != "fd_fdstat_get"@[3]);
    assert("path_create_directory"@[1] != "proc_exit"@[1]);
    assert("path_create_directory"@[0] != "fd_write"@[0]);
    assert("path_create_directory"@[0] != "fd_read"@[0]);
    assert("path_create_directory"@[0] != "fd_close"@[0]);
    assert("path_create_directory"@[0] != "fd_fdstat_get"@[0]);
    assert("path_create_directory"@[5] != "path_open"@[5]);
    assert("path_create_directory"@[0] != "fd_prestat_get"@[0]);
    assert("path_create_directory"@[0] != "fd_prestat_dir_name"@[0]);
    assert("path_create_directory"@[0] != "fd_readdir"@[0]);
    assert("path_unlink_file"@[1] != "proc_exit"@[1]);
    assert("path_unlink_file"@[0] != "fd_write"@[0]);
    assert("path_unlink_file"@[0] != "fd_read"@[0]);
    assert("path_unlink_file"@[0] != "fd_close"@[0]);
    assert("path_unlink_file"@[0] != "fd_fdstat_get"@[0]);
    assert("path_unlink_file"@[5] != "path_open"@[5]);
    assert("path_unlink_file"@[0] != "fd_prestat_get"@[0]);
    assert("path_unlink_file"@[0] != "fd_prestat_dir_name"@[0]);
    assert("path_unlink_file"@[0] != "fd_readdir"@[0]);
    assert("fd_allocate"@[0] != "proc_exit"@[0]);
    assert("fd_allocate"@[3] != "fd_write"@[3]);
    assert("fd_allocate"@[3] != "fd_read"@[3]);
    assert("fd_allocate"@[3] != "fd_close"@[3]);
    assert("fd_allocate"@[3] != "fd_fdstat_get"@[3]);
    assert("fd_allocate"@[0] != "path_open"@[0]);
    assert("fd_allocate"@[3] != "fd_prestat_get"@[3]);
    assert("fd_allocate"@[3] != "fd_prestat_dir_name"@[3]);
    assert("fd_allocate"@[3] != "fd_readdir"@[3]);
    assert("environ_get"@[0] != "proc_exit"@[0]);
    assert("environ_get"@[0] != "fd_write"@[0]);
    assert("environ_get"@[0] != "fd_read"@[0]);
    assert("environ_get"@[0] != "fd_close"@[0]);
    assert("environ_get"@[0] != "fd_fdstat_get"@[0]);
    assert("environ_get"@[0] != "path_open"@[0]);
    assert("environ_get"@[0] != "fd_prestat_get"@[0]);
    assert("environ_get"@[0] != "fd_prestat_dir_name"@[0]);
    assert("environ_get"@[0] != "fd_readdir"@[0]);
    assert("environ_get"@[0] != "path_create_directory"@[0]);
    assert("environ_get"@[0] != "path_unlink_file"@[0]);
    assert("environ_get"@[0] != "fd_allocate"@[0]);
    assert("environ_sizes_get"@[0] != "proc_exit"@[0]);
    assert("environ_sizes_get"@[0] != "fd_write"@[0]);
    assert("environ_sizes_get"@[0] != "fd_read"@[0]);
    assert("environ_sizes_get"@[0] != "fd_close"@[0]);
    assert("environ_sizes_get"@[0] != "fd_fdstat_get"@[0]);
    assert("environ_sizes_get"@[0] != "path_open"@[0]);
    assert("environ_sizes_get"@[0] != "fd_prestat_get"@[0]);
    assert("environ_sizes_get"@[0] != "fd_prestat_dir_name"@[0]);
    assert("environ_sizes_get"@[0] != "fd_readdir"@[0]);
    assert("environ_sizes_get"@[0] != "path_create_directory"@[0]);
    assert("environ_sizes_get"@[0] != "path_unlink_file"@[0]);
    assert("environ_sizes_get"@[0] != "fd_allocate"@[0]);
    assert("args_get"@[0] != "proc_exit"@[0]);
    assert("args_get"@[0] != "fd_write"@[0]);
    assert("args_get"@[0] != "fd_read"@[0]);
    assert("args_get"@[0] != "fd_close"@[0]);
    assert("args_get"@[0] != "fd_fdstat_get"@[0]);
    assert("args_get"@[0] != "path_open"@[0]);
    assert("args_get"@[0] != "fd_prestat_get"@[0]);
    assert("args_get"@[0] != "fd_prestat_dir_name"@[0]);
    assert("args_get"@[0] != "fd_readdir"@[0]);
    assert("args_get"@[0] != "path_create_directory"@[0]);
    assert("args_get"@[0] != "path_unlink_file"@[0]);
    assert("args_get"@[0] != "fd_allocate"@[0]);
    assert("args_sizes_get"@[0] != "proc_exit"@[0]);
    assert("args_sizes_get"@[0] != "fd_write"@[0]);
    assert("args_sizes_get"@[0] != "fd_read"@[0]);
    assert("args_sizes_get"@[0] != "fd_close"@[0]);
    assert("args_sizes_get"@[0] != "fd_fdstat_get"@[0]);
    assert("args_sizes_get"@[0] != "path_open"@[0]);
    assert("args_sizes_get"@[0] != "fd_prestat_get"@[0]);
    assert("args_sizes_get"@[0] != "fd_prestat_dir_name"@[0]);
    assert("args_sizes_get"@[0] != "fd_readdir"@[0]);
    assert("args_sizes_get"@[0] != "path_create_directory"@[0]);
    assert("args_sizes_get"@[0] != "path_unlink_file"@[0]);
    assert("args_sizes_get"@[0] != "fd_allocate"@[0]);
    assert("clock_time_get"@[0] != "proc_exit"@[0]);
    assert("clock_time_get"@[0] != "fd_write"@[0]);
    assert("clock_time_get"@[0] != "fd_read"@[0]);
    assert("clock_time_get"@[0] != "fd_close"@[0]);
    assert("clock_time_get"@[0] != "fd_fdstat_get"@[0]);
    assert("clock_time_get"@[0] != "path_open"@[0]);
    assert("clock_time_get"@[0] != "fd_prestat_get"@[0]);
    assert("clock_time_get"@[0] != "fd_prestat_dir_name"@[0]);
    assert("clock_time_get"@[0] != "fd_readdir"@[0]);
    assert("clock_time_get"@[0] != "path_create_directory"@[0]);
    assert("clock_time_get"@[0] != "path_unlink_file"@[0]);
    assert("clock_time_get"@[0] != "fd_allocate"@[0]);
    assert("clock_time_get"@[0] != "environ_get"@[0]);
    assert("clock_time_get"@[0] != "environ_sizes_get"@[0]);
    assert("clock_time_get"@[0] != "args_get"@[0]);
    assert("clock_time_get"@[0] != "args_sizes_get"@[0]);
    assert("clock_res_get"@[0] != "proc_exit"@[0]);
    assert("clock_res_get"@[0] != "fd_write"@[0]);
    assert("clock_res_get"@[0] != "fd_read"@[0]);
    assert("clock_res_get"@[0] != "fd_close"@[0]);
    assert("clock_res_get"@[0] != "fd_fdstat_get"@[0]);
    assert("clock_res_get"@[0] != "path_open"@[0]);
    assert("clock_res_get"@[0] != "fd_prestat_get"@[0]);
    assert("clock_res_get"@[0] != "fd_prestat_dir_name"@[0]);
    assert("clock_res_get"@[0] != "fd_readdir"@[0]);
    assert("clock_res_get"@[0] != "path_create_directory"@[0]);
    assert("clock_res_get"@[0] != "path_unlink_file"@[0]);
    assert("clock_res_get"@[0] != "fd_allocate"@[0]);
    assert("clock_res_get"@[0] != "environ_get"@[0]);
    assert("clock_res_get"@[0] != "environ_sizes_get"@[0]);
    assert("clock_res_get"@[0] != "args_get"@[0]);
    assert("clock_res_get"@[0] != "args_sizes_get"@[0]);
    assert("random_get"@[0] != "proc_exit"@[0]);
    assert("random_get"@[0] != "fd_write"@[0]);
    assert("random_get"@[0] != "fd_read"@[0]);
    assert("random_get"@[0] != "fd_close"@[0]);
    assert("random_get"@[0] != "fd_fdstat_get"@[0]);
    assert("random_get"@[0] != "path_open"@[0]);
    assert("random_get"@[0] != "fd_prestat_get"@[0]);
    assert("random_get"@[0] != "fd_prestat_dir_name"@[0]);
    assert("random_get"@[0] != "fd_readdir"@[0]);
    assert("random_get"@[0] != "path_create_directory"@[0]);
    assert("random_get"@[0] != "path_unlink_file"@[0]);
    assert("random_get"@[0] != "fd_allocate"@[0]);
    assert("random_get"@[0] != "environ_get"@[0]);
    assert("random_get"@[0] != "environ_sizes_get"@[0]);
    assert("random_get"@[0] != "args_get"@[0]);
    assert("random_get"@[0] != "args_sizes_get"@[0]);
    assert("random_get"@[0] != "clock_time_get"@[0]);
    assert("random_get"@[0] != "clock_res_get"@[0]);
}

/// Every import that a declared capability links to an unsupported-answering host is one that
/// requires exactly that capability: the host links nothing past what the import check allowed.
pub proof fn stub_hosts_need_their_capability(kind: u16, i: int)
    requires
        0 <= i < stub_names(kind).len(),
    ensures
        capability_of("wasi_snapshot_preview1"@, stub_names(kind)[i]) == Some(kind),
{
    lemma_stub_capabilities();
}

} // verus!
