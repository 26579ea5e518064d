//! The pieces of a small, bounded parser fuzzer: a reproducible generator, the mutations it
//! applies to seed containers, and the walk an accepted input gets.
//!
//! The bound that matters is on input size: the validator allocates in proportion to lengths the
//! file declares, so capping the file caps the allocation. Every mutation here keeps an input
//! within its cap. The contract under test, that the reader returns for any bytes at all and
//! that an accepted file can be walked, is what verifying `exercise` proves.

use vstd::prelude::*;

use crate::graph::{Abi, EdgeKind, Kind, Tier};
use crate::hashing::{blake3_digest, blake3_hash};
use crate::raw::le32;
use crate::sig::TrustPolicy;
use crate::skill::Skill;
use crate::text::lemma_utf8_len;
use crate::writer::{node_within_limits, Builder, Cap, SegmentSpec};

verus! {

/// One xorshift step of the generator's state.
pub open spec fn shift_state(x: u64) -> u64 {
    let a = x ^ ((x << 13u64) as u64);
    let b = a ^ (a >> 7u64);
    b ^ ((b << 17u64) as u64)
}

/// A xorshift generator: the same seed replays the same sequence.
#[derive(Debug, Clone, Copy)]
pub struct Rng {
    pub state: u64,
}

/// Boundary values for aligned overwrites: offsets and lengths are where a parser breaks, and
/// random bytes rarely land on one.
pub const INTERESTING: [u32; 10] = [
    0,
    1,
    2,
    7,
    8,
    0x7FFF_FFFF,
    0x8000_0000,
    0xFFFF_FFF0,
    0xFFFF_FFFE,
    0xFFFF_FFFF,
];

impl Rng {
    /// Advances the state and returns it scrambled by a multiplication.
    pub fn next(&mut self) -> (r: u64)
        ensures
            final(self).state == shift_state(old(self).state),
            r == shift_state(old(self).state).wrapping_mul(0x2545_F491_4F6C_DD1D),
    {
        let mut x = self.state;
        x = x ^ (x << 13u64);
        x = x ^ (x >> 7u64);
        x = x ^ (x << 17u64);
        self.state = x;
        x.wrapping_mul(0x2545_F491_4F6C_DD1D)
    }

    /// A value below `n`, or 0 when `n` is 0.
    pub fn below(&mut self, n: usize) -> (r: usize)
        ensures
            n == 0 ==> r == 0,
            n > 0 ==> r < n,
            (r, final(self).state) == below_spec(old(self).state, n),
            final(self).state == if n == 0 {
                old(self).state
            } else {
                shift_state(old(self).state)
            },
    {
        if n == 0 {
            return 0;
        }
        let v = self.next();
        (v % (n as u64)) as usize
    }
}

/// What the generator returns from state `s`.
pub open spec fn next_value(s: u64) -> u64 {
    shift_state(s).wrapping_mul(0x2545_F491_4F6C_DD1D)
}

/// What a draw below `n` gives from state `s`, and the state after it.
pub open spec fn below_spec(s: u64, n: usize) -> (usize, u64) {
    if n == 0 {
        (0, s)
    } else {
        ((next_value(s) % (n as u64)) as usize, shift_state(s))
    }
}

/// `v` with `n` random bytes appended, drawn from state `s`, and the state after them.
pub open spec fn tail_spec(v: Seq<u8>, s: u64, n: nat) -> (Seq<u8>, u64)
    decreases n,
{
    if n == 0 {
        (v, s)
    } else {
        tail_spec(v.push((next_value(s) % 256) as u8), shift_state(s), (n - 1) as nat)
    }
}

/// One mutation round on a non-empty `v` from state `s`: a bit flip, a byte write, an aligned
/// boundary value, a truncation, a short random tail kept within `max_bytes`, or a swap.
pub open spec fn round_spec(v: Seq<u8>, s: u64, max_bytes: usize) -> (Seq<u8>, u64) {
    let len = v.len() as usize;
    let (op, s1) = below_spec(s, 6);
    if op == 0 {
        let (i, s2) = below_spec(s1, len);
        let (bit, s3) = below_spec(s2, 8);
        (v.update(i as int, v[i as int] ^ (1u8 << (bit as u8))), s3)
    } else if op == 1 {
        let (i, s2) = below_spec(s1, len);
        (v.update(i as int, (next_value(s2) % 256) as u8), shift_state(s2))
    } else if op == 2 {
        let (q, s2) = below_spec(s1, (len / 4) as usize);
        let i = q * 4;
        let (k, s3) = below_spec(s2, 10);
        let val = INTERESTING[k as int];
        if i + 4 <= len {
            (
                v.update(i, (val % 256) as u8).update(i + 1, ((val / 256) % 256) as u8).update(
                    i + 2,
                    ((val / 65536) % 256) as u8,
                ).update(i + 3, (val / 16777216) as u8),
                s3,
            )
        } else {
            (v, s3)
        }
    } else if op == 3 {
        let (cut, s2) = below_spec(s1, len);
        (v.subrange(0, cut as int), s2)
    } else if op == 4 {
        let (n, s2) = below_spec(s1, 64);
        if n <= max_bytes && len <= max_bytes - n {
            tail_spec(v, s2, n as nat)
        } else {
            (v, s2)
        }
    } else {
        let (a, s2) = below_spec(s1, len);
        let (b, s3) = below_spec(s2, len);
        (v.update(a as int, v[b as int]).update(b as int, v[a as int]), s3)
    }
}

/// Up to `k` rounds from state `s`, stopping early once `v` is empty.
pub open spec fn rounds_spec(v: Seq<u8>, s: u64, max_bytes: usize, k: nat) -> (Seq<u8>, u64)
    decreases k,
{
    if k == 0 || v.len() == 0 {
        (v, s)
    } else {
        let (v2, s2) = round_spec(v, s, max_bytes);
        rounds_spec(v2, s2, max_bytes, (k - 1) as nat)
    }
}

/// What `mutate` gives from state `s`: one to four rounds, the count drawn first, then the
/// result cut to `max_bytes`; and the state after.
pub open spec fn mutate_spec(s: u64, base: Seq<u8>, max_bytes: usize) -> (Seq<u8>, u64) {
    let (r, s1) = below_spec(s, 4);
    let (v, s2) = rounds_spec(base, s1, max_bytes, (r + 1) as nat);
    (
        if v.len() > max_bytes {
            v.subrange(0, max_bytes as int)
        } else {
            v
        },
        s2,
    )
}

/// Mutates a copy of `base` in up to four rounds of bit flips, byte writes, aligned boundary
/// values, truncations, short random tails and swaps, and never returns more than `max_bytes`.
#[verifier::spinoff_prover]
#[verifier::rlimit(30)]
pub fn mutate(rng: &mut Rng, base: &[u8], max_bytes: usize) -> (v: Vec<u8>)
    ensures
        v@.len() <= max_bytes,
        (v@, final(rng).state) == mutate_spec(old(rng).state, base@, max_bytes),
{
    let mut v: Vec<u8> = crate::text::to_vec(base);
    let ghost s0 = rng.state;
    let rounds = 1 + rng.below(4);
    let ghost goal = rounds_spec(base@, rng.state, max_bytes, rounds as nat);
    let mut round: usize = 0;
    while round < rounds
        invariant
            round <= rounds,
            rounds_spec(v@, rng.state, max_bytes, (rounds - round) as nat) == goal,
        decreases rounds - round,
    {
        if v.len() == 0 {
            break;
        }
        let len = v.len();
        let ghost v0 = v@;
        let ghost st = rng.state;
        match rng.below(6) {
            0 => {
                let i = rng.below(len);
                let bit = rng.below(8) as u8;
                let mask: u8 = 1u8 << bit;
                v.set(i, v[i] ^ mask);
            },
            1 => {
                let i = rng.below(len);
                let b = (rng.next() % 256) as u8;
                v.set(i, b);
            },
            2 => {
                let i = rng.below(len / 4) * 4;
                let val = INTERESTING[rng.below(10)];
                if i + 4 <= len {
                    v.set(i, (val % 256) as u8);
                    v.set(i + 1, ((val / 256) % 256) as u8);
                    v.set(i + 2, ((val / 65536) % 256) as u8);
                    v.set(i + 3, (val / 16777216) as u8);
                }
            },
            3 => {
                let cut = rng.below(len);
                v.truncate(cut);
                assert(v@ =~= v0.subrange(0, cut as int));
            },
            4 => {
                let n = rng.below(64);
                if n <= max_bytes && len <= max_bytes - n {
                    let ghost vt = v@;
                    let ghost sn = rng.state;
                    let mut k: usize = 0;
                    while k < n
                        invariant
                            k <= n,
                            v@.len() == len + k,
                            tail_spec(v@, rng.state, (n - k) as nat) == tail_spec(vt, sn, n as nat),
                        decreases n - k,
                    {
                        let b = (rng.next() % 256) as u8;
                        v.push(b);
                        k += 1;
                    }
                }
            },
            _ => {
                let a = rng.below(len);
                let b = rng.below(len);
                let x = v[a];
                let y = v[b];
                v.set(a, y);
                v.set(b, x);
            },
        }
        assert((v@, rng.state) == round_spec(v0, st, max_bytes));
        round += 1;
    }
    let ghost vr = v@;
    v.truncate(max_bytes);
    proof {
        if vr.len() > max_bytes {
            assert(v@ =~= vr.subrange(0, max_bytes as int));
        }
    }
    v
}

/// Rewrites the manifest root in the header to match whatever bytes the header's manifest range
/// now covers, so a mutation reaches the checks past the digest. Leaves the input alone when
/// that range does not lie inside it.
pub fn recommit(v: &mut Vec<u8>)
    ensures
        final(v)@.len() == old(v)@.len(),
        ({
            let off = le32(old(v)@, 0x14);
            let len = le32(old(v)@, 0x18);
            if old(v)@.len() >= 64 && off + len <= old(v)@.len() {
                &&& final(v)@.subrange(0x20, 0x40) == blake3_digest(old(v)@.subrange(off, off + len))
                &&& final(v)@.subrange(0, 0x20) == old(v)@.subrange(0, 0x20)
                &&& final(v)@.subrange(0x40, old(v)@.len() as int) == old(v)@.subrange(
                    0x40,
                    old(v)@.len() as int,
                )
            } else {
                final(v)@ == old(v)@
            }
        }),
{
    if v.len() < 64 {
        return;
    }
    let off = match crate::raw::u32_at(v.as_slice(), 0x14) {
        Ok(x) => x as usize,
        Err(_) => {
            return;
        },
    };
    let len = match crate::raw::u32_at(v.as_slice(), 0x18) {
        Ok(x) => x as usize,
        Err(_) => {
            return;
        },
    };
    let root = match crate::raw::bytes_at(v.as_slice(), off, len) {
        Ok(range) => blake3_hash(range),
        Err(_) => {
            return;
        },
    };
    let ghost before = v@;
    let mut k: usize = 0;
    while k < 32
        invariant
            0 <= k <= 32,
            v@.len() == before.len(),
            before.len() >= 64,
            forall|j: int| 0 <= j < k ==> v@[0x20 + j] == root@[j],
            forall|j: int| 0 <= j < v@.len() && !(0x20 <= j < 0x20 + k) ==> v@[j] == before[j],
        decreases 32 - k,
    {
        v.set(0x20 + k, root[k]);
        k += 1;
    }
    proof {
        assert(v@.subrange(0x20, 0x40) =~= root@);
        assert(v@.subrange(0, 0x20) =~= before.subrange(0, 0x20));
        assert(v@.subrange(0x40, before.len() as int) =~= before.subrange(0x40, before.len() as int));
    }
}

/// The walk an accepted input gets: every read the reader offers, on every node, segment and
/// edge. Its contract is that it returns, whatever the bytes: it has no precondition, and every
/// call in it is to a function that does not panic.
pub fn exercise(bytes: &[u8]) -> (accepted: bool)
    ensures
        crate::header::header_err(bytes@) is Some ==> !accepted,
{
    let s = match Skill::open(bytes, &TrustPolicy::permissive()) {
        Ok(s) => s,
        Err(_) => {
            return false;
        },
    };
    let _ = s.name();
    let _ = s.description();
    let _ = s.verify_all();
    let n = s.nodes.len() as u32;
    let mut i: u32 = 0;
    while i < n
        invariant
            s.wf(),
            n == s.nodes@.len(),
        decreases n - i,
    {
        let _ = s.payload(i);
        let _ = s.verified_payload(i);
        let _ = s.children_of(i);
        i += 1;
    }
    let segs = s.manifest.segment_count();
    let mut k: u32 = 0;
    while k < segs
        invariant
            s.wf(),
        decreases segs - k,
    {
        let _ = s.manifest.segment(k);
        k += 1;
    }
    let edges = s.manifest.edge_count();
    let mut e: u32 = 0;
    while e < edges
        invariant
            s.wf(),
        decreases edges - e,
    {
        let _ = s.manifest.edge(e);
        e += 1;
    }
    true
}

/// Seed containers to mutate: a minimal skill, and one with every kind of node and edge.
pub fn seeds() -> (out: Vec<Vec<u8>>)
    ensures
        out@.len() == 2,
        forall|i: int| 0 <= i < out@.len() ==> crate::writer::file_front_ok(#[trigger] out@[i]@),
{
    let mut out: Vec<Vec<u8>> = Vec::new();
    let mut b = Builder::new("demo", "Use when demonstrating the skill format.");
    let root = b.root(Kind::Prose, Tier::Routing, 1, Vec::new());
    let p1 = crate::text::to_vec("Do the thing.\n".as_bytes());
    b.child(root, Kind::Prose, Tier::Body, 1, None, p1, 1);
    proof {
        reveal_strlit("demo");
        reveal_strlit("Use when demonstrating the skill format.");
        reveal_strlit("Do the thing.\n");
        lemma_utf8_len("demo"@);
        lemma_utf8_len("Use when demonstrating the skill format."@);
        lemma_utf8_len("Do the thing.\n"@);
        assert(b.node(0).parent is None);
        assert(b.node(1).parent == Some(0nat));
        assert(b.one_root());
        assert(b.tiers_cool());
        assert(b.entries_top());
        assert(b.buildable());
        assert(node_within_limits(b.node(0), b.cap_args(0)));
        assert(node_within_limits(b.node(1), b.cap_args(1)));
        assert(b.within_limits());
    }
    match b.build() {
        Ok(bytes) => out.push(bytes),
        Err(_) => {
            assert(false);
        },
    }
    let mut b = Builder::new("rich", "Every kind and edge.").version("1.0.0");
    let root = b.root(Kind::Prose, Tier::Routing, 1, Vec::new());
    let body = b.child(root, Kind::Prose, Tier::Body, 1, Some("body"), crate::text::to_vec("Overview\n".as_bytes()), 1);
    b.child(root, Kind::Applicability, Tier::Routing, 13, Some("when"), crate::text::to_vec("when X".as_bytes()), 2);
    let pre = b.child(body, Kind::Contract, Tier::Body, 10, Some("pre"), crate::text::to_vec("needs".as_bytes()), 2);
    let s1 = b.child(body, Kind::Prose, Tier::Body, 3, Some("s1"), crate::text::to_vec("first".as_bytes()), 3);
    let s2 = b.child(body, Kind::Prose, Tier::Body, 3, Some("s2"), crate::text::to_vec("second".as_bytes()), 3);
    let tool = b.child(body, Kind::Binding, Tier::Body, 14, Some("rg"), Vec::new(), 0);
    let doc = b.child(body, Kind::Resource, Tier::OnDemand, 9, Some("ref"), crate::text::to_vec("ref".as_bytes()), 0);
    let mut spec = SegmentSpec::inert(Abi::Sh);
    let cap = Cap { kind: 1, flags: 0, arg: "example.com".to_owned() };
    let mut caps: Vec<Cap> = Vec::new();
    caps.push(cap);
    spec.caps = caps;
    let ghost caps_view = spec.caps@;
    assert(caps_view.len() == 1 && caps_view[0].arg@ == "example.com"@);
    let seg = b.segment(body, Some("```sh"), crate::text::to_vec("echo hi".as_bytes()), spec, 0);
    assert(b.cap_args(8).len() == 1 && b.cap_args(8)[0] == "example.com"@);
    b.edge(s1, EdgeKind::Sequence, s2, 0, 0);
    b.edge(pre, EdgeKind::Guards, s1, 0, 0);
    b.edge(s1, EdgeKind::Needs, tool, 0, 0);
    b.edge(s2, EdgeKind::Needs, seg, 0, 0);
    b.edge(s2, EdgeKind::Alt, doc, 0, 0);
    b.edge(body, EdgeKind::Cites, doc, 0, 0);
    proof {
        reveal_strlit("rich");
        lemma_utf8_len("rich"@);
        reveal_strlit("Every kind and edge.");
        lemma_utf8_len("Every kind and edge."@);
        reveal_strlit("1.0.0");
        lemma_utf8_len("1.0.0"@);
        reveal_strlit("body");
        lemma_utf8_len("body"@);
        reveal_strlit("Overview\n");
        lemma_utf8_len("Overview\n"@);
        reveal_strlit("when");
        lemma_utf8_len("when"@);
        reveal_strlit("when X");
        lemma_utf8_len("when X"@);
        reveal_strlit("pre");
        lemma_utf8_len("pre"@);
        reveal_strlit("needs");
        lemma_utf8_len("needs"@);
        reveal_strlit("s1");
        lemma_utf8_len("s1"@);
        reveal_strlit("first");
        lemma_utf8_len("first"@);
        reveal_strlit("s2");
        lemma_utf8_len("s2"@);
        reveal_strlit("second");
        lemma_utf8_len("second"@);
        reveal_strlit("rg");
        lemma_utf8_len("rg"@);
        reveal_strlit("ref");
        lemma_utf8_len("ref"@);
        reveal_strlit("example.com");
        lemma_utf8_len("example.com"@);
        reveal_strlit("```sh");
        lemma_utf8_len("```sh"@);
        reveal_strlit("echo hi");
        lemma_utf8_len("echo hi"@);
        assert(b.one_root());
        assert(b.tiers_cool());
        assert(b.entries_top());
        assert(b.buildable());
        assert forall|i: int| 0 <= i < b.len() implies node_within_limits(#[trigger] b.node(i), b.cap_args(i)) by {
            assert(b.cap_args(8).len() == 1 && b.cap_args(8)[0] == "example.com"@);
        }
        assert(b.within_limits());
    }
    match b.build() {
        Ok(bytes) => out.push(bytes),
        Err(_) => {
            assert(false);
        },
    }
    out
}

} // verus!
