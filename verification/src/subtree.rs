//! The canonical subtree commitment: BLAKE3 over a domain-separated, length-prefixed encoding
//! of a node and its children's commitments, so that no two distinct graphs collide by
//! re-partitioning the same bytes.

use vstd::prelude::*;

use crate::graph::{kind_code, tier_code, Kind, Tier};
use crate::hashing::{blake3_digest, blake3_hash};
use crate::raw::push_all;

verus! {

/// `skill.v1.node\0`
pub open spec fn node_domain() -> Seq<u8> {
    seq![
        0x73u8, 0x6bu8, 0x69u8, 0x6cu8, 0x6cu8, 0x2eu8, 0x76u8, 0x31u8, 0x2eu8, 0x6eu8, 0x6fu8,
        0x64u8, 0x65u8, 0x00u8,
    ]
}

/// The little-endian bytes of `v` in `n` bytes.
pub open spec fn le_bytes(v: nat, n: nat) -> Seq<u8>
    decreases n,
{
    if n == 0 {
        Seq::empty()
    } else {
        seq![(v % 256) as u8] + le_bytes(v / 256, (n - 1) as nat)
    }
}

/// The message a subtree commitment hashes.
pub open spec fn subtree_message(
    kind: Kind,
    tier: Tier,
    must_understand: bool,
    depth: u8,
    role: u16,
    name: Seq<u8>,
    payload: Seq<u8>,
    child_count: nat,
    children: Seq<u8>,
) -> Seq<u8> {
    node_domain() + seq![kind_code(kind), tier_code(tier), if must_understand { 1u8 } else { 0u8 }, depth]
        + le_bytes(role as nat, 2) + le_bytes(name.len(), 8) + name + le_bytes(payload.len(), 8)
        + payload + le_bytes(child_count, 8) + children
}

/// Appends `v` as `n` little-endian bytes.
pub fn push_le(out: &mut Vec<u8>, v: u64, n: usize)
    requires
        n <= 8,
    ensures
        final(out)@ == old(out)@ + le_bytes(v as nat, n as nat),
    decreases n,
{
    if n == 0 {
        assert(le_bytes(v as nat, 0) =~= Seq::<u8>::empty());
        assert(out@ =~= out@ + Seq::<u8>::empty());
        return;
    }
    let ghost start = out@;
    out.push((v % 256) as u8);
    push_le(out, v / 256, n - 1);
    assert(out@ =~= start + le_bytes(v as nat, n as nat));
}

/// The commitment of one node, given its children's commitments in order.
pub fn subtree_hash(
    kind: Kind,
    tier: Tier,
    must_understand: bool,
    depth: u8,
    role: u16,
    name: &[u8],
    payload: &[u8],
    children: &[[u8; 32]],
) -> (r: [u8; 32])
    ensures
        r@ == blake3_digest(
            subtree_message(
                kind,
                tier,
                must_understand,
                depth,
                role,
                name@,
                payload@,
                children@.len(),
                concat_hashes(children@),
            ),
        ),
{
    let mut h: Vec<u8> = Vec::new();
    let domain: [u8; 14] = [0x73, 0x6b, 0x69, 0x6c, 0x6c, 0x2e, 0x76, 0x31, 0x2e, 0x6e, 0x6f, 0x64, 0x65, 0x00];
    push_all(&mut h, domain.as_slice());
    assert(h@ =~= node_domain());
    h.push(kind.code());
    h.push(tier.code());
    h.push(if must_understand { 1 } else { 0 });
    h.push(depth);
    push_le(&mut h, role as u64, 2);
    push_le(&mut h, name.len() as u64, 8);
    push_all(&mut h, name);
    push_le(&mut h, payload.len() as u64, 8);
    push_all(&mut h, payload);
    push_le(&mut h, children.len() as u64, 8);
    let ghost before = h@;
    let mut i: usize = 0;
    while i < children.len()
        invariant
            0 <= i <= children@.len(),
            h@ == before + concat_hashes(children@.subrange(0, i as int)),
        decreases children@.len() - i,
    {
        push_all(&mut h, children[i].as_slice());
        assert(children@.subrange(0, i + 1).drop_last() =~= children@.subrange(0, i as int));
        i += 1;
    }
    assert(children@.subrange(0, children@.len() as int) =~= children@);
    let ghost msg = subtree_message(
        kind,
        tier,
        must_understand,
        depth,
        role,
        name@,
        payload@,
        children@.len(),
        concat_hashes(children@),
    );
    assert(h@ =~= msg);
    blake3_hash(h.as_slice())
}

/// The commitments of a node's children, concatenated in order.
pub open spec fn concat_hashes(hs: Seq<[u8; 32]>) -> Seq<u8>
    decreases hs.len(),
{
    if hs.len() == 0 {
        Seq::empty()
    } else {
        concat_hashes(hs.drop_last()) + hs.last()@
    }
}

} // verus!
