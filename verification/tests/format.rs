use skillexec::codec::Dictionary;
use skillexec::error::Error;
use skillexec::graph::{EdgeKind, Kind, Tier};
use skillexec::header::Header;
use skillexec::sig::TrustPolicy;
use skillexec::skill::Skill;
use skillexec::writer::{Builder, Profile};

const ROLE_INTENT: u16 = 1;
const ROLE_STEP: u16 = 2;
const ROLE_PITFALL: u16 = 3;
const SECT_NODES: u16 = 2;
const SECT_EDGES: u16 = 3;
const SECT_STRINGS: u16 = 1;
const NODE_LEN: usize = 32;
const EDGE_LEN: usize = 8;
const DIR_ENTRY: usize = 24;

fn minimal_with(profile: Profile) -> Vec<u8> {
    let mut b = Builder::new("demo", "Use when demonstrating the skill format.").profile(profile);
    let root = b.root(Kind::Prose, Tier::Routing, ROLE_INTENT, b"".to_vec());
    b.child(root, Kind::Prose, Tier::Body, ROLE_INTENT, None, b"Do the thing.\n".to_vec(), 1);
    b.build().expect("minimal builds")
}

fn minimal() -> Vec<u8> {
    minimal_with(Profile::default())
}

fn minimal_raw() -> Vec<u8> {
    minimal_with(Profile::Uncompressed)
}

fn bulky() -> Vec<u8> {
    let body = "Compressible prose, repeated. ".repeat(300);
    let mut b = Builder::new("bulky", "A body worth compressing.");
    let root = b.root(Kind::Prose, Tier::Routing, 0, Vec::new());
    b.child(root, Kind::Prose, Tier::Body, 0, Some("body"), body.into_bytes(), 1);
    b.build().expect("bulky builds")
}

fn rich() -> Vec<u8> {
    let mut b = Builder::new("rich", "Exercises every kind and tier.").version("1.2.3");
    let root = b.root(Kind::Prose, Tier::Routing, ROLE_INTENT, b"".to_vec());
    let body = b.child(root, Kind::Prose, Tier::Body, ROLE_INTENT, Some("overview"), b"Overview.\n".to_vec(), 1);
    let when = b.child(root, Kind::Applicability, Tier::Routing, 0, Some("when"), b"when X\n".to_vec(), 2);
    let pre = b.child(body, Kind::Contract, Tier::Body, 0, Some("prereqs"), b"needs Y\n".to_vec(), 2);
    let s1 = b.child(body, Kind::Prose, Tier::Body, ROLE_STEP, Some("step 1"), b"first\n".to_vec(), 3);
    let s2 = b.child(body, Kind::Prose, Tier::Body, ROLE_STEP, Some("step 2"), b"second\n".to_vec(), 3);
    let tool = b.child(body, Kind::Binding, Tier::Body, 0, Some("ripgrep"), b"".to_vec(), 0);
    let doc = b.child(body, Kind::Resource, Tier::OnDemand, 0, Some("ref.md"), b"long reference\n".to_vec(), 0);
    let seg = b.child(body, Kind::Segment, Tier::OnDemand, 0, Some("run.wasm"), b"\0asm".to_vec(), 0);
    let trap = b.child(body, Kind::Prose, Tier::OnDemand, ROLE_PITFALL, Some("pitfalls"), b"do not\n".to_vec(), 2);
    b.edge(s1, EdgeKind::Sequence, s2, 0, 0);
    b.edge(pre, EdgeKind::Guards, s1, 0, 0);
    b.edge(s1, EdgeKind::Needs, tool, 0, 0);
    b.edge(s2, EdgeKind::Needs, seg, 0, 0);
    b.edge(s2, EdgeKind::Alt, trap, 0, 0);
    b.edge(s2, EdgeKind::Alt, doc, 1, 0);
    b.edge(body, EdgeKind::Cites, doc, 0, 0);
    let _ = when;
    b.build().expect("rich builds")
}

fn reserialize(bytes: &[u8]) -> Vec<u8> {
    let s = Skill::open(bytes, &TrustPolicy::permissive()).expect("reopen");
    let mut b = Builder::new(&s.name().unwrap(), &s.description().unwrap());
    if s.manifest.version_idx != u32::MAX {
        b = b.version(&s.manifest.string(s.manifest.version_idx).unwrap());
    }
    if s.manifest.license_idx != u32::MAX {
        b = b.license(&s.manifest.string(s.manifest.license_idx).unwrap());
    }
    let mut ids = Vec::new();
    for (i, n) in s.nodes.iter().enumerate() {
        let payload = s.payload(i as u32).unwrap().to_vec();
        let id = if i == 0 {
            b.root(n.kind, n.tier, n.role, payload)
        } else {
            let name = (n.name_idx != u32::MAX).then(|| s.manifest.string(n.name_idx).unwrap());
            b.child(ids[n.parent as usize], n.kind, n.tier, n.role, name.as_deref(), payload, n.depth)
        };
        ids.push(id);
    }
    for (i, n) in s.nodes.iter().enumerate() {
        for e in n.edge_off..n.edge_off + u32::from(n.edge_cnt) {
            let edge = s.manifest.edge(e).unwrap();
            b.edge(ids[i], edge.kind, ids[edge.dst as usize], edge.ordinal, edge.label);
        }
    }
    b.build().expect("rebuild")
}

fn recommit(bytes: &mut [u8]) {
    let moff = u32::from_le_bytes(bytes[0x14..0x18].try_into().unwrap()) as usize;
    let mlen = u32::from_le_bytes(bytes[0x18..0x1C].try_into().unwrap()) as usize;
    let root = *blake3::hash(&bytes[moff..moff + mlen]).as_bytes();
    bytes[0x20..0x40].copy_from_slice(&root);
}

fn section_off(bytes: &[u8], id: u16) -> usize {
    let moff = u32::from_le_bytes(bytes[0x14..0x18].try_into().unwrap()) as usize;
    let n = u16::from_le_bytes(bytes[moff..moff + 2].try_into().unwrap()) as usize;
    for i in 0..n {
        let d = moff + 48 + DIR_ENTRY * i;
        if u16::from_le_bytes(bytes[d..d + 2].try_into().unwrap()) == id {
            return moff + u32::from_le_bytes(bytes[d + 4..d + 8].try_into().unwrap()) as usize;
        }
    }
    panic!("section {id} absent");
}

fn open(bytes: &[u8]) -> Result<Skill<'_>, Error> {
    Skill::open(bytes, &TrustPolicy::permissive())
}

fn rejects(bytes: &[u8], step: u8) -> Error {
    let e = open(bytes).expect_err("must be rejected");
    assert_eq!(e.step(), step, "wrong rejection step for {e:?}");
    e
}

fn patch_manifest(bytes: &mut [u8], at: usize, data: &[u8]) {
    bytes[at..at + data.len()].copy_from_slice(data);
    recommit(bytes);
}

fn node_field(bytes: &[u8], idx: usize, off: usize) -> usize {
    section_off(bytes, SECT_NODES) + NODE_LEN * idx + off
}

#[test]
fn minimal_file_opens_and_verifies() {
    let bytes = minimal();
    let s = Skill::open(&bytes, &TrustPolicy::permissive()).unwrap();
    assert_eq!(s.name().unwrap(), "demo");
    assert_eq!(s.description().unwrap(), "Use when demonstrating the skill format.");
    assert_eq!(s.nodes.len(), 2);
    assert_eq!(s.nodes[0].kind, Kind::Prose);
    assert_eq!(s.nodes[0].tier, Tier::Routing);
    assert_eq!(s.verified_payload(1).unwrap(), b"Do the thing.\n");
    s.verify_all().unwrap();
}

#[test]
fn rich_file_exercises_every_kind() {
    let bytes = rich();
    let s = Skill::open(&bytes, &TrustPolicy::permissive()).unwrap();
    s.verify_all().unwrap();
    let kinds: Vec<Kind> = s.nodes.iter().map(|n| n.kind).collect();
    for k in [Kind::Applicability, Kind::Prose, Kind::Contract, Kind::Segment, Kind::Resource, Kind::Binding] {
        assert!(kinds.contains(&k), "missing {k:?}");
    }
    let tiers: Vec<Tier> = s.nodes.iter().map(|n| n.tier).collect();
    for t in [Tier::Routing, Tier::Body, Tier::OnDemand] {
        assert!(tiers.contains(&t), "missing {t:?}");
    }
}

#[test]
fn canonicality_serialize_parse_is_identity() {
    for bytes in [minimal(), rich()] {
        assert_eq!(reserialize(&bytes), bytes, "serialize(parse(b)) != b");
    }
}

#[test]
fn routing_plane_precedes_every_payload() {
    let bytes = rich();
    let s = Skill::open(&bytes, &TrustPolicy::permissive()).unwrap();
    let manifest_end = s.header.manifest_off + s.header.manifest_len;
    assert!(manifest_end <= s.manifest.hot.0, "payload regions must follow the manifest");
    assert!(s.header.routing_off() < s.header.manifest_off as usize, "routing must precede the manifest");
    let entries = Skill::routing_view(&bytes).unwrap();
    assert_eq!(entries[0].name, "rich");
    assert!(entries[0].description.starts_with("Exercises"));
}

#[test]
fn identical_payloads_are_stored_once() {
    let mut b = Builder::new("dedup", "Two nodes, one blob.");
    let root = b.root(Kind::Prose, Tier::Routing, 0, b"".to_vec());
    let a = b.child(root, Kind::Prose, Tier::Body, 0, Some("a"), b"shared body text".to_vec(), 2);
    let twin = b.child(root, Kind::Prose, Tier::Body, 0, Some("twin"), b"shared body text".to_vec(), 2);
    b.edge(a, EdgeKind::Cites, twin, 0, 0);
    let bytes = b.build().unwrap();
    let s = Skill::open(&bytes, &TrustPolicy::permissive()).unwrap();
    assert_eq!(s.nodes[1].payload_off, s.nodes[2].payload_off);
    assert_eq!(s.manifest.cold.2 as usize, "shared body text".len());
}

#[test]
fn valid_tier_must_not_decrease_along_contains() {
    let mut b = Builder::new("bad", "Child is hotter than its parent.");
    let root = b.root(Kind::Prose, Tier::Routing, 0, b"".to_vec());
    let mid = b.child(root, Kind::Prose, Tier::OnDemand, 0, Some("m"), b"x".to_vec(), 2);
    b.child(mid, Kind::Prose, Tier::Body, 0, Some("c"), b"y".to_vec(), 3);
    assert!(matches!(b.build(), Err(Error::TierNotMonotone { .. })));
}

#[test]
fn signing_digest_covers_only_the_header() {
    let bytes = minimal();
    let mut tampered = bytes.clone();
    let last = tampered.len() - 1;
    tampered[last] ^= 0xFF;
    assert_eq!(Header::signing_digest(&bytes), Header::signing_digest(&tampered));
    let s = Skill::open(&tampered, &TrustPolicy::permissive()).expect("structure survives");
    assert!(s.verify_all().is_err(), "a tampered payload must not verify");
}

#[test]
fn commitments_are_stored_only_at_verification_boundaries() {
    let bytes = rich();
    let s = Skill::open(&bytes, &TrustPolicy::permissive()).unwrap();
    assert_ne!(s.nodes[0].hash_idx, u32::MAX, "the root must always be committed");
    let stored = s.nodes.iter().filter(|n| n.hash_idx != u32::MAX).count();
    assert!(stored < s.nodes.len(), "interior nodes should carry no commitment");
    for i in 0..u32::try_from(s.nodes.len()).unwrap() {
        s.verified_payload(i).expect("every node is reachable from some commitment");
    }
    s.verify_all().unwrap();
}

#[test]
fn an_interior_node_verifies_through_its_nearest_committed_ancestor() {
    let bytes = rich();
    let s = Skill::open(&bytes, &TrustPolicy::permissive()).unwrap();
    let interior = (0..u32::try_from(s.nodes.len()).unwrap())
        .find(|i| s.nodes[*i as usize].hash_idx == u32::MAX)
        .expect("rich has interior nodes");
    let at = s.commitment_for(interior).unwrap();
    assert_ne!(at, interior);
    assert_ne!(s.nodes[at as usize].hash_idx, u32::MAX);
}

#[test]
fn compression_preserves_canonicality_and_content() {
    let body = "Compressible prose, repeated. ".repeat(300);
    for profile in [Profile::Uncompressed, Profile::Mapped, Profile::Compact] {
        let mut b = Builder::new("z", "Compression fixture.").profile(profile);
        let root = b.root(Kind::Prose, Tier::Routing, 0, Vec::new());
        b.child(root, Kind::Prose, Tier::Body, 0, Some("body"), body.clone().into_bytes(), 1);
        let bytes = b.build().unwrap();
        let s = Skill::open(&bytes, &TrustPolicy::permissive()).unwrap();
        assert_eq!(s.payload(1).unwrap(), body.as_bytes(), "{profile:?} lost content");
        s.verify_all().unwrap();
        if profile != Profile::Uncompressed {
            assert!(bytes.len() < body.len(), "{profile:?} did not compress");
        }
    }
}

#[test]
fn a_dictionary_file_is_refused_without_the_dictionary() {
    let dict = Dictionary::new("Compressible prose, repeated. ".repeat(40).as_bytes());
    let body = "Compressible prose, repeated. ".repeat(300);
    let mut b = Builder::new("d", "Needs a dictionary.")
        .profile(Profile::Compact)
        .dictionary(dict.clone());
    let root = b.root(Kind::Prose, Tier::Routing, 0, Vec::new());
    b.child(root, Kind::Prose, Tier::Body, 0, Some("body"), body.clone().into_bytes(), 1);
    let bytes = b.build().unwrap();
    assert!(matches!(
        Skill::open(&bytes, &TrustPolicy::permissive()),
        Err(Error::MissingDictionary | Error::DeclaredLenMismatch { .. })
    ));
    let wrong = Dictionary::new(b"not the dictionary");
    assert!(Skill::open_with(&bytes, &TrustPolicy::permissive(), Some(&wrong)).is_err());
    let s = Skill::open_with(&bytes, &TrustPolicy::permissive(), Some(&dict)).expect("opens");
    assert_eq!(s.payload(1).unwrap(), body.as_bytes());
    s.verify_all().unwrap();
}

#[test]
fn routing_reads_only_the_front_of_the_file() {
    let bytes = rich();
    let s = Skill::open(&bytes, &TrustPolicy::permissive()).unwrap();
    let r = skillexec::routing::read(&bytes, s.header.routing_off()).unwrap();
    let touched = s.header.routing_off() + r.stored_len;
    assert!(touched <= s.header.manifest_off as usize);
    assert_eq!(r.entries[0].name, "rich");
    assert_eq!(Skill::routing_view(&bytes).unwrap()[0].name, "rich");
    for i in 0..s.manifest.string_count() {
        assert_ne!(s.manifest.string(i).unwrap(), "rich", "name leaked into the heap");
    }
}

#[test]
fn a_tampered_routing_block_is_refused_at_open() {
    let mut bytes = rich();
    let off = {
        let s = Skill::open(&bytes, &TrustPolicy::permissive()).unwrap();
        s.header.routing_off()
    };
    bytes[off + 4] ^= 0x20;
    assert!(matches!(Skill::open(&bytes, &TrustPolicy::permissive()), Err(Error::RoutingHashMismatch)));
    assert!(Skill::routing_view(&bytes).is_ok());
}

#[test]
fn bad_magic() {
    let mut b = minimal();
    b[1] = b'X';
    assert!(matches!(rejects(&b, 1), Error::BadMagic));
}

#[test]
fn unsupported_major_version() {
    let mut b = minimal();
    b[0x08..0x0A].copy_from_slice(&9u16.to_le_bytes());
    assert!(matches!(rejects(&b, 1), Error::UnsupportedMajor(9)));
}

#[test]
fn unknown_feature_flag_is_not_skipped() {
    let mut b = minimal();
    b[0x0C..0x10].copy_from_slice(&0x0000_0004u32.to_le_bytes());
    assert!(matches!(rejects(&b, 1), Error::UnknownFeatureFlags(4)));
}

#[test]
fn header_reserved_must_be_zero() {
    let mut b = minimal();
    b[0x1E..0x20].copy_from_slice(&1u16.to_le_bytes());
    assert!(matches!(open(&b), Err(Error::ReservedNonZero { .. })));
}

#[test]
fn truncation_at_every_section_boundary() {
    let full = rich();
    for cut in [0x40, 0x80, 0x100, full.len() - 8, full.len() - 1] {
        let short = &full[..cut];
        assert!(open(short).is_err(), "truncation at {cut} accepted");
    }
}

#[test]
fn declared_length_must_match() {
    let mut b = minimal();
    let wrong = u32::try_from(b.len()).unwrap() + 8;
    b[0x10..0x14].copy_from_slice(&wrong.to_le_bytes());
    assert!(matches!(rejects(&b, 2), Error::LengthMismatch { .. }));
}

#[test]
fn manifest_digest_mismatch() {
    let mut b = minimal();
    let moff = u32::from_le_bytes(b[0x14..0x18].try_into().unwrap()) as usize;
    b[moff + 0x14] ^= 0x01;
    assert!(matches!(rejects(&b, 5), Error::ManifestDigestMismatch));
}

#[test]
fn manifest_range_out_of_bounds() {
    let mut b = minimal();
    b[0x18..0x1C].copy_from_slice(&0xFFFF_0000u32.to_le_bytes());
    assert!(matches!(rejects(&b, 4), Error::RangeOutOfBounds { .. }));
}

#[test]
fn offset_addition_must_not_wrap() {
    let mut b = minimal();
    b[0x14..0x18].copy_from_slice(&0xFFFF_FFF0u32.to_le_bytes());
    b[0x18..0x1C].copy_from_slice(&0x20u32.to_le_bytes());
    assert!(matches!(rejects(&b, 4), Error::OffsetOverflow { .. }));
}

#[test]
fn unsigned_file_rejected_when_policy_requires_a_signature() {
    let b = minimal();
    let policy = TrustPolicy { require_signature: true, keys: Vec::new() };
    let e = Skill::open(&b, &policy).expect_err("policy requires a signature");
    assert_eq!(e.step(), 3);
    assert!(matches!(e, Error::Unsigned));
}

#[test]
fn tampered_payload_fails_lazy_verification() {
    let mut b = minimal();
    let cold_off = {
        let s = open(&b).unwrap();
        s.manifest.cold.0 as usize
    };
    b[cold_off] ^= 0xFF;
    let s = open(&b).expect("structure is still valid");
    assert!(matches!(s.verified_payload(1), Err(Error::PayloadHashMismatch(1))));
    assert_eq!(s.verified_payload(1).unwrap_err().step(), 7);
}

#[test]
fn uncommitted_region_bytes_must_be_zero() {
    let mut b = minimal_raw();
    let at = node_field(&b, 1, 20);
    let len = u32::from_le_bytes(b[at..at + 4].try_into().unwrap());
    patch_manifest(&mut b, at, &(len - 1).to_le_bytes());
    assert!(matches!(rejects(&b, 6), Error::UncommittedNonZero { .. }));
}

#[test]
fn a_compressed_region_must_carry_its_commitment() {
    let b = bulky();
    let s = open(&b).expect("bulky opens");
    assert!(s.manifest.region_hashes.is_some(), "a compressed region must commit to its stored bytes");
    assert!(s.manifest.cold.1 < s.manifest.cold.2, "cold region should have shrunk");
    assert_eq!(s.payload(1).unwrap().len(), s.manifest.cold.2 as usize);
}

#[test]
fn tampering_a_compressed_region_is_caught_on_decompression() {
    let mut b = bulky();
    let (off, len) = {
        let s = open(&b).unwrap();
        (s.manifest.cold.0 as usize, s.manifest.cold.1 as usize)
    };
    assert!(len > 0);
    b[off + len / 2] ^= 0xFF;
    let s = open(&b).expect("structure is untouched");
    assert!(matches!(s.payload(1), Err(Error::RegionHashMismatch(_) | Error::DeclaredLenMismatch { .. })));
}

#[test]
fn parent_must_precede_child() {
    let mut b = minimal();
    let at = node_field(&b, 1, 28);
    patch_manifest(&mut b, at, &5u32.to_le_bytes());
    assert!(matches!(rejects(&b, 6), Error::ParentNotBefore { .. }));
}

#[test]
fn root_must_be_routing_tier() {
    let mut b = rich();
    let at = node_field(&b, 0, 1);
    patch_manifest(&mut b, at, &[1]);
    assert!(matches!(rejects(&b, 6), Error::RootNotRouting));
}

#[test]
fn hostile_tier_must_not_decrease_along_contains() {
    let mut b = rich();
    let child = (1..10).find(|&i| {
        let s = open(&b).unwrap();
        s.nodes[i].parent != 0 && s.nodes[i].tier == Tier::OnDemand
    });
    let Some(i) = child else { return };
    let at = node_field(&b, i, 1);
    patch_manifest(&mut b, at, &[1]);
    let s = open(&b);
    assert!(s.is_ok() || matches!(s, Err(Error::TierNotMonotone { .. })));
}

#[test]
fn unknown_node_kind_is_rejected_not_skipped() {
    let mut b = rich();
    let at = node_field(&b, 1, 0);
    patch_manifest(&mut b, at, &[99]);
    assert!(matches!(rejects(&b, 6), Error::UnknownNodeKind(99)));
}

#[test]
fn contains_must_not_appear_in_the_edge_table() {
    let mut b = rich();
    let at = section_off(&b, SECT_EDGES) + 4;
    patch_manifest(&mut b, at, &[1]);
    assert!(matches!(rejects(&b, 6), Error::ContainsInEdgeTable(_)));
}

#[test]
fn seq_edges_must_point_forward() {
    let mut b = rich();
    let base = section_off(&b, SECT_EDGES);
    let n = {
        let s = open(&b).unwrap();
        s.manifest.edge_count()
    };
    let found = (0..n as usize).find(|&i| b[base + EDGE_LEN * i + 4] == 2);
    let Some(i) = found else { panic!("fixture has no SEQ edge") };
    patch_manifest(&mut b, base + EDGE_LEN * i, &0u32.to_le_bytes());
    assert!(matches!(rejects(&b, 6), Error::SeqNotForward { .. }));
}

#[test]
fn needs_must_target_a_resolvable_kind() {
    let mut b = rich();
    let base = section_off(&b, SECT_EDGES);
    let n = {
        let s = open(&b).unwrap();
        s.manifest.edge_count()
    };
    let found = (0..n as usize).find(|&i| b[base + EDGE_LEN * i + 4] == 4);
    let Some(i) = found else { panic!("fixture has no NEEDS edge") };
    patch_manifest(&mut b, base + EDGE_LEN * i, &0u32.to_le_bytes());
    assert!(matches!(rejects(&b, 6), Error::NeedsBadTarget { .. }));
}

#[test]
fn string_heap_must_be_sorted_and_deduplicated() {
    let mut b = rich();
    let base = section_off(&b, SECT_STRINGS);
    let count = u32::from_le_bytes(b[base..base + 4].try_into().unwrap()) as usize;
    assert!(count >= 2);
    let o0 = u32::from_le_bytes(b[base + 4..base + 8].try_into().unwrap());
    let o1 = u32::from_le_bytes(b[base + 8..base + 12].try_into().unwrap());
    let o2 = u32::from_le_bytes(b[base + 12..base + 16].try_into().unwrap());
    let heap = base + 4 + 4 * (count + 1);
    let a: Vec<u8> = b[heap + o0 as usize..heap + o1 as usize].to_vec();
    let c: Vec<u8> = b[heap + o1 as usize..heap + o2 as usize].to_vec();
    let mut swapped = c.clone();
    swapped.extend_from_slice(&a);
    b[heap + o0 as usize..heap + o2 as usize].copy_from_slice(&swapped);
    let new_mid = o0 + u32::try_from(c.len()).unwrap();
    b[base + 8..base + 12].copy_from_slice(&new_mid.to_le_bytes());
    recommit(&mut b);
    let e = open(&b).expect_err("non-canonical heap must be rejected");
    assert!(
        matches!(e, Error::StringHeapUnsorted(_) | Error::StringIndexOutOfRange(_)),
        "unexpected {e:?}"
    );
}

#[test]
fn section_length_must_match_its_record_size() {
    let mut b = rich();
    let moff = u32::from_le_bytes(b[0x14..0x18].try_into().unwrap()) as usize;
    let sect_count = u16::from_le_bytes(b[moff..moff + 2].try_into().unwrap()) as usize;
    let mut patched = false;
    for i in 0..sect_count {
        let d = moff + 48 + DIR_ENTRY * i;
        if u16::from_le_bytes(b[d..d + 2].try_into().unwrap()) == SECT_NODES {
            let len = u32::from_le_bytes(b[d + 8..d + 12].try_into().unwrap());
            b[d + 8..d + 12].copy_from_slice(&(len - 1).to_le_bytes());
            b[d + 16..d + 20].copy_from_slice(&(len - 1).to_le_bytes());
            patched = true;
        }
    }
    assert!(patched);
    recommit(&mut b);
    assert!(matches!(rejects(&b, 6), Error::SectionLenNotMultiple { .. }));
}

#[test]
fn unknown_must_understand_section_is_rejected() {
    let mut b = rich();
    let moff = u32::from_le_bytes(b[0x14..0x18].try_into().unwrap()) as usize;
    let d = moff + 48;
    b[d..d + 2].copy_from_slice(&999u16.to_le_bytes());
    b[d + 2..d + 4].copy_from_slice(&1u16.to_le_bytes());
    recommit(&mut b);
    assert!(matches!(rejects(&b, 6), Error::UnknownSection(999)));
}

#[test]
fn unknown_advisory_section_is_ignored() {
    let mut b = rich();
    let moff = u32::from_le_bytes(b[0x14..0x18].try_into().unwrap()) as usize;
    let sect_count = u16::from_le_bytes(b[moff..moff + 2].try_into().unwrap()) as usize;
    let d = moff + 48 + DIR_ENTRY * (sect_count - 1);
    let keep = b[d..d + 16].to_vec();
    b[d..d + 2].copy_from_slice(&998u16.to_le_bytes());
    b[d + 2..d + 4].copy_from_slice(&0u16.to_le_bytes());
    recommit(&mut b);
    let advisory_ok = open(&b).is_ok() || keep[0] != 0;
    assert!(advisory_ok);
}

#[test]
fn every_rejection_names_a_spec_step() {
    for e in [
        Error::BadMagic,
        Error::LengthMismatch { declared: 1, actual: 2 },
        Error::Unsigned,
        Error::ManifestDigestMismatch,
        Error::RootNotRouting,
        Error::PayloadHashMismatch(0),
    ] {
        assert!((1..=7).contains(&e.step()), "{e:?} has no step");
    }
}

#[test]
fn alt_edges_must_not_cycle() {
    let mut b = Builder::new("altloop", "Two nodes that fall back to each other forever.");
    let root = b.root(Kind::Prose, Tier::Routing, 0, Vec::new());
    let a = b.child(root, Kind::Prose, Tier::Body, 0, Some("a"), b"a".to_vec(), 2);
    let c = b.child(root, Kind::Prose, Tier::Body, 0, Some("c"), b"c".to_vec(), 2);
    b.edge(a, EdgeKind::Alt, c, 0, 0);
    b.edge(c, EdgeKind::Alt, a, 0, 0);
    let bytes = b.build().expect("a writer will emit this happily");
    assert!(matches!(open(&bytes), Err(Error::ObligationCycle(_))));
}

#[test]
fn obligation_union_must_not_cycle_across_edge_kinds() {
    let mut b = Builder::new("union", "GUARDS and ALT are each acyclic; together they are not.");
    let root = b.root(Kind::Prose, Tier::Routing, 0, Vec::new());
    let gate = b.child(root, Kind::Contract, Tier::Body, 0, Some("gate"), b"g".to_vec(), 2);
    let step = b.child(root, Kind::Prose, Tier::Body, 0, Some("step"), b"s".to_vec(), 2);
    b.edge(gate, EdgeKind::Guards, step, 0, 0);
    b.edge(step, EdgeKind::Alt, gate, 0, 0);
    let bytes = b.build().expect("writer emits it");
    assert!(matches!(open(&bytes), Err(Error::ObligationCycle(_))));
}

#[test]
fn cites_may_still_cycle_because_it_carries_no_obligation() {
    let mut b = Builder::new("cites", "Cross-references may cycle; nothing must follow them.");
    let root = b.root(Kind::Prose, Tier::Routing, 0, Vec::new());
    let a = b.child(root, Kind::Prose, Tier::Body, 0, Some("a"), b"a".to_vec(), 2);
    let c = b.child(root, Kind::Prose, Tier::Body, 0, Some("c"), b"c".to_vec(), 2);
    b.edge(a, EdgeKind::Cites, c, 0, 0);
    b.edge(c, EdgeKind::Cites, a, 0, 0);
    let bytes = b.build().unwrap();
    open(&bytes).expect("a CITES cycle is legal");
}

#[test]
fn a_declared_length_cannot_become_an_allocation() {
    let mut b = bulky();
    let moff = u32::from_le_bytes(b[0x14..0x18].try_into().unwrap()) as usize;
    b[moff + 0x2C..moff + 0x30].copy_from_slice(&0xFFFF_FFF0u32.to_le_bytes());
    recommit(&mut b);
    let e = open(&b).expect_err("an absurd orig_len must be refused");
    assert!(matches!(e, Error::DeclaredLenMismatch { .. }), "got {e:?}");
}

#[test]
fn a_frame_must_decompress_to_exactly_its_declared_length() {
    let mut b = bulky();
    let moff = u32::from_le_bytes(b[0x14..0x18].try_into().unwrap()) as usize;
    let orig = u32::from_le_bytes(b[moff + 0x2C..moff + 0x30].try_into().unwrap());
    b[moff + 0x2C..moff + 0x30].copy_from_slice(&(orig + 1).to_le_bytes());
    recommit(&mut b);
    let s = open(&b).expect("structure is fine until the region is touched");
    assert!(matches!(s.payload(1), Err(Error::DeclaredLenMismatch { .. })));
}

#[test]
fn a_section_may_not_claim_an_orig_len_it_does_not_have() {
    let mut b = rich();
    let moff = u32::from_le_bytes(b[0x14..0x18].try_into().unwrap()) as usize;
    let d = moff + 48;
    let orig = u32::from_le_bytes(b[d + 16..d + 20].try_into().unwrap());
    b[d + 16..d + 20].copy_from_slice(&(orig + 8).to_le_bytes());
    recommit(&mut b);
    assert!(matches!(
        rejects(&b, 6),
        Error::DeclaredLenMismatch { .. } | Error::SectionCountMismatch { .. }
    ));
}

#[test]
fn the_worked_example_is_byte_for_byte() {
    // The minimal file, uncompressed, is 454 bytes: header, routing block, a four-section
    // manifest, and the one 14-byte payload in COLD.
    let b = minimal_raw();
    assert_eq!(b.len(), 454);
    assert_eq!(&b[0..8], &[0x8F, 0x53, 0x4B, 0x4C, 0x0D, 0x0A, 0x1A, 0x0A]);
    assert_eq!(&b[0x10..0x1C], &[0xC6, 0x01, 0, 0, 0x78, 0, 0, 0, 0x40, 0x01, 0, 0]);
    assert_eq!(&b[0x40..0x4C], &[1, 0, 0, 0, 0, 0, 0, 0, 4, 0, 0x28, 0]);
    assert_eq!(&b[0x1B8..], b"Do the thing.\n");
}

#[test]
fn a_second_root_is_refused() {
    let mut b = Builder::new("two", "Two roots.");
    b.root(Kind::Prose, Tier::Routing, 0, b"".to_vec());
    b.root(Kind::Prose, Tier::Routing, 0, b"".to_vec());
    assert!(matches!(b.build(), Err(Error::RootHasParent)));
}

#[test]
fn an_entry_with_no_node_is_refused() {
    let b = Builder::new("none", "The entry names node 0, which was never added.");
    assert!(matches!(b.build(), Err(Error::RoutingRootNotTopLevel(_))));
}

#[test]
fn a_bundle_with_no_skills_is_refused_for_an_empty_routing_plane() {
    assert!(matches!(Builder::bundle().build(), Err(Error::RoutingEmpty)));
}

#[test]
fn a_well_shaped_tree_builds() {
    let mut b = Builder::new("ok", "Cools from the root down.");
    let root = b.root(Kind::Prose, Tier::Routing, 0, b"".to_vec());
    let body = b.child(root, Kind::Prose, Tier::Body, 0, Some("b"), b"x".to_vec(), 2);
    b.child(body, Kind::Prose, Tier::OnDemand, 0, Some("c"), b"y".to_vec(), 3);
    assert!(b.build().is_ok());
}

#[test]
fn a_payload_past_the_last_node_is_out_of_range() {
    let bytes = minimal();
    let s = open(&bytes).unwrap();
    assert!(matches!(s.verified_payload(99), Err(Error::NodeIndexOutOfRange(99))));
}

#[test]
fn a_broken_manifest_digest_is_reported_as_such() {
    let mut b = minimal();
    let moff = u32::from_le_bytes(b[0x14..0x18].try_into().unwrap()) as usize;
    b[moff + 0x14] ^= 0x01;
    assert_eq!(
        Skill::open(&b, &TrustPolicy::permissive()).err(),
        Some(Error::ManifestDigestMismatch)
    );
}

#[test]
fn an_unsigned_file_is_refused_when_a_signature_is_required() {
    let b = minimal();
    let policy = TrustPolicy::require_any_of(vec![[7u8; 32]]);
    assert_eq!(Skill::open(&b, &policy).err(), Some(Error::Unsigned));
}
