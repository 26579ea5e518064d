use skillexec::embed::routing_text;
use skillexec::graph::{Abi, Kind, Tier, TrustClass};
use skillexec::library::{self, LibraryError};
use skillexec::mcp::search_limit;
use skillexec::sig::TrustPolicy;
use skillexec::skill::Skill;
use skillexec::writer::{Builder, Cap, SegmentSpec};

fn bundle() -> Vec<u8> {
    let mut b = Builder::bundle();
    let r = b.add_skill("inspector", "Reviews a diff for correctness.");
    b.child(r, Kind::Prose, Tier::Body, 0, Some("how"), b"Read the diff first.\n".to_vec(), 1);
    b.segment(
        r,
        Some("lint.wasm"),
        b"\0asm\x01\0\0\0".to_vec(),
        SegmentSpec {
            abi: Abi::Wasm32Core,
            trust_class: TrustClass::Portable,
            caps: vec![Cap { kind: skillexec::cap_kind::STDIO, flags: 0, arg: String::new() }],
            mem_kib: 1024,
            cpu_ms: 250,
            wall_ms: 500,
        },
        0,
    );
    let d = b.add_skill("deployer", "Ships a build.");
    b.segment(d, Some("deploy.sh"), b"echo ship".to_vec(), SegmentSpec::inert(Abi::Sh), 0);
    b.build().expect("bundle builds")
}

fn archive() -> Vec<u8> {
    let mut b = Builder::bundle();
    let r = b.add_skill("archivist", "Files documents by date.");
    b.child(r, Kind::Prose, Tier::Body, 0, None, b"File by date.\n".to_vec(), 1);
    b.build().expect("archive builds")
}

#[test]
fn query_terms_drop_short_tokens_and_lowercase() {
    assert_eq!(library::terms_of("How do I review a Diff?"), ["how", "review", "diff"]);
    assert!(library::terms_of("a b c").is_empty());
}

#[test]
fn words_split_on_anything_not_alphanumeric() {
    assert_eq!(library::words_of("Reviews a diff, quickly!"), ["reviews", "a", "diff", "quickly"]);
    assert!(library::words_of("  --  ").is_empty());
}

#[test]
fn a_long_term_matches_a_word_prefix_and_a_short_one_does_not() {
    let words = library::words_of("testing interactive ui");
    assert!(library::hits_word(&words, "test"));
    assert!(!library::hits_word(&words, "int"));
    assert!(library::hits_word(&words, "ui"));
    assert!(!library::hits_word(&words, "u"));
}

#[test]
fn find_names_the_container_and_the_skill_root() {
    let containers = vec![archive(), bundle()];
    let (c, root) = library::find(&containers, "deployer").expect("found");
    assert_eq!(c, 1);
    let entries = Skill::routing_view(&containers[1]).expect("routing");
    let e = entries.iter().find(|e| e.name == "deployer").expect("entry");
    assert_eq!(root, e.root);
    match library::find(&containers, "nonesuch") {
        Err(LibraryError::NoSuchSkill(n)) => assert_eq!(n, "nonesuch"),
        other => panic!("expected absence, got {other:?}"),
    }
}

#[test]
fn a_malformed_routing_block_is_reported_with_its_container() {
    let containers = vec![archive(), b"not a container".to_vec()];
    match library::find(&containers, "missing") {
        Err(LibraryError::Routing { container, .. }) => assert_eq!(container, 1),
        other => panic!("expected a routing error, got {other:?}"),
    }
}

#[test]
fn loading_renders_one_skill_and_not_its_neighbours() {
    let bytes = bundle();
    let containers = vec![bytes.clone()];
    let (_, root) = library::find(&containers, "inspector").expect("found");
    let md = library::load(&bytes, &TrustPolicy::permissive(), None, root).expect("load");
    assert!(md.contains("Read the diff first."), "got {md:?}");
    assert!(!md.contains("Ships a build"), "a bundle must not leak its neighbours");
}

#[test]
fn segments_report_what_was_declared_and_nothing_more() {
    let bytes = bundle();
    let containers = vec![bytes.clone()];
    let (_, inspector) = library::find(&containers, "inspector").expect("inspector");
    let segs = library::segments(&bytes, &TrustPolicy::permissive(), None, inspector).expect("segments");
    assert_eq!(segs.len(), 1);
    assert_eq!(segs[0].name, "lint.wasm");
    assert_eq!(segs[0].abi, "wasm32-core");
    assert_eq!(segs[0].trust_class, "Portable");
    assert_eq!(segs[0].capabilities, ["stdio"]);
    assert_eq!((segs[0].mem_kib, segs[0].cpu_ms), (1024, 250));
    let (_, deployer) = library::find(&containers, "deployer").expect("deployer");
    let segs = library::segments(&bytes, &TrustPolicy::permissive(), None, deployer).expect("segments");
    assert_eq!(segs.len(), 1);
    assert_eq!(segs[0].trust_class, "HostTrusted", "a shell fragment is labelled, never contained");
    assert!(segs[0].capabilities.is_empty());
}

#[test]
fn subtree_membership_follows_parent_links() {
    let bytes = bundle();
    let s = Skill::open(&bytes, &TrustPolicy::permissive()).expect("open");
    let entries = Skill::routing_view(&bytes).expect("routing");
    let (a, b) = (entries[0].root, entries[1].root);
    assert!(library::in_subtree(&s, a, a));
    assert!(library::in_subtree(&s, a + 1, a));
    assert!(!library::in_subtree(&s, a + 1, b));
    assert!(!library::in_subtree(&s, 0, a));
}

#[test]
fn the_routing_text_is_the_name_then_the_description() {
    assert_eq!(routing_text("quieter", "Tones a UI down."), "quieter. Tones a UI down.");
}

#[test]
fn a_search_returns_twenty_hits_unless_asked_and_never_more_than_two_hundred() {
    assert_eq!(search_limit(None), 20);
    assert_eq!(search_limit(Some(0)), 1);
    assert_eq!(search_limit(Some(7)), 7);
    assert_eq!(search_limit(Some(5000)), 200);
}

#[test]
fn a_load_reports_its_size_in_bytes_and_that_it_was_verified() {
    let r = skillexec::mcp::load_result("s".to_string(), "héllo".to_string());
    assert_eq!(r.bytes, 6);
    assert!(r.verified);
    assert_eq!(r.markdown, "héllo");
}

#[test]
fn a_disclosure_keeps_every_field_and_says_what_an_empty_list_means() {
    let bytes = bundle();
    let containers = vec![bytes.clone()];
    let (_, root) = library::find(&containers, "inspector").expect("found");
    let segs = library::segments(&bytes, &TrustPolicy::permissive(), None, root).expect("segments");
    let r = skillexec::mcp::segments_result("inspector".to_string(), segs.clone());
    assert_eq!(r.segments.len(), segs.len());
    assert_eq!(r.segments[0].name, segs[0].name);
    assert_eq!(r.segments[0].capabilities, segs[0].capabilities);
    assert!(r.note.contains("authorized for nothing"));
}
