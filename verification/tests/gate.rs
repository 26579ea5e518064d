use skillexec::cap_kind;
use skillexec::graph::{Abi, Kind, Tier, TrustClass};
use skillexec::run::{self, Policy, RunError};
use skillexec::sig::TrustPolicy;
use skillexec::skill::Skill;
use skillexec::writer::{Builder, Cap, Profile, SegmentSpec};

fn cap(kind: u16) -> Cap {
    Cap { kind, flags: 0, arg: String::new() }
}

fn with_segment(spec: SegmentSpec, code: &[u8]) -> Vec<u8> {
    let mut b = Builder::new("runner", "Runs a segment.").profile(Profile::Uncompressed);
    let root = b.root(Kind::Prose, Tier::Routing, 0, Vec::new());
    b.child(root, Kind::Prose, Tier::Body, 0, Some("intro"), b"Run it.\n".to_vec(), 1);
    b.segment(root, Some("main.wasm"), code.to_vec(), spec, 0);
    b.build().expect("builds")
}

fn wasm_spec(caps: Vec<Cap>, mem_kib: u32, cpu_ms: u32, wall_ms: u32) -> SegmentSpec {
    SegmentSpec {
        abi: Abi::Wasm32Core,
        trust_class: TrustClass::Portable,
        caps,
        mem_kib,
        cpu_ms,
        wall_ms,
    }
}

const CODE: &[u8] = b"\0asm\x01\0\0\0";

#[test]
fn the_import_table_maps_each_wasi_call_to_its_capability() {
    let wasi = "wasi_snapshot_preview1";
    assert_eq!(run::required_capability(wasi, "proc_exit"), Some(0));
    assert_eq!(run::required_capability("skill", "yield"), Some(0));
    assert_eq!(run::required_capability(wasi, "fd_write"), Some(cap_kind::STDIO));
    assert_eq!(run::required_capability(wasi, "path_open"), Some(cap_kind::FS_READ));
    assert_eq!(run::required_capability(wasi, "fd_allocate"), Some(cap_kind::FS_WRITE));
    assert_eq!(run::required_capability(wasi, "args_get"), Some(cap_kind::ENV));
    assert_eq!(run::required_capability(wasi, "clock_res_get"), Some(cap_kind::CLOCK));
    assert_eq!(run::required_capability(wasi, "random_get"), Some(cap_kind::RAND));
    assert_eq!(run::required_capability(wasi, "sock_accept"), Some(cap_kind::NET_HOST));
}

#[test]
fn an_import_this_host_does_not_recognise_has_no_capability() {
    assert_eq!(run::required_capability("evil", "unknown"), None);
    assert_eq!(run::required_capability("wasi_snapshot_preview1", "sock"), None);
    assert_eq!(run::required_capability("skill", "proc_exit"), None);
}

#[test]
fn an_undeclared_import_is_refused_by_the_gate() {
    let imports = vec![("wasi_snapshot_preview1".to_string(), "fd_write".to_string())];
    match run::check_imports(&Vec::new(), &imports) {
        Err(RunError::UndeclaredImport { module, name, needs }) => {
            assert_eq!(module, "wasi_snapshot_preview1");
            assert_eq!(name, "fd_write");
            assert_eq!(needs, "stdio");
        }
        other => panic!("expected refusal, got {other:?}"),
    }
    assert_eq!(run::check_imports(&vec![cap_kind::STDIO], &imports), Ok(()));
}

#[test]
fn an_unknown_import_is_refused_not_ignored() {
    let imports = vec![("evil".to_string(), "unknown".to_string())];
    match run::check_imports(&vec![cap_kind::STDIO, cap_kind::NET_HOST], &imports) {
        Err(RunError::UndeclaredImport { needs, .. }) => assert_eq!(needs, "unknown"),
        other => panic!("expected refusal, got {other:?}"),
    }
}

#[test]
fn a_module_with_no_imports_needs_no_capabilities() {
    assert_eq!(run::check_imports(&Vec::new(), &Vec::new()), Ok(()));
}

#[test]
fn a_declared_segment_is_cleared_with_its_bytes_and_capabilities() {
    let bytes = with_segment(wasm_spec(vec![cap(cap_kind::STDIO)], 256, 10, 100), CODE);
    let s = Skill::open(&bytes, &TrustPolicy::permissive()).expect("open");
    let a = run::clear(&s, 0, &Policy::default()).expect("cleared");
    assert_eq!(a.code, CODE);
    assert_eq!(a.declared, vec![cap_kind::STDIO]);
    assert_eq!(s.nodes[a.node as usize].kind, Kind::Segment);
    assert_eq!(run::granted(&a.declared), vec!["stdio"]);
}

#[test]
fn a_segment_may_not_exceed_the_host_ceiling() {
    let bytes = with_segment(wasm_spec(Vec::new(), 1024, 10, 100), CODE);
    let s = Skill::open(&bytes, &TrustPolicy::permissive()).expect("open");
    let policy = Policy { max_mem_kib: 128, ..Policy::default() };
    assert_eq!(
        run::clear(&s, 0, &policy).expect_err("over the ceiling"),
        RunError::LimitExceedsPolicy { what: "mem_kib", asked: 1024, ceiling: 128 }
    );
}

#[test]
fn a_host_trusted_segment_is_refused_by_default() {
    let bytes = with_segment(SegmentSpec::inert(Abi::Sh), b"rm -rf /");
    let s = Skill::open(&bytes, &TrustPolicy::permissive()).expect("open");
    assert_eq!(
        run::clear(&s, 0, &Policy::default()).expect_err("refused"),
        RunError::NotPortable { abi: "sh", trust: "HostTrusted" }
    );
    let opted_in = Policy { allow_host_trusted: true, ..Policy::default() };
    assert_eq!(
        run::clear(&s, 0, &opted_in).expect_err("still not wasm"),
        RunError::UnsupportedAbi("sh")
    );
}

#[test]
fn a_missing_segment_is_named() {
    let bytes = with_segment(wasm_spec(Vec::new(), 256, 10, 100), CODE);
    let s = Skill::open(&bytes, &TrustPolicy::permissive()).expect("open");
    assert_eq!(
        run::clear(&s, 7, &Policy::default()).expect_err("no such segment"),
        RunError::NoSuchSegment(7)
    );
    assert_eq!(run::segment_node(&s, 7), None);
}

#[test]
fn tampered_segment_bytes_are_refused_before_compilation() {
    let mut bytes = with_segment(wasm_spec(Vec::new(), 256, 10, 100), CODE);
    let pos = {
        let s = Skill::open(&bytes, &TrustPolicy::permissive()).expect("open");
        let node = run::segment_node(&s, 0).expect("carrier") as usize;
        s.manifest.cold.0 as usize + s.nodes[node].payload_off as usize
    };
    bytes[pos] ^= 0xFF;
    let s = Skill::open(&bytes, &TrustPolicy::permissive()).expect("open still succeeds");
    assert_eq!(
        run::clear(&s, 0, &Policy::default()).expect_err("tampered"),
        RunError::IntegrityFailed(0)
    );
}

#[test]
fn budgets_have_a_floor_and_saturate() {
    assert_eq!(run::fuel_budget(0, 1_000), 1_000);
    assert_eq!(run::fuel_budget(10, 1_000_000), 10_000_000);
    assert_eq!(run::fuel_budget(u32::MAX, u64::MAX), u64::MAX);
    assert_eq!(run::memory_budget(0), 1024);
    assert_eq!(run::memory_budget(64), 65_536);
    assert_eq!(run::fuel_used(100, 30), 70);
    assert_eq!(run::fuel_used(100, 130), 0);
}

#[test]
fn the_default_policy_refuses_host_trusted_code() {
    let p = Policy::default();
    assert!(!p.allow_host_trusted);
    assert_eq!((p.max_mem_kib, p.max_cpu_ms, p.max_wall_ms, p.fuel_per_ms), (65_536, 5_000, 10_000, 1_000_000));
}

#[test]
fn a_guest_pointer_is_reinterpreted_not_sign_extended() {
    assert_eq!(run::guest_ptr(16), 16);
    assert_eq!(run::guest_ptr(-1), 0xFFFF_FFFF);
    assert_eq!(run::guest_ptr(i32::MIN), 0x8000_0000);
}

#[test]
fn an_iovec_is_an_address_then_a_length() {
    let hdr = [0x10, 0x00, 0x01, 0x00, 0x05, 0x00, 0x00, 0x80];
    assert_eq!(run::iovec(&hdr), (0x0001_0010, 0x8000_0005));
}

#[test]
fn only_standard_output_and_error_are_captured() {
    assert!(run::captured(1));
    assert!(run::captured(2));
    assert!(!run::captured(0));
    assert!(!run::captured(3));
    assert!(!run::captured(-1));
}

#[test]
fn stub_hosts_are_the_imports_their_capability_covers() {
    for kind in [cap_kind::STDIO, cap_kind::FS_READ, cap_kind::FS_WRITE, cap_kind::ENV, cap_kind::CLOCK, cap_kind::RAND] {
        let names = run::stub_hosts(kind);
        assert!(!names.is_empty());
        for name in names {
            assert_eq!(run::required_capability("wasi_snapshot_preview1", name), Some(kind), "{name}");
        }
    }
    assert!(run::stub_hosts(cap_kind::NET_HOST).is_empty());
    assert!(run::stub_hosts(cap_kind::EXEC).is_empty());
    assert_eq!(run::stub_hosts(cap_kind::RAND), vec!["random_get"]);
}

#[test]
fn an_import_that_needs_no_capability_passes_without_any_declaration() {
    let imports = vec![
        ("wasi_snapshot_preview1".to_string(), "proc_exit".to_string()),
        ("skill".to_string(), "yield".to_string()),
    ];
    assert_eq!(run::check_imports(&Vec::new(), &imports), Ok(()));
}
