use skillexec::cap_kind;
use skillexec::graph::{Abi, Kind, Tier};
use skillexec::run::{self, Policy, RunError};
use skillexec::sig::TrustPolicy;
use skillexec::skill::Skill;
use skillexec::writer::{Builder, Cap, SegmentSpec};

const HELLO: &str = r#"
(module
  (import "wasi_snapshot_preview1" "fd_write"
    (func $fd_write (param i32 i32 i32 i32) (result i32)))
  (memory (export "memory") 1)
  (data (i32.const 100) "hi\n")
  (func (export "run")
    (i32.store (i32.const 0) (i32.const 100))
    (i32.store (i32.const 4) (i32.const 3))
    (drop (call $fd_write (i32.const 1) (i32.const 0) (i32.const 1) (i32.const 8)))))
"#;

const PURE: &str = r#"(module (func (export "run") (nop)))"#;
const BACKDOOR: &str = r#"
(module
  (import "evil" "backdoor" (func $b))
  (func (export "run") (call $b)))
"#;

fn build(src: &str, spec: SegmentSpec) -> Vec<u8> {
    let wasm = wat::parse_str(src).expect("wat");
    let mut b = Builder::new("sandbox", "Fixture for the capability check.");
    let root = b.root(Kind::Prose, Tier::Routing, 0, Vec::new());
    b.segment(root, Some("seg"), wasm, spec, 0);
    b.build().expect("build")
}

fn spec(caps: &[u16], mem_kib: u32, cpu_ms: u32) -> SegmentSpec {
    let mut s = SegmentSpec::inert(Abi::Wasm32Core);
    s.caps = caps.iter().map(|k| Cap { kind: *k, flags: 0, arg: String::new() }).collect();
    s.mem_kib = mem_kib;
    s.cpu_ms = cpu_ms;
    s.wall_ms = 1_000;
    s
}

/// What the engine reports a compiled module imports, as `(module, name)`.
fn imports_of(code: &[u8]) -> Vec<(String, String)> {
    let engine = wasmtime::Engine::default();
    let module = wasmtime::Module::new(&engine, code).expect("compiles");
    module.imports().map(|i| (i.module().to_string(), i.name().to_string())).collect()
}

/// Everything decided before instantiation: clearance, then the import check.
fn decide(s: &Skill<'_>) -> Result<Vec<u16>, RunError> {
    let cleared = run::clear(s, 0, &Policy::default())?;
    run::check_imports(&cleared.declared, &imports_of(&cleared.code))?;
    Ok(cleared.declared)
}

#[test]
fn an_undeclared_import_is_refused_before_instantiation() {
    let bytes = build(HELLO, spec(&[], 256, 10));
    let s = Skill::open(&bytes, &TrustPolicy::permissive()).expect("open");
    match decide(&s) {
        Err(RunError::UndeclaredImport { module, name, needs }) => {
            assert_eq!(module, "wasi_snapshot_preview1");
            assert_eq!(name, "fd_write");
            assert_eq!(needs, "stdio");
        }
        other => panic!("expected refusal, got {other:?}"),
    }
}

#[test]
fn an_import_this_host_does_not_recognise_is_refused_not_ignored() {
    let bytes = build(BACKDOOR, spec(&[cap_kind::STDIO, cap_kind::FS_READ], 256, 10));
    let s = Skill::open(&bytes, &TrustPolicy::permissive()).expect("open");
    match decide(&s) {
        Err(RunError::UndeclaredImport { module, needs, .. }) => {
            assert_eq!(module, "evil");
            assert_eq!(needs, "unknown");
        }
        other => panic!("expected refusal, got {other:?}"),
    }
}

#[test]
fn a_segment_with_no_imports_needs_no_capabilities() {
    let bytes = build(PURE, spec(&[], 256, 10));
    let s = Skill::open(&bytes, &TrustPolicy::permissive()).expect("open");
    let declared = decide(&s).expect("passes the import check");
    assert!(run::granted(&declared).is_empty());
}

#[test]
fn every_capability_a_run_grants_was_declared_in_the_file() {
    let bytes = build(HELLO, spec(&[cap_kind::STDIO], 256, 10));
    let s = Skill::open(&bytes, &TrustPolicy::permissive()).expect("open");
    let rec = s.manifest.segment(0).unwrap();
    let declared: Vec<&str> = (0..u32::from(rec.cap_cnt))
        .map(|k| cap_kind::name(s.manifest.cap(rec.cap_off + k).unwrap().0))
        .collect();
    let granted = run::granted(&decide(&s).expect("cleared"));
    assert_eq!(granted, declared);
}
