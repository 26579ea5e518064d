use skillexec::classify::{ROLE_ORG_ARTIFACT, ROLE_ORG_CHARTER, ROLE_ORG_GATE, ROLE_ORG_MEMBER};
use skillexec::graph::{EdgeKind, Kind, Tier};
use skillexec::md::{self, Document};
use skillexec::org::{self, Graph, Manifest, Member};
use skillexec::sig::TrustPolicy;
use skillexec::skill::Skill;
use skillexec::writer::{Builder, Profile};

fn docs(ids: &[&str]) -> Vec<(String, Document)> {
    ids.iter()
        .map(|id| {
            let src =
                format!("---\nname: {id}\ndescription: The {id} role.\n---\n\nWhat {id} does.\n");
            ((*id).to_string(), md::parse(&src))
        })
        .collect()
}

fn member(id: &str, artifact: Option<&str>, gate: Option<&str>) -> Member {
    Member {
        id: id.to_string(),
        skill: id.to_string(),
        artifact: artifact.map(str::to_string),
        gate: gate.map(str::to_string),
    }
}

fn pairs(list: &[[&str; 2]]) -> Vec<[String; 2]> {
    list.iter().map(|[a, b]| [a.to_string(), b.to_string()]).collect()
}

fn graph(
    seq: &[[&str; 2]],
    needs: &[[&str; 2]],
    guards: &[[&str; 2]],
    alt: &[[&str; 2]],
    cites: &[[&str; 2]],
) -> Graph {
    Graph {
        seq: pairs(seq),
        needs: pairs(needs),
        guards: pairs(guards),
        alt: pairs(alt),
        cites: pairs(cites),
    }
}

fn manifest(name: &str, description: &str, members: Vec<Member>, graph: Graph) -> Manifest {
    Manifest { name: name.to_string(), description: description.to_string(), members, graph }
}

fn build(m: &Manifest) -> Result<Vec<u8>, org::Error> {
    let ids: Vec<&str> = m.members.iter().map(|x| x.id.as_str()).collect();
    org::compile(m, &docs(&ids), Profile::default(), None, Vec::new())
}

/// A gate is evaluated before entry, so it runs ahead of what it gates: a review that happens
/// after implementing gates the stage that follows it.
fn pipeline(guard_from: &str, need_target: &str) -> Manifest {
    manifest(
        "three-role",
        "A pipeline with one gate.",
        vec![
            member("implement", Some("A diff."), None),
            member("review", None, Some("Refuses a diff that changes behaviour without a test.")),
            member("ship", None, None),
        ],
        graph(
            &[["implement", "review"], ["review", "ship"]],
            &[["review", need_target]],
            &[[guard_from, "ship"]],
            &[],
            &[],
        ),
    )
}

fn edges_of(s: &Skill, kind: EdgeKind) -> Vec<(usize, usize)> {
    let mut out = Vec::new();
    for (i, n) in s.nodes.iter().enumerate() {
        for e in n.edge_off..n.edge_off + u32::from(n.edge_cnt) {
            let edge = s.manifest.edge(e).expect("edge");
            if edge.kind == kind {
                out.push((i, edge.dst as usize));
            }
        }
    }
    out
}

#[test]
fn a_circular_approval_chain_does_not_compile() {
    let m = manifest(
        "deadlock",
        "",
        vec![
            member("a", None, Some("Refuses until C approves.")),
            member("c", None, Some("Refuses until A approves.")),
        ],
        graph(&[], &[], &[["a", "c"], ["c", "a"]], &[], &[]),
    );
    let e = build(&m).expect_err("a ring of approvals must not compile");
    let msg = e.message();
    assert!(matches!(e, org::Error::ApprovalCycle(_)), "wrong error: {msg}");
    assert!(msg.contains('a') && msg.contains('c'), "cycle unnamed: {msg}");
    assert!(msg.contains("waits on"), "the error must say who waits on whom: {msg}");
}

#[test]
fn the_same_container_accepts_that_cycle_when_built_by_hand() {
    let mut b = Builder::bundle();
    let a = b.add_skill("a", "first");
    let ag = b.child(a, Kind::Contract, Tier::Body, 0, Some("gate"), Vec::new(), 0);
    let c = b.add_skill("c", "second");
    let cg = b.child(c, Kind::Contract, Tier::Body, 0, Some("gate"), Vec::new(), 0);
    b.edge(ag, EdgeKind::Guards, c, 0, 0);
    b.edge(cg, EdgeKind::Guards, a, 0, 0);
    let bytes = b.build().expect("the container accepts what the org compiler refuses");
    Skill::open(&bytes, &TrustPolicy::permissive()).expect("open").verify_all().expect("verify");
}

#[test]
fn a_pipeline_that_loops_does_not_compile() {
    let m = manifest(
        "loop",
        "",
        vec![member("a", None, None), member("c", None, None)],
        graph(&[["a", "c"], ["c", "a"]], &[], &[], &[], &[]),
    );
    assert!(matches!(
        build(&m).expect_err("a looping pipeline must not compile"),
        org::Error::SeqCycle(_)
    ));
}

#[test]
fn members_are_ordered_so_every_seq_edge_runs_forward() {
    let m = manifest(
        "reordered",
        "",
        vec![member("review", None, Some("Refuses.")), member("implement", None, None)],
        graph(&[["implement", "review"]], &[], &[], &[], &[]),
    );
    let bytes = build(&m).expect("the compiler reorders instead of refusing");
    let entries = Skill::routing_view(&bytes).expect("routing");
    let names: Vec<&str> = entries.iter().map(|e| e.name.as_str()).collect();
    assert_eq!(names, ["reordered", "implement", "review"]);
}

#[test]
fn guards_is_lowered_from_the_source_gate_and_needs_onto_the_target_artifact() {
    let bytes = build(&pipeline("review", "implement")).expect("compile");
    let s = Skill::open(&bytes, &TrustPolicy::permissive()).expect("open");
    s.verify_all().expect("verify");
    let guards = edges_of(&s, EdgeKind::Guards);
    let needs = edges_of(&s, EdgeKind::Needs);
    for &(src, dst) in &guards {
        assert_eq!(s.nodes[src].kind, Kind::Contract, "a gate must be a Contract, or the container rejects it");
        assert_eq!(s.nodes[src].role, ROLE_ORG_GATE);
        assert_eq!(s.nodes[dst].role, ROLE_ORG_MEMBER);
    }
    for &(_, dst) in &needs {
        assert_eq!(s.nodes[dst].kind, Kind::Binding, "NEEDS targets an artifact, never a member");
        assert_eq!(s.nodes[dst].role, ROLE_ORG_ARTIFACT);
    }
    assert_eq!((guards.len(), needs.len()), (1, 1));
}

#[test]
fn the_organization_is_routing_entry_zero() {
    let bytes = build(&pipeline("review", "implement")).expect("compile");
    let entries = Skill::routing_view(&bytes).expect("routing");
    assert_eq!(entries[0].name, "three-role");
    assert_eq!(entries[0].description, "A pipeline with one gate.");
    let s = Skill::open(&bytes, &TrustPolicy::permissive()).expect("open");
    assert_eq!(s.nodes[entries[0].root as usize].role, ROLE_ORG_CHARTER);
    for e in &entries[1..] {
        assert_eq!(s.nodes[e.root as usize].role, ROLE_ORG_MEMBER);
    }
}

#[test]
fn rework_is_expressible_as_cites_because_seq_cannot_run_backwards() {
    let m = manifest(
        "rework",
        "",
        vec![member("implement", None, None), member("review", None, Some("Refuses."))],
        graph(&[["implement", "review"]], &[], &[], &[], &[["review", "implement"]]),
    );
    let bytes = build(&m).expect("CITES may point backwards, and may cycle");
    let s = Skill::open(&bytes, &TrustPolicy::permissive()).expect("open");
    s.verify_all().expect("verify");
    assert_eq!(edges_of(&s, EdgeKind::Cites).len(), 1);
}

#[test]
fn guarding_without_declaring_a_gate_is_refused() {
    let m = manifest(
        "no-gate",
        "",
        vec![member("a", None, None), member("c", None, None)],
        graph(&[], &[], &[["a", "c"]], &[], &[]),
    );
    let e = build(&m).expect_err("a gate that says nothing refuses nothing");
    assert!(matches!(e, org::Error::MissingGate { .. }), "{}", e.message());
    assert!(e.message().contains("say what it refuses"), "{}", e.message());
}

#[test]
fn needing_a_member_that_hands_on_nothing_is_refused() {
    let m = manifest(
        "no-artifact",
        "",
        vec![member("a", None, None), member("c", None, None)],
        graph(&[], &[["a", "c"]], &[], &[], &[]),
    );
    assert!(matches!(
        build(&m).expect_err("NEEDS must have an artifact to target"),
        org::Error::MissingArtifact { .. }
    ));
}

#[test]
fn an_edge_naming_a_member_that_does_not_exist_is_named_not_ignored() {
    let m = manifest(
        "typo",
        "",
        vec![member("implement", None, None)],
        graph(&[["implement", "reveiw"]], &[], &[], &[], &[]),
    );
    let e = build(&m).expect_err("a misspelled member must not vanish");
    assert!(e.message().contains("reveiw"), "{}", e.message());
    assert!(e.message().contains("seq"), "the edge kind is named: {}", e.message());
}

#[test]
fn a_dotted_endpoint_means_the_same_member() {
    assert_eq!(
        build(&pipeline("review.gate", "implement.artifact")).expect("dotted form compiles"),
        build(&pipeline("review", "implement")).expect("bare form compiles"),
        "the two spellings must produce the same bytes"
    );
}

#[test]
fn an_organization_with_no_members_is_refused() {
    let m = manifest("empty", "", Vec::new(), graph(&[], &[], &[], &[], &[]));
    assert!(matches!(build(&m).expect_err("nothing to organize"), org::Error::NoMembers));
}

#[test]
fn the_same_manifest_compiles_to_the_same_bytes() {
    let m = pipeline("review", "implement");
    assert_eq!(build(&m).expect("a"), build(&m).expect("b"));
}

#[test]
fn a_member_declared_twice_is_refused() {
    let m = manifest(
        "twice",
        "",
        vec![member("a", None, None), member("a", None, None)],
        graph(&[], &[], &[], &[], &[]),
    );
    let e = org::describe(&m).expect_err("two members with one id");
    assert!(matches!(e, org::Error::DuplicateMember(ref id) if id == "a"));
    assert!(e.message().contains("declared twice"));
}

#[test]
fn a_plan_lists_members_in_pipeline_order_and_the_gates_by_id() {
    let p = org::describe(&pipeline("review.gate", "implement")).expect("plan");
    assert_eq!(p.order, ["implement", "review", "ship"]);
    assert_eq!(p.gates, [("review".to_string(), "ship".to_string())]);
}

#[test]
fn a_need_orders_the_provider_first() {
    // `late` needs what `early` hands on, though it is declared first and no seq edge says so.
    let m = manifest(
        "handoff",
        "",
        vec![member("late", None, None), member("early", Some("A plan."), None)],
        graph(&[], &[["late", "early"]], &[], &[], &[]),
    );
    let p = org::describe(&m).expect("plan");
    assert_eq!(p.order, ["early", "late"]);
}

#[test]
fn a_cycle_is_reported_as_a_closed_ring_of_members() {
    let m = manifest(
        "ring",
        "",
        vec![member("x", None, None), member("y", None, None), member("z", None, None)],
        graph(&[["x", "y"], ["y", "z"], ["z", "x"]], &[], &[], &[], &[]),
    );
    match org::describe(&m) {
        Err(org::Error::SeqCycle(path)) => {
            assert!(path.len() >= 2);
            assert_eq!(path.first(), path.last());
            for id in ["x", "y", "z"] {
                assert!(path.iter().any(|p| p == id), "{path:?}");
            }
            assert!(org::Error::SeqCycle(path).message().contains(" then "));
        }
        other => panic!("expected a seq cycle, got {other:?}"),
    }
}

#[test]
fn an_unknown_endpoint_in_any_edge_kind_is_named_with_its_kind() {
    let m = manifest(
        "alt-typo",
        "",
        vec![member("a", None, None)],
        graph(&[], &[], &[], &[["a", "b"]], &[]),
    );
    match org::describe(&m) {
        Err(org::Error::UnknownMember { edge, id }) => {
            assert_eq!(edge, "alt");
            assert_eq!(id, "b");
        }
        other => panic!("expected an unknown member, got {other:?}"),
    }
}

#[test]
fn ids_are_listed_in_declaration_order() {
    let m = pipeline("review", "implement");
    assert_eq!(m.ids(), ["implement", "review", "ship"]);
}
