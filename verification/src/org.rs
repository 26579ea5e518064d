//! Compiling an organization: several skills in one container, wired into a graph.
//!
//! A bundle says which skills share a file; an organization says how they relate: who hands
//! what to whom, and who refuses. Three rules of the format shape it. `GUARDS` must start at a
//! `Contract`, so a gate is a contract; `NEEDS` must end at a `Binding`, so a member needs
//! another's artifact, never the member; `SEQ` must run forward in pre-order, so members are
//! ordered before they are emitted. What the container cannot see is an approval ring, because
//! gate nodes and member roots never coincide; refusing one is this layer's job.

use vstd::prelude::*;

use vstd::string::{StrSliceExecFns, StringExecFns};

use crate::classify::{ROLE_ORG_ARTIFACT, ROLE_ORG_CHARTER, ROLE_ORG_GATE, ROLE_ORG_MEMBER};
use crate::codec::Dictionary;
use crate::compile::build_into;
use crate::graph::{EdgeKind, Kind, Tier};
use crate::md::Document;
use crate::order::{acyclic, closed_walk, cycle, kahn_order, preds_in, ranked, targets_ok, topological};
use crate::text::same;
use crate::writer::{
    file_front_ok, lemma_child_keeps_shape, lemma_relabel_keeps_shape, lemma_root_alone_shaped,
    lemma_skill_keeps_shape, lists_skills, size_refusal, Builder, NodeId, NodeView, Profile,
};

verus! {

/// An organization as written: its name and description, its members, and the graph between
/// them.
#[derive(Debug, Clone)]
pub struct Manifest {
    pub name: String,
    pub description: String,
    pub members: Vec<Member>,
    pub graph: Graph,
}

#[derive(Debug, Clone)]
pub struct Member {
    /// What the graph calls this member.
    pub id: String,
    /// A path to a `SKILL.md`, or a skill name to resolve out of a library.
    pub skill: String,
    /// What this member hands on. Required if anything needs it.
    pub artifact: Option<String>,
    /// What this member refuses. Required if it guards anything.
    pub gate: Option<String>,
}

/// Edges between members, each `[from, to]`.
#[derive(Debug, Clone)]
pub struct Graph {
    pub seq: Vec<[String; 2]>,
    pub needs: Vec<[String; 2]>,
    pub guards: Vec<[String; 2]>,
    pub alt: Vec<[String; 2]>,
    /// The only kind permitted to cycle, which makes it the only way to say "review sends it
    /// back to implement": `SEQ` cannot run backwards.
    pub cites: Vec<[String; 2]>,
}

#[derive(Debug, Clone)]
pub enum Error {
    Parse(String),
    UnknownMember { edge: &'static str, id: String },
    DuplicateMember(String),
    NoMembers,
    MissingArtifact { needs: String, target: String },
    MissingGate { guards: String, target: String },
    ApprovalCycle(Vec<String>),
    SeqCycle(Vec<String>),
    Build(crate::error::Error),
}

/// What `plan` reports and what the compiler emits, in the order the pipeline runs.
#[derive(Debug, Clone)]
pub struct Plan {
    /// Member ids in an order where every `seq` edge runs forward.
    pub order: Vec<String>,
    /// `(guard, guarded)` pairs, by member id.
    pub gates: Vec<(String, String)>,
}

/// The parts, in order, with `sep` between each two.
pub open spec fn joined_spec(parts: Seq<String>, sep: Seq<char>) -> Seq<char>
    decreases parts.len(),
{
    if parts.len() == 0 {
        Seq::empty()
    } else if parts.len() == 1 {
        parts[0]@
    } else {
        joined_spec(parts.drop_last(), sep) + sep + parts.last()@
    }
}

fn joined(parts: &Vec<String>, sep: &str) -> (r: String)
    ensures
        r@ == joined_spec(parts@, sep@),
{
    let mut out = String::new();
    let mut i: usize = 0;
    while i < parts.len()
        invariant
            0 <= i <= parts@.len(),
            out@ == joined_spec(parts@.subrange(0, i as int), sep@),
        decreases parts@.len() - i,
    {
        let ghost before = out@;
        if i > 0 {
            out.append(sep);
        }
        out.append(parts[i].as_str());
        proof {
            let s1 = parts@.subrange(0, i + 1);
            assert(s1.drop_last() =~= parts@.subrange(0, i as int));
            assert(s1.last() == parts@[i as int]);
            if i == 0 {
                assert(out@ =~= Seq::<char>::empty() + parts@[0]@);
            }
        }
        i += 1;
    }
    proof {
        assert(parts@.subrange(0, parts@.len() as int) =~= parts@);
    }
    out
}

/// What `message` says of each refusal.
pub open spec fn message_spec(e: Error) -> Seq<char> {
    match e {
        Error::Parse(x) => "manifest: "@ + x@,
        Error::UnknownMember { edge, id } => edge@ + " names `"@ + id@ + "`, which is not a member"@,
        Error::DuplicateMember(id) => "`"@ + id@ + "` is declared twice"@,
        Error::NoMembers => "an organization needs at least one member"@,
        Error::MissingArtifact { needs, target } => "`"@ + needs@ + "` needs `"@ + target@ + "`, but `"@
            + target@ + "` declares no artifact to hand on"@,
        Error::MissingGate { guards, target } => "`"@ + guards@ + "` guards `"@ + target@ + "`, but `"@
            + guards@ + "` declares no gate — say what it refuses"@,
        Error::ApprovalCycle(path) => "circular approval chain: "@ + joined_spec(path@, " waits on "@)
            + " — no member can act first, so the organization cannot ship"@,
        Error::SeqCycle(path) => "the pipeline loops: "@ + joined_spec(path@, " then "@),
        Error::Build(x) => "container: the writer refused the graph at step "@ + step_digit(
            crate::error::spec_step(x),
        ),
    }
}

pub open spec fn step_digit(n: u8) -> Seq<char> {
    if n == 1 {
        "1"@
    } else if n == 2 {
        "2"@
    } else if n == 3 {
        "3"@
    } else if n == 4 {
        "4"@
    } else if n == 5 {
        "5"@
    } else if n == 6 {
        "6"@
    } else {
        "7"@
    }
}

impl Error {
    /// What went wrong, in words, naming the members and edges at fault.
    pub fn message(&self) -> (m: String)
        ensures
            m@ == message_spec(*self),
    {
        let mut m = String::new();
        match self {
            Error::Parse(e) => {
                m.append("manifest: ");
                m.append(e.as_str());
            },
            Error::UnknownMember { edge, id } => {
                m.append(edge);
                m.append(" names `");
                m.append(id.as_str());
                m.append("`, which is not a member");
            },
            Error::DuplicateMember(id) => {
                m.append("`");
                m.append(id.as_str());
                m.append("` is declared twice");
            },
            Error::NoMembers => {
                m.append("an organization needs at least one member");
            },
            Error::MissingArtifact { needs, target } => {
                m.append("`");
                m.append(needs.as_str());
                m.append("` needs `");
                m.append(target.as_str());
                m.append("`, but `");
                m.append(target.as_str());
                m.append("` declares no artifact to hand on");
            },
            Error::MissingGate { guards, target } => {
                m.append("`");
                m.append(guards.as_str());
                m.append("` guards `");
                m.append(target.as_str());
                m.append("`, but `");
                m.append(guards.as_str());
                m.append("` declares no gate — say what it refuses");
            },
            Error::ApprovalCycle(path) => {
                m.append("circular approval chain: ");
                m.append(joined(path, " waits on ").as_str());
                m.append(" — no member can act first, so the organization cannot ship");
            },
            Error::SeqCycle(path) => {
                m.append("the pipeline loops: ");
                m.append(joined(path, " then ").as_str());
            },
            Error::Build(e) => {
                m.append("container: the writer refused the graph at step ");
                m.append(
                    match e.step() {
                        1 => "1",
                        2 => "2",
                        3 => "3",
                        4 => "4",
                        5 => "5",
                        6 => "6",
                        _ => "7",
                    },
                );
            },
        }
        m
    }
}

/// `d` is the first `.` of `raw`.
pub open spec fn is_first_dot(raw: Seq<char>, d: int) -> bool {
    &&& 0 <= d < raw.len()
    &&& raw[d] == '.'
    &&& forall|e: int| 0 <= e < d ==> raw[e] != '.'
}

/// The member an endpoint names: `shape.artifact`, `review.gate` and `ship.root` are synonyms
/// for the bare id, and any other text names itself.
pub open spec fn member_of(raw: Seq<char>) -> Seq<char> {
    if exists|d: int| is_first_dot(raw, d) {
        let d = choose|d: int| is_first_dot(raw, d);
        let tail = raw.subrange(d + 1, raw.len() as int);
        if tail == "artifact"@ || tail == "gate"@ || tail == "root"@ {
            raw.subrange(0, d)
        } else {
            raw
        }
    } else {
        raw
    }
}

/// Member `i` is the one `raw` names.
pub open spec fn names(members: Seq<Member>, i: int, raw: Seq<char>) -> bool {
    0 <= i < members.len() && members[i].id@ == member_of(raw)
}

pub open spec fn resolves(members: Seq<Member>, raw: Seq<char>) -> bool {
    exists|i: int| names(members, i, raw)
}

/// The member `raw` names; meaningful where it resolves and ids are distinct.
pub open spec fn index_spec(members: Seq<Member>, raw: Seq<char>) -> int {
    choose|i: int| names(members, i, raw)
}

pub open spec fn distinct_ids(members: Seq<Member>) -> bool {
    forall|i: int, j: int| 0 <= i < j < members.len() ==> members[i].id@ != members[j].id@
}

pub open spec fn pairs_resolve(members: Seq<Member>, pairs: Seq<[String; 2]>) -> bool {
    forall|k: int|
        0 <= k < pairs.len() ==> resolves(members, pairs[k][0]@) && resolves(members, pairs[k][1]@)
}

/// Every endpoint of every edge names a member.
pub open spec fn endpoints_ok(m: Manifest) -> bool {
    &&& pairs_resolve(m.members@, m.graph.seq@)
    &&& pairs_resolve(m.members@, m.graph.guards@)
    &&& pairs_resolve(m.members@, m.graph.needs@)
    &&& pairs_resolve(m.members@, m.graph.alt@)
    &&& pairs_resolve(m.members@, m.graph.cites@)
}

/// Every member that guards something says what it refuses.
pub open spec fn gates_declared(m: Manifest) -> bool {
    forall|k: int|
        0 <= k < m.graph.guards@.len() ==> (#[trigger] m.members@[index_spec(
            m.members@,
            m.graph.guards@[k][0]@,
        )]).gate is Some
}

/// Every member that something needs says what it hands on.
pub open spec fn artifacts_declared(m: Manifest) -> bool {
    forall|k: int|
        0 <= k < m.graph.needs@.len() ==> (#[trigger] m.members@[index_spec(
            m.members@,
            m.graph.needs@[k][1]@,
        )]).artifact is Some
}

/// Everything `plan` checks before it orders the members.
pub open spec fn org_valid(m: Manifest) -> bool {
    &&& m.members@.len() > 0
    &&& distinct_ids(m.members@)
    &&& endpoints_ok(m)
    &&& gates_declared(m)
    &&& artifacts_declared(m)
}

/// One of the first `upto` pairs runs from member `a` to member `b`.
pub open spec fn listed(members: Seq<Member>, pairs: Seq<[String; 2]>, upto: int, a: int, b: int) -> bool {
    exists|k: int|
        0 <= k < upto && index_spec(members, pairs[k][0]@) == a && index_spec(members, pairs[k][1]@)
            == b
}

/// Member `b` cannot act before member `a`: `a` hands the pipeline on to `b`, `a` gates `b`
/// (a gate is evaluated before entry), or `b` needs what `a` hands on.
pub open spec fn waits(m: Manifest, a: int, b: int) -> bool {
    ||| listed(m.members@, m.graph.seq@, m.graph.seq@.len() as int, a, b)
    ||| listed(m.members@, m.graph.guards@, m.graph.guards@.len() as int, a, b)
    ||| listed(m.members@, m.graph.needs@, m.graph.needs@.len() as int, b, a)
}

/// `rank` puts every member after everyone they wait on.
pub open spec fn ranks(m: Manifest, rank: Seq<int>) -> bool {
    &&& rank.len() == m.members@.len()
    &&& forall|a: int, b: int|
        0 <= a < m.members@.len() && 0 <= b < m.members@.len() && #[trigger] waits(m, a, b)
            ==> rank[a] < rank[b]
}

/// The members can be ranked so that nobody waits on someone ranked after them.
pub open spec fn org_acyclic(m: Manifest) -> bool {
    exists|rank: Seq<int>| #[trigger] ranks(m, rank)
}

/// `path` names members around a ring in which each waits on the one before it.
pub open spec fn cycle_path(m: Manifest, path: Seq<String>) -> bool {
    &&& path.len() >= 2
    &&& path[0]@ == path.last()@
    &&& forall|i: int|
        0 <= i < path.len() - 1 ==> exists|a: int, b: int|
            0 <= a < m.members@.len() && 0 <= b < m.members@.len() && waits(m, a, b)
                && m.members@[a].id@ == (#[trigger] path[i])@ && m.members@[b].id@ == path[i + 1]@
}

pub open spec fn unresolved_in(members: Seq<Member>, pairs: Seq<[String; 2]>, id: Seq<char>) -> bool {
    &&& !resolves(members, id)
    &&& exists|k: int| 0 <= k < pairs.len() && (pairs[k][0]@ == id || pairs[k][1]@ == id)
}

/// `id` is an endpoint of an edge of kind `edge` that names no member.
pub open spec fn unknown_endpoint(m: Manifest, edge: Seq<char>, id: Seq<char>) -> bool {
    ||| edge == "seq"@ && unresolved_in(m.members@, m.graph.seq@, id)
    ||| edge == "guards"@ && unresolved_in(m.members@, m.graph.guards@, id)
    ||| edge == "needs"@ && unresolved_in(m.members@, m.graph.needs@, id)
    ||| edge == "alt"@ && unresolved_in(m.members@, m.graph.alt@, id)
    ||| edge == "cites"@ && unresolved_in(m.members@, m.graph.cites@, id)
}

/// The refusal `plan` gives, and the inputs on which it gives it.
pub open spec fn refusal(m: Manifest, e: Error) -> bool {
    let ms = m.members@;
    match e {
        Error::NoMembers => ms.len() == 0,
        Error::DuplicateMember(id) => ms.len() > 0 && exists|i: int, j: int|
            0 <= i < j < ms.len() && ms[i].id@ == ms[j].id@ && id@ == ms[j].id@,
        Error::UnknownMember { edge, id } => ms.len() > 0 && distinct_ids(ms) && unknown_endpoint(
            m,
            edge@,
            id@,
        ),
        Error::MissingGate { guards, target } => ms.len() > 0 && distinct_ids(ms) && exists|k: int|
            0 <= k < m.graph.guards@.len() && resolves(ms, m.graph.guards@[k][0]@) && resolves(
                ms,
                m.graph.guards@[k][1]@,
            ) && ms[index_spec(ms, m.graph.guards@[k][0]@)].gate is None && guards@ == member_of(
                m.graph.guards@[k][0]@,
            ) && target@ == member_of(m.graph.guards@[k][1]@),
        Error::MissingArtifact { needs, target } => ms.len() > 0 && distinct_ids(ms) && exists|k: int|
            0 <= k < m.graph.needs@.len() && resolves(ms, m.graph.needs@[k][0]@) && resolves(
                ms,
                m.graph.needs@[k][1]@,
            ) && ms[index_spec(ms, m.graph.needs@[k][1]@)].artifact is None && needs@ == member_of(
                m.graph.needs@[k][0]@,
            ) && target@ == member_of(m.graph.needs@[k][1]@),
        Error::ApprovalCycle(path) => org_valid(m) && !org_acyclic(m) && m.graph.guards@.len() > 0
            && cycle_path(m, path@),
        Error::SeqCycle(path) => org_valid(m) && !org_acyclic(m) && m.graph.guards@.len() == 0
            && cycle_path(m, path@),
        Error::Parse(_) | Error::Build(_) => false,
    }
}

/// Some entry of `ids` is `id`.
pub open spec fn lists_id(ids: Seq<String>, id: Seq<char>) -> bool {
    exists|i: int| 0 <= i < ids.len() && ids[i]@ == id
}

/// Some member is called `id`.
pub open spec fn member_id(ms: Seq<Member>, id: Seq<char>) -> bool {
    exists|j: int| 0 <= j < ms.len() && ms[j].id@ == id
}

/// `p` orders every member so that nobody comes before what they wait on, and lists the gates
/// as the manifest declares them.
/// Every member that `v` waits on is among `placed`: `v` is ready once they are.
pub open spec fn ready_after(m: Manifest, placed: Seq<usize>, v: int) -> bool {
    forall|a: int| 0 <= a < m.members@.len() && #[trigger] waits(m, a, v) ==> placed.contains(a as usize)
}

/// `idx` takes members as soon as they are ready, and of those ready, the one declared first.
pub open spec fn declaration_order(m: Manifest, idx: Seq<usize>) -> bool {
    &&& forall|i: int| 0 <= i < idx.len() ==> #[trigger] idx[i] < m.members@.len()
    &&& forall|i: int| 0 <= i < idx.len() ==> ready_after(m, idx.subrange(0, i), #[trigger] idx[i] as int)
    &&& forall|i: int, v: int|
        #![trigger ready_after(m, idx.subrange(0, i), v)]
        0 <= i < idx.len() && 0 <= v < idx[i] && !idx.subrange(0, i).contains(v as usize)
            ==> !ready_after(m, idx.subrange(0, i), v)
}

pub open spec fn plan_holds(m: Manifest, p: Plan) -> bool {
    let ms = m.members@;
    let order = p.order@;
    &&& order.len() == ms.len()
    &&& exists|idx: Seq<usize>|
        #[trigger] declaration_order(m, idx) && idx.len() == order.len() && forall|i: int|
            0 <= i < order.len() ==> (#[trigger] order[i])@ == ms[idx[i] as int].id@
    &&& forall|j: int| 0 <= j < ms.len() ==> #[trigger] lists_id(order, ms[j].id@)
    &&& forall|i: int| 0 <= i < order.len() ==> #[trigger] member_id(ms, order[i]@)
    &&& forall|a: int, b: int|
        0 <= a < ms.len() && 0 <= b < ms.len() && #[trigger] waits(m, a, b) ==> exists|i: int, j: int|
            0 <= i < j < order.len() && order[i]@ == ms[a].id@ && order[j]@ == ms[b].id@
    &&& p.gates@.len() == m.graph.guards@.len()
    &&& forall|k: int|
        0 <= k < p.gates@.len() ==> (#[trigger] p.gates@[k]).0@ == member_of(m.graph.guards@[k][0]@)
            && p.gates@[k].1@ == member_of(m.graph.guards@[k][1]@)
}

proof fn lemma_first_dot_unique(raw: Seq<char>, d: int, e: int)
    requires
        is_first_dot(raw, d),
        is_first_dot(raw, e),
    ensures
        d == e,
{
    if d < e {
        assert(raw[d] != '.');
    } else if e < d {
        assert(raw[e] != '.');
    }
}

/// The member an endpoint names.
fn member_part(raw: &str) -> (r: String)
    ensures
        r@ == member_of(raw@),
{
    let len = raw.unicode_len();
    let mut d: usize = 0;
    while d < len && raw.get_char(d) != '.'
        invariant
            0 <= d <= len,
            len == raw@.len(),
            forall|e: int| 0 <= e < d ==> raw@[e] != '.',
        decreases len - d,
    {
        d += 1;
    }
    if d == len {
        proof {
            assert forall|x: int| !is_first_dot(raw@, x) by {
                if is_first_dot(raw@, x) {
                    assert(raw@[x] != '.');
                }
            }
        }
        return raw.to_owned();
    }
    proof {
        assert(is_first_dot(raw@, d as int));
        let c = choose|x: int| is_first_dot(raw@, x);
        lemma_first_dot_unique(raw@, c, d as int);
    }
    let tail = raw.substring_char(d + 1, len);
    if same(tail, "artifact") || same(tail, "gate") || same(tail, "root") {
        raw.substring_char(0, d).to_owned()
    } else {
        raw.to_owned()
    }
}

/// The first member called `id`.
fn index_of(members: &Vec<Member>, id: &str) -> (r: Option<usize>)
    ensures
        r matches Some(i) ==> i < members@.len() && members@[i as int].id@ == id@,
        r is None ==> forall|i: int| 0 <= i < members@.len() ==> members@[i].id@ != id@,
        r matches Some(i) ==> forall|j: int| 0 <= j < i ==> members@[j].id@ != id@,
{
    let mut i: usize = 0;
    while i < members.len()
        invariant
            0 <= i <= members@.len(),
            forall|j: int| 0 <= j < i ==> members@[j].id@ != id@,
        decreases members@.len() - i,
    {
        if same(members[i].id.as_str(), id) {
            return Some(i);
        }
        i += 1;
    }
    None
}

/// Some listed pair runs from `x` to `y`.
pub open spec fn has_pair(v: Seq<(usize, usize)>, x: int, y: int) -> bool {
    exists|k: int| 0 <= k < v.len() && v[k].0 == x && v[k].1 == y
}

/// `v` is `pairs` with each endpoint replaced by the member it names.
pub open spec fn lowered(members: Seq<Member>, pairs: Seq<[String; 2]>, v: Seq<(usize, usize)>) -> bool {
    &&& v.len() == pairs.len()
    &&& pairs_resolve(members, pairs)
    &&& forall|k: int|
        0 <= k < v.len() ==> (#[trigger] v[k]).0 == index_spec(members, pairs[k][0]@) && v[k].1
            == index_spec(members, pairs[k][1]@) && v[k].0 < members.len() && v[k].1
            < members.len()
}

/// `edge` is the name of the kind whose pairs are `pairs`.
pub open spec fn kind_of(m: Manifest, edge: Seq<char>, pairs: Seq<[String; 2]>) -> bool {
    ||| edge == "seq"@ && pairs == m.graph.seq@
    ||| edge == "guards"@ && pairs == m.graph.guards@
    ||| edge == "needs"@ && pairs == m.graph.needs@
    ||| edge == "alt"@ && pairs == m.graph.alt@
    ||| edge == "cites"@ && pairs == m.graph.cites@
}

proof fn lemma_listed_is_pair(members: Seq<Member>, pairs: Seq<[String; 2]>, v: Seq<(usize, usize)>)
    requires
        lowered(members, pairs, v),
    ensures
        forall|x: int, y: int|
            #[trigger] listed(members, pairs, pairs.len() as int, x, y) <==> has_pair(v, x, y),
{
    assert forall|x: int, y: int|
        #[trigger] listed(members, pairs, pairs.len() as int, x, y) <==> has_pair(v, x, y) by {
        if listed(members, pairs, pairs.len() as int, x, y) {
            let k = choose|k: int|
                0 <= k < pairs.len() && index_spec(members, pairs[k][0]@) == x && index_spec(
                    members,
                    pairs[k][1]@,
                ) == y;
            assert(v[k].0 == x && v[k].1 == y);
        }
        if has_pair(v, x, y) {
            let k = choose|k: int| 0 <= k < v.len() && v[k].0 == x && v[k].1 == y;
            assert(v[k] == v[k]);
        }
    }
}

proof fn lemma_dotted(id: Seq<char>, tail: Seq<char>)
    requires
        forall|i: int| 0 <= i < id.len() ==> id[i] != '.',
        tail == "artifact"@ || tail == "gate"@ || tail == "root"@,
    ensures
        member_of(id + seq!['.'] + tail) == id,
{
    let raw = id + seq!['.'] + tail;
    let d = id.len() as int;
    assert(is_first_dot(raw, d));
    let c = choose|x: int| is_first_dot(raw, x);
    lemma_first_dot_unique(raw, c, d);
    assert(raw.subrange(d + 1, raw.len() as int) =~= tail);
    assert(raw.subrange(0, d) =~= id);
}

/// Naming a member by its artifact, its gate or its root names the member: for an id with no
/// dot in it, `id.artifact`, `id.gate`, `id.root` and `id` itself all resolve to `id`.
pub proof fn a_dotted_endpoint_names_the_member(id: Seq<char>)
    requires
        forall|i: int| 0 <= i < id.len() ==> id[i] != '.',
    ensures
        member_of(id + ".artifact"@) == id,
        member_of(id + ".gate"@) == id,
        member_of(id + ".root"@) == id,
        member_of(id) == id,
{
    reveal_strlit(".artifact");
    reveal_strlit(".gate");
    reveal_strlit(".root");
    reveal_strlit("artifact");
    reveal_strlit("gate");
    reveal_strlit("root");
    assert(".artifact"@ =~= seq!['.'] + "artifact"@);
    assert(".gate"@ =~= seq!['.'] + "gate"@);
    assert(".root"@ =~= seq!['.'] + "root"@);
    lemma_dotted(id, "artifact"@);
    lemma_dotted(id, "gate"@);
    lemma_dotted(id, "root"@);
    assert(id + ".artifact"@ =~= id + seq!['.'] + "artifact"@);
    assert(id + ".gate"@ =~= id + seq!['.'] + "gate"@);
    assert(id + ".root"@ =~= id + seq!['.'] + "root"@);
    assert forall|x: int| !is_first_dot(id, x) by {
        if is_first_dot(id, x) {
            assert(id[x] != '.');
        }
    }
}

/// Every refusal names a real defect: a manifest that is refused is not one that `plan`
/// accepts.
pub proof fn refusal_means_rejected(m: Manifest, e: Error)
    requires
        refusal(m, e),
    ensures
        !(org_valid(m) && org_acyclic(m)),
{
    let ms = m.members@;
    match e {
        Error::DuplicateMember(id) => {
            let (i, j) = choose|i: int, j: int|
                0 <= i < j < ms.len() && ms[i].id@ == ms[j].id@ && id@ == ms[j].id@;
            assert(!distinct_ids(ms));
        },
        Error::UnknownMember { edge, id } => {
            let pairs = if edge@ == "seq"@ && unresolved_in(ms, m.graph.seq@, id@) {
                m.graph.seq@
            } else if edge@ == "guards"@ && unresolved_in(ms, m.graph.guards@, id@) {
                m.graph.guards@
            } else if edge@ == "needs"@ && unresolved_in(ms, m.graph.needs@, id@) {
                m.graph.needs@
            } else if edge@ == "alt"@ && unresolved_in(ms, m.graph.alt@, id@) {
                m.graph.alt@
            } else {
                m.graph.cites@
            };
            let k = choose|k: int| 0 <= k < pairs.len() && (pairs[k][0]@ == id@ || pairs[k][1]@ == id@);
            assert(!pairs_resolve(ms, pairs));
        },
        Error::MissingGate { guards, target } => {
            let k = choose|k: int|
                0 <= k < m.graph.guards@.len() && resolves(ms, m.graph.guards@[k][0]@) && resolves(
                    ms,
                    m.graph.guards@[k][1]@,
                ) && ms[index_spec(ms, m.graph.guards@[k][0]@)].gate is None && guards@
                    == member_of(m.graph.guards@[k][0]@) && target@ == member_of(
                    m.graph.guards@[k][1]@,
                );
            assert(!gates_declared(m));
        },
        Error::MissingArtifact { needs, target } => {
            let k = choose|k: int|
                0 <= k < m.graph.needs@.len() && resolves(ms, m.graph.needs@[k][0]@) && resolves(
                    ms,
                    m.graph.needs@[k][1]@,
                ) && ms[index_spec(ms, m.graph.needs@[k][1]@)].artifact is None && needs@
                    == member_of(m.graph.needs@[k][0]@) && target@ == member_of(
                    m.graph.needs@[k][1]@,
                );
            assert(!artifacts_declared(m));
        },
        _ => {},
    }
}

/// Adds an edge from `a` to `b`.
fn push_edge(adj: &mut Vec<Vec<usize>>, a: usize, b: usize)
    requires
        a < old(adj)@.len(),
        b < old(adj)@.len(),
        targets_ok(old(adj)@),
    ensures
        final(adj)@.len() == old(adj)@.len(),
        targets_ok(final(adj)@),
        forall|x: int, y: usize|
            #![trigger final(adj)@[x]@.contains(y)]
            0 <= x < old(adj)@.len() ==> (final(adj)@[x]@.contains(y) <==> (old(adj)@[x]@.contains(y)
                || (x == a && y == b))),
{
    let ghost before = adj@;
    let mut row = adj.remove(a);
    row.push(b);
    let ghost nr = row;
    adj.insert(a, row);
    proof {
        assert(adj@ =~= before.update(a as int, nr));
        assert forall|x: int, k: int| 0 <= x < adj@.len() && 0 <= k < adj@[x]@.len() implies adj@[x]@[k]
            < adj@.len() by {
            if x != a {
                assert(adj@[x] == before[x]);
            } else if k < before[x]@.len() {
                assert(adj@[x]@[k] == before[x]@[k]);
            }
        }
        assert forall|x: int, y: usize| #![trigger adj@[x]@.contains(y)] 0 <= x < before.len() implies (adj@[x]@.contains(y) <==> (
        before[x]@.contains(y) || (x == a && y == b))) by {
            if x == a {
                assert(adj@[x]@ == before[x]@.push(b));
                lemma_push_contains(before[x]@, b, y);
            } else {
                assert(adj@[x] == before[x]);
            }
        }
    }
}

proof fn lemma_push_contains(s: Seq<usize>, b: usize, y: usize)
    ensures
        s.push(b).contains(y) <==> (s.contains(y) || y == b),
{
    let t = s.push(b);
    if s.contains(y) {
        let k = choose|k: int| 0 <= k < s.len() && s[k] == y;
        assert(t[k] == y);
    }
    if y == b {
        assert(t[s.len() as int] == y);
    }
    if t.contains(y) && y != b {
        let k = choose|k: int| 0 <= k < t.len() && t[k] == y;
        assert(k < s.len());
        assert(s[k] == y);
    }
}

/// An edge from `x` to `y` is listed in `v`, or from `y` to `x` when `reverse`.
pub open spec fn edge_in(v: Seq<(usize, usize)>, reverse: bool, x: int, y: int) -> bool {
    if reverse {
        has_pair(v, y, x)
    } else {
        has_pair(v, x, y)
    }
}

proof fn lemma_pairs_step(v: Seq<(usize, usize)>, k: int, reverse: bool)
    requires
        0 <= k < v.len(),
    ensures
        forall|x: int, y: int|
            #[trigger] edge_in(v.subrange(0, k + 1), reverse, x, y) <==> (edge_in(v.subrange(0, k), reverse, x, y)
                || (if reverse { x == v[k].1 && y == v[k].0 } else { x == v[k].0 && y == v[k].1 })),
{
    let s0 = v.subrange(0, k);
    let s1 = v.subrange(0, k + 1);
    assert forall|p: int, q: int| #[trigger] has_pair(s1, p, q) <==> (has_pair(s0, p, q) || (p == v[k].0 && q == v[k].1)) by {
        if has_pair(s1, p, q) {
            let j = choose|j: int| 0 <= j < s1.len() && s1[j].0 == p && s1[j].1 == q;
            if j < k {
                assert(s0[j] == s1[j]);
            }
        }
        if has_pair(s0, p, q) {
            let j = choose|j: int| 0 <= j < s0.len() && s0[j].0 == p && s0[j].1 == q;
            assert(s1[j] == s0[j]);
        }
        if p == v[k].0 && q == v[k].1 {
            assert(s1[k] == v[k]);
        }
    }
}

/// Adds an edge for every pair, or for every pair reversed.
fn add_edges(adj: &mut Vec<Vec<usize>>, v: &Vec<(usize, usize)>, reverse: bool)
    requires
        targets_ok(old(adj)@),
        forall|k: int| 0 <= k < v@.len() ==> (#[trigger] v@[k]).0 < old(adj)@.len() && v@[k].1 < old(adj)@.len(),
    ensures
        final(adj)@.len() == old(adj)@.len(),
        targets_ok(final(adj)@),
        forall|x: int, y: int|
            #![trigger final(adj)@[x]@.contains(y as usize)]
            0 <= x < old(adj)@.len() && 0 <= y < old(adj)@.len() ==> (final(adj)@[x]@.contains(y as usize)
                <==> (old(adj)@[x]@.contains(y as usize) || edge_in(v@, reverse, x, y))),
{
    let n = adj.len();
    let ghost start = adj@;
    let mut k: usize = 0;
    while k < v.len()
        invariant
            0 <= k <= v@.len(),
            n == adj@.len(),
            n == start.len(),
            targets_ok(adj@),
            forall|j: int| 0 <= j < v@.len() ==> (#[trigger] v@[j]).0 < n && v@[j].1 < n,
            forall|x: int, y: int|
                #![trigger adj@[x]@.contains(y as usize)]
                0 <= x < n && 0 <= y < n ==> (adj@[x]@.contains(y as usize) <==> (start[x]@.contains(
                    y as usize,
                ) || edge_in(v@.subrange(0, k as int), reverse, x, y))),
        decreases v@.len() - k,
    {
        let (a, b) = v[k];
        let ghost before = adj@;
        if reverse {
            push_edge(adj, b, a);
        } else {
            push_edge(adj, a, b);
        }
        proof {
            lemma_pairs_step(v@, k as int, reverse);
            assert forall|x: int, y: int| #![trigger adj@[x]@.contains(y as usize)] 0 <= x < n && 0 <= y < n implies (adj@[x]@.contains(y as usize) <==> (start[x]@.contains(
                    y as usize,
                ) || edge_in(v@.subrange(0, k + 1), reverse, x, y))) by {
                assert(adj@[x]@.contains(y as usize) <==> (before[x]@.contains(y as usize) || (if reverse { x == b && y == a } else { x == a && y == b })));
                assert(edge_in(v@.subrange(0, k + 1), reverse, x, y) <==> (edge_in(v@.subrange(0, k as int), reverse, x, y)
                || (if reverse { x == v@[k as int].1 && y == v@[k as int].0 } else { x == v@[k as int].0 && y == v@[k as int].1 })));
            }
        }
        k += 1;
    }
    proof {
        assert(v@.subrange(0, v@.len() as int) =~= v@);
    }
}

fn empty_graph(n: usize) -> (g: Vec<Vec<usize>>)
    ensures
        g@.len() == n,
        targets_ok(g@),
        forall|x: int, y: usize| 0 <= x < n ==> !(#[trigger] g@[x]@.contains(y)),
{
    let mut g: Vec<Vec<usize>> = Vec::new();
    let mut i: usize = 0;
    while i < n
        invariant
            0 <= i <= n,
            g@.len() == i,
            forall|x: int| 0 <= x < i ==> (#[trigger] g@[x])@.len() == 0,
        decreases n - i,
    {
        g.push(Vec::new());
        i += 1;
    }
    g
}

/// The obligation graph's edges are exactly the waits relation, so one is acyclic when the
/// other is.
proof fn lemma_graph_is_waits(m: Manifest, g: Seq<Vec<usize>>)
    requires
        g.len() == m.members@.len(),
        g.len() <= usize::MAX,
        targets_ok(g),
        forall|x: int, y: int|
            #![trigger g[x]@.contains(y as usize)]
            #![trigger waits(m, x, y)]
            0 <= x < g.len() && 0 <= y < g.len() ==> (g[x]@.contains(y as usize) <==> waits(m, x, y)),
    ensures
        acyclic(g) <==> org_acyclic(m),
{
    let n = g.len();
    if acyclic(g) {
        let rank = choose|rank: Seq<int>| ranked(g, rank);
        assert forall|a: int, b: int| 0 <= a < n && 0 <= b < n && #[trigger] waits(m, a, b) implies rank[a]
            < rank[b] by {
            assert(g[a]@.contains(b as usize));
            let k = choose|k: int| 0 <= k < g[a]@.len() && g[a]@[k] == b as usize;
            assert(rank[a] < rank[g[a]@[k] as int]);
        }
        assert(ranks(m, rank));
    }
    if org_acyclic(m) {
        let rank = choose|rank: Seq<int>| ranks(m, rank);
        assert forall|a: int, k: int| 0 <= a < n && 0 <= k < g[a]@.len() implies rank[a] < rank[g[a]@[
            k] as int] by {
            let b = g[a]@[k] as int;
            assert(g[a]@.contains(b as usize));
            assert(waits(m, a, b));
        }
        assert(ranked(g, rank));
    }
}

/// An ordering without repeats of `n` nodes holds every node.
proof fn lemma_covers(o: Seq<usize>, n: int)
    requires
        o.len() == n,
        o.no_duplicates(),
        forall|i: int| 0 <= i < o.len() ==> o[i] < n,
    ensures
        forall|v: usize| 0 <= v < n ==> #[trigger] o.contains(v),
{
    let ints = o.map_values(|x: usize| x as int);
    assert(ints.no_duplicates()) by {
        assert forall|i: int, j: int| 0 <= i < ints.len() && 0 <= j < ints.len() && i != j implies ints[i]
            != ints[j] by {
            assert(o[i] != o[j]);
        }
    }
    ints.unique_seq_to_set();
    vstd::set_lib::lemma_int_range(0, n);
    assert(ints.to_set().subset_of(vstd::set_lib::set_int_range(0, n))) by {
        assert forall|x: int| ints.to_set().contains(x) implies vstd::set_lib::set_int_range(0, n).contains(
            x,
        ) by {
            let i = choose|i: int| 0 <= i < ints.len() && ints[i] == x;
            assert(o[i] < n);
        }
    }
    vstd::set_lib::lemma_subset_equality(ints.to_set(), vstd::set_lib::set_int_range(0, n));
    assert forall|v: usize| 0 <= v < n implies #[trigger] o.contains(v) by {
        assert(vstd::set_lib::set_int_range(0, n).contains(v as int));
        assert(ints.to_set().contains(v as int));
        let i = choose|i: int| 0 <= i < ints.len() && ints[i] == v as int;
        assert(o[i] == v);
    }
}

impl Manifest {
    /// Member ids in declaration order.
    pub fn ids(&self) -> (r: Vec<&str>)
        ensures
            r@.len() == self.members@.len(),
            forall|i: int| 0 <= i < r@.len() ==> (#[trigger] r@[i])@ == self.members@[i].id@,
    {
        let mut out: Vec<&str> = Vec::new();
        let mut i: usize = 0;
        while i < self.members.len()
            invariant
                0 <= i <= self.members@.len(),
                out@.len() == i,
                forall|j: int| 0 <= j < i ==> (#[trigger] out@[j])@ == self.members@[j].id@,
            decreases self.members@.len() - i,
        {
            out.push(self.members[i].id.as_str());
            i += 1;
        }
        out
    }

    /// The member an endpoint names, or the refusal that names the edge kind and the endpoint.
    fn resolve(&self, raw: &String, edge: &'static str) -> (r: Result<usize, Error>)
        requires
            distinct_ids(self.members@),
        ensures
            r matches Ok(i) ==> names(self.members@, i as int, raw@) && i == index_spec(
                self.members@,
                raw@,
            ) && resolves(self.members@, raw@),
            r matches Err(e) ==> !resolves(self.members@, raw@) && (e matches Error::UnknownMember {
                edge: e2,
                id,
            } && e2@ == edge@ && id@ == raw@),
    {
        let id = member_part(raw.as_str());
        match index_of(&self.members, id.as_str()) {
            Some(i) => {
                proof {
                    let ms = self.members@;
                    assert(names(ms, i as int, raw@));
                    let c = index_spec(ms, raw@);
                    assert(names(ms, c, raw@));
                    if c < i {
                        assert(ms[c].id@ != ms[i as int].id@);
                    } else if i < c {
                        assert(ms[i as int].id@ != ms[c].id@);
                    }
                }
                Ok(i)
            },
            None => {
                proof {
                    assert forall|i: int| !names(self.members@, i, raw@) by {}
                }
                Err(Error::UnknownMember { edge, id: raw.clone() })
            },
        }
    }

    /// Resolves every pair of one edge kind, in order, checking as it goes that a guarding
    /// member declares a gate (`need == 1`) or that a needed member declares an artifact
    /// (`need == 2`).
    #[verifier::rlimit(40)]
    fn lower(&self, pairs: &Vec<[String; 2]>, edge: &'static str, need: u8) -> (r: Result<
        Vec<(usize, usize)>,
        Error,
    >)
        requires
            self.members@.len() > 0,
            distinct_ids(self.members@),
            kind_of(*self, edge@, pairs@),
            need == 1 ==> pairs@ == self.graph.guards@,
            need == 2 ==> pairs@ == self.graph.needs@,
        ensures
            r matches Ok(v) ==> lowered(self.members@, pairs@, v@),
            r is Ok && need == 1 ==> gates_declared(*self),
            r is Ok && need == 2 ==> artifacts_declared(*self),
            r matches Err(e) ==> refusal(*self, e),
    {
        let ghost ms = self.members@;
        let mut v: Vec<(usize, usize)> = Vec::new();
        let mut k: usize = 0;
        while k < pairs.len()
            invariant
                0 <= k <= pairs@.len(),
                ms == self.members@,
                ms.len() > 0,
                distinct_ids(ms),
                kind_of(*self, edge@, pairs@),
                need == 1 ==> pairs@ == self.graph.guards@,
                need == 2 ==> pairs@ == self.graph.needs@,
                lowered(ms, pairs@.subrange(0, k as int), v@),
                need == 1 ==> forall|j: int|
                    0 <= j < k ==> (#[trigger] ms[index_spec(ms, pairs@[j][0]@)]).gate is Some,
                need == 2 ==> forall|j: int|
                    0 <= j < k ==> (#[trigger] ms[index_spec(ms, pairs@[j][1]@)]).artifact is Some,
            decreases pairs@.len() - k,
        {
            let a = match self.resolve(&pairs[k][0], edge) {
                Ok(i) => i,
                Err(e) => {
                    proof {
                        assert(unresolved_in(ms, pairs@, pairs@[k as int][0]@));
                    }
                    return Err(e);
                },
            };
            let b = match self.resolve(&pairs[k][1], edge) {
                Ok(i) => i,
                Err(e) => {
                    proof {
                        assert(unresolved_in(ms, pairs@, pairs@[k as int][1]@));
                    }
                    return Err(e);
                },
            };
            if need == 1 && self.members[a].gate.is_none() {
                return Err(
                    Error::MissingGate {
                        guards: self.members[a].id.clone(),
                        target: self.members[b].id.clone(),
                    },
                );
            }
            if need == 2 && self.members[b].artifact.is_none() {
                return Err(
                    Error::MissingArtifact {
                        needs: self.members[a].id.clone(),
                        target: self.members[b].id.clone(),
                    },
                );
            }
            let ghost before = v@;
            v.push((a, b));
            proof {
                let s1 = pairs@.subrange(0, k + 1);
                let s0 = pairs@.subrange(0, k as int);
                assert forall|j: int| 0 <= j < s1.len() implies resolves(ms, s1[j][0]@) && resolves(
                    ms,
                    s1[j][1]@,
                ) by {
                    if j < k {
                        assert(s1[j] == s0[j]);
                    }
                }
                assert forall|j: int| 0 <= j < v@.len() implies (#[trigger] v@[j]).0 == index_spec(
                    ms,
                    s1[j][0]@,
                ) && v@[j].1 == index_spec(ms, s1[j][1]@) && v@[j].0 < ms.len() && v@[j].1
                    < ms.len() by {
                    if j < k {
                        assert(s1[j] == s0[j]);
                        assert(v@[j] == before[j]);
                    }
                }
            }
            k += 1;
        }
        proof {
            assert(pairs@.subrange(0, pairs@.len() as int) =~= pairs@);
        }
        Ok(v)
    }

    /// No two members share an id.
    fn check_distinct(&self) -> (r: Result<(), Error>)
        requires
            self.members@.len() > 0,
        ensures
            r is Ok <==> distinct_ids(self.members@),
            r matches Err(e) ==> refusal(*self, e),
    {
        let n = self.members.len();
        let ghost ms = self.members@;
        let mut i: usize = 1;
        while i < n
            invariant
                1 <= i <= n,
                n == ms.len(),
                ms == self.members@,
                forall|x: int, y: int| 0 <= x < y < i ==> ms[x].id@ != ms[y].id@,
            decreases n - i,
        {
            let mut j: usize = 0;
            while j < i
                invariant
                    0 <= j <= i,
                    i < n,
                    n == ms.len(),
                    ms == self.members@,
                    forall|x: int| 0 <= x < j ==> ms[x].id@ != ms[i as int].id@,
                decreases i - j,
            {
                if same(self.members[j].id.as_str(), self.members[i].id.as_str()) {
                    let id = self.members[i].id.clone();
                    proof {
                        assert(ms[j as int].id@ == ms[i as int].id@ && id@ == ms[i as int].id@);
                        assert(!distinct_ids(ms));
                    }
                    return Err(Error::DuplicateMember(id));
                }
                j += 1;
            }
            i += 1;
        }
        Ok(())
    }

    /// Checks every edge endpoint, every required artifact and gate, and that nobody waits on
    /// themselves around a ring; then orders the members so that everything a member waits on
    /// comes before it, ties going to the member declared first.
    ///
    /// The container accepts every organization, deadlocked or not, so if this does not refuse
    /// a circular approval chain nothing will.
    #[verifier::rlimit(60)]
    pub fn plan(&self) -> (r: Result<Plan, Error>)
        ensures
            r is Ok <==> org_valid(*self) && org_acyclic(*self),
            r matches Ok(p) ==> plan_holds(*self, p),
            r matches Err(e) ==> refusal(*self, e),
    {
        let n = self.members.len();
        if n == 0 {
            return Err(Error::NoMembers);
        }
        match self.check_distinct() {
            Ok(()) => {},
            Err(e) => {
                proof {
                    refusal_means_rejected(*self, e);
                }
                return Err(e);
            },
        }
        let ghost ms = self.members@;
        let seq = match self.lower(&self.graph.seq, "seq", 0) {
            Ok(v) => v,
            Err(e) => {
                proof {
                    refusal_means_rejected(*self, e);
                }
                return Err(e);
            },
        };
        let guards = match self.lower(&self.graph.guards, "guards", 1) {
            Ok(v) => v,
            Err(e) => {
                proof {
                    refusal_means_rejected(*self, e);
                }
                return Err(e);
            },
        };
        let needs = match self.lower(&self.graph.needs, "needs", 2) {
            Ok(v) => v,
            Err(e) => {
                proof {
                    refusal_means_rejected(*self, e);
                }
                return Err(e);
            },
        };
        match self.lower(&self.graph.alt, "alt", 0) {
            Ok(_) => {},
            Err(e) => {
                proof {
                    refusal_means_rejected(*self, e);
                }
                return Err(e);
            },
        }
        match self.lower(&self.graph.cites, "cites", 0) {
            Ok(_) => {},
            Err(e) => {
                proof {
                    refusal_means_rejected(*self, e);
                }
                return Err(e);
            },
        }
        proof {
            assert(org_valid(*self));
            lemma_listed_is_pair(ms, self.graph.seq@, seq@);
            lemma_listed_is_pair(ms, self.graph.guards@, guards@);
            lemma_listed_is_pair(ms, self.graph.needs@, needs@);
        }
        // Three relations order members and they go in one graph: `seq` hands the pipeline on,
        // `needs` waits for an artifact, and a gate is evaluated before entry, so it runs ahead
        // of what it gates.
        let mut obligation = empty_graph(n);
        add_edges(&mut obligation, &seq, false);
        add_edges(&mut obligation, &guards, false);
        add_edges(&mut obligation, &needs, true);
        proof {
            assert forall|x: int, y: int|
                #![trigger obligation@[x]@.contains(y as usize)]
                #![trigger waits(*self, x, y)]
                0 <= x < n && 0 <= y < n implies (
            obligation@[x]@.contains(y as usize) <==> waits(*self, x, y)) by {
                assert(listed(ms, self.graph.seq@, self.graph.seq@.len() as int, x, y) <==> has_pair(seq@, x, y));
                assert(listed(ms, self.graph.guards@, self.graph.guards@.len() as int, x, y) <==> has_pair(guards@, x, y));
                assert(listed(ms, self.graph.needs@, self.graph.needs@.len() as int, y, x) <==> has_pair(needs@, y, x));
            }
            lemma_graph_is_waits(*self, obligation@);
        }
        let gates = self.gate_pairs(&guards);
        match topological(&obligation) {
            Ok(order) => {
                let ids = self.ids_in(&order);
                proof {
                    self.lemma_order_holds(obligation@, order@, ids@);
                    assert(declaration_order(*self, order@));
                }
                Ok(Plan { order: ids, gates })
            },
            Err(_) => {
                let c = cycle(&obligation);
                let path = self.ids_in(&c);
                proof {
                    assert forall|i: int| 0 <= i < path@.len() - 1 implies exists|a: int, b: int|
                        0 <= a < ms.len() && 0 <= b < ms.len() && waits(*self, a, b) && ms[a].id@ == (
                        #[trigger] path@[i])@ && ms[b].id@ == path@[i + 1]@ by {
                        let a = c@[i] as int;
                        let b = c@[i + 1] as int;
                        assert(obligation@[a]@.contains(c@[i + 1]));
                        assert(waits(*self, a, b));
                    }
                    assert(path@[0]@ == ms[c@[0] as int].id@);
                    assert(path@.last()@ == ms[c@.last() as int].id@);
                    assert(cycle_path(*self, path@));
                    assert(!org_acyclic(*self));
                }
                if self.graph.guards.len() == 0 {
                    Err(Error::SeqCycle(path))
                } else {
                    Err(Error::ApprovalCycle(path))
                }
            },
        }
    }

    /// The `(guard, guarded)` pairs by member id.
    fn gate_pairs(&self, guards: &Vec<(usize, usize)>) -> (r: Vec<(String, String)>)
        requires
            lowered(self.members@, self.graph.guards@, guards@),
        ensures
            r@.len() == self.graph.guards@.len(),
            forall|k: int|
                0 <= k < r@.len() ==> (#[trigger] r@[k]).0@ == member_of(self.graph.guards@[k][0]@)
                    && r@[k].1@ == member_of(self.graph.guards@[k][1]@),
    {
        let ghost ms = self.members@;
        let mut out: Vec<(String, String)> = Vec::new();
        let mut k: usize = 0;
        while k < guards.len()
            invariant
                0 <= k <= guards@.len(),
                ms == self.members@,
                lowered(ms, self.graph.guards@, guards@),
                out@.len() == k,
                forall|j: int|
                    0 <= j < k ==> (#[trigger] out@[j]).0@ == member_of(self.graph.guards@[j][0]@)
                        && out@[j].1@ == member_of(self.graph.guards@[j][1]@),
            decreases guards@.len() - k,
        {
            let (a, b) = guards[k];
            proof {
                let p = self.graph.guards@[k as int];
                assert(resolves(ms, p[0]@));
                assert(resolves(ms, p[1]@));
                assert(names(ms, index_spec(ms, p[0]@), p[0]@));
                assert(names(ms, index_spec(ms, p[1]@), p[1]@));
            }
            out.push((self.members[a].id.clone(), self.members[b].id.clone()));
            k += 1;
        }
        out
    }

    /// The ids of the members at the given indices.
    fn ids_in(&self, order: &Vec<usize>) -> (r: Vec<String>)
        requires
            forall|i: int| 0 <= i < order@.len() ==> order@[i] < self.members@.len(),
        ensures
            r@.len() == order@.len(),
            forall|i: int| 0 <= i < r@.len() ==> (#[trigger] r@[i])@ == self.members@[order@[i] as int].id@,
    {
        let mut out: Vec<String> = Vec::new();
        let mut q: usize = 0;
        while q < order.len()
            invariant
                0 <= q <= order@.len(),
                forall|i: int| 0 <= i < order@.len() ==> order@[i] < self.members@.len(),
                out@.len() == q,
                forall|i: int| 0 <= i < q ==> (#[trigger] out@[i])@ == self.members@[order@[i] as int].id@,
            decreases order@.len() - q,
        {
            out.push(self.members[order[q]].id.clone());
            q += 1;
        }
        out
    }

    proof fn lemma_order_holds(&self, g: Seq<Vec<usize>>, order: Seq<usize>, ids: Seq<String>)
        requires
            g.len() == self.members@.len(),
            g.len() <= usize::MAX,
            forall|x: int, y: int|
                #![trigger g[x]@.contains(y as usize)]
                #![trigger waits(*self, x, y)]
                0 <= x < g.len() && 0 <= y < g.len() ==> (g[x]@.contains(y as usize) <==> waits(*self, x, y)),
            kahn_order(g, order),
            ids.len() == order.len(),
            forall|i: int| 0 <= i < ids.len() ==> (#[trigger] ids[i])@ == self.members@[order[i] as int].id@,
        ensures
            ids.len() == self.members@.len(),
            forall|j: int| 0 <= j < self.members@.len() ==> #[trigger] lists_id(ids, self.members@[j].id@),
            forall|i: int| 0 <= i < ids.len() ==> #[trigger] member_id(self.members@, ids[i]@),
            forall|a: int, b: int|
                0 <= a < self.members@.len() && 0 <= b < self.members@.len() && #[trigger] waits(*self, a, b) ==> exists|i: int, j: int|
                    0 <= i < j < ids.len() && ids[i]@ == self.members@[a].id@ && ids[j]@ == self.members@[b].id@,
            declaration_order(*self, order),
    {
        let ms = self.members@;
        let n = g.len() as int;
        assert forall|p: Seq<usize>, v: int| 0 <= v < n implies (preds_in(g, p, v) <==> ready_after(
            *self,
            p,
            v,
        )) by {
            if preds_in(g, p, v) {
                assert forall|a: int| 0 <= a < ms.len() && #[trigger] waits(*self, a, v) implies p.contains(
                    a as usize,
                ) by {
                    assert(g[a]@.contains(v as usize));
                    let k = choose|k: int| 0 <= k < g[a]@.len() && g[a]@[k] == v as usize;
                }
            }
            if ready_after(*self, p, v) {
                assert forall|a: int, k: int|
                    0 <= a < g.len() && 0 <= k < g[a]@.len() && g[a]@[k] == v implies p.contains(
                        a as usize,
                    ) by {
                    assert(g[a]@.contains(v as usize));
                    assert(waits(*self, a, v));
                }
            }
        }
        assert forall|i: int| 0 <= i < order.len() implies ready_after(
            *self,
            order.subrange(0, i),
            #[trigger] order[i] as int,
        ) by {
            assert(preds_in(g, order.subrange(0, i), order[i] as int));
        }
        assert forall|i: int, v: int|
            #![trigger ready_after(*self, order.subrange(0, i), v)]
            0 <= i < order.len() && 0 <= v < order[i] && !order.subrange(0, i).contains(
                v as usize,
            ) implies !ready_after(*self, order.subrange(0, i), v) by {
            assert(!preds_in(g, order.subrange(0, i), v));
        }
        lemma_covers(order, n);
        assert forall|j: int| 0 <= j < ms.len() implies #[trigger] lists_id(ids, ms[j].id@) by {
            assert(order.contains(j as usize));
            let i = choose|i: int| 0 <= i < order.len() && order[i] == j as usize;
            assert(ids[i]@ == ms[j].id@);
        }
        assert forall|i: int| 0 <= i < ids.len() implies #[trigger] member_id(ms, ids[i]@) by {
            assert(ids[i]@ == ms[order[i] as int].id@);
        }
        assert forall|a: int, b: int|
            0 <= a < ms.len() && 0 <= b < ms.len() && #[trigger] waits(*self, a, b) implies exists|i: int, j: int|
                0 <= i < j < ids.len() && ids[i]@ == ms[a].id@ && ids[j]@ == ms[b].id@ by {
            assert(g[a]@.contains(b as usize));
            let k = choose|k: int| 0 <= k < g[a]@.len() && g[a]@[k] == b as usize;
            assert(order.contains(b as usize));
            let j = choose|j: int| 0 <= j < order.len() && order[j] == b as usize;
            assert(preds_in(g, order.subrange(0, j), order[j] as int));
            assert(order.subrange(0, j).contains(a as usize));
            let i = choose|i: int| 0 <= i < j && order.subrange(0, j)[i] == a as usize;
            assert(order[i] == a as usize);
            assert(ids[i]@ == ms[a].id@);
            assert(ids[j]@ == ms[b].id@);
        }
    }
}

/// Checks a manifest and reports what it would emit: the members in pipeline order and the
/// gates between them.
pub fn describe(manifest: &Manifest) -> (r: Result<Plan, Error>)
    ensures
        r is Ok <==> org_valid(*manifest) && org_acyclic(*manifest),
        r matches Ok(p) ==> plan_holds(*manifest, p),
        r matches Err(e) ==> refusal(*manifest, e),
{
    manifest.plan()
}

/// A node slot is empty or names a node of a builder with `len` nodes.
pub open spec fn below(s: Option<NodeId>, len: int) -> bool {
    match s {
        Some(id) => id.index() < len,
        None => true,
    }
}

/// ALT ordinals must be unique per source; the others are positional and wrap harmlessly.
fn ord(i: usize) -> (r: u8)
    ensures
        r == i % 256,
{
    (i % 256) as u8
}

/// The compiled document for member `id`, if one was supplied.
fn doc_for<'a>(docs: &'a Vec<(String, Document)>, id: &str) -> (r: Option<&'a Document>)
    ensures
        r is None <==> forall|i: int| 0 <= i < docs@.len() ==> (#[trigger] docs@[i]).0@ != id@,
        r matches Some(d) ==> exists|i: int|
            0 <= i < docs@.len() && (#[trigger] docs@[i]).0@ == id@ && *d == docs@[i].1 && forall|
                j: int,
            | 0 <= j < i ==> (#[trigger] docs@[j]).0@ != id@,
{
    let mut i: usize = 0;
    while i < docs.len()
        invariant
            0 <= i <= docs@.len(),
            forall|j: int| 0 <= j < i ==> (#[trigger] docs@[j]).0@ != id@,
        decreases docs@.len() - i,
    {
        if same(docs[i].0.as_str(), id) {
            return Some(&docs[i].1);
        }
        i += 1;
    }
    None
}

/// A member's own top-level skill: its routing entry, its root, and its compiled document.
fn member_node(b: &mut Builder, name: &str, desc: &str, doc: Option<&Document>) -> (r: NodeId)
    requires
        old(b).wf(),
        old(b).well_shaped(),
    ensures
        final(b).wf(),
        final(b).well_shaped(),
        final(b).vector_count() == old(b).vector_count(),
        r.index() == old(b).len(),
        final(b).len() > r.index(),
        final(b).node(r.index() as int).tier == Tier::Routing,
        final(b).skills() == old(b).skills().push((name@, desc@, r.index())),
        final(b).spec_profile() == old(b).spec_profile(),
{
    let ghost a2 = *b;
    let r = b.add_skill(name, desc);
    proof {
        lemma_skill_keeps_shape(a2, *b, name@, desc@);
    }
    let ghost a3 = *b;
    b.set_role(r, ROLE_ORG_MEMBER);
    proof {
        lemma_relabel_keeps_shape(a3, *b);
    }
    match doc {
        Some(d) => {
            build_into(b, r, d);
        },
        None => {},
    }
    r
}

/// A member's artifact or gate: a body-tier child of its root, labelled and holding `text`.
fn member_part_node(b: &mut Builder, r: NodeId, kind: Kind, role: u16, label: &str, text: &str) -> (id: NodeId)
    requires
        old(b).wf(),
        old(b).well_shaped(),
        r.index() < old(b).len(),
        old(b).node(r.index() as int).tier == Tier::Routing,
    ensures
        final(b).wf(),
        final(b).well_shaped(),
        final(b).vector_count() == old(b).vector_count(),
        final(b).len() == old(b).len() + 1,
        id.index() == old(b).len(),
        final(b).skills() == old(b).skills(),
        final(b).node(r.index() as int).tier == Tier::Routing,
{
    let ghost a4 = *b;
    let id = b.child(r, kind, Tier::Body, role, Some(label), crate::text::to_vec(text.as_bytes()), 0);
    proof {
        lemma_child_keeps_shape(a4, *b);
    }
    id
}

/// Emits the container: routing entry 0 is the organization itself, then each member in
/// pipeline order with its artifact and gate, then the edges between them.
///
/// `docs` supplies each member's compiled document by member id; resolving those from disk or
/// out of a library is the caller's business. `vectors` are embeddings given as the bit
/// patterns of their `f32` components.
pub fn compile(
    manifest: &Manifest,
    docs: &Vec<(String, Document)>,
    profile: Profile,
    dict: Option<&Dictionary>,
    vectors: Vec<Vec<u32>>,
) -> (r: Result<Vec<u8>, Error>)
    ensures
        r is Ok ==> org_valid(*manifest) && org_acyclic(*manifest),
        !(org_valid(*manifest) && org_acyclic(*manifest)) ==> (r matches Err(e) && refusal(
            *manifest,
            e,
        )),
        r matches Err(e) ==> (e is Build || refusal(*manifest, e)),
        vectors@.len() == 0 ==> (r matches Err(Error::Build(e)) ==> size_refusal(e)),
        r matches Ok(bytes) ==> file_front_ok(bytes@) && exists|skills: Seq<(Seq<char>, Seq<char>, nat)>|
            #[trigger] lists_skills(bytes@, skills) && skills.len() == manifest.members@.len() + 1
                && skills[0].0 == manifest.name@ && skills[0].1 == manifest.description@,
{
    let plan = manifest.plan()?;
    let mut b = Builder::bundle().profile(profile);
    if vectors.len() > 0 {
        b = b.vectors(vectors);
    }
    match dict {
        Some(d) => {
            b = b.dictionary(d.clone());
        },
        None => {},
    }
    let ghost vc = b.vector_count();
    assert(vectors@.len() == 0 ==> vc == 0);
    proof {
        lemma_root_alone_shaped(b);
    }
    // Routing entry 0 holds the organization's own name and description.
    let ghost a0 = b;
    let charter = b.add_skill(manifest.name.as_str(), manifest.description.as_str());
    proof {
        lemma_skill_keeps_shape(a0, b, manifest.name@, manifest.description@);
    }
    let ghost a1 = b;
    b.set_role(charter, ROLE_ORG_CHARTER);
    proof {
        lemma_relabel_keeps_shape(a1, b);
    }
    let n = manifest.members.len();
    // Per member, by declaration index: its root, its artifact node, its gate node.
    let mut root: Vec<Option<NodeId>> = Vec::new();
    let mut artifact: Vec<Option<NodeId>> = Vec::new();
    let mut gate: Vec<Option<NodeId>> = Vec::new();
    let mut i: usize = 0;
    while i < n
        invariant
            0 <= i <= n,
            root@.len() == i,
            artifact@.len() == i,
            gate@.len() == i,
            forall|x: int| 0 <= x < i ==> root@[x] is None && artifact@[x] is None && gate@[x] is None,
        decreases n - i,
    {
        root.push(None);
        artifact.push(None);
        gate.push(None);
        i += 1;
    }
    let mut q: usize = 0;
    while q < plan.order.len()
        invariant
            0 <= q <= plan.order@.len(),
            n == manifest.members@.len(),
            b.wf(),
            b.len() >= 1,
            root@.len() == n,
            artifact@.len() == n,
            gate@.len() == n,
            forall|x: int| 0 <= x < n ==> below(#[trigger] root@[x], b.len() as int),
            forall|x: int| 0 <= x < n ==> below(#[trigger] artifact@[x], b.len() as int),
            forall|x: int| 0 <= x < n ==> below(#[trigger] gate@[x], b.len() as int),
            plan_holds(*manifest, plan),
            b.skills().len() == 1 + q,
            b.skills()[0].0 == manifest.name@,
            b.skills()[0].1 == manifest.description@,
            b.well_shaped(),
            b.vector_count() == vc,
        decreases plan.order@.len() - q,
    {
        let m = match index_of(&manifest.members, plan.order[q].as_str()) {
            Some(m) => m,
            None => {
                proof {
                    assert(member_id(manifest.members@, plan.order@[q as int]@));
                }
                q += 1;
                continue;
            },
        };
        let member = &manifest.members[m];
        let doc = doc_for(docs, member.id.as_str());
        let name: String = match doc {
            Some(d) => match d.get("name") {
                Some(v) => v.to_owned(),
                None => member.id.clone(),
            },
            None => member.id.clone(),
        };
        let desc: String = match doc {
            Some(d) => match d.get("description") {
                Some(v) => v.to_owned(),
                None => String::new(),
            },
            None => String::new(),
        };
        let r = member_node(&mut b, name.as_str(), desc.as_str(), doc);
        match &member.artifact {
            Some(text) => {
                let id = member_part_node(&mut b, r, Kind::Binding, ROLE_ORG_ARTIFACT, "artifact", text.as_str());
                artifact.set(m, Some(id));
            },
            None => {},
        }
        match &member.gate {
            Some(text) => {
                let id = member_part_node(&mut b, r, Kind::Contract, ROLE_ORG_GATE, "gate", text.as_str());
                gate.set(m, Some(id));
            },
            None => {},
        }
        root.set(m, Some(r));
        q += 1;
    }
    let g = &manifest.graph;
    emit_edges(&mut b, manifest, &g.seq, EdgeKind::Sequence, &root, &root);


    // A need points at the artifact node: only a Binding may be needed.
    emit_edges(&mut b, manifest, &g.needs, EdgeKind::Needs, &root, &artifact);

    // A guards edge leaves from the member's gate node, which is what refuses.
    emit_edges(&mut b, manifest, &g.guards, EdgeKind::Guards, &gate, &root);
    emit_edges(&mut b, manifest, &g.alt, EdgeKind::Alt, &root, &root);

    emit_edges(&mut b, manifest, &g.cites, EdgeKind::Cites, &root, &root);
    let ghost skills = b.skills();
    proof {
        assert(b.well_shaped());
        assert(b.vector_count() == vc);
        assert(skills.len() == manifest.members@.len() + 1);
        assert(skills[0].0 == manifest.name@);
    }
    match b.build() {
        Ok(bytes) => {
            proof {
                assert(lists_skills(bytes@, skills));
            }
            Ok(bytes)
        },
        Err(e) => Err(Error::Build(e)),
    }
}

/// Member `x` is the first whose id is `id`.
spec fn first_member(members: Seq<Member>, id: Seq<char>, x: int) -> bool {
    &&& 0 <= x < members.len()
    &&& members[x].id@ == id
    &&& forall|j: int| 0 <= j < x ==> (#[trigger] members[j]).id@ != id
}

/// The member an id names: the first with that id.
spec fn member_index(members: Seq<Member>, id: Seq<char>) -> Option<int> {
    if exists|x: int| first_member(members, id, x) {
        Some(choose|x: int| first_member(members, id, x))
    } else {
        None
    }
}

proof fn lemma_first_member(members: Seq<Member>, id: Seq<char>, x: int)
    requires
        first_member(members, id, x),
    ensures
        member_index(members, id) == Some(x),
{
    let y = choose|y: int| first_member(members, id, y);
    if y < x {
        assert(members[y].id@ != id);
    } else if y > x {
        assert(members[x].id@ != id);
    }
}

/// The node that pair `i` leaves from, when both its members resolve to nodes.
spec fn pair_source(
    members: Seq<Member>,
    pairs: Seq<[String; 2]>,
    from: Seq<Option<NodeId>>,
    to: Seq<Option<NodeId>>,
    i: int,
) -> Option<nat> {
    match (
        member_index(members, member_of(pairs[i][0]@)),
        member_index(members, member_of(pairs[i][1]@)),
    ) {
        (Some(x), Some(y)) => match (from[x], to[y]) {
            (Some(s), Some(_)) => Some(s.index()),
            _ => None,
        },
        _ => None,
    }
}

/// How many of the first `n` pairs leave from node `q`.
spec fn edges_from(
    members: Seq<Member>,
    pairs: Seq<[String; 2]>,
    from: Seq<Option<NodeId>>,
    to: Seq<Option<NodeId>>,
    q: nat,
    n: int,
) -> nat
    decreases n,
{
    if n <= 0 {
        0
    } else {
        edges_from(members, pairs, from, to, q, n - 1) + if pair_source(
            members,
            pairs,
            from,
            to,
            n - 1,
        ) == Some(q) {
            1nat
        } else {
            0nat
        }
    }
}

/// One edge per listed pair, from the source member's node in `from` to the target member's
/// node in `to`; the ordinal is the pair's position.
fn emit_edges(
    b: &mut Builder,
    manifest: &Manifest,
    pairs: &Vec<[String; 2]>,
    kind: EdgeKind,
    from: &Vec<Option<NodeId>>,
    to: &Vec<Option<NodeId>>,
)
    requires
        old(b).wf(),
        from@.len() == manifest.members@.len(),
        to@.len() == manifest.members@.len(),
        forall|x: int| 0 <= x < from@.len() ==> below(#[trigger] from@[x], old(b).len() as int),
        forall|x: int| 0 <= x < to@.len() ==> below(#[trigger] to@[x], old(b).len() as int),
    ensures
        final(b).wf(),
        final(b).len() == old(b).len(),
        final(b).skills() == old(b).skills(),
        final(b).vector_count() == old(b).vector_count(),
        old(b).well_shaped() ==> final(b).well_shaped(),
        forall|q: int|
            0 <= q < old(b).len() ==> #[trigger] final(b).node(q) == (NodeView {
                edge_count: old(b).node(q).edge_count + edges_from(
                    manifest.members@,
                    pairs@,
                    from@,
                    to@,
                    q as nat,
                    pairs@.len() as int,
                ),
                ..old(b).node(q)
            }),
{
    let ghost start = *old(b);
    let mut i: usize = 0;
    while i < pairs.len()
        invariant
            0 <= i <= pairs@.len(),
            b.wf(),
            b.len() == old(b).len(),
            b.skills() == old(b).skills(),
            b.len() == start.len(),
            b.skills() == start.skills(),
            b.vector_count() == start.vector_count(),
            forall|q: int|
                0 <= q < start.len() ==> (#[trigger] b.node(q)).tier == start.node(q).tier && b.node(
                    q,
                ).parent == start.node(q).parent,
            from@.len() == manifest.members@.len(),
            to@.len() == manifest.members@.len(),
            forall|x: int| 0 <= x < from@.len() ==> below(#[trigger] from@[x], b.len() as int),
            forall|x: int| 0 <= x < to@.len() ==> below(#[trigger] to@[x], b.len() as int),
            forall|q: int|
                0 <= q < start.len() ==> #[trigger] b.node(q) == (NodeView {
                    edge_count: start.node(q).edge_count + edges_from(
                        manifest.members@,
                        pairs@,
                        from@,
                        to@,
                        q as nat,
                        i as int,
                    ),
                    ..start.node(q)
                }),
        decreases pairs@.len() - i,
    {
        let ghost before = *b;
        let a = member_part(pairs[i][0].as_str());
        let z = member_part(pairs[i][1].as_str());
        let ia = index_of(&manifest.members, a.as_str());
        let iz = index_of(&manifest.members, z.as_str());
        proof {
            let ms = manifest.members@;
            match ia {
                Some(x) => lemma_first_member(ms, a@, x as int),
                None => assert(!exists|x: int| first_member(ms, a@, x)),
            }
            match iz {
                Some(y) => lemma_first_member(ms, z@, y as int),
                None => assert(!exists|y: int| first_member(ms, z@, y)),
            }
        }
        match (ia, iz) {
            (Some(x), Some(y)) => {
                match (from[x], to[y]) {
                    (Some(src), Some(dst)) => {
                        b.edge(src, kind, dst, ord(i), 0);
                    },
                    _ => {},
                }
            },
            _ => {},
        }
        assert forall|q: int| 0 <= q < start.len() implies #[trigger] b.node(q) == (NodeView {
            edge_count: start.node(q).edge_count + edges_from(
                manifest.members@,
                pairs@,
                from@,
                to@,
                q as nat,
                i + 1,
            ),
            ..start.node(q)
        }) by {
            assert(before.node(q) == (NodeView {
                edge_count: start.node(q).edge_count + edges_from(
                    manifest.members@,
                    pairs@,
                    from@,
                    to@,
                    q as nat,
                    i as int,
                ),
                ..start.node(q)
            }));
        }
        i += 1;
    }
    proof {
        if start.well_shaped() {
            lemma_relabel_keeps_shape(start, *b);
        }
    }
}

} // verus!
