//! Compiling a parsed `SKILL.md` into a container: headings become the tree, prose their
//! payloads, and fences either executable segments or on-demand resources.

use vstd::prelude::*;

use vstd::string::StringExecFns;

use crate::classify::{
    fence_abi, heading, ROLE_CONTINUATION, ROLE_FENCE, ROLE_FENCE_UNCLOSED, ROLE_FRONTMATTER,
    ROLE_INTENT,
};
use crate::codec::Dictionary;
use crate::error::Error;
use crate::graph::{abi_name_spec, tier_code, Abi, Kind, Tier};
use crate::md::{Block, Document};
use crate::text::lemma_utf8_len;
use vstd::utf8::encode_utf8;
use crate::writer::{
    file_front_ok, lemma_child_keeps_shape, lemma_relabel_keeps_shape, lemma_skill_keeps_shape,
    lists_skills, short_text, size_refusal, Builder, NodeId, Profile, SegmentSpec,
};

verus! {

/// What a compilation produced.
#[derive(Debug, Default, Clone, Copy)]
pub struct Stats {
    pub nodes: u32,
    pub segments: u32,
    pub fences: u32,
    pub tier_clamps: u32,
    pub headings: u32,
}

/// How many blocks of a document are headings.
pub open spec fn heading_count(bs: Seq<Block>) -> nat
    decreases bs.len(),
{
    if bs.len() == 0 {
        0
    } else {
        heading_count(bs.drop_last()) + if bs.last() is Heading {
            1nat
        } else {
            0nat
        }
    }
}

/// How many blocks of a document are fences.
pub open spec fn fence_count(bs: Seq<Block>) -> nat
    decreases bs.len(),
{
    if bs.len() == 0 {
        0
    } else {
        fence_count(bs.drop_last()) + if bs.last() is Fence {
            1nat
        } else {
            0nat
        }
    }
}

fn bump(x: u32) -> (r: u32)
    ensures
        r == (if x < u32::MAX {
            x + 1
        } else {
            x as int
        }),
{
    if x < u32::MAX {
        x + 1
    } else {
        x
    }
}

/// The hotter-or-equal of two tiers is the colder one's bound: the later of the two.
fn colder(a: Tier, b: Tier) -> (r: Tier)
    ensures
        tier_code(r) >= tier_code(a),
        tier_code(r) >= tier_code(b),
        r == a || r == b,
{
    if a.hotter_than(b) {
        b
    } else {
        a
    }
}

/// A document whose skill fits the builder's limits: at most 4000 blocks; frontmatter, text and
/// code of at most 64 KiB of UTF-8 each; headings and frontmatter values of at most 1 KiB; and
/// fence delimiter lines of at most 100 characters.
pub open spec fn doc_within_limits(d: Document) -> bool {
    &&& d.blocks@.len() <= 4000
    &&& encode_utf8(d.fm_raw@).len() <= 0x10000
    &&& forall|k: int| 0 <= k < d.frontmatter@.len() ==> short_text(#[trigger] d.frontmatter@[k].1@)
    &&& forall|k: int| 0 <= k < d.blocks@.len() ==> block_within_limits(#[trigger] d.blocks@[k])
}

/// One block within [`doc_within_limits`].
pub open spec fn block_within_limits(b: Block) -> bool {
    match b {
        Block::Heading { level, text } => short_text(text@),
        Block::Text(t) => encode_utf8(t@).len() <= 0x10000,
        Block::Fence { open, close, lang, code } => {
            &&& open@.len() <= 100
            &&& (close matches Some(c) ==> c@.len() <= 100)
            &&& encode_utf8(code@).len() <= 0x10000
        },
    }
}

/// Builds one skill's subtree under `root`, which the caller has already created. A bundle
/// hangs several of these off one synthetic root; a single-skill file is the same code with
/// `root` being node 0.
#[verifier::spinoff_prover]
#[verifier::rlimit(100)]
pub fn build_into(b: &mut Builder, root: NodeId, doc: &Document) -> (st: Stats)
    requires
        old(b).wf(),
        root.index() < old(b).len(),
        old(b).well_shaped(),
        old(b).node(root.index() as int).tier == Tier::Routing,
    ensures
        final(b).wf(),
        final(b).len() >= old(b).len(),
        final(b).skills() == old(b).skills(),
        final(b).spec_profile() == old(b).spec_profile(),
        final(b).well_shaped(),
        final(b).vector_count() == old(b).vector_count(),
        forall|i: int| 0 <= i < old(b).len() ==> (#[trigger] final(b).node(i)).tier == old(b).node(i).tier,
        heading_count(doc.blocks@) <= u32::MAX ==> st.headings == heading_count(doc.blocks@),
        fence_count(doc.blocks@) <= u32::MAX ==> st.fences == fence_count(doc.blocks@),
        final(b).len() <= old(b).len() + doc.blocks@.len() + 1,
        final(b).spec_version() == old(b).spec_version(),
        final(b).spec_license() == old(b).spec_license(),
        old(b).within_limits() && doc_within_limits(*doc) && old(b).len() + doc.blocks@.len() + 1
            <= 4096 ==> final(b).within_limits(),
{
    let ghost lim = old(b).within_limits() && doc_within_limits(*doc) && old(b).len()
        + doc.blocks@.len() + 1 <= 4096;
    let mut st = Stats { nodes: 0, segments: 0, fences: 0, tier_clamps: 0, headings: 0 };
    if doc.fm_raw.as_str().len() > 0 {
        let ghost a = *b;
        b.child(
            root,
            Kind::Applicability,
            Tier::Routing,
            ROLE_FRONTMATTER,
            None,
            crate::text::to_vec(doc.fm_raw.as_str().as_bytes()),
            0,
        );
        proof {
            lemma_child_keeps_shape(a, *b);
            if lim {
                Builder::lemma_limits_step(a, *b);
            }
        }
    }
    // (heading level, node, tier): the stack that turns a flat block list back into the tree
    // the headings already describe. The root is never popped.
    let mut stack: Vec<(u8, NodeId, Tier)> = Vec::new();
    stack.push((0, root, Tier::Routing));
    let mut pending: Option<NodeId> = None;
    let mut saw_fence = false;
    let ghost start = *old(b);
    let mut i: usize = 0;
    while i < doc.blocks.len()
        invariant
            0 <= i <= doc.blocks@.len(),
            b.wf(),
            b.len() >= start.len(),
            b.skills() == start.skills(),
            b.spec_profile() == start.spec_profile(),
            stack@.len() >= 1,
            forall|k: int| 0 <= k < stack@.len() ==> (#[trigger] stack@[k]).1.index() < b.len(),
            forall|k: int|
                0 <= k < stack@.len() ==> (#[trigger] stack@[k]).2 == b.node(stack@[k].1.index() as int).tier,
            b.well_shaped(),
            b.vector_count() == start.vector_count(),
            forall|q: int| 0 <= q < start.len() ==> (#[trigger] b.node(q)).tier == start.node(q).tier,
            b.len() <= start.len() + 1 + i,
            b.spec_version() == start.spec_version(),
            b.spec_license() == start.spec_license(),
            lim == (start.within_limits() && doc_within_limits(*doc) && start.len()
                + doc.blocks@.len() + 1 <= 4096),
            lim ==> b.within_limits(),
            pending matches Some(p) ==> p.index() < b.len(),
            heading_count(doc.blocks@.subrange(0, i as int)) <= u32::MAX ==> st.headings
                == heading_count(doc.blocks@.subrange(0, i as int)),
            fence_count(doc.blocks@.subrange(0, i as int)) <= u32::MAX ==> st.fences
                == fence_count(doc.blocks@.subrange(0, i as int)),
        decreases doc.blocks@.len() - i,
    {
        proof {
            assert(doc.blocks@.subrange(0, i + 1).drop_last() =~= doc.blocks@.subrange(0, i as int));
        }
        match &doc.blocks[i] {
            Block::Heading { level, text } => {
                st.headings = bump(st.headings);
                while stack.len() > 1 && stack[stack.len() - 1].0 >= *level
                    invariant
                        stack@.len() >= 1,
                        forall|k: int|
                            0 <= k < stack@.len() ==> (#[trigger] stack@[k]).1.index() < b.len(),
                        forall|k: int|
                            0 <= k < stack@.len() ==> (#[trigger] stack@[k]).2 == b.node(
                                stack@[k].1.index() as int,
                            ).tier,
                    decreases stack@.len(),
                {
                    stack.pop();
                }
                let (_, parent, parent_tier) = stack[stack.len() - 1];
                let (kind, tier0, role) = heading(text.as_str());
                let mut tier = tier0;
                if tier.hotter_than(parent_tier) {
                    tier = parent_tier;
                    st.tier_clamps = bump(st.tier_clamps);
                }
                assert(stack@[stack@.len() - 1].2 == b.node(parent.index() as int).tier);
                let ghost a = *b;
                let id = b.child(parent, kind, tier, role, Some(text.as_str()), Vec::new(), *level);
                proof {
                    lemma_child_keeps_shape(a, *b);
                    if lim {
                        assert(block_within_limits(doc.blocks@[i as int]));
                        Builder::lemma_limits_step(a, *b);
                    }
                }
                let ghost before = stack@;
                stack.push((*level, id, tier));
                proof {
                    assert forall|k: int| 0 <= k < stack@.len() implies (#[trigger] stack@[k]).1.index()
                        < b.len() by {
                        if k < before.len() {
                            assert(stack@[k] == before[k]);
                        }
                    }
                    assert forall|k: int|
                        0 <= k < stack@.len() implies (#[trigger] stack@[k]).2 == b.node(
                            stack@[k].1.index() as int,
                        ).tier by {
                        if k < before.len() {
                            assert(stack@[k] == before[k]);
                            assert(b.node(before[k].1.index() as int) == a.node(before[k].1.index() as int));
                        }
                    }
                }
                pending = Some(id);
                saw_fence = false;
                st.nodes = bump(st.nodes);
            },
            Block::Text(t) => {
                let (_, current, tier) = stack[stack.len() - 1];
                match pending {
                    Some(p) => {
                        if saw_fence {
                            // Prose never belongs in the routing plane, even directly under the
                            // root.
                            let ghost a = *b;
                            b.child(
                                current,
                                Kind::Prose,
                                colder(tier, Tier::Body),
                                ROLE_CONTINUATION,
                                None,
                                crate::text::to_vec(t.as_str().as_bytes()),
                                0,
                            );
                            proof {
                                lemma_child_keeps_shape(a, *b);
                                if lim {
                                    assert(block_within_limits(doc.blocks@[i as int]));
                                    Builder::lemma_limits_step(a, *b);
                                }
                            }
                            st.nodes = bump(st.nodes);
                        } else {
                            let ghost a = *b;
                            b.set_payload(p, crate::text::to_vec(t.as_str().as_bytes()));
                            proof {
                                lemma_relabel_keeps_shape(a, *b);
                                if lim {
                                    assert(block_within_limits(doc.blocks@[i as int]));
                                    Builder::lemma_limits_step(a, *b);
                                }
                            }
                            pending = None;
                        }
                    },
                    None => {
                        let ghost a = *b;
                        b.child(
                            current,
                            Kind::Prose,
                            colder(tier, Tier::Body),
                            ROLE_CONTINUATION,
                            None,
                            crate::text::to_vec(t.as_str().as_bytes()),
                            0,
                        );
                        proof {
                            lemma_child_keeps_shape(a, *b);
                            if lim {
                                assert(block_within_limits(doc.blocks@[i as int]));
                                Builder::lemma_limits_step(a, *b);
                            }
                        }
                        st.nodes = bump(st.nodes);
                    },
                }
            },
            Block::Fence { open, close, lang, code } => {
                st.fences = bump(st.fences);
                saw_fence = true;
                let (_, current, tier) = stack[stack.len() - 1];
                let role = if close.is_some() {
                    ROLE_FENCE
                } else {
                    ROLE_FENCE_UNCLOSED
                };
                // One interned string holds both delimiter lines, newline-separated. They are
                // presentation, not content, and belong nowhere near the payload that gets
                // hashed and executed.
                let mut label = open.clone();
                match close {
                    Some(c) => {
                        label.append("\n");
                        label.append(c.as_str());
                    },
                    None => {},
                }
                proof {
                    reveal_strlit("\n");
                    if lim {
                        assert(block_within_limits(doc.blocks@[i as int]));
                        assert(label@.len() <= 201);
                        lemma_utf8_len(label@);
                    }
                }
                let payload = crate::text::to_vec(code.as_str().as_bytes());
                match fence_abi(lang.as_str()) {
                    Some(abi) => {
                        let ghost a = *b;
                        let id = b.segment(
                            current,
                            Some(label.as_str()),
                            payload,
                            SegmentSpec::inert(abi),
                            0,
                        );
                        proof {
                            lemma_child_keeps_shape(a, *b);
                            if lim {
                                Builder::lemma_limits_step(a, *b);
                            }
                        }
                        let ghost a2 = *b;
                        b.set_role(id, role);
                        proof {
                            lemma_relabel_keeps_shape(a2, *b);
                            if lim {
                                Builder::lemma_limits_step(a2, *b);
                            }
                        }
                        st.segments = bump(st.segments);
                    },
                    None => {
                        let ghost a = *b;
                        b.child(
                            current,
                            Kind::Resource,
                            colder(tier, Tier::OnDemand),
                            role,
                            Some(label.as_str()),
                            payload,
                            0,
                        );
                        proof {
                            lemma_child_keeps_shape(a, *b);
                            if lim {
                                Builder::lemma_limits_step(a, *b);
                            }
                        }
                    },
                }
                st.nodes = bump(st.nodes);
            },
        }
        i += 1;
    }
    assert(doc.blocks@.subrange(0, doc.blocks@.len() as int) =~= doc.blocks@);
    st.nodes = bump(st.nodes);
    st
}

/// The first frontmatter value under `key`, or `dflt` when there is none.
pub open spec fn front_value(d: Document, key: Seq<char>, dflt: Seq<char>) -> Seq<char> {
    let fm = d.frontmatter@;
    if exists|i: int| 0 <= i < fm.len() && fm[i].0@ == key {
        let i = choose|i: int|
            0 <= i < fm.len() && fm[i].0@ == key && forall|j: int| 0 <= j < i ==> fm[j].0@ != key;
        fm[i].1@
    } else {
        dflt
    }
}

/// The value `get` gives for `key`, or `dflt`.
fn value_or<'a>(doc: &'a Document, key: &str, dflt: &'a str) -> (r: &'a str)
    ensures
        r@ == front_value(*doc, key@, dflt@),
{
    match doc.get(key) {
        Some(v) => {
            proof {
                let fm = doc.frontmatter@;
                let i = choose|i: int|
                    0 <= i < fm.len() && fm[i].0@ == key@ && fm[i].1@ == v@ && forall|j: int|
                        0 <= j < i ==> fm[j].0@ != key@;
                let c = choose|c: int|
                    0 <= c < fm.len() && fm[c].0@ == key@ && forall|j: int| 0 <= j < c ==> fm[j].0@ != key@;
                if c < i {
                    assert(fm[c].0@ != key@);
                } else if i < c {
                    assert(fm[i].0@ != key@);
                }
            }
            v
        },
        None => dflt,
    }
}

/// Compiles a parsed `SKILL.md` with the default profile and no dictionary.
pub fn compile(doc: &Document, fallback_name: &str) -> (r: Result<(Vec<u8>, Stats), Error>)
    ensures
        r matches Ok((bytes, _)) ==> file_front_ok(bytes@) && lists_skills(
            bytes@,
            seq![(front_value(*doc, "name"@, fallback_name@), front_value(*doc, "description"@, ""@), 0nat)],
        ),
        r matches Err(e) ==> size_refusal(e),
        doc_within_limits(*doc) && short_text(fallback_name@) ==> r is Ok,
{
    compile_with(doc, fallback_name, Profile::Mapped, None)
}

/// Compiles with an explicit compression profile and an optional shared dictionary. The skill's
/// name and description come from the frontmatter, the name falling back to `fallback_name`.
pub fn compile_with(
    doc: &Document,
    fallback_name: &str,
    profile: Profile,
    dict: Option<&Dictionary>,
) -> (r: Result<(Vec<u8>, Stats), Error>)
    ensures
        r matches Ok((bytes, _)) ==> file_front_ok(bytes@) && lists_skills(
            bytes@,
            seq![(front_value(*doc, "name"@, fallback_name@), front_value(*doc, "description"@, ""@), 0nat)],
        ),
        r matches Err(e) ==> size_refusal(e),
        doc_within_limits(*doc) && short_text(fallback_name@) ==> r is Ok,
{
    let ghost lim = doc_within_limits(*doc) && short_text(fallback_name@);
    let name = value_or(doc, "name", fallback_name);
    let desc = value_or(doc, "description", "");
    proof {
        reveal_strlit("");
        if lim {
            lemma_front_short(*doc, "name"@, fallback_name@);
            lemma_front_short(*doc, "description"@, ""@);
        }
    }
    let mut b = Builder::new(name, desc).profile(profile);
    assert(lim ==> b.within_limits());
    match dict {
        Some(d) => {
            b = b.dictionary(d.clone());
        },
        None => {},
    }
    assert(lim ==> b.within_limits());
    match doc.get("version") {
        Some(v) => {
            b = b.version(v);
        },
        None => {},
    }
    assert(lim ==> b.within_limits());
    match doc.get("license") {
        Some(l) => {
            b = b.license(l);
        },
        None => {},
    }
    assert(lim ==> b.within_limits());
    let ghost a = b;
    let root = b.root(Kind::Prose, Tier::Routing, ROLE_INTENT, Vec::new());
    proof {
        if lim {
            Builder::lemma_limits_step(a, b);
        }
    }
    let st = build_into(&mut b, root, doc);
    assert(lim ==> b.buildable() && b.within_limits() && b.vector_count() == 0 && b.skills().len()
        > 0);
    let bytes = b.build()?;
    Ok((bytes, st))
}

/// The frontmatter values of a document within the limits, and a short default, are short.
proof fn lemma_front_short(d: Document, key: Seq<char>, dflt: Seq<char>)
    requires
        doc_within_limits(d),
        short_text(dflt),
    ensures
        short_text(front_value(d, key, dflt)),
{
    let fm = d.frontmatter@;
    if exists|i: int| 0 <= i < fm.len() && fm[i].0@ == key {
        let i0 = choose|i: int| 0 <= i < fm.len() && fm[i].0@ == key;
        lemma_has_first(fm, key, i0);
        let i = choose|i: int|
            0 <= i < fm.len() && fm[i].0@ == key && forall|j: int| 0 <= j < i ==> fm[j].0@ != key;
        assert(short_text(fm[i].1@));
    }
}

proof fn lemma_has_first(fm: Seq<(String, String)>, key: Seq<char>, i: int)
    requires
        0 <= i < fm.len(),
        fm[i].0@ == key,
    ensures
        exists|c: int|
            0 <= c < fm.len() && fm[c].0@ == key && forall|j: int| 0 <= j < c ==> fm[j].0@ != key,
    decreases i,
{
    if exists|j: int| 0 <= j < i && fm[j].0@ == key {
        let j = choose|j: int| 0 <= j < i && fm[j].0@ == key;
        lemma_has_first(fm, key, j);
    } else {
        assert(forall|j: int| 0 <= j < i ==> fm[j].0@ != key);
    }
}

/// The routing plane lists one skill per document, in order, under the name and description
/// given with it.
pub open spec fn lists_docs(bytes: Seq<u8>, docs: Seq<(String, String, Document)>) -> bool {
    exists|skills: Seq<(Seq<char>, Seq<char>, nat)>|
        #[trigger] lists_skills(bytes, skills) && skills.len() == docs.len() && forall|i: int|
            0 <= i < docs.len() ==> skills[i].0 == (#[trigger] docs[i]).0@ && skills[i].1 == docs[i].1@
}

/// Compiles many documents into one file, each a top-level skill with its own routing entry.
pub fn bundle(docs: &[(String, String, Document)], profile: Profile, dict: Option<&Dictionary>) -> (r:
    Result<(Vec<u8>, Stats), Error>)
    ensures
        r matches Ok((bytes, _)) ==> file_front_ok(bytes@) && lists_docs(bytes@, docs@),
        r matches Err(e) ==> size_refusal(e) || (e == Error::RoutingEmpty && docs@.len() == 0),
{
    let mut b = Builder::bundle().profile(profile);
    match dict {
        Some(d) => {
            b = b.dictionary(d.clone());
        },
        None => {},
    }
    proof {
        assert forall|q: int| 0 <= q < b.len() implies ((#[trigger] b.node(q)).parent is None <==> q
            == 0) by {}
        assert forall|q: int, p: nat|
            #![trigger b.node(q), b.node(p as int)]
            0 <= q < b.len() && b.node(q).parent == Some(p) implies tier_code(b.node(q).tier)
                >= tier_code(b.node(p as int).tier) by {}
        assert(b.well_shaped());
    }
    let mut total = Stats { nodes: 0, segments: 0, fences: 0, tier_clamps: 0, headings: 0 };
    let mut i: usize = 0;
    while i < docs.len()
        invariant
            0 <= i <= docs@.len(),
            b.wf(),
            b.len() >= 1,
            b.skills().len() == i,
            b.node(0).tier == Tier::Routing,
            b.node(0).parent is None,
            b.well_shaped(),
            b.vector_count() == 0,
            forall|j: int|
                0 <= j < i ==> b.skills()[j].0 == (#[trigger] docs@[j]).0@ && b.skills()[j].1
                    == docs@[j].1@,
        decreases docs@.len() - i,
    {
        let (name, desc, doc) = &docs[i];
        let ghost a = b;
        let root = b.add_skill(name.as_str(), desc.as_str());
        proof {
            lemma_skill_keeps_shape(a, b, name@, desc@);
        }
        let st = build_into(&mut b, root, doc);
        total.nodes = add_sat(total.nodes, st.nodes);
        total.segments = add_sat(total.segments, st.segments);
        total.fences = add_sat(total.fences, st.fences);
        total.tier_clamps = add_sat(total.tier_clamps, st.tier_clamps);
        total.headings = add_sat(total.headings, st.headings);
        i += 1;
    }
    let ghost skills = b.skills();
    let bytes = b.build()?;
    proof {
        assert(lists_skills(bytes@, skills));
        assert(skills.len() == docs@.len());
        assert forall|k: int| 0 <= k < docs@.len() implies skills[k].0 == (#[trigger] docs@[k]).0@
            && skills[k].1 == docs@[k].1@ by {}
        assert(lists_docs(bytes@, docs@));
    }
    Ok((bytes, total))
}

fn add_sat(a: u32, b: u32) -> (r: u32)
    ensures
        r == (if a + b <= u32::MAX {
            a + b
        } else {
            u32::MAX as int
        }),
{
    if a <= u32::MAX - b {
        a + b
    } else {
        u32::MAX
    }
}

/// The ABI's name as the format documents it.
pub fn abi_name(abi: Abi) -> (r: &'static str)
    ensures
        r@ == abi_name_spec(abi),
{
    abi.name()
}

} // verus!
