//! The logic of a library of containers, searched through their routing planes.
//!
//! Search never touches a payload region, so a body is decompressed only once something asks
//! for it: finding a skill reads routing blocks alone, while loading one opens the container,
//! checks the body against its commitment and renders it. Tokenising queries and text for
//! lexical matching lives here too; the weighting of matches, which is floating point, does not.

use vstd::prelude::*;

use vstd::string::{StrSliceExecFns, StringExecFns};
use vstd::utf8::{decode_utf8, encode_utf8};

use crate::cap_kind;
use crate::codec::{dict_view, Dictionary};
use crate::error::Error;
use crate::graph::{abi_name_spec, Kind, Node, TrustClass};
use crate::header::header_err;
use crate::manifest::{sect_bytes, sect_count_of, Manifest};
use crate::raw::{le16, le32};
use crate::render::{render_from, rendered};
use crate::routing::{block_ok, entry_reads, RoutingEntry};
use crate::run::{begins, carries, record_at};
use crate::sig::TrustPolicy;
use crate::skill::{commitment_holds, opened, Skill};
use crate::text::{lowercase, same, to_lowercase};

verus! {

/// What a skill would execute, and what it declares it needs to do so.
#[derive(Debug, Clone)]
pub struct SegmentInfo {
    pub name: String,
    pub abi: String,
    pub trust_class: String,
    pub capabilities: Vec<String>,
    pub mem_kib: u32,
    pub cpu_ms: u32,
    pub bytes: u32,
}

#[derive(Debug, Clone)]
pub enum LibraryError {
    /// Container `container`'s routing block does not read.
    Routing { container: usize, error: Error },
    NoSuchSkill(String),
    Open(Error),
    Verify(Error),
    Render(Error),
}

/// Whether a character is alphanumeric, as `char::is_alphanumeric` decides from the Unicode
/// tables: a property of the character alone.
pub uninterp spec fn alnum(c: char) -> bool;

/// `char::is_alphanumeric`.
#[verifier::external_body]
fn is_alnum(c: char) -> (r: bool)
    ensures
        r == alnum(c),
{
    c.is_alphanumeric()
}

/// The pieces a text splits into at every character that is not alphanumeric, empty pieces
/// included.
pub open spec fn pieces(s: Seq<char>) -> Seq<Seq<char>>
    decreases s.len(),
{
    if s.len() == 0 {
        seq![Seq::empty()]
    } else {
        let r = pieces(s.drop_last());
        if alnum(s.last()) {
            r.update(r.len() - 1, r.last().push(s.last()))
        } else {
            r.push(Seq::empty())
        }
    }
}

/// The pieces at least `min` characters long, lowercased, in order.
pub open spec fn kept(ps: Seq<Seq<char>>, min: nat) -> Seq<Seq<char>>
    decreases ps.len(),
{
    if ps.len() == 0 {
        Seq::empty()
    } else {
        let r = kept(ps.drop_last(), min);
        if ps.last().len() >= min {
            r.push(lowercase(ps.last()))
        } else {
            r
        }
    }
}

pub open spec fn views(v: Seq<String>) -> Seq<Seq<char>> {
    v.map_values(|x: String| x@)
}

proof fn lemma_pieces_nonempty(s: Seq<char>)
    ensures
        pieces(s).len() >= 1,
    decreases s.len(),
{
    if s.len() > 0 {
        lemma_pieces_nonempty(s.drop_last());
    }
}

/// The lowercased pieces of `text` at least `min` characters long.
fn split_kept(text: &str, min: usize) -> (r: Vec<String>)
    ensures
        views(r@) == kept(pieces(text@), min as nat),
{
    let n = text.unicode_len();
    let ghost s = text@;
    let ghost mut done: Seq<Seq<char>> = Seq::empty();
    let mut out: Vec<String> = Vec::new();
    let mut start: usize = 0;
    let mut i: usize = 0;
    proof {
        assert(s.subrange(0, 0) =~= Seq::<char>::empty());
        assert(pieces(s.subrange(0, 0)) =~= done.push(s.subrange(0, 0)));
    }
    while i < n
        invariant
            n == s.len(),
            s == text@,
            0 <= start <= i <= n,
            pieces(s.subrange(0, i as int)) == done.push(s.subrange(start as int, i as int)),
            views(out@) == kept(done, min as nat),
        decreases n - i,
    {
        let c = text.get_char(i);
        let ghost before = s.subrange(0, i as int);
        let ghost after = s.subrange(0, i + 1);
        proof {
            assert(after.drop_last() =~= before);
            assert(after.last() == c);
        }
        if is_alnum(c) {
            proof {
                lemma_pieces_nonempty(before);
                assert(s.subrange(start as int, i + 1) =~= s.subrange(start as int, i as int).push(c));
                assert(pieces(after) =~= done.push(s.subrange(start as int, i + 1)));
            }
        } else {
            let piece = text.substring_char(start, i);
            let ghost p = s.subrange(start as int, i as int);
            let ghost next = done.push(p);
            proof {
                assert(next.drop_last() =~= done);
                assert(next.last() == p);
            }
            if i - start >= min {
                let w = to_lowercase(piece);
                proof {
                    assert(views(out@.push(w)) =~= views(out@).push(w@));
                }
                out.push(w);
            }
            proof {
                done = next;
                assert(s.subrange(i + 1, i + 1) =~= Seq::<char>::empty());
                assert(pieces(after) =~= done.push(s.subrange(i + 1, i + 1)));
            }
            start = i + 1;
        }
        i += 1;
    }
    let piece = text.substring_char(start, n);
    let ghost p = s.subrange(start as int, n as int);
    let ghost all = done.push(p);
    proof {
        assert(s.subrange(0, n as int) =~= s);
        assert(all.drop_last() =~= done);
        assert(all.last() == p);
    }
    if n - start >= min {
        let w = to_lowercase(piece);
        proof {
            assert(views(out@.push(w)) =~= views(out@).push(w@));
        }
        out.push(w);
    }
    out
}

/// Query tokens worth matching on: anything shorter than three characters matches most of a
/// corpus and says nothing about what the caller wants.
pub fn terms_of(query: &str) -> (r: Vec<String>)
    ensures
        views(r@) == kept(pieces(query@), 3),
{
    split_kept(query, 3)
}

/// The lowercased words of a text.
pub fn words_of(text: &str) -> (r: Vec<String>)
    ensures
        views(r@) == kept(pieces(text@), 1),
{
    split_kept(text, 1)
}

/// `term` matches word `w`: the whole word, or its beginning when the term is long enough for a
/// prefix to mean something.
pub open spec fn matches_word(w: Seq<char>, term: Seq<char>) -> bool {
    w == term || (term.len() >= 4 && begins(w, term))
}

/// A term hits a list of words exactly when one of them is the term, or, for a term of at least
/// four characters, begins with it: a word that is only a beginning of the term is no hit.
pub proof fn lemma_hit_is_a_word_beginning_with_the_term(words: Seq<Seq<char>>, term: Seq<char>)
    ensures
        (exists|k: int| 0 <= k < words.len() && #[trigger] matches_word(words[k], term)) <==> exists|
            k: int,
        |
            0 <= k < words.len() && (words[k] == term || (term.len() >= 4 && term.len()
                <= (#[trigger] words[k]).len() && words[k].subrange(0, term.len() as int) == term)),
        forall|w: Seq<char>|
            w.len() < term.len() ==> !#[trigger] matches_word(w, term),
{
    assert forall|w: Seq<char>| w.len() < term.len() implies !#[trigger] matches_word(w, term) by {
        if w == term {
            assert(w.len() == term.len());
        }
    }
    if exists|k: int| 0 <= k < words.len() && #[trigger] matches_word(words[k], term) {
        let k = choose|k: int| 0 <= k < words.len() && #[trigger] matches_word(words[k], term);
        assert(words[k] == term || (term.len() >= 4 && term.len() <= words[k].len()
            && words[k].subrange(0, term.len() as int) == term));
    }
    if exists|k: int|
        0 <= k < words.len() && (words[k] == term || (term.len() >= 4 && term.len()
            <= (#[trigger] words[k]).len() && words[k].subrange(0, term.len() as int) == term)) {
        let k = choose|k: int|
            0 <= k < words.len() && (words[k] == term || (term.len() >= 4 && term.len()
                <= (#[trigger] words[k]).len() && words[k].subrange(0, term.len() as int) == term));
        assert(matches_word(words[k], term));
    }
}

/// Whether a term matches any of the words, so "test" reaches "testing" and "ui" reaches
/// nothing it should not.
pub fn hits_word(words: &Vec<String>, term: &str) -> (r: bool)
    ensures
        r == exists|k: int| 0 <= k < words@.len() && #[trigger] matches_word(words@[k]@, term@),
        r ==> exists|k: int|
            0 <= k < words@.len() && term@.len() <= (#[trigger] words@[k])@.len() && words@[k]@.subrange(
                0,
                term@.len() as int,
            ) == term@ && (words@[k]@ == term@ || term@.len() >= 4),
        (exists|k: int| 0 <= k < words@.len() && (#[trigger] words@[k])@ == term@) ==> r,
{
    proof {
        lemma_hit_is_a_word_beginning_with_the_term(words@.map_values(|w: String| w@), term@);
        assert forall|k: int| 0 <= k < words@.len() implies (#[trigger] words@[k])@ == words@.map_values(
            |w: String| w@,
        )[k] by {}
    }
    let long = term.unicode_len() >= 4;
    let mut k: usize = 0;
    while k < words.len()
        invariant
            0 <= k <= words@.len(),
            long == (term@.len() >= 4),
            forall|j: int| 0 <= j < k ==> !#[trigger] matches_word(words@[j]@, term@),
        decreases words@.len() - k,
    {
        let w = words[k].as_str();
        if same(w, term) || (long && crate::run::starts_with(w, term)) {
            proof {
                assert(matches_word(words@[k as int]@, term@));
            }
            return true;
        }
        k += 1;
    }
    false
}

/// Walking parent links up from `from` reaches `root`. Each step goes to a smaller index,
/// which a valid tree guarantees.
pub open spec fn reaches(nodes: Seq<Node>, from: int, root: int) -> bool
    decreases from,
{
    if from == root {
        true
    } else if from < 0 || from >= nodes.len() {
        false
    } else if nodes[from].parent == u32::MAX || nodes[from].parent >= from {
        false
    } else {
        reaches(nodes, nodes[from].parent as int, root)
    }
}

/// Whether node `node` lies in the subtree under `root`.
pub fn in_subtree(s: &Skill, node: u32, root: u32) -> (r: bool)
    requires
        s.wf(),
    ensures
        r == reaches(s.nodes@, node as int, root as int),
{
    proof {
        crate::validate::lemma_parent_before(s.nodes@);
    }
    let mut at = node;
    while at != root
        invariant
            s.wf(),
            forall|c: int| 1 <= c < s.nodes@.len() ==> #[trigger] s.nodes@[c].parent < c,
            s.nodes@.len() > 0 ==> s.nodes@[0].parent == u32::MAX,
            reaches(s.nodes@, node as int, root as int) == reaches(s.nodes@, at as int, root as int),
        decreases at,
    {
        if at as usize >= s.nodes.len() {
            return false;
        }
        let p = s.nodes[at as usize].parent;
        if p == u32::MAX || p >= at {
            return false;
        }
        at = p;
    }
    true
}

/// The routing block of a container reads, and names `name` at node `root`.
pub open spec fn names_skill(bytes: Seq<u8>, name: Seq<char>, root: u32) -> bool {
    let off = 64 + 112 * le16(bytes, 0x1C);
    let count = le16(bytes, off);
    &&& header_err(bytes) is None
    &&& block_ok(bytes, off)
    &&& exists|i: int, e: RoutingEntry|
        0 <= i < count && #[trigger] entry_reads(bytes, off, count, i, e) && e.name@ == name && e.root
            == root
}

/// The routing block of a container reads.
pub open spec fn routing_reads(bytes: Seq<u8>) -> bool {
    header_err(bytes) is None && block_ok(bytes, 64 + 112 * le16(bytes, 0x1C))
}

/// The first container, in order, whose routing plane names `name`, and the node that skill
/// is rooted at. Only routing blocks are read.
pub fn find(containers: &Vec<Vec<u8>>, name: &str) -> (r: Result<(usize, u32), LibraryError>)
    ensures
        r matches Ok((c, root)) ==> c < containers@.len() && names_skill(containers@[c as int]@, name@, root)
            && forall|j: int| 0 <= j < c ==> routing_reads(#[trigger] containers@[j]@) && forall|rt: u32|
                !names_skill(containers@[j]@, name@, rt),
        r matches Err(LibraryError::Routing { container, .. }) ==> container < containers@.len()
            && !routing_reads(containers@[container as int]@) && forall|j: int|
            0 <= j < container ==> routing_reads(#[trigger] containers@[j]@),
        r matches Err(LibraryError::NoSuchSkill(n)) ==> n@ == name@ && forall|j: int|
            0 <= j < containers@.len() ==> routing_reads(#[trigger] containers@[j]@) && forall|rt: u32|
                !names_skill(containers@[j]@, name@, rt),
        r is Ok || r matches Err(LibraryError::Routing { .. }) || r matches Err(LibraryError::NoSuchSkill(_)),
{
    let mut c: usize = 0;
    while c < containers.len()
        invariant
            0 <= c <= containers@.len(),
            forall|j: int| 0 <= j < c ==> routing_reads(#[trigger] containers@[j]@) && forall|rt: u32|
                !names_skill(containers@[j]@, name@, rt),
        decreases containers@.len() - c,
    {
        let bytes = containers[c].as_slice();
        let entries = match Skill::routing_view(bytes) {
            Ok(es) => es,
            Err(e) => {
                return Err(LibraryError::Routing { container: c, error: e });
            },
        };
        let ghost off = 64 + 112 * le16(bytes@, 0x1C);
        let ghost count = le16(bytes@, off);
        let mut k: usize = 0;
        while k < entries.len()
            invariant
                0 <= k <= entries@.len(),
                entries@.len() == count,
                forall|i: int| 0 <= i < count ==> entry_reads(bytes@, off, count, i, #[trigger] entries@[i]),
                forall|i: int| 0 <= i < k ==> entries@[i].name@ != name@,
            decreases entries@.len() - k,
        {
            if same(entries[k].name.as_str(), name) {
                proof {
                    assert(entry_reads(bytes@, off, count, k as int, entries@[k as int]));
                }
                return Ok((c, entries[k].root));
            }
            k += 1;
        }
        proof {
            assert forall|rt: u32| !names_skill(bytes@, name@, rt) by {
                if names_skill(bytes@, name@, rt) {
                    let (i, e) = choose|i: int, e: RoutingEntry|
                        0 <= i < count && #[trigger] entry_reads(bytes@, off, count, i, e) && e.name@ == name@
                            && e.root == rt;
                    assert(entry_reads(bytes@, off, count, i, entries@[i]));
                    assert(e.name@ == entries@[i].name@);
                }
            }
        }
        c += 1;
    }
    Err(LibraryError::NoSuchSkill(name.to_owned()))
}

/// Opens the container, checks the skill's body against its commitment before handing anything
/// back, and renders the skill to Markdown. This is the first read that touches a body.
pub fn load(bytes: &[u8], policy: &TrustPolicy, dict: Option<&Dictionary>, root: u32) -> (r: Result<
    String,
    LibraryError,
>)
    ensures
        header_err(bytes@) matches Some(e) ==> r matches Err(LibraryError::Open(x)) && x == e,
        r matches Ok(t) ==> exists|s: Skill|
            opened(bytes@, *policy, dict_view(dict), s) && s.wf() && root < s.nodes@.len()
                && commitment_holds(s, root as int) && encode_utf8(t@) == rendered(
                s,
                root as int,
                root as int,
            )->0,
{
    let s = match Skill::open_with(bytes, policy, dict) {
        Ok(s) => s,
        Err(e) => {
            return Err(LibraryError::Open(e));
        },
    };
    match s.verified_payload(root) {
        Ok(_) => {},
        Err(e) => {
            return Err(LibraryError::Verify(e));
        },
    }
    match render_from(&s, root) {
        Ok(t) => Ok(t),
        Err(e) => Err(LibraryError::Render(e)),
    }
}

/// The label segment disclosure gives capability entry `idx`: its kind's name, and its
/// argument after a colon when it has one.
pub open spec fn cap_label(m: Manifest, idx: int) -> Seq<char> {
    let b = sect_bytes(m.caps);
    let label = cap_kind::name_spec(le16(b, 8 * idx) as u16);
    let arg = le32(b, 8 * idx + 4);
    let text = decode_utf8(m.string_bytes(arg));
    if m.string_ok(arg) && text.len() > 0 {
        label + ":"@ + text
    } else {
        label
    }
}

/// The labels of the capability entries among the first `cnt` from `off`, skipping any past
/// the table's end.
pub open spec fn cap_labels(m: Manifest, off: int, cnt: nat) -> Seq<Seq<char>>
    decreases cnt,
{
    if cnt == 0 {
        Seq::empty()
    } else {
        let prev = cap_labels(m, off, (cnt - 1) as nat);
        let idx = off + cnt - 1;
        if idx < sect_count_of(m.caps) {
            prev.push(cap_label(m, idx))
        } else {
            prev
        }
    }
}

/// What disclosure reports for the segment carried by node `i`, record `g`.
pub open spec fn describes(s: Skill, i: int, g: crate::graph::Segment, info: SegmentInfo) -> bool {
    let n = s.nodes@[i];
    &&& info.name@ == (if s.manifest.string_ok(n.name_idx as int) {
        decode_utf8(s.manifest.string_bytes(n.name_idx as int))
    } else {
        "<unnamed>"@
    })
    &&& info.abi@ == abi_name_spec(g.abi)
    &&& info.trust_class@ == (if g.trust_class == TrustClass::Portable {
        "Portable"@
    } else {
        "HostTrusted"@
    })
    &&& views(info.capabilities@) == cap_labels(s.manifest, g.cap_off as int, g.cap_cnt as nat)
    &&& info.mem_kib == g.mem_kib
    &&& info.cpu_ms == g.cpu_ms
    &&& info.bytes == g.orig_len
}

/// `info` discloses a segment carried by a node under `root`, with the record it carries.
pub open spec fn disclosed(s: Skill, root: int, info: SegmentInfo) -> bool {
    exists|i: int, g: crate::graph::Segment|
        #[trigger] describes(s, i, g, info) && carries(s, i, crate::run::segments_before(
            crate::run::kinds_of(s),
            i,
        )) && reaches(s.nodes@, i, root) && record_at(
            s.manifest,
            crate::run::segments_before(crate::run::kinds_of(s), i),
            g,
        )
}

/// How many of the first `n` nodes carry segment bytes and lie under `root`.
pub open spec fn segments_under(s: Skill, root: int, n: int) -> nat
    decreases n,
{
    if n <= 0 {
        0
    } else {
        segments_under(s, root, n - 1) + if s.nodes@[n - 1].kind == Kind::Segment && reaches(
            s.nodes@,
            n - 1,
            root,
        ) {
            1nat
        } else {
            0nat
        }
    }
}

/// Every segment under `root`, in node order, with what it declares.
pub fn segments_of(s: &Skill, root: u32) -> (r: Vec<SegmentInfo>)
    requires
        s.wf(),
    ensures
        r@.len() == segments_under(*s, root as int, s.nodes@.len() as int),
        forall|k: int| 0 <= k < r@.len() ==> #[trigger] disclosed(*s, root as int, r@[k]),
{
    let ghost kinds = crate::run::kinds_of(*s);
    let mut out: Vec<SegmentInfo> = Vec::new();
    let mut seg: u32 = 0;
    let mut i: usize = 0;
    let n = s.nodes.len();
    while i < n
        invariant
            0 <= i <= n,
            n == s.nodes@.len(),
            s.wf(),
            kinds == crate::run::kinds_of(*s),
            seg == crate::run::segments_before(kinds, i as int),
            seg <= i,
            out@.len() == segments_under(*s, root as int, i as int),
            forall|k: int| 0 <= k < out@.len() ==> #[trigger] disclosed(*s, root as int, out@[k]),
        decreases n - i,
    {
        proof {
            assert(kinds[i as int] == s.nodes@[i as int].kind);
        }
        if s.nodes[i].kind == Kind::Segment {
            let idx = seg;
            seg += 1;
            if in_subtree(s, i as u32, root) {
                match s.manifest.segment(idx) {
                    Ok(rec) => {
                        let info = describe_segment(s, i, rec);
                        proof {
                            assert(record_at(s.manifest, idx as int, rec));
                            assert(carries(*s, i as int, idx as int));
                            assert(describes(*s, i as int, rec, info));
                            assert(disclosed(*s, root as int, info));
                        }
                        out.push(info);
                    },
                    Err(_) => {
                        proof {
                            assert(carries(*s, i as int, idx as int));
                            crate::run::lemma_carrier_below(*s, i as int, idx as int);
                            crate::run::lemma_records_carried(*s, idx as int);
                        }
                    },
                }
            }
        }
        i += 1;
    }
    out
}

fn describe_segment(s: &Skill, i: usize, rec: crate::graph::Segment) -> (info: SegmentInfo)
    requires
        s.wf(),
        i < s.nodes@.len(),
    ensures
        describes(*s, i as int, rec, info),
{
    let n = s.nodes[i];
    let name = match s.manifest.string(n.name_idx) {
        Ok(a) => a,
        Err(_) => "<unnamed>".to_owned(),
    };
    let trust = match rec.trust_class {
        TrustClass::Portable => "Portable",
        TrustClass::HostTrusted => "HostTrusted",
    };
    SegmentInfo {
        name,
        abi: rec.abi.name().to_owned(),
        trust_class: trust.to_owned(),
        capabilities: labels(&s.manifest, rec.cap_off, rec.cap_cnt),
        mem_kib: rec.mem_kib,
        cpu_ms: rec.cpu_ms,
        bytes: rec.orig_len,
    }
}

fn labels(m: &Manifest, off: u32, cnt: u16) -> (r: Vec<String>)
    requires
        m.well_formed(),
    ensures
        views(r@) == cap_labels(*m, off as int, cnt as nat),
{
    let mut out: Vec<String> = Vec::new();
    let mut k: u16 = 0;
    while k < cnt
        invariant
            0 <= k <= cnt,
            m.well_formed(),
            views(out@) == cap_labels(*m, off as int, k as nat),
        decreases cnt - k,
    {
        let ghost idx = off as int + k as int;
        match off.checked_add(k as u32) {
            Some(at) => {
                match m.cap(at) {
                    Ok(c) => {
                        let mut label = cap_kind::name(c.0).to_owned();
                        match m.string(c.2) {
                            Ok(a) => {
                                if a.unicode_len() > 0 {
                                    label.append(":");
                                    label.append(a.as_str());
                                }
                            },
                            Err(_) => {},
                        }
                        proof {
                            assert(c.0 == le16(sect_bytes(m.caps), 8 * idx));
                            assert(c.2 == le32(sect_bytes(m.caps), 8 * idx + 4));
                            assert(label@ == cap_label(*m, idx));
                            assert(views(out@.push(label)) =~= views(out@).push(label@));
                        }
                        out.push(label);
                    },
                    Err(_) => {},
                }
            },
            None => {
                proof {
                    assert(idx > u32::MAX);
                }
            },
        }
        k += 1;
    }
    out
}

/// Opens the container and discloses every segment under the skill rooted at `root`.
pub fn segments(bytes: &[u8], policy: &TrustPolicy, dict: Option<&Dictionary>, root: u32) -> (r: Result<
    Vec<SegmentInfo>,
    LibraryError,
>)
    ensures
        header_err(bytes@) matches Some(e) ==> r matches Err(LibraryError::Open(x)) && x == e,
        r matches Ok(v) ==> exists|s: Skill|
            opened(bytes@, *policy, dict_view(dict), s) && s.wf() && v@.len() == segments_under(
                s,
                root as int,
                s.nodes@.len() as int,
            ) && forall|k: int| 0 <= k < v@.len() ==> #[trigger] disclosed(s, root as int, v@[k]),
{
    let s = match Skill::open_with(bytes, policy, dict) {
        Ok(s) => s,
        Err(e) => {
            return Err(LibraryError::Open(e));
        },
    };
    Ok(segments_of(&s, root))
}

} // verus!
