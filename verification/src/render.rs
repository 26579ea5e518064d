//! Renders a container back to `SKILL.md`. Existing files have to compile, and a human has to
//! be able to read what they are being asked to sign, so what comes out is what went in.

use vstd::prelude::*;

use vstd::utf8::{encode_utf8, valid_utf8};

use crate::classify::{ROLE_CONTINUATION, ROLE_FENCE, ROLE_FENCE_UNCLOSED, ROLE_FRONTMATTER};
use crate::error::Error;
use crate::graph::{Kind, NONE32};
use crate::md::hashes;
use crate::raw::push_all;
use crate::skill::{payload_bytes, Skill};

verus! {

/// A node's payload as text: its bytes when they are valid UTF-8, and nothing otherwise.
#[verifier::opaque]
pub open spec fn payload_text(s: Skill, i: int) -> Option<Seq<u8>> {
    match payload_bytes(s, i) {
        Some(p) => Some(if valid_utf8(p) { p } else { Seq::empty() }),
        None => None,
    }
}

/// A node's name as bytes, empty when it has none.
pub open spec fn label_of(s: Skill, i: int) -> Option<Seq<u8>> {
    let idx = s.nodes@[i].name_idx;
    if idx == NONE32 {
        Some(Seq::empty())
    } else if s.manifest.string_ok(idx as int) {
        Some(s.manifest.string_bytes(idx as int))
    } else {
        None
    }
}

/// Where the first line feed of `l` is, if it has one.
pub open spec fn first_lf(l: Seq<u8>) -> Option<int> {
    if exists|k: int| 0 <= k < l.len() && l[k] == 0x0Au8 {
        Some(choose|k: int| 0 <= k < l.len() && l[k] == 0x0Au8 && forall|j: int| 0 <= j < k ==> l[j] != 0x0Au8)
    } else {
        None
    }
}

/// A fence as written: its opening line, its code, and its closing line when it had one.
pub open spec fn fence_text(label: Seq<u8>, code: Seq<u8>, unclosed: bool) -> Seq<u8> {
    match first_lf(label) {
        Some(k) => label.subrange(0, k) + seq![0x0Au8] + code + if unclosed {
            Seq::empty()
        } else {
            label.subrange(k + 1, label.len() as int) + seq![0x0Au8]
        },
        None => label + seq![0x0Au8] + code,
    }
}

/// A node's own text, before its children's: the heading it had, then its payload.
#[verifier::opaque]
pub open spec fn own_text(s: Skill, i: int, root: int) -> Option<Seq<u8>> {
    let n = s.nodes@[i];
    match payload_text(s, i) {
        None => None,
        Some(p) => if i != root && n.role != ROLE_CONTINUATION && n.depth > 0 {
            match label_of(s, i) {
                Some(l) => if n.name_idx == NONE32 {
                    None
                } else {
                    Some(hashes(n.depth as nat) + seq![0x20u8] + l + seq![0x0Au8] + p)
                },
                None => None,
            }
        } else {
            Some(p)
        },
    }
}

/// Whether node `i` is written out whole, with no children: a frontmatter block or a fence.
pub open spec fn is_leaf_text(s: Skill, i: int, root: int) -> bool {
    let n = s.nodes@[i];
    i != root && (n.role == ROLE_FRONTMATTER || n.role == ROLE_FENCE || n.role
        == ROLE_FENCE_UNCLOSED || n.kind == Kind::Segment)
}

/// The text of the subtree at `i`, with `root` as the document's top.
pub open spec fn rendered(s: Skill, i: int, root: int) -> Option<Seq<u8>>
    decreases s.nodes@.len() - i, s.children@[i]@.len() + 1,
{
    if !(0 <= i < s.nodes@.len()) {
        None
    } else if is_leaf_text(s, i, root) {
        let n = s.nodes@[i];
        if n.role == ROLE_FRONTMATTER {
            payload_text(s, i)
        } else {
            match (label_of(s, i), payload_text(s, i)) {
                (Some(l), Some(p)) => Some(fence_text(l, p, n.role == ROLE_FENCE_UNCLOSED)),
                _ => None,
            }
        }
    } else {
        match (own_text(s, i, root), rendered_kids(s, i, root, 0)) {
            (Some(o), Some(k)) => Some(o + k),
            _ => None,
        }
    }
}

/// The text of a node's children from the `k`-th on.
pub open spec fn rendered_kids(s: Skill, i: int, root: int, k: int) -> Option<Seq<u8>>
    decreases s.nodes@.len() - i, s.children@[i]@.len() - k,
{
    if !(0 <= i < s.nodes@.len()) || k < 0 || k >= s.children@[i]@.len() {
        Some(Seq::empty())
    } else {
        let c = s.children@[i]@[k] as int;
        if !(i < c < s.nodes@.len()) {
            None
        } else {
            match (rendered(s, c, root), rendered_kids(s, i, root, k + 1)) {
                (Some(a), Some(b)) => Some(a + b),
                _ => None,
            }
        }
    }
}

/// `p` laid before what `o` holds, if it holds anything.
pub open spec fn opt_prepend(p: Seq<u8>, o: Option<Seq<u8>>) -> Option<Seq<u8>> {
    match o {
        Some(r) => Some(p + r),
        None => None,
    }
}

proof fn lemma_ascii_valid(t: Seq<u8>)
    requires
        forall|i: int| 0 <= i < t.len() ==> t[i] < 0x80,
    ensures
        valid_utf8(t),
    decreases t.len(),
{
    if t.len() > 0 {
        let rest = t.subrange(1, t.len() as int);
        lemma_ascii_valid(rest);
        assert(vstd::utf8::pop_first_scalar(t) =~= rest);
    }
}

proof fn lemma_cat_valid(a: Seq<u8>, b: Seq<u8>)
    requires
        valid_utf8(a),
        valid_utf8(b),
    ensures
        valid_utf8(a + b),
{
    vstd::utf8::valid_utf8_concat(a, b);
}

/// Appends `src`, keeping the text valid UTF-8.
fn put(out: &mut Vec<u8>, src: &[u8])
    requires
        valid_utf8(old(out)@),
        valid_utf8(src@),
    ensures
        final(out)@ == old(out)@ + src@,
        valid_utf8(final(out)@),
{
    proof {
        lemma_cat_valid(old(out)@, src@);
    }
    push_all(out, src);
}

/// Appends one ASCII byte.
fn put_byte(out: &mut Vec<u8>, x: u8)
    requires
        valid_utf8(old(out)@),
        x < 0x80,
    ensures
        final(out)@ == old(out)@ + seq![x],
        valid_utf8(final(out)@),
{
    proof {
        lemma_ascii_valid(seq![x]);
        lemma_cat_valid(old(out)@, seq![x]);
    }
    out.push(x);
    assert(out@ =~= old(out)@ + seq![x]);
}

/// The node's name, as bytes of valid UTF-8.
fn label_bytes(s: &Skill, i: u32) -> (r: Result<Vec<u8>, Error>)
    requires
        i < s.nodes@.len(),
    ensures
        r is Ok <==> label_of(*s, i as int) is Some,
        r matches Ok(v) ==> v@ == label_of(*s, i as int)->0 && valid_utf8(v@),
{
    let idx = s.nodes[i as usize].name_idx;
    if idx == NONE32 {
        let v: Vec<u8> = Vec::new();
        proof {
            lemma_ascii_valid(v@);
        }
        return Ok(v);
    }
    let t = s.manifest.string(idx)?;
    proof {
        vstd::utf8::decode_utf8_encode_utf8(s.manifest.string_bytes(idx as int));
        vstd::utf8::encode_utf8_valid_utf8(t@);
    }
    Ok(crate::text::to_vec(t.as_str().as_bytes()))
}

/// The node's payload as text: empty when it is not valid UTF-8.
fn payload_of(s: &Skill, i: u32) -> (r: Result<Vec<u8>, Error>)
    requires
        s.wf(),
        i < s.nodes@.len(),
    ensures
        r is Ok <==> payload_text(*s, i as int) is Some,
        r matches Ok(v) ==> v@ == payload_text(*s, i as int)->0 && valid_utf8(v@),
{
    reveal(payload_text);
    let p = s.payload(i)?;
    match crate::text::utf8(p.as_slice()) {
        Some(_) => Ok(p),
        None => {
            let v: Vec<u8> = Vec::new();
            proof {
                lemma_ascii_valid(v@);
            }
            Ok(v)
        },
    }
}

#[verifier::rlimit(30)]
fn emit_fence(out: &mut Vec<u8>, label: &Vec<u8>, code: &Vec<u8>, unclosed: bool)
    requires
        valid_utf8(old(out)@),
        valid_utf8(label@),
        valid_utf8(code@),
    ensures
        final(out)@ == old(out)@ + fence_text(label@, code@, unclosed),
        valid_utf8(final(out)@),
{
    let mut k: usize = 0;
    while k < label.len() && label[k] != 0x0A
        invariant
            0 <= k <= label@.len(),
            forall|j: int| 0 <= j < k ==> label@[j] != 0x0Au8,
        decreases label@.len() - k,
    {
        k += 1;
    }
    let ghost start = out@;
    if k < label.len() {
        proof {
            crate::text::lemma_ascii_boundary(label@, k as int);
            crate::text::lemma_after_ascii(label@, k + 1);
            crate::text::lemma_ends_boundary(label@);
            crate::text::lemma_between(label@, 0, k as int);
            crate::text::lemma_between(label@, k + 1, label@.len() as int);
            assert(first_lf(label@) == Some(k as int)) by {
                let w = choose|w: int| 0 <= w < label@.len() && label@[w] == 0x0Au8 && forall|j: int|
                    0 <= j < w ==> label@[j] != 0x0Au8;
                assert(label@[k as int] == 0x0Au8);
                if w < k {
                } else if w > k {
                    assert(label@[k as int] != 0x0Au8);
                }
            }
        }
        put(out, &label.as_slice()[0..k]);
        put_byte(out, 0x0A);
        put(out, code.as_slice());
        if !unclosed {
            put(out, &label.as_slice()[k + 1..label.len()]);
            put_byte(out, 0x0A);
        }
        proof {
            if unclosed {
                assert(out@ =~= start + fence_text(label@, code@, unclosed));
            } else {
                assert(out@ =~= start + fence_text(label@, code@, unclosed));
            }
        }
    } else {
        proof {
            assert(first_lf(label@) is None);
        }
        put(out, label.as_slice());
        put_byte(out, 0x0A);
        put(out, code.as_slice());
        assert(out@ =~= start + fence_text(label@, code@, unclosed));
    }
}

/// Writes a node that is written out whole: a frontmatter block or a fence.
fn emit_leaf(s: &Skill, idx: u32, root: u32, out: &mut Vec<u8>) -> (r: Result<(), Error>)
    requires
        s.wf(),
        idx < s.nodes@.len(),
        valid_utf8(old(out)@),
        is_leaf_text(*s, idx as int, root as int),
    ensures
        r is Ok <==> rendered(*s, idx as int, root as int) is Some,
        r is Ok ==> final(out)@ == old(out)@ + rendered(*s, idx as int, root as int)->0,
        valid_utf8(final(out)@),
{
    let n = s.nodes[idx as usize];
    let payload = payload_of(s, idx)?;
    if n.role == ROLE_FRONTMATTER {
        put(out, payload.as_slice());
        return Ok(());
    }
    let label = label_bytes(s, idx)?;
    emit_fence(out, &label, &payload, n.role == ROLE_FENCE_UNCLOSED);
    Ok(())
}

/// Writes a node's own text: its heading, if it had one, then its payload.
fn emit_own(s: &Skill, idx: u32, root: u32, out: &mut Vec<u8>) -> (r: Result<(), Error>)
    requires
        s.wf(),
        idx < s.nodes@.len(),
        valid_utf8(old(out)@),
    ensures
        r is Ok <==> own_text(*s, idx as int, root as int) is Some,
        r is Ok ==> final(out)@ == old(out)@ + own_text(*s, idx as int, root as int)->0,
        valid_utf8(final(out)@),
{
    reveal(own_text);
    let ghost start = out@;
    let n = s.nodes[idx as usize];
    let payload = payload_of(s, idx)?;
    if idx != root && n.role != ROLE_CONTINUATION && n.depth > 0 {
        let label = label_bytes(s, idx)?;
        if n.name_idx == NONE32 {
            return Err(Error::StringIndexOutOfRange(NONE32));
        }
        let mut d: u8 = 0;
        while d < n.depth
            invariant
                0 <= d <= n.depth,
                valid_utf8(out@),
                out@ == start + hashes(d as nat),
            decreases n.depth - d,
        {
            put_byte(out, 0x23);
            d += 1;
            assert(out@ =~= start + hashes(d as nat));
        }
        put_byte(out, 0x20);
        put(out, label.as_slice());
        put_byte(out, 0x0A);
    }
    put(out, payload.as_slice());
    assert(out@ =~= start + own_text(*s, idx as int, root as int)->0);
    Ok(())
}

fn emit_at(s: &Skill, idx: u32, root: u32, out: &mut Vec<u8>) -> (r: Result<(), Error>)
    requires
        s.wf(),
        idx < s.nodes@.len(),
        valid_utf8(old(out)@),
    ensures
        r is Ok <==> rendered(*s, idx as int, root as int) is Some,
        r is Ok ==> final(out)@ == old(out)@ + rendered(*s, idx as int, root as int)->0,
        valid_utf8(final(out)@),
    decreases s.nodes@.len() - idx,
{
    proof {
        crate::validate::lemma_parent_before(s.nodes@);
    }
    let ghost start = out@;
    let n = s.nodes[idx as usize];
    if idx != root && (n.role == ROLE_FRONTMATTER || n.role == ROLE_FENCE || n.role
        == ROLE_FENCE_UNCLOSED || n.kind == Kind::Segment) {
        return emit_leaf(s, idx, root, out);
    }
    emit_own(s, idx, root, out)?;
    let ghost own = out@.subrange(start.len() as int, out@.len() as int);
    assert(out@ =~= start + own);
    let ghost mid = out@;
    assert(out@.subrange(mid.len() as int, out@.len() as int) =~= Seq::<u8>::empty());
    assert(opt_prepend(Seq::<u8>::empty(), rendered_kids(*s, idx as int, root as int, 0)) =~= rendered_kids(*s, idx as int, root as int, 0)) by {
        match rendered_kids(*s, idx as int, root as int, 0) {
            Some(r) => {
                assert(Seq::<u8>::empty() + r =~= r);
            },
            None => {},
        }
    }
    let row = s.children_of(idx);
    let mut k: usize = 0;
    while k < row.len()
        invariant
            s.wf(),
            idx < s.nodes@.len(),
            0 <= k <= row@.len(),
            row@ == s.children@[idx as int]@,
            valid_utf8(out@),
            forall|c: int| 1 <= c < s.nodes@.len() ==> #[trigger] s.nodes@[c].parent < c,
            rendered_kids(*s, idx as int, root as int, 0) == opt_prepend(
                out@.subrange(mid.len() as int, out@.len() as int),
                rendered_kids(*s, idx as int, root as int, k as int),
            ),
            out@.len() >= mid.len(),
            out@.subrange(0, mid.len() as int) == mid,
        decreases row@.len() - k,
    {
        let c = row[k];
        assert(s.children@[idx as int]@[k as int] == c);
        assert(idx < c);
        let ghost before = out@;
        match emit_at(s, c, root, out) {
            Ok(()) => {},
            Err(e) => {
                return Err(e);
            },
        }
        proof {
            let pre = before.subrange(mid.len() as int, before.len() as int);
            let here = rendered(*s, c as int, root as int)->0;
            assert(out@.subrange(0, mid.len() as int) =~= before.subrange(0, mid.len() as int));
            assert(out@.subrange(mid.len() as int, out@.len() as int) =~= pre + here);
            match rendered_kids(*s, idx as int, root as int, k + 1) {
                Some(rest) => {
                    assert(pre + (here + rest) =~= (pre + here) + rest);
                },
                None => {},
            }
        }
        k += 1;
    }
    proof {
        assert(rendered_kids(*s, idx as int, root as int, k as int) == Some(Seq::<u8>::empty()));
        let kids = out@.subrange(mid.len() as int, out@.len() as int);
        assert(kids + Seq::<u8>::empty() =~= kids);
        assert(out@ =~= mid + kids);
        assert(mid =~= start + own);
        assert(out@ =~= start + (own + kids));
    }
    Ok(())
}

/// Renders the whole file.
pub fn render(s: &Skill) -> (r: Result<String, Error>)
    requires
        s.wf(),
    ensures
        s.nodes@.len() > 0 ==> (r is Ok <==> rendered(*s, 0, 0) is Some),
        r matches Ok(t) ==> s.nodes@.len() > 0 && encode_utf8(t@) == rendered(*s, 0, 0)->0,
{
    render_from(s, 0)
}

/// Renders one skill out of a bundle, treating `root` as that document's top.
pub fn render_from(s: &Skill, root: u32) -> (r: Result<String, Error>)
    requires
        s.wf(),
    ensures
        root < s.nodes@.len() ==> (r is Ok <==> rendered(*s, root as int, root as int) is Some),
        r matches Ok(t) ==> root < s.nodes@.len() && encode_utf8(t@) == rendered(
            *s,
            root as int,
            root as int,
        )->0,
{
    if root as usize >= s.nodes.len() {
        return Err(Error::NodeIndexOutOfRange(root));
    }
    let mut out: Vec<u8> = Vec::new();
    proof {
        lemma_ascii_valid(out@);
    }
    emit_at(s, root, root, &mut out)?;
    assert(out@ =~= Seq::<u8>::empty() + rendered(*s, root as int, root as int)->0);
    match crate::text::utf8(out.as_slice()) {
        Some(t) => {
            proof {
                vstd::utf8::decode_utf8_encode_utf8(out@);
            }
            Ok(t)
        },
        None => {
            assert(false);
            Err(Error::RoutingNotUtf8)
        },
    }
}

} // verus!
