//! What the tools of the skill server take and give back, and the small rules that shape them:
//! how many hits a search may return, and how a load or a disclosure is reported.

use vstd::prelude::*;

use vstd::utf8::encode_utf8;

use crate::library::SegmentInfo;

verus! {

/// A search: words to match against names and descriptions, and how many hits to return.
#[derive(Debug, Clone)]
pub struct SearchParams {
    pub query: String,
    pub limit: Option<u32>,
}

/// A skill named exactly as a search reported it.
#[derive(Debug, Clone)]
pub struct NameParams {
    pub name: String,
}

/// One skill's Markdown, checked against its commitment before it was returned.
#[derive(Debug, Clone)]
pub struct LoadResult {
    pub name: String,
    pub bytes: usize,
    pub verified: bool,
    pub markdown: String,
}

/// One executable fragment as the server discloses it.
#[derive(Debug, Clone)]
pub struct Segment {
    pub name: String,
    pub abi: String,
    pub trust_class: String,
    pub capabilities: Vec<String>,
    pub mem_kib: u32,
    pub cpu_ms: u32,
    pub bytes: u32,
}

#[derive(Debug, Clone)]
pub struct SegmentsResult {
    pub name: String,
    pub segments: Vec<Segment>,
    pub note: &'static str,
}

/// The number of hits a search returns: 20 unless asked otherwise, and never fewer than 1 nor
/// more than 200.
pub fn search_limit(limit: Option<u32>) -> (r: usize)
    ensures
        r == (match limit {
            Some(n) => if n < 1 {
                1
            } else if n > 200 {
                200
            } else {
                n as int
            },
            None => 20,
        }),
{
    let n = match limit {
        Some(n) => n,
        None => 20,
    };
    if n < 1 {
        1
    } else if n > 200 {
        200
    } else {
        n as usize
    }
}

/// The report of a load: the name asked for, the Markdown's size in bytes, and that it was
/// verified, which a load that returns always was.
pub fn load_result(name: String, markdown: String) -> (r: LoadResult)
    ensures
        r.name == name,
        r.markdown == markdown,
        r.bytes == encode_utf8(markdown@).len(),
        r.verified,
{
    let bytes = markdown.as_str().as_bytes().len();
    LoadResult { name, bytes, verified: true, markdown }
}

/// Every disclosed fragment, field for field, with the note that an empty capability list
/// authorizes nothing.
pub fn segments_result(name: String, infos: Vec<SegmentInfo>) -> (r: SegmentsResult)
    ensures
        r.name == name,
        r.segments@.len() == infos@.len(),
        forall|i: int|
            0 <= i < infos@.len() ==> {
                let s = #[trigger] r.segments@[i];
                let g = infos@[i];
                &&& s.name == g.name
                &&& s.abi == g.abi
                &&& s.trust_class == g.trust_class
                &&& s.capabilities == g.capabilities
                &&& s.mem_kib == g.mem_kib
                &&& s.cpu_ms == g.cpu_ms
                &&& s.bytes == g.bytes
            },
        r.note@ == "an empty capability list means the fragment is authorized for nothing"@,
{
    let mut segments: Vec<Segment> = Vec::new();
    let mut infos = infos;
    let ghost all = infos@;
    while infos.len() > 0
        invariant
            segments@.len() + infos@.len() == all.len(),
            infos@ == all.subrange(segments@.len() as int, all.len() as int),
            forall|i: int|
                0 <= i < segments@.len() ==> {
                    let s = #[trigger] segments@[i];
                    let g = all[i];
                    &&& s.name == g.name
                    &&& s.abi == g.abi
                    &&& s.trust_class == g.trust_class
                    &&& s.capabilities == g.capabilities
                    &&& s.mem_kib == g.mem_kib
                    &&& s.cpu_ms == g.cpu_ms
                    &&& s.bytes == g.bytes
                },
        decreases infos@.len(),
    {
        let ghost k = segments@.len() as int;
        let g = infos.remove(0);
        proof {
            assert(g == all[k]);
            assert(infos@ =~= all.subrange(k + 1, all.len() as int));
        }
        segments.push(
            Segment {
                name: g.name,
                abi: g.abi,
                trust_class: g.trust_class,
                capabilities: g.capabilities,
                mem_kib: g.mem_kib,
                cpu_ms: g.cpu_ms,
                bytes: g.bytes,
            },
        );
    }
    SegmentsResult {
        name,
        segments,
        note: "an empty capability list means the fragment is authorized for nothing",
    }
}

} // verus!
