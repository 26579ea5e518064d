//! A deliberately small Markdown reader: skills use headings, paragraphs and fences, and a full
//! CommonMark parser would introduce normalisations that break the round trip. Everything it
//! reads is kept verbatim, so the document laid back out is the source it came from.

use vstd::prelude::*;

use vstd::string::StringExecFns;
use vstd::utf8::{encode_utf8, is_char_boundary, valid_utf8};

use crate::text::{
    lemma_after_ascii, lemma_ascii_boundary, lemma_ends_boundary, lemma_scalar_step, scalar_width,
    text_between,
};

verus! {

#[derive(Debug, Clone)]
pub enum Block {
    Heading { level: u8, text: String },
    Text(String),
    /// `open` is the opening line verbatim, indentation included: fences inside list items are
    /// indented, and a reader that only looks at column 0 walks straight into treating `# foo`
    /// inside a Python block as a heading.
    Fence { open: String, close: Option<String>, lang: String, code: String },
}

#[derive(Debug, Clone)]
pub struct Document {
    pub frontmatter: Vec<(String, String)>,
    /// The frontmatter block as written, delimiters included.
    pub fm_raw: String,
    pub blocks: Vec<Block>,
}

/// `n` hash marks.
pub open spec fn hashes(n: nat) -> Seq<u8> {
    Seq::new(n, |i: int| 0x23u8)
}

/// The bytes a block stands for in the source.
pub open spec fn block_bytes(b: Block) -> Seq<u8> {
    match b {
        Block::Heading { level, text } => hashes(level as nat) + seq![0x20u8] + encode_utf8(text@)
            + seq![0x0Au8],
        Block::Text(t) => encode_utf8(t@),
        Block::Fence { open, close, lang, code } => encode_utf8(open@) + seq![0x0Au8] + encode_utf8(
            code@,
        ) + match close {
            Some(c) => encode_utf8(c@) + seq![0x0Au8],
            None => Seq::empty(),
        },
    }
}

/// The bytes a run of blocks stands for.
pub open spec fn blocks_bytes(bs: Seq<Block>) -> Seq<u8>
    decreases bs.len(),
{
    if bs.len() == 0 {
        Seq::empty()
    } else {
        blocks_bytes(bs.drop_last()) + block_bytes(bs.last())
    }
}

/// The source a document stands for: the frontmatter block, then every block in order.
pub open spec fn doc_bytes(d: Document) -> Seq<u8> {
    encode_utf8(d.fm_raw@) + blocks_bytes(d.blocks@)
}

/// Source whose every line ends in a line feed and which holds no carriage return.
pub open spec fn plain(b: Seq<u8>) -> bool {
    &&& (b.len() == 0 || b.last() == 0x0Au8)
    &&& forall|i: int| 0 <= i < b.len() ==> b[i] != 0x0Du8
}

/// The byte length of the whitespace character at `p`, before `end`, or 0 when there is none:
/// the UTF-8 encodings of the Unicode `White_Space` characters.
pub open spec fn ws_width(b: Seq<u8>, p: int, end: int) -> int {
    if !(0 <= p < end) {
        0
    } else if b[p] == 9 || b[p] == 10 || b[p] == 11 || b[p] == 12 || b[p] == 13 || b[p] == 32 {
        1
    } else if p + 1 < end && b[p] == 0xC2 && (b[p + 1] == 0x85 || b[p + 1] == 0xA0) {
        2
    } else if p + 2 < end && b[p] == 0xE1 && b[p + 1] == 0x9A && b[p + 2] == 0x80 {
        3
    } else if p + 2 < end && b[p] == 0xE2 && b[p + 1] == 0x80 && ((0x80 <= b[p + 2] <= 0x8A)
        || b[p + 2] == 0xA8 || b[p + 2] == 0xA9 || b[p + 2] == 0xAF) {
        3
    } else if p + 2 < end && b[p] == 0xE2 && b[p + 1] == 0x81 && b[p + 2] == 0x9F {
        3
    } else if p + 2 < end && b[p] == 0xE3 && b[p + 1] == 0x80 && b[p + 2] == 0x80 {
        3
    } else {
        0
    }
}

fn ws_len(b: &[u8], p: usize, end: usize) -> (r: usize)
    requires
        end <= b@.len(),
    ensures
        r == ws_width(b@, p as int, end as int),
{
    if p >= end {
        return 0;
    }
    let x = b[p];
    if x == 9 || x == 10 || x == 11 || x == 12 || x == 13 || x == 32 {
        1
    } else if end - p > 1 && x == 0xC2 && (b[p + 1] == 0x85 || b[p + 1] == 0xA0) {
        2
    } else if end - p > 2 && x == 0xE1 && b[p + 1] == 0x9A && b[p + 2] == 0x80 {
        3
    } else if end - p > 2 && x == 0xE2 && b[p + 1] == 0x80 && ((0x80 <= b[p + 2] && b[p + 2]
        <= 0x8A) || b[p + 2] == 0xA8 || b[p + 2] == 0xA9 || b[p + 2] == 0xAF) {
        3
    } else if end - p > 2 && x == 0xE2 && b[p + 1] == 0x81 && b[p + 2] == 0x9F {
        3
    } else if end - p > 2 && x == 0xE3 && b[p + 1] == 0x80 && b[p + 2] == 0x80 {
        3
    } else {
        0
    }
}

/// Where the whitespace run starting at `p` ends.
pub open spec fn skip_ws_spec(b: Seq<u8>, p: int, end: int) -> int
    decreases end - p,
{
    if p < end && ws_width(b, p, end) > 0 {
        skip_ws_spec(b, p + ws_width(b, p, end), end)
    } else {
        p
    }
}

/// Boundaries `p < end` of valid UTF-8: the character at `p` ends by `end`.
proof fn lemma_step_within(b: Seq<u8>, p: int, end: int)
    requires
        valid_utf8(b),
        0 <= p < end <= b.len(),
        is_char_boundary(b, p),
        is_char_boundary(b, end),
    ensures
        p + scalar_width(b[p]) <= end,
        is_char_boundary(b, p + scalar_width(b[p])),
{
    lemma_scalar_step(b, p);
    let w = scalar_width(b[p]);
    if p + w > end {
        vstd::utf8::valid_utf8_split(b, p);
        let t = b.subrange(p, b.len() as int);
        vstd::utf8::is_char_boundary_iff_not_is_continuation_byte(b, p);
        assert(vstd::utf8::valid_first_scalar(t));
        assert(t[end - p] == b[end]);
        vstd::utf8::is_char_boundary_iff_not_is_continuation_byte(b, end);
        assert(false);
    }
}

/// Skips the whitespace characters starting at `p`.
fn skip_ws(b: &[u8], p: usize, end: usize) -> (r: usize)
    requires
        valid_utf8(b@),
        p <= end <= b@.len(),
        is_char_boundary(b@, p as int),
        is_char_boundary(b@, end as int),
    ensures
        r == skip_ws_spec(b@, p as int, end as int),
        p <= r <= end,
        is_char_boundary(b@, r as int),
{
    let mut q = p;
    while q < end && ws_len(b, q, end) > 0
        invariant
            valid_utf8(b@),
            p <= q <= end,
            end <= b@.len(),
            is_char_boundary(b@, q as int),
            is_char_boundary(b@, end as int),
            skip_ws_spec(b@, p as int, end as int) == skip_ws_spec(b@, q as int, end as int),
        decreases end - q,
    {
        let w = ws_len(b, q, end);
        proof {
            lemma_step_within(b@, q as int, end as int);
            assert(w == scalar_width(b@[q as int]));
        }
        q = q + w;
    }
    q
}

/// `r` is where `b[a..end]` ends once trailing whitespace is dropped: only whitespace follows it
/// up to `end`, and it is `a` or just past a character that is not whitespace.
#[verifier::opaque]
pub open spec fn trims_to(b: Seq<u8>, a: int, r: int, end: int) -> bool {
    &&& a <= r <= end
    &&& skip_ws_spec(b, r, end) == end
    &&& r == a || exists|t: int|
        a <= t < r && is_char_boundary(b, t) && t + scalar_width(b[t]) == r && ws_width(
            b,
            t,
            end,
        ) == 0
}

/// A whitespace character is as wide as its UTF-8 encoding says.
proof fn lemma_ws_is_scalar(b: Seq<u8>, p: int, end: int)
    requires
        ws_width(b, p, end) > 0,
    ensures
        ws_width(b, p, end) == scalar_width(b[p]),
        ws_width(b, p, p + ws_width(b, p, end)) == ws_width(b, p, end),
{
}

/// A run of whitespace that reaches `p` still reaches past one more whitespace character.
proof fn lemma_ws_run_extends(b: Seq<u8>, z: int, p: int, w: int)
    requires
        0 <= z <= p,
        skip_ws_spec(b, z, p) == p,
        w > 0,
        ws_width(b, p, p + w) == w,
    ensures
        skip_ws_spec(b, z, p + w) == p + w,
    decreases p - z,
{
    if z < p {
        let k = ws_width(b, z, p);
        assert(ws_width(b, z, p + w) == k);
        lemma_ws_run_extends(b, z + k, p, w);
    } else {
        assert(skip_ws_spec(b, p + w, p + w) == p + w);
    }
}

/// Where `b[a..end]` ends once trailing whitespace is dropped.
fn trim_end_at(b: &[u8], a: usize, end: usize) -> (r: usize)
    requires
        valid_utf8(b@),
        a <= end <= b@.len(),
        is_char_boundary(b@, a as int),
        is_char_boundary(b@, end as int),
    ensures
        a <= r <= end,
        is_char_boundary(b@, r as int),
        trims_to(b@, a as int, r as int, end as int),
{
    reveal(trims_to);
    let mut p = a;
    let mut z = a;
    while p < end
        invariant
            valid_utf8(b@),
            a <= z <= p <= end,
            end <= b@.len(),
            is_char_boundary(b@, p as int),
            is_char_boundary(b@, z as int),
            is_char_boundary(b@, end as int),
            skip_ws_spec(b@, z as int, p as int) == p,
            z == a || exists|t: int|
                a <= t < z && is_char_boundary(b@, t) && t + scalar_width(b@[t]) == z && ws_width(
                    b@,
                    t,
                    end as int,
                ) == 0,
        decreases end - p,
    {
        proof {
            lemma_step_within(b@, p as int, end as int);
        }
        let x = b[p];
        let w: usize = if x < 0x80 {
            1
        } else if x < 0xE0 {
            2
        } else if x < 0xF0 {
            3
        } else {
            4
        };
        if ws_len(b, p, end) == 0 {
            assert(skip_ws_spec(b@, (p + w) as int, (p + w) as int) == p + w);
            z = p + w;
        } else {
            proof {
                lemma_ws_is_scalar(b@, p as int, end as int);
                lemma_ws_run_extends(b@, z as int, p as int, w as int);
            }
        }
        p = p + w;
    }
    z
}

/// The end of the line starting at `ls`: just past its line feed, or the end of the text.
fn line_end(b: &[u8], ls: usize) -> (r: usize)
    requires
        ls < b@.len(),
    ensures
        ls < r <= b@.len(),
        forall|i: int| ls <= i < r - 1 ==> b@[i] != 0x0Au8,
        r < b@.len() ==> b@[r - 1] == 0x0Au8,
        r == b@.len() ==> b@[r - 1] == 0x0Au8 || forall|i: int| ls <= i < r ==> b@[i] != 0x0Au8,
{
    let mut q = ls;
    while q < b.len()
        invariant
            ls <= q <= b@.len(),
            forall|i: int| ls <= i < q ==> b@[i] != 0x0Au8,
        decreases b@.len() - q,
    {
        if b[q] == 0x0A {
            return q + 1;
        }
        q += 1;
    }
    q
}

/// The end of a line's content: its line feeds and carriage returns dropped.
fn content_end(b: &[u8], ls: usize, le: usize) -> (r: usize)
    requires
        ls <= le <= b@.len(),
    ensures
        ls <= r <= le,
        r < le ==> (b@[r as int] == 0x0Au8 || b@[r as int] == 0x0Du8),
        r > ls ==> !(b@[r - 1] == 0x0Au8 || b@[r - 1] == 0x0Du8),
        forall|i: int| r <= i < le ==> b@[i] == 0x0Au8 || b@[i] == 0x0Du8,
{
    let mut z = le;
    while z > ls && (b[z - 1] == 0x0A || b[z - 1] == 0x0D)
        invariant
            ls <= z <= le,
            le <= b@.len(),
            forall|i: int| z <= i < le ==> b@[i] == 0x0Au8 || b@[i] == 0x0Du8,
        decreases z - ls,
    {
        z -= 1;
    }
    z
}

/// A line's content ends at a boundary.
proof fn lemma_content_end_boundary(b: Seq<u8>, ce: int, le: int)
    requires
        valid_utf8(b),
        0 <= ce <= le <= b.len(),
        is_char_boundary(b, le),
        ce < le ==> (b[ce] == 0x0Au8 || b[ce] == 0x0Du8),
    ensures
        is_char_boundary(b, ce),
{
    if ce < le {
        lemma_ascii_boundary(b, ce);
    }
}

/// The length of the run of `ch` starting at `p`, before `end`.
fn run_of(b: &[u8], p: usize, end: usize, ch: u8) -> (r: usize)
    requires
        p <= end <= b@.len(),
    ensures
        p + r <= end,
        forall|i: int| p <= i < p + r ==> b@[i] == ch,
        p + r < end ==> b@[p + r] != ch,
{
    let mut q = p;
    while q < end && b[q] == ch
        invariant
            p <= q <= end,
            end <= b@.len(),
            forall|i: int| p <= i < q ==> b@[i] == ch,
        decreases end - q,
    {
        q += 1;
    }
    q - p
}

/// Three backticks or three tildes start at `ip`, before `ce`.
#[verifier::opaque]
pub open spec fn opens_fence(b: Seq<u8>, ip: int, ce: int) -> bool {
    &&& ip + 3 <= ce
    &&& (b[ip] == 0x60u8 || b[ip] == 0x7Eu8)
    &&& b[ip + 1] == b[ip]
    &&& b[ip + 2] == b[ip]
}

/// A fence opener: after its indentation, three or more backticks or tildes. Gives where the
/// marker starts, its character and its length.
fn fence_marker(b: &[u8], ls: usize, ce: usize) -> (r: Option<(usize, u8, usize)>)
    requires
        valid_utf8(b@),
        ls <= ce <= b@.len(),
        is_char_boundary(b@, ls as int),
        is_char_boundary(b@, ce as int),
    ensures
        r matches Some((ip, ch, n)) ==> {
            &&& ip == skip_ws_spec(b@, ls as int, ce as int)
            &&& (ch == 0x60u8 || ch == 0x7Eu8)
            &&& n >= 3
            &&& ip + n <= ce
            &&& forall|i: int| ip <= i < ip + n ==> b@[i] == ch
            &&& ip + n < ce ==> b@[ip + n] != ch
            &&& is_char_boundary(b@, ip as int)
        },
        r is None <==> !opens_fence(b@, skip_ws_spec(b@, ls as int, ce as int), ce as int),
{
    reveal(opens_fence);
    let ip = skip_ws(b, ls, ce);
    let n1 = run_of(b, ip, ce, 0x60);
    if n1 >= 3 {
        return Some((ip, 0x60, n1));
    }
    let n2 = run_of(b, ip, ce, 0x7E);
    if n2 >= 3 {
        return Some((ip, 0x7E, n2));
    }
    None
}

/// One to six `#` from `ls`, then a space, before `ce`.
#[verifier::opaque]
pub open spec fn heading_at(b: Seq<u8>, ls: int, ce: int, h: int) -> bool {
    &&& 1 <= h <= 6
    &&& ls + h < ce
    &&& b[ls + h] == 0x20u8
    &&& forall|i: int| ls <= i < ls + h ==> b[i] == 0x23u8
}

/// A heading: one to six `#` and a space. Gives the number of `#`.
fn heading_level(b: &[u8], ls: usize, ce: usize) -> (r: Option<usize>)
    requires
        ls <= ce <= b@.len(),
    ensures
        r matches Some(h) ==> 1 <= h <= 6 && ls + h < ce && b@[ls + h] == 0x20u8 && forall|i: int|
            ls <= i < ls + h ==> b@[i] == 0x23u8,
        r is None <==> !exists|h: int| #[trigger] heading_at(b@, ls as int, ce as int, h),
{
    reveal(heading_at);
    let h = run_of(b, ls, ce, 0x23);
    if h >= 1 && h <= 6 && ls + h < ce && b[ls + h] == 0x20 {
        assert(heading_at(b@, ls as int, ce as int, h as int));
        Some(h)
    } else {
        assert forall|k: int| !#[trigger] heading_at(b@, ls as int, ce as int, k) by {
            if heading_at(b@, ls as int, ce as int, k) {
                if k < h {
                    assert(b@[ls + k] == 0x23u8);
                } else if k > h {
                    assert(b@[ls + h] == 0x23u8);
                }
            }
        }
        None
    }
}

/// After its whitespace, `b[q..ce]` holds `n` copies of `ch` and then only whitespace.
#[verifier::opaque]
pub open spec fn closes_spec(b: Seq<u8>, q: int, ce: int, ch: u8, n: int) -> bool {
    let a = skip_ws_spec(b, q, ce);
    &&& a + n <= ce
    &&& forall|i: int| a <= i < a + n ==> b[i] == ch
    &&& skip_ws_spec(b, a + n, ce) == ce
}

/// Whether the line `b[q..ce]`, trimmed, is exactly the marker.
fn closes(b: &[u8], q: usize, ce: usize, ch: u8, n: usize) -> (r: bool)
    requires
        valid_utf8(b@),
        ch < 0x80,
        n > 0,
        q <= ce <= b@.len(),
        is_char_boundary(b@, q as int),
        is_char_boundary(b@, ce as int),
    ensures
        r == closes_spec(b@, q as int, ce as int, ch, n as int),
{
    reveal(closes_spec);
    let a = skip_ws(b, q, ce);
    if n > ce - a {
        return false;
    }
    let run = run_of(b, a, a + n, ch);
    if run != n {
        return false;
    }
    if a + n < ce {
        proof {
            assert(b@[a + n - 1] == ch);
            lemma_after_ascii(b@, (a + n) as int);
        }
    }
    skip_ws(b, a + n, ce) == ce
}

proof fn lemma_blocks_push(bs: Seq<Block>, x: Block)
    ensures
        blocks_bytes(bs.push(x)) == blocks_bytes(bs) + block_bytes(x),
{
    assert(bs.push(x).drop_last() =~= bs);
}

/// A line's bounds: `le` past its line feed or at the end, `ce` before its trailing line feeds
/// and carriage returns; on plain source the content is the line without its line feed.
proof fn lemma_line(bs: Seq<u8>, pos: int, le: int, ce: int)
    requires
        valid_utf8(bs),
        0 <= pos < le <= bs.len(),
        pos <= ce <= le,
        forall|i: int| pos <= i < le - 1 ==> bs[i] != 0x0Au8,
        le < bs.len() ==> bs[le - 1] == 0x0Au8,
        le == bs.len() ==> bs[le - 1] == 0x0Au8 || forall|i: int| pos <= i < le ==> bs[i] != 0x0Au8,
        ce < le ==> (bs[ce] == 0x0Au8 || bs[ce] == 0x0Du8),
        forall|i: int| ce <= i < le ==> bs[i] == 0x0Au8 || bs[i] == 0x0Du8,
        ce > pos ==> !(bs[ce - 1] == 0x0Au8 || bs[ce - 1] == 0x0Du8),
    ensures
        is_char_boundary(bs, le),
        is_char_boundary(bs, ce),
        plain(bs) ==> bs[le - 1] == 0x0Au8 && ce == le - 1,
{
    if le < bs.len() {
        lemma_after_ascii(bs, le);
    } else {
        lemma_ends_boundary(bs);
    }
    lemma_content_end_boundary(bs, ce, le);
    if plain(bs) {
        assert(bs[le - 1] == 0x0Au8);
        if ce < le - 1 {
            assert(bs[ce] != 0x0Au8);
            assert(bs[ce] != 0x0Du8);
        }
    }
}

/// Reads the fence opening at `pos`: its lines up to and including the closing line, or to the
/// end of the text when it never closes. Gives the block and where the next line starts.
fn read_fence(b: &[u8], pos: usize, le: usize, ce: usize, ip: usize, ch: u8, cnt: usize) -> (r: (
    Block,
    usize,
))
    requires
        valid_utf8(b@),
        pos < le <= b@.len(),
        pos <= ce <= le,
        is_char_boundary(b@, pos as int),
        is_char_boundary(b@, le as int),
        is_char_boundary(b@, ce as int),
        le < b@.len() ==> b@[le - 1] == 0x0Au8,
        plain(b@) ==> b@[le - 1] == 0x0Au8 && ce == le - 1,
        ip + cnt <= ce,
        cnt >= 3,
        ch == 0x60u8 || ch == 0x7Eu8,
        forall|i: int| ip <= i < ip + cnt ==> b@[i] == ch,
        is_char_boundary(b@, ip as int),
    ensures
        r.0 is Fence,
        le <= r.1 <= b@.len(),
        is_char_boundary(b@, r.1 as int),
        r.1 < b@.len() ==> b@[r.1 - 1] == 0x0Au8,
        plain(b@) ==> block_bytes(r.0) == b@.subrange(pos as int, r.1 as int),
{
    let ghost bs = b@;
    let n = b.len();
    let open = text_between(b, pos, ce);
    proof {
        lemma_ascii_boundary(bs, (ip + cnt - 1) as int);
        lemma_after_ascii(bs, (ip + cnt) as int);
        lemma_ends_boundary(bs);
    }
    let la = skip_ws(b, ip + cnt, ce);
    let lz = trim_end_at(b, la, ce);
    let lang = text_between(b, la, lz);
    let mut q = le;
    let mut close: Option<String> = None;
    let mut code_end = n;
    let mut after = n;
    while q < n
        invariant
            valid_utf8(bs),
            bs == b@,
            n == bs.len(),
            le <= q <= n,
            is_char_boundary(bs, q as int),
            is_char_boundary(bs, n as int),
            q < n ==> bs[q - 1] == 0x0Au8,
            close is None,
            code_end == n,
            after == n,
            ch < 0x80,
            cnt > 0,
        decreases n - q,
    {
        let le2 = line_end(b, q);
        let ce2 = content_end(b, q, le2);
        proof {
            lemma_line(bs, q as int, le2 as int, ce2 as int);
        }
        if closes(b, q, ce2, ch, cnt) {
            close = Some(text_between(b, q, ce2));
            code_end = q;
            after = le2;
            break;
        }
        q = le2;
    }
    let code = text_between(b, le, code_end);
    let blk = Block::Fence { open, close, lang, code };
    proof {
        if plain(bs) {
            if after < n || code_end < n {
                assert(bs.subrange(pos as int, after as int) =~= bs.subrange(pos as int, ce as int)
                    + seq![0x0Au8] + bs.subrange(le as int, code_end as int) + (bs.subrange(
                    code_end as int,
                    (after - 1) as int,
                ) + seq![0x0Au8]));
            } else {
                assert(bs.subrange(pos as int, after as int) =~= bs.subrange(pos as int, ce as int)
                    + seq![0x0Au8] + bs.subrange(le as int, code_end as int));
            }
        }
    }
    (blk, after)
}

/// Reads the heading on the line at `pos`, `h` marks deep.
fn read_heading(b: &[u8], pos: usize, le: usize, ce: usize, h: usize) -> (r: Block)
    requires
        valid_utf8(b@),
        pos <= ce <= le <= b@.len(),
        is_char_boundary(b@, ce as int),
        1 <= h <= 6,
        pos + h < ce,
        b@[pos + h] == 0x20u8,
        forall|i: int| pos <= i < pos + h ==> b@[i] == 0x23u8,
        plain(b@) ==> b@[le - 1] == 0x0Au8 && ce == le - 1,
    ensures
        r matches Block::Heading { level, text } && 1 <= level <= 6,
        plain(b@) ==> block_bytes(r) == b@.subrange(pos as int, le as int),
{
    proof {
        lemma_after_ascii(b@, (pos + h + 1) as int);
    }
    let text = text_between(b, pos + h + 1, ce);
    let blk = Block::Heading { level: h as u8, text };
    proof {
        if plain(b@) {
            assert(hashes(h as nat) + seq![0x20u8] + b@.subrange(pos + h + 1, ce as int) + seq![
                0x0Au8,
            ] =~= b@.subrange(pos as int, le as int));
        }
    }
    blk
}

/// The text starts with a `---` line.
pub open spec fn opens_frontmatter(b: Seq<u8>) -> bool {
    b.len() >= 4 && b[0] == 0x2Du8 && b[1] == 0x2Du8 && b[2] == 0x2Du8 && b[3] == 0x0Au8
}

/// The text opens with a `---` line and a later line is `---` too.
#[verifier::opaque]
pub open spec fn has_frontmatter(b: Seq<u8>) -> bool {
    opens_frontmatter(b) && exists|i: int| #[trigger] line_start_from(b, 4, i) && dashes_line(b, i)
}

/// The body starts at `close`: just past the first later `---` line, or at the end of the text
/// when that line does not end in a bare line feed.
#[verifier::opaque]
pub open spec fn body_starts_at(b: Seq<u8>, close: int) -> bool {
    exists|ls: int|
        #![trigger line_start_from(b, 4, ls)]
        line_start_from(b, 4, ls) && dashes_line(b, ls) && (forall|i: int|
            #[trigger] line_start_from(b, 4, i) && i < ls ==> !dashes_line(b, i)) && close == (
        if ls + 4 <= b.len() && b[ls + 3] == 0x0Au8 {
            ls + 4
        } else {
            b.len() as int
        })
}

/// The frontmatter block, verbatim, with its entries, and where the body starts.
fn front(b: &[u8]) -> (r: (String, Vec<(String, String)>, usize))
    requires
        valid_utf8(b@),
    ensures
        r.2 <= b@.len(),
        is_char_boundary(b@, r.2 as int),
        r.2 < b@.len() ==> (r.2 == 0 || b@[r.2 - 1] == 0x0Au8),
        encode_utf8(r.0@) == b@.subrange(0, r.2 as int),
        r.2 > 0 <==> has_frontmatter(b@),
        r.2 == 0 ==> r.1@.len() == 0,
        r.2 > 0 ==> body_starts_at(b@, r.2 as int),
{
    reveal(has_frontmatter);
    reveal(body_starts_at);
    let n = b.len();
    proof {
        lemma_ends_boundary(b@);
    }
    if n >= 4 && b[0] == 0x2D && b[1] == 0x2D && b[2] == 0x2D && b[3] == 0x0A {
        proof {
            lemma_after_ascii(b@, 4);
        }
        match find_fm_end(b, 4) {
            Some(ls) => {
                let close = if n - ls >= 4 && b[ls + 3] == 0x0A {
                    proof {
                        lemma_after_ascii(b@, ls + 4);
                    }
                    ls + 4
                } else {
                    n
                };
                let fm_raw = text_between(b, 0, close);
                let frontmatter = parse_frontmatter(b, 4, ls);
                return (fm_raw, frontmatter, close);
            },
            None => {},
        }
    }
    let empty = String::new();
    assert(encode_utf8(empty@) =~= b@.subrange(0, 0));
    (empty, Vec::new(), 0)
}

/// One to six `#` from `q`, then a space, within `s`: the line at `q` opens a heading.
pub open spec fn heading_line(s: Seq<u8>, q: int) -> bool {
    exists|h: int|
        1 <= h <= 6 && q + h < s.len() && #[trigger] s[q + h] == 0x20u8 && (forall|i: int|
            q <= i < q + h ==> s[i] == 0x23u8)
}

/// No line of `s` opens a heading.
pub open spec fn no_heading_line(s: Seq<u8>) -> bool {
    forall|q: int| 0 <= q < s.len() && (q == 0 || s[q - 1] == 0x0Au8) ==> !#[trigger] heading_line(s, q)
}

/// No text block holds a line that opens a heading: every such line was read as a heading.
pub open spec fn texts_hold_no_heading(bs: Seq<Block>) -> bool {
    forall|i: int|
        0 <= i < bs.len() ==> (#[trigger] bs[i] matches Block::Text(t) ==> no_heading_line(
            encode_utf8(t@),
        ))
}

/// One to six `#` and a space at the start of a line open a heading of that depth, one `#`
/// included.
pub proof fn hashes_and_a_space_open_a_heading(b: Seq<u8>, ls: int, ce: int, h: int)
    requires
        0 <= ls,
        ce <= b.len(),
        1 <= h <= 6,
        ls + h < ce,
        b[ls + h] == 0x20u8,
        forall|i: int| ls <= i < ls + h ==> b[i] == 0x23u8,
    ensures
        heading_at(b, ls, ce, h),
{
    reveal(heading_at);
}

/// Pending text that held no heading line still holds none once it takes in a line that is not
/// a heading.
proof fn lemma_text_takes_line(bs: Seq<u8>, ts: int, pos: int, le: int, ce: int)
    requires
        0 <= ts <= pos < le <= bs.len(),
        pos > ts ==> bs[pos - 1] == 0x0Au8,
        forall|i: int| pos <= i < le - 1 ==> bs[i] != 0x0Au8,
        pos <= ce <= le,
        forall|i: int| ce <= i < le ==> bs[i] == 0x0Au8 || bs[i] == 0x0Du8,
        no_heading_line(bs.subrange(ts, pos)),
        forall|h: int| !#[trigger] heading_at(bs, pos, ce, h),
    ensures
        no_heading_line(bs.subrange(ts, le)),
{
    let s = bs.subrange(ts, pos);
    let s2 = bs.subrange(ts, le);
    assert forall|q: int| 0 <= q < s2.len() && (q == 0 || s2[q - 1] == 0x0Au8) implies !#[trigger] heading_line(s2, q) by {
        if heading_line(s2, q) {
            let h = choose|h: int|
                1 <= h <= 6 && q + h < s2.len() && #[trigger] s2[q + h] == 0x20u8 && (forall|i: int|
                    q <= i < q + h ==> s2[i] == 0x23u8);
            if q < pos - ts {
                if q + h < pos - ts {
                    assert(s[q + h] == 0x20u8);
                    assert forall|i: int| q <= i < q + h implies s[i] == 0x23u8 by {
                        assert(s2[i] == 0x23u8);
                    }
                    assert(heading_line(s, q));
                    if q > 0 {
                        assert(s[q - 1] == s2[q - 1]);
                    }
                } else {
                    let k = pos - ts - 1;
                    assert(s2[k] == bs[pos - 1]);
                    if k < q + h {
                        assert(s2[k] == 0x23u8);
                    }
                }
            } else if q == pos - ts {
                reveal(heading_at);
                assert(bs[pos + h] == s2[q + h]);
                assert forall|i: int| pos <= i < pos + h implies bs[i] == 0x23u8 by {
                    assert(s2[i - ts] == 0x23u8);
                }
                assert(pos + h < ce);
                assert(heading_at(bs, pos, ce, h));
            } else {
                assert(s2[q - 1] == bs[ts + q - 1]);
            }
        }
    }
}

/// Closes off the pending text `b[ts..pos]` as a block, if there is any.
fn flush(b: &[u8], ts: usize, pos: usize, blocks: &mut Vec<Block>)
    requires
        valid_utf8(b@),
        ts <= pos <= b@.len(),
        is_char_boundary(b@, ts as int),
        is_char_boundary(b@, pos as int),
        forall|i: int|
            0 <= i < old(blocks)@.len() ==> match #[trigger] old(blocks)@[i] {
                Block::Heading { level, text } => 1 <= level <= 6,
                Block::Text(t) => t@.len() > 0,
                _ => true,
            },
        texts_hold_no_heading(old(blocks)@),
        no_heading_line(b@.subrange(ts as int, pos as int)),
    ensures
        blocks_bytes(final(blocks)@) == blocks_bytes(old(blocks)@) + b@.subrange(ts as int, pos as int),
        texts_hold_no_heading(final(blocks)@),
        forall|i: int|
            0 <= i < final(blocks)@.len() ==> match #[trigger] final(blocks)@[i] {
                Block::Heading { level, text } => 1 <= level <= 6,
                Block::Text(t) => t@.len() > 0,
                _ => true,
            },
{
    let ghost before = blocks@;
    if ts < pos {
        let t = text_between(b, ts, pos);
        proof {
            if t@.len() == 0 {
                assert(encode_utf8(t@) =~= Seq::<u8>::empty());
            }
        }
        blocks.push(Block::Text(t));
        proof {
            lemma_blocks_push(before, Block::Text(t));
            assert forall|i: int| 0 <= i < blocks@.len() implies match #[trigger] blocks@[i] {
                Block::Heading { level, text } => 1 <= level <= 6,
                Block::Text(t) => t@.len() > 0,
                _ => true,
            } by {
                if i < before.len() {
                    assert(blocks@[i] == before[i]);
                }
            }
            assert forall|i: int| 0 <= i < blocks@.len() implies (#[trigger] blocks@[i] matches Block::Text(u) ==> no_heading_line(encode_utf8(u@))) by {
                if i < before.len() {
                    assert(blocks@[i] == before[i]);
                }
            }
        }
    } else {
        assert(b@.subrange(ts as int, pos as int) =~= Seq::<u8>::empty());
        assert(blocks_bytes(before) + Seq::<u8>::empty() =~= blocks_bytes(before));
    }
}

/// Every heading is one to six levels deep and no text block is empty.
pub open spec fn blocks_shaped(bs: Seq<Block>) -> bool {
    forall|i: int|
        0 <= i < bs.len() ==> match #[trigger] bs[i] {
            Block::Heading { level, text } => 1 <= level <= 6,
            Block::Text(t) => t@.len() > 0,
            _ => true,
        }
}

/// Reads a document. Its frontmatter block and every line are kept verbatim; on source whose
/// every line ends in a line feed and which holds no carriage return, laying the document back
/// out gives the source exactly.
#[verifier::spinoff_prover]
pub fn parse(src: &str) -> (d: Document)
    ensures
        plain(encode_utf8(src@)) ==> doc_bytes(d) == encode_utf8(src@),
        blocks_shaped(d.blocks@),
        encode_utf8(d.fm_raw@) == encode_utf8(src@).subrange(0, encode_utf8(d.fm_raw@).len() as int),
        encode_utf8(d.fm_raw@).len() > 0 <==> has_frontmatter(encode_utf8(src@)),
        has_frontmatter(encode_utf8(src@)) ==> body_starts_at(
            encode_utf8(src@),
            encode_utf8(d.fm_raw@).len() as int,
        ),
        !has_frontmatter(encode_utf8(src@)) ==> d.frontmatter@.len() == 0,
        texts_hold_no_heading(d.blocks@),
{
    let b = src.as_bytes();
    let ghost bs = b@;
    proof {
        vstd::utf8::encode_utf8_valid_utf8(src@);
        lemma_ends_boundary(bs);
    }
    let n = b.len();
    let (fm_raw, frontmatter, rest) = front(b);
    let mut pos = rest;
    let mut blocks: Vec<Block> = Vec::new();
    let mut ts: usize = pos;
    while pos < n
        invariant
            valid_utf8(bs),
            bs == b@,
            n == bs.len(),
            rest <= ts <= pos <= n,
            is_char_boundary(bs, ts as int),
            is_char_boundary(bs, pos as int),
            pos < n ==> (pos == 0 || bs[pos - 1] == 0x0Au8),
            plain(bs) ==> blocks_bytes(blocks@) + bs.subrange(ts as int, pos as int) == bs.subrange(
                rest as int,
                pos as int,
            ),
            blocks_shaped(blocks@),
            texts_hold_no_heading(blocks@),
            no_heading_line(bs.subrange(ts as int, pos as int)),
        decreases n - pos,
    {
        let le = line_end(b, pos);
        let ce = content_end(b, pos, le);
        proof {
            lemma_line(bs, pos as int, le as int, ce as int);
        }
        match fence_marker(b, pos, ce) {
            Some((ip, ch, cnt)) => {
                let ghost before = blocks@;
                flush(b, ts, pos, &mut blocks);
                let ghost mid = blocks@;
                let (blk, after) = read_fence(b, pos, le, ce, ip, ch, cnt);
                blocks.push(blk);
                proof {
                    lemma_blocks_push(mid, blk);
                    assert(texts_hold_no_heading(blocks@)) by {
                        assert forall|i: int| 0 <= i < blocks@.len() implies (#[trigger] blocks@[i] matches Block::Text(u) ==> no_heading_line(encode_utf8(u@))) by {
                            if i < mid.len() {
                                assert(blocks@[i] == mid[i]);
                            }
                        }
                    }
                    assert(bs.subrange(after as int, after as int) =~= Seq::<u8>::empty());
                    assert(blocks_shaped(blocks@)) by {
                        assert forall|i: int| 0 <= i < blocks@.len() implies match #[trigger] blocks@[i] {
                            Block::Heading { level, text } => 1 <= level <= 6,
                            Block::Text(t) => t@.len() > 0,
                            _ => true,
                        } by {
                            if i < mid.len() {
                                assert(blocks@[i] == mid[i]);
                            }
                        }
                    }
                    if plain(bs) {
                        assert(bs.subrange(rest as int, after as int) =~= bs.subrange(
                            rest as int,
                            pos as int,
                        ) + bs.subrange(pos as int, after as int));
                        assert(bs.subrange(rest as int, pos as int) =~= blocks_bytes(before)
                            + bs.subrange(ts as int, pos as int));
                        assert(bs.subrange(after as int, after as int) =~= Seq::<u8>::empty());
                        assert(blocks_bytes(blocks@) + Seq::<u8>::empty() =~= blocks_bytes(
                            blocks@,
                        ));
                    }
                }
                pos = after;
                ts = pos;
            },
            None => {
                match heading_level(b, pos, ce) {
                    Some(h) => {
                        let ghost before = blocks@;
                        flush(b, ts, pos, &mut blocks);
                        let ghost mid = blocks@;
                        let blk = read_heading(b, pos, le, ce, h);
                        blocks.push(blk);
                        proof {
                            lemma_blocks_push(mid, blk);
                            assert(texts_hold_no_heading(blocks@)) by {
                                assert forall|i: int| 0 <= i < blocks@.len() implies (#[trigger] blocks@[i] matches Block::Text(u) ==> no_heading_line(encode_utf8(u@))) by {
                                    if i < mid.len() {
                                        assert(blocks@[i] == mid[i]);
                                    }
                                }
                            }
                            assert(bs.subrange(le as int, le as int) =~= Seq::<u8>::empty());
                            assert(blocks_shaped(blocks@)) by {
                                assert forall|i: int| 0 <= i < blocks@.len() implies match #[trigger] blocks@[i] {
                                    Block::Heading { level, text } => 1 <= level <= 6,
                                    Block::Text(t) => t@.len() > 0,
                                    _ => true,
                                } by {
                                    if i < mid.len() {
                                        assert(blocks@[i] == mid[i]);
                                    }
                                }
                            }
                            if plain(bs) {
                                assert(bs.subrange(rest as int, le as int) =~= bs.subrange(
                                    rest as int,
                                    pos as int,
                                ) + bs.subrange(pos as int, le as int));
                                assert(bs.subrange(le as int, le as int) =~= Seq::<u8>::empty());
                                assert(blocks_bytes(blocks@) + Seq::<u8>::empty() =~= blocks_bytes(
                                    blocks@,
                                ));
                            }
                        }
                        pos = le;
                        ts = pos;
                    },
                    None => {
                        proof {
                            lemma_text_takes_line(bs, ts as int, pos as int, le as int, ce as int);
                            if plain(bs) {
                                assert(bs.subrange(ts as int, le as int) =~= bs.subrange(
                                    ts as int,
                                    pos as int,
                                ) + bs.subrange(pos as int, le as int));
                                assert(bs.subrange(rest as int, le as int) =~= bs.subrange(
                                    rest as int,
                                    pos as int,
                                ) + bs.subrange(pos as int, le as int));
                            }
                        }
                        pos = le;
                    },
                }
            },
        }
    }
    flush(b, ts, pos, &mut blocks);
    proof {
        if plain(bs) {
            assert(bs =~= bs.subrange(0, rest as int) + bs.subrange(rest as int, n as int));
        }
    }
    Document { frontmatter, fm_raw, blocks }
}

/// The line starting at `ls` is `---`, then nothing but carriage returns up to its line feed
/// or the end of the text.
#[verifier::opaque]
pub open spec fn dashes_line(b: Seq<u8>, ls: int) -> bool {
    &&& ls + 3 <= b.len()
    &&& b[ls] == 0x2Du8 && b[ls + 1] == 0x2Du8 && b[ls + 2] == 0x2Du8
    &&& forall|i: int|
        ls + 3 <= i < b.len() && (forall|j: int| ls + 3 <= j < i ==> b[j] != 0x0Au8) ==> (
        #[trigger] b[i] == 0x0Au8 || b[i] == 0x0Du8)
}

/// A line starts at `i`, at or after `start`: `i` follows a line feed.
pub open spec fn line_start_from(b: Seq<u8>, start: int, i: int) -> bool {
    start <= i < b.len() && b[i - 1] == 0x0Au8
}

/// Where the frontmatter's closing `---` line starts, searching line by line from `start`.
fn find_fm_end(b: &[u8], start: usize) -> (r: Option<usize>)
    requires
        valid_utf8(b@),
        start <= b@.len(),
        is_char_boundary(b@, start as int),
        start > 0 && b@[start - 1] == 0x0Au8,
    ensures
        r matches Some(ls) ==> start <= ls && ls + 3 <= b@.len() && is_char_boundary(b@, ls as int)
            && b@[ls as int] == 0x2Du8 && b@[ls + 1] == 0x2Du8 && b@[ls + 2] == 0x2Du8,
        r matches Some(ls) ==> line_start_from(b@, start as int, ls as int) && dashes_line(
            b@,
            ls as int,
        ) && forall|i: int|
            #[trigger] line_start_from(b@, start as int, i) && i < ls ==> !dashes_line(b@, i),
        r is None ==> forall|i: int|
            #[trigger] line_start_from(b@, start as int, i) ==> !dashes_line(b@, i),
{
    reveal(dashes_line);
    let n = b.len();
    let mut ls = start;
    while ls < n
        invariant
            valid_utf8(b@),
            n == b@.len(),
            start <= ls <= n,
            is_char_boundary(b@, ls as int),
            ls > 0 && b@[ls - 1] == 0x0Au8,
            forall|i: int|
                #[trigger] line_start_from(b@, start as int, i) && i < ls ==> !dashes_line(b@, i),
        decreases n - ls,
    {
        let le = line_end(b, ls);
        let ce = content_end(b, ls, le);
        if ce - ls == 3 && b[ls] == 0x2D && b[ls + 1] == 0x2D && b[ls + 2] == 0x2D {
            assert forall|i: int|
                ls + 3 <= i < b@.len() && (forall|j: int| ls + 3 <= j < i ==> b@[j] != 0x0Au8)
                    implies (#[trigger] b@[i] == 0x0Au8 || b@[i] == 0x0Du8) by {
                if i >= le {
                    assert(b@[le - 1] == 0x0Au8);
                    assert(false);
                }
            }
            return Some(ls);
        }
        assert(!dashes_line(b@, ls as int)) by {
            if dashes_line(b@, ls as int) {
                assert forall|i: int| ls + 3 <= i < le implies (b@[i] == 0x0Au8 || b@[i]
                    == 0x0Du8) by {
                    assert(forall|j: int| ls + 3 <= j < i ==> b@[j] != 0x0Au8);
                    assert(b@[i] == 0x0Au8 || b@[i] == 0x0Du8);
                }
                assert(le >= ls + 3);
                if ce > ls + 3 {
                    assert(b@[ce - 1] == 0x0Au8 || b@[ce - 1] == 0x0Du8);
                }
                assert(false);
            }
        }
        assert forall|i: int| #[trigger] line_start_from(b@, start as int, i) && ls < i < le implies false by {
            assert(b@[i - 1] != 0x0Au8);
        }
        if le == n {
            return None;
        }
        proof {
            lemma_after_ascii(b@, le as int);
        }
        ls = le;
    }
    None
}

/// The text of `b[a..z]` with surrounding whitespace dropped.
fn trimmed(b: &[u8], a: usize, z: usize) -> (r: String)
    requires
        valid_utf8(b@),
        a <= z <= b@.len(),
        is_char_boundary(b@, a as int),
        is_char_boundary(b@, z as int),
    ensures
        exists|e: int|
            trims_to(b@, skip_ws_spec(b@, a as int, z as int), e, z as int) && encode_utf8(r@)
                == b@.subrange(skip_ws_spec(b@, a as int, z as int), e),
{
    let s = skip_ws(b, a, z);
    let e = trim_end_at(b, s, z);
    text_between(b, s, e)
}

/// A line of `b[start..end]` starts at `ls`, does not start with `#`, and has its first colon at
/// `colon`.
pub open spec fn key_line(b: Seq<u8>, start: int, end: int, ls: int, colon: int) -> bool {
    &&& start <= ls <= colon < end
    &&& b[ls - 1] == 0x0Au8
    &&& b[ls] != 0x23u8
    &&& b[colon] == 0x3Au8
    &&& forall|i: int| ls <= i < colon ==> b[i] != 0x3Au8 && b[i] != 0x0Au8
}

/// `key` is the text before the first colon of a line of `b[start..end]` that does not start
/// with `#`, with surrounding whitespace dropped.
pub open spec fn keyed(b: Seq<u8>, start: int, end: int, key: Seq<char>) -> bool {
    exists|ls: int, colon: int, e: int|
        #![trigger key_line(b, start, end, ls, colon), trims_to(b, skip_ws_spec(b, ls, colon), e, colon)]
        key_line(b, start, end, ls, colon) && trims_to(b, skip_ws_spec(b, ls, colon), e, colon)
            && encode_utf8(key) == b.subrange(skip_ws_spec(b, ls, colon), e)
}

/// The `key: value` pairs of a frontmatter block `b[start..end]`. A value written as a YAML block
/// scalar (`>`, `|`, with an optional chomping indicator) is read from the indented lines that
/// follow it: folded with spaces for `>`, joined with line feeds for `|`, trailing blank lines
/// dropped either way.
fn parse_frontmatter(b: &[u8], start: usize, end: usize) -> (r: Vec<(String, String)>)
    requires
        valid_utf8(b@),
        start <= end <= b@.len(),
        is_char_boundary(b@, start as int),
        is_char_boundary(b@, end as int),
        start > 0 && b@[start - 1] == 0x0Au8,
    ensures
        forall|k: int| 0 <= k < r@.len() ==> #[trigger] keyed(b@, start as int, end as int, r@[k].0@),
{
    let mut out: Vec<(String, String)> = Vec::new();
    let mut ls = start;
    while ls < end
        invariant
            valid_utf8(b@),
            start <= ls <= end,
            end <= b@.len(),
            is_char_boundary(b@, ls as int),
            is_char_boundary(b@, end as int),
            ls > 0 && b@[ls - 1] == 0x0Au8,
            forall|k: int|
                0 <= k < out@.len() ==> #[trigger] keyed(b@, start as int, end as int, out@[k].0@),
        decreases end - ls,
    {
        let le0 = line_end(b, ls);
        let le = if le0 > end {
            end
        } else {
            le0
        };
        let ce = content_end(b, ls, le);
        proof {
            if le0 <= end && le0 < b@.len() {
                lemma_after_ascii(b@, le0 as int);
            }
            if le0 == b@.len() {
                lemma_ends_boundary(b@);
            }
            lemma_content_end_boundary(b@, ce as int, le as int);
        }
        let mut next = le;
        let indented = ws_len(b, ls, ce) > 0;
        if !indented && ls < ce && b[ls] != 0x23 {
            let mut colon = ls;
            while colon < ce && b[colon] != 0x3A
                invariant
                    ls <= colon <= ce,
                    ce <= b@.len(),
                    forall|i: int| ls <= i < colon ==> b@[i] != 0x3Au8,
                decreases ce - colon,
            {
                colon += 1;
            }
            if colon < ce {
                proof {
                    lemma_ascii_boundary(b@, colon as int);
                    lemma_after_ascii(b@, (colon + 1) as int);
                }
                let key = trimmed(b, ls, colon);
                let vs = skip_ws(b, colon + 1, ce);
                let vz = trim_end_at(b, vs, ce);
                let folded = vz > vs && b[vs] == 0x3E && (vz - vs == 1 || (vz - vs == 2 && (b[vs
                    + 1] == 0x2D || b[vs + 1] == 0x2B)));
                let literal = vz > vs && b[vs] == 0x7C && (vz - vs == 1 || (vz - vs == 2 && (b[vs
                    + 1] == 0x2D || b[vs + 1] == 0x2B)));
                let value = if (folded || literal) && le < end && b[le - 1] == 0x0A {
                    proof {
                        lemma_after_ascii(b@, le as int);
                    }
                    let (v, stop) = block_scalar(b, le, end, folded);
                    next = stop;
                    v
                } else {
                    text_between(b, vs, vz)
                };
                proof {
                    assert(colon < le0);
                    assert forall|i: int| ls <= i < colon implies b@[i] != 0x3Au8 && b@[i]
                        != 0x0Au8 by {
                        assert(i < le0 - 1);
                    }
                    assert(key_line(b@, start as int, end as int, ls as int, colon as int));
                    assert(keyed(b@, start as int, end as int, key@));
                }
                let ghost before = out@;
                out.push((key, value));
                assert forall|k: int|
                    0 <= k < out@.len() implies #[trigger] keyed(
                        b@,
                        start as int,
                        end as int,
                        out@[k].0@,
                    ) by {
                    if k < before.len() {
                        assert(out@[k] == before[k]);
                    }
                }
            }
        }
        if next >= end || b[next - 1] != 0x0A {
            return out;
        }
        proof {
            lemma_after_ascii(b@, next as int);
        }
        ls = next;
    }
    out
}

/// A block scalar's value, from the indented or blank lines starting at `ls`, and where the
/// first line after it starts.
fn block_scalar(b: &[u8], ls: usize, end: usize, folded: bool) -> (r: (String, usize))
    requires
        valid_utf8(b@),
        0 < ls <= end <= b@.len(),
        is_char_boundary(b@, ls as int),
        is_char_boundary(b@, end as int),
        b@[ls - 1] == 0x0Au8,
    ensures
        ls <= r.1 <= end,
        r.1 > 0 && b@[r.1 - 1] == 0x0Au8 || r.1 == end,
        is_char_boundary(b@, r.1 as int),
{
    let mut value = String::new();
    let mut pending_breaks: usize = 0;
    let mut any = false;
    let mut p = ls;
    while p < end
        invariant
            valid_utf8(b@),
            ls <= p <= end,
            end <= b@.len(),
            is_char_boundary(b@, p as int),
            is_char_boundary(b@, end as int),
            p > 0 && b@[p - 1] == 0x0Au8,
        decreases end - p,
    {
        let le0 = line_end(b, p);
        let le = if le0 > end {
            end
        } else {
            le0
        };
        let ce = content_end(b, p, le);
        proof {
            if le0 <= end && le0 < b@.len() {
                lemma_after_ascii(b@, le0 as int);
            }
            if le0 == b@.len() {
                lemma_ends_boundary(b@);
            }
            lemma_content_end_boundary(b@, ce as int, le as int);
        }
        let s = skip_ws(b, p, ce);
        if s == ce {
            pending_breaks = if pending_breaks < usize::MAX {
                pending_breaks + 1
            } else {
                pending_breaks
            };
        } else if s == p {
            return (value, p);
        } else {
            let z = trim_end_at(b, s, ce);
            let piece = text_between(b, s, z);
            if any {
                if folded {
                    value.append(" ");
                } else {
                    let mut k: usize = 0;
                    while k <= pending_breaks
                        invariant
                            k <= pending_breaks + 1,
                        decreases pending_breaks + 1 - k,
                    {
                        value.append("\n");
                        if k == usize::MAX {
                            break;
                        }
                        k += 1;
                    }
                }
            }
            value.append(piece.as_str());
            any = true;
            pending_breaks = 0;
        }
        if le == end || b[le - 1] != 0x0A {
            return (value, end);
        }
        proof {
            lemma_after_ascii(b@, le as int);
        }
        p = le;
    }
    (value, p)
}

impl Document {
    /// The value of the first frontmatter entry named `key`.
    pub fn get(&self, key: &str) -> (r: Option<&str>)
        ensures
            r matches Some(v) ==> exists|i: int|
                0 <= i < self.frontmatter@.len() && self.frontmatter@[i].0@ == key@
                    && self.frontmatter@[i].1@ == v@ && forall|j: int|
                    0 <= j < i ==> self.frontmatter@[j].0@ != key@,
            r is None ==> forall|i: int|
                0 <= i < self.frontmatter@.len() ==> self.frontmatter@[i].0@ != key@,
    {
        let mut i: usize = 0;
        while i < self.frontmatter.len()
            invariant
                0 <= i <= self.frontmatter@.len(),
                forall|j: int| 0 <= j < i ==> self.frontmatter@[j].0@ != key@,
            decreases self.frontmatter@.len() - i,
        {
            let (k, v) = &self.frontmatter[i];
            if crate::raw::bytes_eq(k.as_str().as_bytes(), key.as_bytes()) {
                proof {
                    vstd::utf8::encode_utf8_decode_utf8(k@);
                    vstd::utf8::encode_utf8_decode_utf8(key@);
                }
                return Some(v.as_str());
            }
            proof {
                if k@ == key@ {
                    assert(encode_utf8(k@) == encode_utf8(key@));
                }
            }
            i += 1;
        }
        None
    }
}

} // verus!
