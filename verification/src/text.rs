//! UTF-8 at the boundary between bytes and text.

use vstd::prelude::*;

use vstd::utf8::{
    decode_utf8, encode_utf8, is_char_boundary, length_of_first_scalar, pop_first_scalar,
    valid_utf8,
};

verus! {

/// `String::from_utf8`: succeeds exactly when the bytes are valid UTF-8, and then holds the
/// characters those bytes decode to, as its documentation states.
#[verifier::external_body]
pub(crate) fn string_from_utf8(v: Vec<u8>) -> (r: Option<String>)
    ensures
        r is Some <==> valid_utf8(v@),
        r matches Some(s) ==> s@ == decode_utf8(v@),
{
    String::from_utf8(v).ok()
}

/// A character takes at most four bytes of UTF-8.
pub proof fn lemma_utf8_len(chars: Seq<char>)
    ensures
        encode_utf8(chars).len() <= 4 * chars.len(),
    decreases chars.len(),
{
    if chars.len() > 0 {
        lemma_utf8_len(chars.drop_first());
    }
}

/// Copies a byte slice into a new vector.
pub fn to_vec(b: &[u8]) -> (r: Vec<u8>)
    ensures
        r@ == b@,
{
    let mut out: Vec<u8> = Vec::new();
    crate::raw::push_all(&mut out, b);
    assert(out@ =~= b@);
    out
}

/// Decodes `b` as UTF-8 text.
pub fn utf8(b: &[u8]) -> (r: Option<String>)
    ensures
        r is Some <==> valid_utf8(b@),
        r matches Some(s) ==> s@ == decode_utf8(b@),
{
    string_from_utf8(to_vec(b))
}


/// How many bytes the scalar starting with `x` takes, judged by its leading byte.
pub open spec fn scalar_width(x: u8) -> int {
    if x < 0x80 {
        1
    } else if x < 0xE0 {
        2
    } else if x < 0xF0 {
        3
    } else {
        4
    }
}

/// An ASCII byte in valid UTF-8 starts a character.
pub proof fn lemma_ascii_boundary(b: Seq<u8>, k: int)
    requires
        valid_utf8(b),
        0 <= k < b.len(),
        b[k] < 0x80,
    ensures
        is_char_boundary(b, k),
{
    vstd::utf8::is_char_boundary_iff_not_is_continuation_byte(b, k);
}

/// Both ends of valid UTF-8 are character boundaries.
pub proof fn lemma_ends_boundary(b: Seq<u8>)
    requires
        valid_utf8(b),
    ensures
        is_char_boundary(b, 0),
        is_char_boundary(b, b.len() as int),
{
    vstd::utf8::is_char_boundary_start_end_of_seq(b);
}

/// Stepping over the character at a boundary lands on the next boundary.
pub proof fn lemma_scalar_step(b: Seq<u8>, p: int)
    requires
        valid_utf8(b),
        0 <= p < b.len(),
        is_char_boundary(b, p),
    ensures
        p + scalar_width(b[p]) <= b.len(),
        is_char_boundary(b, p + scalar_width(b[p])),
{
    vstd::utf8::valid_utf8_split(b, p);
    let t = b.subrange(p, b.len() as int);
    vstd::utf8::is_char_boundary_iff_not_is_continuation_byte(b, p);
    assert(t[0] == b[p]);
    let w = length_of_first_scalar(t);
    assert(w == scalar_width(b[p]));
    let u = pop_first_scalar(t);
    assert(u =~= b.subrange(p + w, b.len() as int));
    if p + w == b.len() {
        vstd::utf8::is_char_boundary_start_end_of_seq(b);
    } else {
        assert(valid_utf8(u));
        assert(vstd::utf8::valid_first_scalar(u));
        assert(u[0] == b[p + w]);
        vstd::utf8::is_char_boundary_iff_not_is_continuation_byte(b, p + w);
    }
}

/// The byte after an ASCII byte starts a character, or ends the text.
pub proof fn lemma_after_ascii(b: Seq<u8>, k: int)
    requires
        valid_utf8(b),
        0 < k <= b.len(),
        b[k - 1] < 0x80,
    ensures
        is_char_boundary(b, k),
{
    lemma_ascii_boundary(b, k - 1);
    lemma_scalar_step(b, k - 1);
}

/// The text between two character boundaries is valid UTF-8.
pub proof fn lemma_between(b: Seq<u8>, i: int, j: int)
    requires
        valid_utf8(b),
        0 <= i <= j <= b.len(),
        is_char_boundary(b, i),
        is_char_boundary(b, j),
    ensures
        valid_utf8(b.subrange(i, j)),
{
    vstd::utf8::valid_utf8_split(b, i);
    let t = b.subrange(i, b.len() as int);
    if j == b.len() {
        assert(t =~= b.subrange(i, j));
    } else {
        vstd::utf8::is_char_boundary_iff_not_is_continuation_byte(b, j);
        assert(t[j - i] == b[j]);
        vstd::utf8::is_char_boundary_iff_not_is_continuation_byte(t, j - i);
        vstd::utf8::valid_utf8_split(t, j - i);
        assert(t.subrange(0, j - i) =~= b.subrange(i, j));
    }
}

/// The text of `b[i..j]`, which lies between character boundaries of valid UTF-8.
pub fn text_between(b: &[u8], i: usize, j: usize) -> (r: String)
    requires
        valid_utf8(b@),
        i <= j <= b@.len(),
        is_char_boundary(b@, i as int),
        is_char_boundary(b@, j as int),
    ensures
        encode_utf8(r@) == b@.subrange(i as int, j as int),
        r@ == decode_utf8(b@.subrange(i as int, j as int)),
{
    proof {
        lemma_between(b@, i as int, j as int);
        vstd::utf8::decode_utf8_encode_utf8(b@.subrange(i as int, j as int));
    }
    match utf8(&b[i..j]) {
        Some(s) => s,
        None => {
            assert(false);
            String::new()
        },
    }
}


/// The Unicode lowercase mapping of a text, as `str::to_lowercase` computes it. It depends on
/// the characters alone, never on a locale.
pub uninterp spec fn lowercase(s: Seq<char>) -> Seq<char>;

/// `str::to_lowercase`: the text under the Unicode lowercase mapping, named by its argument.
#[verifier::external_body]
pub(crate) fn to_lowercase(s: &str) -> (r: String)
    ensures
        r@ == lowercase(s@),
{
    s.to_lowercase()
}

/// The characters of `s`, one pass over its encoding.
pub fn chars_of(s: &str) -> (r: Vec<char>)
    ensures
        r@ == s@,
{
    broadcast use vstd::string::axiom_spec_iter;
    let mut out: Vec<char> = Vec::new();
    for c in it: s.chars()
        invariant
            it.seq() == s@,
            out@ == it.seq().subrange(0, it.index() as int),
    {
        out.push(c);
    }
    out
}

/// `String::push`: appends one character to the end of the text, as its documentation states.
#[verifier::external_body]
pub(crate) fn push_char(s: &mut String, c: char)
    ensures
        final(s)@ == old(s)@.push(c),
{
    s.push(c);
}

/// The text of the characters `c[a..z]`.
pub fn string_of(c: &Vec<char>, a: usize, z: usize) -> (r: String)
    requires
        a <= z <= c@.len(),
    ensures
        r@ == c@.subrange(a as int, z as int),
{
    let mut out = String::new();
    let mut k = a;
    while k < z
        invariant
            a <= k <= z <= c@.len(),
            out@ == c@.subrange(a as int, k as int),
        decreases z - k,
    {
        push_char(&mut out, c[k]);
        k += 1;
        assert(out@ =~= c@.subrange(a as int, k as int));
    }
    out
}

/// `a` and `b` are the same text.
pub fn same(a: &str, b: &str) -> (r: bool)
    ensures
        r == (a@ == b@),
{
    let r = crate::raw::bytes_eq(a.as_bytes(), b.as_bytes());
    proof {
        vstd::utf8::encode_utf8_decode_utf8(a@);
        vstd::utf8::encode_utf8_decode_utf8(b@);
    }
    r
}

} // verus!
