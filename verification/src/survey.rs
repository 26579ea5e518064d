//! What a corpus report counts: how a rendered skill compares with its source, and which
//! failure modes a run met, most frequent first.

use vstd::prelude::*;

use crate::classify::{is_space, space};
use vstd::string::StrSliceExecFns;

use crate::text::{chars_of, same};

verus! {

/// The index of the first line feed at or after `a`, or the length when none follows.
pub open spec fn line_end(s: Seq<char>, a: int) -> int
    decreases s.len() - a,
{
    if a < 0 || a >= s.len() {
        s.len() as int
    } else if s[a] == '\n' {
        a
    } else {
        line_end(s, a + 1)
    }
}

/// `s` without its trailing whitespace, as `str::trim_end` leaves it.
pub open spec fn trim_end(s: Seq<char>) -> Seq<char>
    decreases s.len(),
{
    if s.len() > 0 && is_space(s.last()) {
        trim_end(s.drop_last())
    } else {
        s
    }
}

pub proof fn lemma_line_end(s: Seq<char>, a: int)
    requires
        0 <= a <= s.len(),
    ensures
        a <= line_end(s, a) <= s.len(),
        line_end(s, a) < s.len() ==> s[line_end(s, a)] == '\n',
        forall|i: int| a <= i < line_end(s, a) ==> s[i] != '\n',
    decreases s.len() - a,
{
    if a < s.len() && s[a] != '\n' {
        lemma_line_end(s, a + 1);
    }
}

/// The lines of `s` from position `a` on, each without its trailing whitespace, joined by line
/// feeds.
pub open spec fn trimmed_lines(s: Seq<char>, a: int) -> Seq<char>
    decreases s.len() - a,
{
    if a < 0 || a > s.len() {
        Seq::empty()
    } else {
        let e = line_end(s, a);
        proof {
            lemma_line_end(s, a);
        }
        if e < s.len() {
            trim_end(s.subrange(a, e)) + seq!['\n'] + trimmed_lines(s, e + 1)
        } else {
            trim_end(s.subrange(a, s.len() as int))
        }
    }
}

/// A text up to trailing whitespace on each line and at its end: the lines without their
/// trailing whitespace, joined by line feeds, without trailing whitespace. A line's closing
/// carriage return is whitespace, and a final empty line only adds some, so this is the text
/// that `str::lines`, `str::trim_end` on each, a join by line feeds and a final `trim_end` give.
pub open spec fn normal_form(s: Seq<char>) -> Seq<char> {
    trim_end(trimmed_lines(s, 0))
}

/// The normal form of `s`: what two texts must share to differ only in trailing whitespace.
pub fn norm(s: &str) -> (r: Vec<char>)
    ensures
        r@ == normal_form(s@),
{
    let c = chars_of(s);
    let n = c.len();
    let mut out: Vec<char> = Vec::new();
    let mut a: usize = 0;
    loop
        invariant
            0 <= a <= n,
            n == c@.len(),
            c@ == s@,
            out@ + trimmed_lines(c@, a as int) == trimmed_lines(c@, 0),
        decreases n - a,
    {
        let mut e = a;
        while e < n && c[e] != '\n'
            invariant
                a <= e <= n,
                n == c@.len(),
                line_end(c@, a as int) == line_end(c@, e as int),
            decreases n - e,
        {
            e += 1;
        }
        let mut z = e;
        while z > a && space(c[z - 1])
            invariant
                a <= z <= e <= n,
                n == c@.len(),
                trim_end(c@.subrange(a as int, e as int)) == trim_end(
                    c@.subrange(a as int, z as int),
                ),
            decreases z,
        {
            assert(c@.subrange(a as int, z as int).drop_last() =~= c@.subrange(
                a as int,
                z - 1,
            ));
            z -= 1;
        }
        assert(trim_end(c@.subrange(a as int, z as int)) == c@.subrange(a as int, z as int));
        let ghost before = out@;
        let mut k = a;
        while k < z
            invariant
                a <= k <= z <= n,
                n == c@.len(),
                out@ == before + c@.subrange(a as int, k as int),
            decreases z - k,
        {
            out.push(c[k]);
            k += 1;
            assert(out@ =~= before + c@.subrange(a as int, k as int));
        }
        proof {
            lemma_line_end(c@, a as int);
        }
        if e < n {
            out.push('\n');
            assert(trimmed_lines(c@, a as int) == c@.subrange(a as int, z as int) + seq!['\n']
                + trimmed_lines(c@, e + 1));
            assert(out@ + trimmed_lines(c@, e + 1) =~= before + trimmed_lines(c@, a as int));
            a = e + 1;
        } else {
            assert(trimmed_lines(c@, a as int) == c@.subrange(a as int, z as int));
            break ;
        }
    }
    let ghost joined = out@;
    assert(joined == trimmed_lines(c@, 0));
    while out.len() > 0 && space(out[out.len() - 1])
        invariant
            trim_end(out@) == trim_end(joined),
        decreases out.len(),
    {
        let ghost prev = out@;
        out.pop();
        assert(out@ =~= prev.drop_last());
    }
    out
}

fn chars_eq(a: &Vec<char>, b: &Vec<char>) -> (r: bool)
    ensures
        r == (a@ == b@),
{
    if a.len() != b.len() {
        return false;
    }
    let mut i: usize = 0;
    while i < a.len()
        invariant
            0 <= i <= a.len() == b.len(),
            forall|j: int| 0 <= j < i ==> a@[j] == b@[j],
        decreases a.len() - i,
    {
        if a[i] != b[i] {
            return false;
        }
        i += 1;
    }
    assert(a@ =~= b@);
    true
}

/// How a rendered skill compares with the source it was compiled from.
#[derive(Debug, Clone, Copy, PartialEq, Eq, Structural)]
pub enum RoundTrip {
    /// The same text.
    Exact,
    /// The same text up to trailing whitespace.
    Normalized,
    /// Different text.
    Differs,
}

/// Compares a rendering `back` with its source `src`.
pub fn round_trip(back: &str, src: &str) -> (r: RoundTrip)
    ensures
        r == (if back@ == src@ {
            RoundTrip::Exact
        } else if normal_form(back@) == normal_form(src@) {
            RoundTrip::Normalized
        } else {
            RoundTrip::Differs
        }),
{
    if same(back, src) {
        RoundTrip::Exact
    } else if chars_eq(&norm(back), &norm(src)) {
        RoundTrip::Normalized
    } else {
        RoundTrip::Differs
    }
}

/// The index of the first `{` or `(` at or after `a`, or the length when none follows.
pub open spec fn bracket_at(s: Seq<char>, a: int) -> int
    decreases s.len() - a,
{
    if a < 0 || a >= s.len() {
        s.len() as int
    } else if s[a] == '{' || s[a] == '(' {
        a
    } else {
        bracket_at(s, a + 1)
    }
}

/// `s` without its leading whitespace, as `str::trim_start` leaves it.
pub open spec fn trim_start(s: Seq<char>) -> Seq<char>
    decreases s.len(),
{
    if s.len() > 0 && is_space(s[0]) {
        trim_start(s.drop_first())
    } else {
        s
    }
}

/// The failure mode a failure's description names: the text before its first `{` or `(`, with
/// the whitespace around it removed.
pub open spec fn mode_of(why: Seq<char>) -> Seq<char> {
    trim_start(trim_end(why.subrange(0, bracket_at(why, 0))))
}

proof fn lemma_bracket_at(s: Seq<char>, a: int)
    requires
        0 <= a <= s.len(),
    ensures
        a <= bracket_at(s, a) <= s.len(),
        bracket_at(s, a) < s.len() ==> (s[bracket_at(s, a)] == '{' || s[bracket_at(s, a)]
            == '('),
    decreases s.len() - a,
{
    if a < s.len() && !(s[a] == '{' || s[a] == '(') {
        lemma_bracket_at(s, a + 1);
    }
}

/// The failure mode `why` names.
pub fn mode_key(why: &str) -> (r: String)
    ensures
        r@ == mode_of(why@),
{
    let n = why.unicode_len();
    let mut b: usize = 0;
    while b < n && why.get_char(b) != '{' && why.get_char(b) != '('
        invariant
            0 <= b <= n,
            n == why@.len(),
            bracket_at(why@, 0) == bracket_at(why@, b as int),
        decreases n - b,
    {
        b += 1;
    }
    proof {
        lemma_bracket_at(why@, b as int);
    }
    let ghost cut = why@.subrange(0, b as int);
    let mut z = b;
    while z > 0 && space(why.get_char(z - 1))
        invariant
            0 <= z <= b <= n,
            n == why@.len(),
            trim_end(cut) == trim_end(why@.subrange(0, z as int)),
        decreases z,
    {
        assert(why@.subrange(0, z as int).drop_last() =~= why@.subrange(0, z - 1));
        z -= 1;
    }
    assert(trim_end(cut) == why@.subrange(0, z as int));
    let mut a: usize = 0;
    while a < z && space(why.get_char(a))
        invariant
            0 <= a <= z <= n,
            n == why@.len(),
            trim_start(trim_end(cut)) == trim_start(why@.subrange(a as int, z as int)),
        decreases z - a,
    {
        assert(why@.subrange(a as int, z as int).drop_first() =~= why@.subrange(a + 1, z as int));
        a += 1;
    }
    assert(trim_start(why@.subrange(a as int, z as int)) == why@.subrange(a as int, z as int));
    why.substring_char(a, z).to_owned()
}

/// How many of the first `n` modes in `ks` are `k`.
pub open spec fn count_in(ks: Seq<Seq<char>>, k: Seq<char>, n: int) -> nat
    decreases n,
{
    if n <= 0 {
        0
    } else {
        count_in(ks, k, n - 1) + if ks[n - 1] == k {
            1nat
        } else {
            0nat
        }
    }
}

/// The index of the first occurrence of `k` in `ks` at or after `i`, or the length when none
/// follows.
pub open spec fn first_from(ks: Seq<Seq<char>>, k: Seq<char>, i: int) -> int
    decreases ks.len() - i,
{
    if i < 0 || i >= ks.len() {
        ks.len() as int
    } else if ks[i] == k {
        i
    } else {
        first_from(ks, k, i + 1)
    }
}

/// Where `k` first occurs in `ks`.
pub open spec fn first_at(ks: Seq<Seq<char>>, k: Seq<char>) -> int {
    first_from(ks, k, 0)
}

/// The failure mode each description names, in order.
pub open spec fn modes_of(whys: Seq<String>) -> Seq<Seq<char>> {
    whys.map_values(|w: String| mode_of(w@))
}

/// Some entry of `r` is for the mode `k`.
pub open spec fn lists(r: Seq<(String, usize)>, k: Seq<char>) -> bool {
    exists|p: int| 0 <= p < r.len() && #[trigger] r[p].0@ == k
}

/// `r` lists every mode of `ks` once with how often it occurs, most frequent first, modes that
/// occur equally often in the order they first occur.
pub open spec fn tallies(ks: Seq<Seq<char>>, r: Seq<(String, usize)>) -> bool {
    &&& forall|p: int|
        0 <= p < r.len() ==> #[trigger] r[p].1 == count_in(ks, r[p].0@, ks.len() as int) && r[p].1 >= 1
    &&& forall|i: int| 0 <= i < ks.len() ==> lists(r, #[trigger] ks[i])
    &&& forall|p: int, q: int|
        0 <= p < q < r.len() ==> #[trigger] r[p].1 > #[trigger] r[q].1 || (r[p].1 == r[q].1
            && first_at(ks, r[p].0@) < first_at(ks, r[q].0@))
}

proof fn lemma_count_bound(ks: Seq<Seq<char>>, k: Seq<char>, n: int)
    requires
        0 <= n <= ks.len(),
    ensures
        count_in(ks, k, n) <= n,
        (forall|j: int| 0 <= j < n ==> ks[j] != k) ==> count_in(ks, k, n) == 0,
    decreases n,
{
    if n > 0 {
        lemma_count_bound(ks, k, n - 1);
    }
}

proof fn lemma_first_from(ks: Seq<Seq<char>>, k: Seq<char>, i: int, n: int)
    requires
        0 <= i <= n < ks.len(),
        ks[n] == k,
        forall|j: int| i <= j < n ==> ks[j] != k,
    ensures
        first_from(ks, k, i) == n,
    decreases n - i,
{
    if i < n {
        lemma_first_from(ks, k, i + 1, n);
    }
}

/// `kinds` holds each mode among the first `n` of `ks` once, with its count so far, in the order
/// the modes first occur.
spec fn counted(ks: Seq<Seq<char>>, n: int, kinds: Seq<(String, usize)>) -> bool {
    &&& forall|t: int|
        0 <= t < kinds.len() ==> #[trigger] kinds[t].1 == count_in(ks, kinds[t].0@, n) && kinds[t].1
            >= 1 && first_at(ks, kinds[t].0@) < n
    &&& forall|j: int| 0 <= j < n ==> exists|t: int| 0 <= t < kinds.len() && kinds[t].0@ == #[trigger] ks[j]
    &&& forall|t: int, u: int|
        0 <= t < u < kinds.len() ==> first_at(ks, #[trigger] kinds[t].0@) < first_at(ks, #[trigger] kinds[u].0@)
}

proof fn lemma_count_step(ks: Seq<Seq<char>>, n: int)
    requires
        0 <= n,
    ensures
        forall|k: Seq<char>| #[trigger] count_in(ks, k, n + 1) == count_in(ks, k, n) + if ks[n] == k {
            1nat
        } else {
            0nat
        },
{
}

/// Counting a mode that is already listed.
proof fn lemma_counted_again(
    ks: Seq<Seq<char>>,
    n: int,
    kinds: Seq<(String, usize)>,
    t: int,
    next: Seq<(String, usize)>,
)
    requires
        0 <= n < ks.len(),
        counted(ks, n, kinds),
        0 <= t < kinds.len(),
        kinds[t].0@ == ks[n],
        next.len() == kinds.len(),
        next[t].0@ == kinds[t].0@,
        next[t].1 == kinds[t].1 + 1,
        forall|u: int| 0 <= u < kinds.len() && u != t ==> next[u] == kinds[u],
    ensures
        counted(ks, n + 1, next),
{
    lemma_count_step(ks, n);
    assert forall|u: int| 0 <= u < next.len() implies #[trigger] next[u].1 == count_in(
        ks,
        next[u].0@,
        n + 1,
    ) && next[u].1 >= 1 && first_at(ks, next[u].0@) < n + 1 by {
        assert(kinds[u].1 == count_in(ks, kinds[u].0@, n));
        if u != t {
            assert(next[u] == kinds[u]);
            if kinds[u].0@ == kinds[t].0@ {
                if u < t {
                    assert(first_at(ks, kinds[u].0@) < first_at(ks, kinds[t].0@));
                } else {
                    assert(first_at(ks, kinds[t].0@) < first_at(ks, kinds[u].0@));
                }
            }
        }
    }
    assert forall|j: int| 0 <= j < n + 1 implies exists|u: int| 0 <= u < next.len() && next[u].0@ == #[trigger] ks[j] by {
        if j == n {
            assert(next[t].0@ == ks[j]);
        } else {
            let u = choose|u: int| 0 <= u < kinds.len() && kinds[u].0@ == #[trigger] ks[j];
            assert(next[u].0@ == ks[j]);
        }
    }
    assert forall|a: int, b: int| 0 <= a < b < next.len() implies first_at(ks, #[trigger] next[a].0@) < first_at(
        ks,
        #[trigger] next[b].0@,
    ) by {
        assert(first_at(ks, kinds[a].0@) < first_at(ks, kinds[b].0@));
    }
}

/// Counting a mode met for the first time.
proof fn lemma_counted_new(
    ks: Seq<Seq<char>>,
    n: int,
    kinds: Seq<(String, usize)>,
    next: Seq<(String, usize)>,
)
    requires
        0 <= n < ks.len(),
        counted(ks, n, kinds),
        forall|u: int| 0 <= u < kinds.len() ==> kinds[u].0@ != ks[n],
        next.len() == kinds.len() + 1,
        next[kinds.len() as int].0@ == ks[n],
        next[kinds.len() as int].1 == 1,
        forall|u: int| 0 <= u < kinds.len() ==> next[u] == kinds[u],
    ensures
        counted(ks, n + 1, next),
{
    lemma_count_step(ks, n);
    let m = kinds.len() as int;
    assert forall|j: int| 0 <= j < n implies ks[j] != ks[n] by {
        let u = choose|u: int| 0 <= u < kinds.len() && kinds[u].0@ == #[trigger] ks[j];
    }
    lemma_count_bound(ks, ks[n], n);
    lemma_first_from(ks, ks[n], 0, n);
    assert forall|u: int| 0 <= u < next.len() implies #[trigger] next[u].1 == count_in(
        ks,
        next[u].0@,
        n + 1,
    ) && next[u].1 >= 1 && first_at(ks, next[u].0@) < n + 1 by {
        if u < m {
            assert(next[u] == kinds[u]);
            assert(kinds[u].1 == count_in(ks, kinds[u].0@, n));
        }
    }
    assert forall|j: int| 0 <= j < n + 1 implies exists|u: int| 0 <= u < next.len() && next[u].0@ == #[trigger] ks[j] by {
        if j == n {
            assert(next[m].0@ == ks[j]);
        } else {
            let u = choose|u: int| 0 <= u < kinds.len() && kinds[u].0@ == #[trigger] ks[j];
            assert(next[u].0@ == ks[j]);
        }
    }
    assert forall|a: int, b: int| 0 <= a < b < next.len() implies first_at(ks, #[trigger] next[a].0@) < first_at(
        ks,
        #[trigger] next[b].0@,
    ) by {
        assert(next[a] == kinds[a]);
        assert(kinds[a].1 == count_in(ks, kinds[a].0@, n));
        if b < m {
            assert(first_at(ks, kinds[a].0@) < first_at(ks, kinds[b].0@));
        }
    }
}

fn tally(whys: &Vec<String>) -> (kinds: Vec<(String, usize)>)
    ensures
        counted(modes_of(whys@), whys@.len() as int, kinds@),
{
    let ghost ks = modes_of(whys@);
    let n = whys.len();
    let mut kinds: Vec<(String, usize)> = Vec::new();
    let mut i: usize = 0;
    while i < n
        invariant
            0 <= i <= n == whys.len(),
            ks == modes_of(whys@),
            ks.len() == n,
            counted(ks, i as int, kinds@),
        decreases n - i,
    {
        let key = mode_key(whys[i].as_str());
        assert(key@ == ks[i as int]);
        let mut t: usize = 0;
        let mut found = false;
        while t < kinds.len()
            invariant
                0 <= t <= kinds.len(),
                forall|u: int| 0 <= u < t ==> kinds@[u].0@ != key@,
                found ==> t < kinds.len() && kinds@[t as int].0@ == key@,
            decreases kinds.len() - t,
        {
            if kinds[t].0 == key {
                found = true;
                break ;
            }
            t += 1;
        }
        let ghost old_kinds = kinds@;
        if found {
            let c = kinds[t].1;
            proof {
                assert(old_kinds[t as int].1 == count_in(ks, key@, i as int));
                lemma_count_bound(ks, key@, i as int);
            }
            let k = kinds[t].0.clone();
            kinds.set(t, (k, c + 1));
            proof {
                lemma_counted_again(ks, i as int, old_kinds, t as int, kinds@);
            }
        } else {
            kinds.push((key, 1));
            proof {
                lemma_counted_new(ks, i as int, old_kinds, kinds@);
            }
        }
        i += 1;
    }
    kinds
}

/// `s` runs from most to least frequent, modes that occur equally often in the order they first
/// occur in `ks`.
spec fn ranked(ks: Seq<Seq<char>>, s: Seq<(String, usize)>) -> bool {
    forall|p: int, q: int|
        0 <= p < q < s.len() ==> #[trigger] s[p].1 > #[trigger] s[q].1 || (s[p].1 == s[q].1
            && first_at(ks, s[p].0@) < first_at(ks, s[q].0@))
}

/// `s` holds exactly the first `t` entries of `kinds`: entry `p` of `s` is entry `idx[p]` of
/// `kinds`, and entry `u` of `kinds` is entry `pos[u]` of `s`.
spec fn holds_first(
    s: Seq<(String, usize)>,
    kinds: Seq<(String, usize)>,
    t: int,
    idx: Seq<int>,
    pos: Seq<int>,
) -> bool {
    &&& idx.len() == s.len()
    &&& pos.len() == t
    &&& forall|p: int| 0 <= p < s.len() ==> 0 <= #[trigger] idx[p] < t && kinds[idx[p]] == s[p]
    &&& forall|u: int| 0 <= u < t ==> 0 <= #[trigger] pos[u] < s.len() && s[pos[u]] == kinds[u]
}

proof fn lemma_insert_ranked(
    ks: Seq<Seq<char>>,
    n: int,
    kinds: Seq<(String, usize)>,
    t: int,
    prev: Seq<(String, usize)>,
    idx: Seq<int>,
    pos: Seq<int>,
    p: int,
)
    requires
        counted(ks, n, kinds),
        0 <= t < kinds.len(),
        ranked(ks, prev),
        holds_first(prev, kinds, t, idx, pos),
        0 <= p <= prev.len(),
        forall|q: int| 0 <= q < p ==> #[trigger] prev[q].1 >= kinds[t].1,
        p < prev.len() ==> prev[p].1 < kinds[t].1,
    ensures
        ranked(ks, prev.insert(p, kinds[t])),
        holds_first(
            prev.insert(p, kinds[t]),
            kinds,
            t + 1,
            idx.insert(p, t),
            Seq::new(pos.len(), |u: int| if pos[u] >= p { pos[u] + 1 } else { pos[u] }).push(p),
        ),
{
    let out = prev.insert(p, kinds[t]);
    let idx2 = idx.insert(p, t);
    let pos2 = Seq::new(pos.len(), |u: int| if pos[u] >= p { pos[u] + 1 } else { pos[u] }).push(p);
    let c = kinds[t].1;
    assert forall|q: int| p <= q < prev.len() implies #[trigger] prev[q].1 < c by {
        if q > p {
            assert(prev[p].1 >= prev[q].1);
        }
    }
    assert forall|p2: int| 0 <= p2 < out.len() implies 0 <= #[trigger] idx2[p2] < t + 1 && kinds[idx2[p2]] == out[p2] by {
        if p2 < p {
            assert(out[p2] == prev[p2] && idx2[p2] == idx[p2]);
        } else if p2 > p {
            assert(out[p2] == prev[p2 - 1] && idx2[p2] == idx[p2 - 1]);
        }
    }
    assert forall|u: int| 0 <= u < t + 1 implies 0 <= #[trigger] pos2[u] < out.len() && out[pos2[u]] == kinds[u] by {
        if u < t {
            if pos[u] >= p {
                assert(out[pos[u] + 1] == prev[pos[u]]);
            } else {
                assert(out[pos[u]] == prev[pos[u]]);
            }
        }
    }
    assert forall|a: int, b: int| 0 <= a < b < out.len() implies #[trigger] out[a].1 > #[trigger] out[b].1 || (
    out[a].1 == out[b].1 && first_at(ks, out[a].0@) < first_at(ks, out[b].0@)) by {
        if b < p {
            assert(out[a] == prev[a] && out[b] == prev[b]);
        } else if b == p {
            assert(out[a] == prev[a]);
            assert(kinds[idx[a]] == prev[a]);
            assert(first_at(ks, kinds[idx[a]].0@) < first_at(ks, kinds[t].0@));
        } else if a == p {
            assert(out[b] == prev[b - 1]);
        } else if a < p {
            assert(out[a] == prev[a] && out[b] == prev[b - 1]);
        } else {
            assert(out[a] == prev[a - 1] && out[b] == prev[b - 1]);
        }
    }
}

fn by_count(kinds: Vec<(String, usize)>, Ghost(ks): Ghost<Seq<Seq<char>>>) -> (out: Vec<(
    String,
    usize,
)>)
    requires
        counted(ks, ks.len() as int, kinds@),
    ensures
        tallies(ks, out@),
{
    let ghost n = ks.len() as int;
    let m = kinds.len();
    let mut out: Vec<(String, usize)> = Vec::new();
    let ghost mut idx: Seq<int> = Seq::empty();
    let ghost mut pos: Seq<int> = Seq::empty();
    let mut t: usize = 0;
    while t < m
        invariant
            0 <= t <= m == kinds.len(),
            n == ks.len(),
            counted(ks, n, kinds@),
            ranked(ks, out@),
            holds_first(out@, kinds@, t as int, idx, pos),
        decreases m - t,
    {
        let c = kinds[t].1;
        let mut p: usize = 0;
        while p < out.len() && out[p].1 >= c
            invariant
                0 <= p <= out.len(),
                forall|q: int| 0 <= q < p ==> #[trigger] out@[q].1 >= c,
            decreases out.len() - p,
        {
            p += 1;
        }
        let ghost prev = out@;
        let entry = (kinds[t].0.clone(), c);
        assert(entry == kinds@[t as int]);
        proof {
            lemma_insert_ranked(ks, n, kinds@, t as int, prev, idx, pos, p as int);
            idx = idx.insert(p as int, t as int);
            pos = Seq::new(pos.len(), |u: int| if pos[u] >= p { pos[u] + 1 } else { pos[u] }).push(
                p as int,
            );
        }
        out.insert(p, entry);
        t += 1;
    }
    proof {
        assert forall|p: int| 0 <= p < out.len() implies #[trigger] out@[p].1 == count_in(
            ks,
            out@[p].0@,
            n,
        ) && out@[p].1 >= 1 by {
            assert(kinds@[idx[p]] == out@[p]);
            assert(kinds@[idx[p]].1 == count_in(ks, kinds@[idx[p]].0@, n));
        }
        assert forall|j: int| 0 <= j < ks.len() implies lists(out@, #[trigger] ks[j]) by {
            let u = choose|u: int| 0 <= u < kinds.len() && kinds@[u].0@ == #[trigger] ks[j];
            assert(out@[pos[u]] == kinds@[u]);
            assert(out@[pos[u]].0@ == ks[j]);
        }
    }
    out
}

/// The failure modes of a run, each with how many failures it covers, most frequent first.
pub fn failure_modes(whys: &Vec<String>) -> (r: Vec<(String, usize)>)
    ensures
        tallies(modes_of(whys@), r@),
{
    let kinds = tally(whys);
    by_count(kinds, Ghost(modes_of(whys@)))
}

} // verus!
