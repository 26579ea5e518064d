//! The disk ledger a corpus build holds itself to, and the flags its commands read.
//!
//! The ceiling is charged, not sampled. `used` is what admission spends: bytes on disk plus every
//! reservation in flight. `charged` is bytes on disk alone. A refusal means two different things
//! depending on which of them is at the ceiling: when the bytes on disk are, the run is over;
//! when only reservations in flight are, it is contention, and the caller waits and retries.
//! Reserving before a clone rather than checking after it is what lets the ceiling hold however
//! many clones run at once.

use vstd::prelude::*;

use std::collections::HashMap;

use crate::hashing::{blake3_digest, blake3_hash};
use crate::raw::bytes_eq;
use crate::classify::{is_space, space};
use crate::survey::{lemma_line_end, line_end, trim_end, trim_start};
use crate::text::{chars_of, push_char, same, string_of};

verus! {

/// The bytes in one gibibyte.
pub const GIB: u64 = 1024 * 1024 * 1024;

/// What one attempt to reserve bytes came to.
#[derive(Debug, Clone, Copy, PartialEq, Eq, Structural)]
pub enum Attempt {
    /// The reservation is held.
    Granted,
    /// The bytes on disk have reached the ceiling: the run is done.
    Spent,
    /// Reservations in flight leave no room right now; one may yet reconcile.
    Contended,
}

#[derive(Debug, Clone, Copy)]
pub struct Ledger {
    pub ceiling: u64,
    pub used: u64,
    pub charged: u64,
    pub full: bool,
}

impl Ledger {
    /// Reservations never count below what is on disk.
    pub open spec fn wf(&self) -> bool {
        self.charged <= self.used
    }

    /// A ledger for `gb` gibibytes, starting from what is already on disk, which is how a
    /// resumed run counts what it wrote before.
    pub fn new(on_disk: u64, gb: u64) -> (l: Ledger)
        ensures
            l.wf(),
            l.ceiling == (if gb * GIB <= u64::MAX { gb * GIB } else { u64::MAX as int }),
            l.used == on_disk,
            l.charged == on_disk,
            !l.full,
    {
        let ceiling = match gb.checked_mul(GIB) {
            Some(c) => c,
            None => u64::MAX,
        };
        Ledger { ceiling, used: on_disk, charged: on_disk, full: false }
    }

    /// Whether the bytes on disk have reached the ceiling, which is terminal for the run.
    pub fn is_full(&self) -> (r: bool)
        ensures
            r == self.full,
    {
        self.full
    }

    /// One attempt to hold `bytes` against the ceiling.
    pub fn try_reserve(&mut self, bytes: u64) -> (r: Attempt)
        requires
            old(self).wf(),
        ensures
            final(self).wf(),
            final(self).ceiling == old(self).ceiling,
            final(self).charged == old(self).charged,
            r == (if old(self).charged >= old(self).ceiling {
                Attempt::Spent
            } else if old(self).used + bytes <= old(self).ceiling {
                Attempt::Granted
            } else {
                Attempt::Contended
            }),
            r == Attempt::Granted ==> final(self).used == old(self).used + bytes && final(self).used
                <= final(self).ceiling && final(self).full == old(self).full,
            r == Attempt::Spent ==> final(self).used == old(self).used && final(self).full,
            r == Attempt::Contended ==> final(self).used == old(self).used && final(self).full == old(
                self,
            ).full,
    {
        if self.charged >= self.ceiling {
            self.full = true;
            return Attempt::Spent;
        }
        if self.used <= self.ceiling && bytes <= self.ceiling - self.used {
            self.used = self.used + bytes;
            Attempt::Granted
        } else {
            Attempt::Contended
        }
    }

    /// Gives back a reservation whose clone never happened.
    pub fn release(&mut self, reserved: u64)
        requires
            old(self).wf(),
            reserved <= old(self).used - old(self).charged,
        ensures
            final(self).wf(),
            final(self).used == old(self).used - reserved,
            final(self).charged == old(self).charged,
            final(self).ceiling == old(self).ceiling,
            final(self).full == old(self).full,
    {
        self.used = self.used - reserved;
    }

    /// Turns a reservation into the bytes it actually cost. Refuses, undoing the charge and
    /// declaring the run full, when those bytes carry what is on disk past the ceiling: a repo
    /// that beat its guess is removed rather than kept.
    pub fn commit(&mut self, reserved: u64, actual: u64) -> (r: bool)
        requires
            old(self).wf(),
            reserved <= old(self).used - old(self).charged,
            old(self).used + actual <= u64::MAX,
        ensures
            final(self).wf(),
            final(self).ceiling == old(self).ceiling,
            r == (old(self).charged + actual <= old(self).ceiling),
            r ==> final(self).charged == old(self).charged + actual && final(self).used == old(
                self,
            ).used - reserved + actual && final(self).full == old(self).full,
            !r ==> final(self).charged == old(self).charged && final(self).used == old(self).used
                - reserved && final(self).full,
    {
        self.used = self.used - reserved;
        if actual > self.ceiling || self.charged > self.ceiling - actual {
            self.full = true;
            return false;
        }
        self.used = self.used + actual;
        self.charged = self.charged + actual;
        true
    }
}

/// The value that follows flag `name` among the arguments, from its first occurrence.
pub open spec fn flag_value(args: Seq<String>, name: Seq<char>) -> Option<Seq<char>> {
    if exists|i: int| 0 <= i < args.len() && args[i]@ == name {
        let i = choose|i: int|
            0 <= i < args.len() && args[i]@ == name && forall|j: int| 0 <= j < i ==> args[j]@ != name;
        if i + 1 < args.len() {
            Some(args[i + 1]@)
        } else {
            None
        }
    } else {
        None
    }
}

/// The value of flag `name`: the argument after its first occurrence, if there is one.
pub fn flag(args: &Vec<String>, name: &str) -> (r: Option<String>)
    ensures
        r is Some <==> flag_value(args@, name@) is Some,
        r matches Some(v) ==> v@ == flag_value(args@, name@)->0,
{
    let mut i: usize = 0;
    while i < args.len()
        invariant
            0 <= i <= args@.len(),
            forall|j: int| 0 <= j < i ==> args@[j]@ != name@,
        decreases args@.len() - i,
    {
        if same(args[i].as_str(), name) {
            proof {
                assert(0 <= i < args@.len() && args@[i as int]@ == name@ && forall|j: int|
                    0 <= j < i ==> args@[j]@ != name@);
                let c = choose|c: int|
                    0 <= c < args@.len() && args@[c]@ == name@ && forall|j: int|
                        0 <= j < c ==> args@[j]@ != name@;
                if c < i {
                    assert(args@[c]@ != name@);
                } else if c > i {
                    assert(args@[i as int]@ != name@);
                }
            }
            if i + 1 < args.len() {
                return Some(args[i + 1].clone());
            }
            return None;
        }
        i += 1;
    }
    None
}

/// The index of the first tab at or after `a`, or the length when none follows.
pub open spec fn tab_at(s: Seq<char>, a: int) -> int
    decreases s.len() - a,
{
    if a < 0 || a >= s.len() {
        s.len() as int
    } else if s[a] == '\t' {
        a
    } else {
        tab_at(s, a + 1)
    }
}

/// The value of a run of decimal digits.
pub open spec fn digits_value(d: Seq<char>) -> int
    decreases d.len(),
{
    if d.len() == 0 {
        0
    } else {
        10 * digits_value(d.drop_last()) + (d.last() as int - '0' as int)
    }
}

/// Every character of `d` is a decimal digit.
pub open spec fn all_digits(d: Seq<char>) -> bool {
    forall|i: int| 0 <= i < d.len() ==> '0' <= #[trigger] d[i] <= '9'
}

/// `f` without a leading `+`.
pub open spec fn unsigned_part(f: Seq<char>) -> Seq<char> {
    if f.len() > 0 && f[0] == '+' {
        f.subrange(1, f.len() as int)
    } else {
        f
    }
}

/// `f` read as `u64::from_str` reads it: an optional `+`, then at least one decimal digit and
/// nothing else, with a value that fits.
pub open spec fn decimal(f: Seq<char>) -> Option<u64> {
    let d = unsigned_part(f);
    if d.len() > 0 && all_digits(d) && digits_value(d) <= u64::MAX {
        Some(digits_value(d) as u64)
    } else {
        None
    }
}

/// One line of a repository listing: a name, then after a tab the size in kilobytes. A line whose
/// name is blank lists nothing; a size that is missing or unreadable is zero, meaning unknown.
pub open spec fn repo_line(l: Seq<char>) -> Option<(Seq<char>, u64)> {
    let t = tab_at(l, 0);
    let name = trim_start(trim_end(l.subrange(0, t)));
    if name.len() == 0 {
        None
    } else if t < l.len() {
        Some(
            (
                name,
                match decimal(l.subrange(t + 1, tab_at(l, t + 1))) {
                    Some(v) => v,
                    None => 0u64,
                },
            ),
        )
    } else {
        Some((name, 0u64))
    }
}

/// The line of `s` that starts at `a`, without its ending: a line feed, and a carriage return
/// just before it.
pub open spec fn line_text(s: Seq<char>, a: int) -> Seq<char> {
    let e = line_end(s, a);
    if e < s.len() && e > a && s[e - 1] == '\r' {
        s.subrange(a, e - 1)
    } else {
        s.subrange(a, e)
    }
}

/// The repositories listed by the lines of `s` from position `a` on.
pub open spec fn listing_from(s: Seq<char>, a: int) -> Seq<(Seq<char>, u64)>
    decreases s.len() - a,
{
    if a < 0 || a > s.len() {
        Seq::empty()
    } else {
        let e = line_end(s, a);
        proof {
            lemma_line_end(s, a);
        }
        let here = match repo_line(line_text(s, a)) {
            Some(x) => seq![x],
            None => Seq::empty(),
        };
        if e < s.len() {
            here + listing_from(s, e + 1)
        } else {
            here
        }
    }
}

/// The repositories a listing names, in order, each with its size in kilobytes. The lines are
/// those `str::lines` gives; a final empty piece after the last line feed names nothing.
pub open spec fn listing(s: Seq<char>) -> Seq<(Seq<char>, u64)> {
    listing_from(s, 0)
}

/// Entries as names and sizes.
pub open spec fn repo_views(r: Seq<(String, u64)>) -> Seq<(Seq<char>, u64)> {
    r.map_values(|x: (String, u64)| (x.0@, x.1))
}

proof fn lemma_tab_at(s: Seq<char>, a: int)
    requires
        0 <= a <= s.len(),
    ensures
        a <= tab_at(s, a) <= s.len(),
        tab_at(s, a) < s.len() ==> s[tab_at(s, a)] == '\t',
    decreases s.len() - a,
{
    if a < s.len() && s[a] != '\t' {
        lemma_tab_at(s, a + 1);
    }
}

proof fn lemma_digits_grow(d: Seq<char>, k: int)
    requires
        0 <= k <= d.len(),
        all_digits(d),
    ensures
        0 <= digits_value(d.subrange(0, k)) <= digits_value(d),
    decreases d.len(),
{
    if d.len() > 0 {
        if k == d.len() {
            assert(d.subrange(0, k) =~= d);
            lemma_digits_grow(d.drop_last(), k - 1);
        } else {
            assert(d.drop_last().subrange(0, k) =~= d.subrange(0, k));
            lemma_digits_grow(d.drop_last(), k);
            lemma_digits_grow(d.drop_last(), d.len() - 1);
            assert(d.drop_last().subrange(0, d.len() - 1) =~= d.drop_last());
        }
    }
}

/// `decimal` over `l[a..u]`.
fn decimal_in(l: &Vec<char>, a: usize, u: usize) -> (r: Option<u64>)
    requires
        a <= u <= l@.len(),
    ensures
        r == decimal(l@.subrange(a as int, u as int)),
{
    let ghost f = l@.subrange(a as int, u as int);
    let s = if a < u && l[a] == '+' {
        a + 1
    } else {
        a
    };
    let ghost d = l@.subrange(s as int, u as int);
    assert(d =~= unsigned_part(f));
    if s == u {
        assert(d.len() == 0);
        assert(decimal(f) is None);
        return None;
    }
    let mut v: u64 = 0;
    let mut i = s;
    while i < u
        invariant
            s <= i <= u <= l@.len(),
            d == l@.subrange(s as int, u as int),
            f == l@.subrange(a as int, u as int),
            d == unsigned_part(f),
            d.len() > 0,
            forall|j: int| s <= j < i ==> '0' <= #[trigger] l@[j] <= '9',
            v == digits_value(l@.subrange(s as int, i as int)),
        decreases u - i,
    {
        let c = l[i];
        if c < '0' || c > '9' {
            assert(d[i - s] == c);
            assert(!all_digits(d));
            assert(decimal(f) is None);
            return None;
        }
        let dgt = (c as u32 - '0' as u32) as u64;
        assert(l@.subrange(s as int, i + 1).drop_last() =~= l@.subrange(s as int, i as int));
        let next = match v.checked_mul(10) {
            Some(t) => t.checked_add(dgt),
            None => None,
        };
        match next {
            Some(t) => {
                v = t;
            },
            None => {
                proof {
                    assert(digits_value(l@.subrange(s as int, i + 1)) > u64::MAX);
                    if all_digits(d) {
                        lemma_digits_grow(d, i + 1 - s);
                        assert(d.subrange(0, i + 1 - s) =~= l@.subrange(s as int, i + 1));
                    }
                    assert(decimal(f) is None);
                }
                return None;
            },
        }
        i += 1;
    }
    assert(d =~= l@.subrange(s as int, i as int));
    assert forall|j: int| 0 <= j < d.len() implies '0' <= #[trigger] d[j] <= '9' by {
        assert(d[j] == l@[s + j]);
    }
    assert(all_digits(d));
    Some(v)
}

/// One listing line, read as `repo_line` reads it.
fn read_repo_line(l: &Vec<char>) -> (r: Option<(String, u64)>)
    ensures
        r matches Some(x) ==> repo_line(l@) == Some((x.0@, x.1)),
        r is None ==> repo_line(l@) is None,
{
    let n = l.len();
    let mut t: usize = 0;
    while t < n && l[t] != '\t'
        invariant
            0 <= t <= n == l@.len(),
            tab_at(l@, 0) == tab_at(l@, t as int),
        decreases n - t,
    {
        t += 1;
    }
    let ghost field = l@.subrange(0, t as int);
    let mut z = t;
    while z > 0 && space(l[z - 1])
        invariant
            0 <= z <= t <= n == l@.len(),
            trim_end(field) == trim_end(l@.subrange(0, z as int)),
        decreases z,
    {
        assert(l@.subrange(0, z as int).drop_last() =~= l@.subrange(0, z - 1));
        z -= 1;
    }
    assert(trim_end(field) == l@.subrange(0, z as int));
    let mut a: usize = 0;
    while a < z && space(l[a])
        invariant
            0 <= a <= z <= t <= n == l@.len(),
            trim_start(trim_end(field)) == trim_start(l@.subrange(a as int, z as int)),
        decreases z - a,
    {
        assert(l@.subrange(a as int, z as int).drop_first() =~= l@.subrange(a + 1, z as int));
        a += 1;
    }
    assert(trim_start(l@.subrange(a as int, z as int)) == l@.subrange(a as int, z as int));
    if a == z {
        return None;
    }
    let name = string_of(l, a, z);
    if t < n {
        let mut u = t + 1;
        while u < n && l[u] != '\t'
            invariant
                t + 1 <= u <= n == l@.len(),
                tab_at(l@, t + 1) == tab_at(l@, u as int),
            decreases n - u,
        {
            u += 1;
        }
        let kb = match decimal_in(l, t + 1, u) {
            Some(v) => v,
            None => 0,
        };
        Some((name, kb))
    } else {
        Some((name, 0))
    }
}

/// The repositories a listing names, each with its size in kilobytes (zero where unknown).
pub fn parse_listing(text: &str) -> (r: Vec<(String, u64)>)
    ensures
        repo_views(r@) == listing(text@),
{
    let c = chars_of(text);
    let n = c.len();
    let mut out: Vec<(String, u64)> = Vec::new();
    let mut a: usize = 0;
    loop
        invariant
            0 <= a <= n,
            n == c@.len(),
            c@ == text@,
            repo_views(out@) + listing_from(c@, a as int) == listing_from(c@, 0),
        decreases n - a,
    {
        let mut e = a;
        while e < n && c[e] != '\n'
            invariant
                a <= e <= n,
                n == c@.len(),
                line_end(c@, a as int) == line_end(c@, e as int),
            decreases n - e,
        {
            e += 1;
        }
        proof {
            lemma_line_end(c@, a as int);
        }
        let b = if e < n && e > a && c[e - 1] == '\r' {
            e - 1
        } else {
            e
        };
        let mut line: Vec<char> = Vec::new();
        let mut k = a;
        while k < b
            invariant
                a <= k <= b <= n,
                n == c@.len(),
                line@ == c@.subrange(a as int, k as int),
            decreases b - k,
        {
            line.push(c[k]);
            k += 1;
            assert(line@ =~= c@.subrange(a as int, k as int));
        }
        assert(line@ == line_text(c@, a as int));
        let ghost before = out@;
        match read_repo_line(&line) {
            Some(x) => {
                out.push(x);
                assert(repo_views(out@) =~= repo_views(before) + seq![(x.0@, x.1)]);
            },
            None => {},
        }
        let ghost here = match repo_line(line_text(c@, a as int)) {
            Some(x) => seq![x],
            None => Seq::<(Seq<char>, u64)>::empty(),
        };
        assert(repo_views(out@) =~= repo_views(before) + here);
        if e < n {
            assert(listing_from(c@, a as int) == here + listing_from(c@, e + 1));
            assert(repo_views(out@) + listing_from(c@, e + 1) =~= repo_views(before) + listing_from(
                c@,
                a as int,
            ));
            a = e + 1;
        } else {
            assert(listing_from(c@, a as int) == here);
            break ;
        }
    }
    assert(listing_from(c@, n as int + 1) =~= Seq::<(Seq<char>, u64)>::empty());
    out
}

/// The directory a repository's full name clones into: each `/` becomes `__`.
pub open spec fn dir_name(s: Seq<char>) -> Seq<char>
    decreases s.len(),
{
    if s.len() == 0 {
        Seq::empty()
    } else {
        dir_name(s.drop_last()) + if s.last() == '/' {
            seq!['_', '_']
        } else {
            seq![s.last()]
        }
    }
}

/// The directory a repository named `full` clones into.
pub fn repo_dir(full: &str) -> (r: String)
    ensures
        r@ == dir_name(full@),
{
    let c = chars_of(full);
    let mut out = String::new();
    let mut i: usize = 0;
    while i < c.len()
        invariant
            0 <= i <= c@.len(),
            c@ == full@,
            out@ == dir_name(c@.subrange(0, i as int)),
        decreases c@.len() - i,
    {
        assert(c@.subrange(0, i + 1).drop_last() =~= c@.subrange(0, i as int));
        if c[i] == '/' {
            push_char(&mut out, '_');
            push_char(&mut out, '_');
        } else {
            push_char(&mut out, c[i]);
        }
        i += 1;
        assert(out@ =~= dir_name(c@.subrange(0, i as int)));
    }
    assert(c@.subrange(0, i as int) =~= c@);
    out
}

/// What a clone holds against the ledger, in bytes: nothing for a repo the listing says is over
/// `max_kb`, else its listed size, or `max_kb` where the listing gave none, in kibibytes and
/// saturating.
pub fn clone_reservation(kb: u64, max_kb: u64) -> (r: Option<u64>)
    ensures
        r == (if kb > 0 && kb > max_kb {
            None
        } else {
            let k = if kb > 0 {
                kb
            } else {
                max_kb
            };
            Some(
                if k * 1024 <= u64::MAX {
                    (k * 1024) as u64
                } else {
                    u64::MAX
                },
            )
        }),
{
    if kb > 0 && kb > max_kb {
        return None;
    }
    let k = if kb > 0 {
        kb
    } else {
        max_kb
    };
    match k.checked_mul(1024) {
        Some(v) => Some(v),
        None => Some(u64::MAX),
    }
}

/// The digest a file's content is deduplicated by: its BLAKE3 hash.
pub fn content_digest(data: &[u8]) -> (h: [u8; 32])
    ensures
        h@ == blake3_digest(data@),
{
    blake3_hash(data)
}

/// The bucket a digest is filed under: its first four bytes, read big-endian.
pub open spec fn bucket_of(h: Seq<u8>) -> u64 {
    (h[0] as int * 16777216 + h[1] as int * 65536 + h[2] as int * 256 + h[3] as int) as u64
}

fn bucket(h: &[u8; 32]) -> (r: u64)
    ensures
        r == bucket_of(h@),
{
    h[0] as u64 * 16777216 + h[1] as u64 * 65536 + h[2] as u64 * 256 + h[3] as u64
}

/// `m` files every digest of `ds` under its bucket, and nothing else.
pub open spec fn indexes(m: Map<u64, Vec<usize>>, ds: Seq<[u8; 32]>) -> bool {
    &&& forall|j: int|
        0 <= j < ds.len() ==> m.contains_key(bucket_of(#[trigger] ds[j]@)) && m[bucket_of(
            ds[j]@,
        )]@.contains(j as usize)
    &&& forall|k: u64, p: int|
        #![trigger m[k]@[p]]
        m.contains_key(k) && 0 <= p < m[k]@.len() ==> m[k]@[p] < ds.len() && bucket_of(
            ds[m[k]@[p] as int]@,
        ) == k
}

/// An index of the digests of `ds` by bucket.
fn index(ds: &Vec<[u8; 32]>) -> (m: HashMap<u64, Vec<usize>>)
    ensures
        indexes(m@, ds@),
{
    broadcast use vstd::std_specs::hash::group_hash_axioms;

    let mut m: HashMap<u64, Vec<usize>> = HashMap::new();
    let mut i: usize = 0;
    while i < ds.len()
        invariant
            0 <= i <= ds@.len(),
            indexes(m@, ds@.subrange(0, i as int)),
        decreases ds@.len() - i,
    {
        let key = bucket(&ds[i]);
        let ghost before = m@;
        let ghost pre = ds@.subrange(0, i as int);
        let ghost post = ds@.subrange(0, i + 1);
        let v = match m.remove(&key) {
            Some(v) => v,
            None => Vec::new(),
        };
        let ghost old_v = v@;
        assert(before.contains_key(key) ==> old_v == before[key]@);
        assert(!before.contains_key(key) ==> old_v.len() == 0);
        let mut v = v;
        v.push(i);
        m.insert(key, v);
        proof {
            assert forall|j: int| 0 <= j < post.len() implies m@.contains_key(
                bucket_of(#[trigger] post[j]@),
            ) && m@[bucket_of(post[j]@)]@.contains(j as usize) by {
                if j == i {
                    assert(m@[key]@[old_v.len() as int] == j as usize);
                } else {
                    assert(post[j] == pre[j]);
                    let k2 = bucket_of(pre[j]@);
                    let w = choose|w: int| 0 <= w < before[k2]@.len() && before[k2]@[w] == j as usize;
                    if k2 == key {
                        assert(m@[key]@[w] == j as usize);
                    } else {
                        assert(m@[k2] == before[k2]);
                    }
                }
            }
            assert forall|k: u64, p: int|
                #![trigger m@[k]@[p]]
                m@.contains_key(k) && 0 <= p < m@[k]@.len() implies m@[k]@[p] < post.len() && bucket_of(
                    post[m@[k]@[p] as int]@,
                ) == k by {
                if k == key {
                    if p < old_v.len() {
                        assert(m@[k]@[p] == before[k]@[p]);
                        assert(post[m@[k]@[p] as int] == pre[m@[k]@[p] as int]);
                    }
                } else {
                    assert(m@[k] == before[k]);
                    assert(post[m@[k]@[p] as int] == pre[m@[k]@[p] as int]);
                }
            }
        }
        i += 1;
    }
    assert(ds@.subrange(0, i as int) =~= ds@);
    m
}

/// Whether some digest among the first `limit` of `ds` equals `h`.
fn occurs_before(m: &HashMap<u64, Vec<usize>>, ds: &Vec<[u8; 32]>, h: &[u8; 32], limit: usize) -> (r:
    bool)
    requires
        indexes(m@, ds@),
    ensures
        r == exists|j: int| 0 <= j < limit && j < ds@.len() && #[trigger] ds@[j]@ == h@,
{
    broadcast use vstd::std_specs::hash::group_hash_axioms;

    let key = bucket(h);
    match m.get(&key) {
        None => {
            assert forall|j: int| 0 <= j < limit && j < ds@.len() implies #[trigger] ds@[j]@ != h@ by {
                if ds@[j]@ == h@ {
                    assert(m@.contains_key(bucket_of(ds@[j]@)));
                }
            }
            false
        },
        Some(v) => {
            let mut p: usize = 0;
            while p < v.len()
                invariant
                    0 <= p <= v@.len(),
                    v@ == m@[key]@,
                    m@.contains_key(key),
                    indexes(m@, ds@),
                    forall|q: int| 0 <= q < p ==> !(v@[q] < limit && #[trigger] ds@[v@[q] as int]@ == h@),
                decreases v@.len() - p,
            {
                let e = v[p];
                assert(m@[key]@[p as int] == e);
                if e < limit && bytes_eq(ds[e].as_slice(), h.as_slice()) {
                    return true;
                }
                p += 1;
            }
            assert forall|j: int| 0 <= j < limit && j < ds@.len() implies #[trigger] ds@[j]@ != h@ by {
                if ds@[j]@ == h@ {
                    assert(m@[bucket_of(ds@[j]@)]@.contains(j as usize));
                    let w = choose|w: int| 0 <= w < v@.len() && v@[w] == j as usize;
                    assert(!(v@[w] < limit && ds@[v@[w] as int]@ == h@));
                }
            }
            false
        },
    }
}

/// Entry `i` of `ds` is the first with its digest.
pub open spec fn first_copy(ds: Seq<[u8; 32]>, i: int) -> bool {
    forall|j: int| 0 <= j < i ==> #[trigger] ds[j]@ != ds[i]@
}

/// Which entries are the first with their content: the files a corpus keeps, in order.
pub fn first_copies(digests: &Vec<[u8; 32]>) -> (keep: Vec<bool>)
    ensures
        keep@.len() == digests@.len(),
        forall|i: int| 0 <= i < digests@.len() ==> #[trigger] keep@[i] == first_copy(digests@, i),
{
    let m = index(digests);
    let mut keep: Vec<bool> = Vec::new();
    let mut i: usize = 0;
    while i < digests.len()
        invariant
            0 <= i <= digests@.len(),
            indexes(m@, digests@),
            keep@.len() == i,
            forall|j: int| 0 <= j < i ==> #[trigger] keep@[j] == first_copy(digests@, j),
        decreases digests@.len() - i,
    {
        let seen = occurs_before(&m, digests, &digests[i], i);
        keep.push(!seen);
        i += 1;
    }
    keep
}

/// Which entries of `kept` have a digest that also occurs in `excluded`: the files an exclusion
/// corpus already holds.
pub fn also_in(kept: &Vec<[u8; 32]>, excluded: &Vec<[u8; 32]>) -> (drop: Vec<bool>)
    ensures
        drop@.len() == kept@.len(),
        forall|i: int|
            0 <= i < kept@.len() ==> #[trigger] drop@[i] == exists|j: int|
                0 <= j < excluded@.len() && #[trigger] excluded@[j]@ == kept@[i]@,
{
    let m = index(excluded);
    let mut drop: Vec<bool> = Vec::new();
    let mut i: usize = 0;
    while i < kept.len()
        invariant
            0 <= i <= kept@.len(),
            indexes(m@, excluded@),
            drop@.len() == i,
            forall|j: int|
                0 <= j < i ==> #[trigger] drop@[j] == exists|k: int|
                    0 <= k < excluded@.len() && #[trigger] excluded@[k]@ == kept@[j]@,
        decreases kept@.len() - i,
    {
        let hit = occurs_before(&m, excluded, &kept[i], excluded.len());
        drop.push(hit);
        i += 1;
    }
    drop
}

} // verus!
