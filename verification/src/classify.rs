//! Heading → (kind, tier, role). The vocabulary is the one measured across real `SKILL.md`
//! files; anything unrecognised becomes plain `Prose`, which is the safe default because role
//! never drives dispatch.

use vstd::prelude::*;

use vstd::string::StrSliceExecFns;

use crate::graph::{Abi, Kind, Tier};
use crate::text::{lowercase, to_lowercase};

verus! {

pub const ROLE_INTENT: u16 = 1;

pub const ROLE_PROSE: u16 = 2;

pub const ROLE_STEP: u16 = 3;

pub const ROLE_ANTIPATTERN: u16 = 4;

pub const ROLE_PITFALL: u16 = 5;

pub const ROLE_LIMITATION: u16 = 6;

pub const ROLE_EXEMPLAR: u16 = 7;

pub const ROLE_CHEATSHEET: u16 = 8;

pub const ROLE_CITATION: u16 = 9;

pub const ROLE_PREREQ: u16 = 10;

pub const ROLE_QUALITY: u16 = 11;

pub const ROLE_OUTPUT: u16 = 12;

pub const ROLE_APPLICABILITY: u16 = 13;

pub const ROLE_TOOLS: u16 = 14;

pub const ROLE_FRONTMATTER: u16 = 15;

pub const ROLE_CONTINUATION: u16 = 16;

pub const ROLE_ORG_CHARTER: u16 = 20;

pub const ROLE_ORG_MEMBER: u16 = 21;

pub const ROLE_ORG_ARTIFACT: u16 = 22;

pub const ROLE_ORG_GATE: u16 = 23;

pub const ROLE_FENCE: u16 = 100;

pub const ROLE_FENCE_UNCLOSED: u16 = 101;

/// `n` occurs somewhere in `h`.
pub open spec fn has_infix(h: Seq<char>, n: Seq<char>) -> bool {
    exists|i: int| 0 <= i && i + n.len() <= h.len() && #[trigger] h.subrange(i, i + n.len()) == n
}

/// `h` begins with `n`.
pub open spec fn has_prefix(h: Seq<char>, n: Seq<char>) -> bool {
    n.len() <= h.len() && h.subrange(0, n.len() as int) == n
}

/// The characters a heading keeps once lowercased: ASCII letters and digits, and spaces.
pub open spec fn kept(c: char) -> bool {
    ('a' <= c <= 'z') || ('A' <= c <= 'Z') || ('0' <= c <= '9') || c == ' '
}

/// `t` is `s` with its leading and trailing spaces removed.
pub open spec fn trims_to(s: Seq<char>, t: Seq<char>) -> bool {
    exists|a: int, z: int|
        0 <= a <= z <= s.len() && t == s.subrange(a, z) && (forall|i: int|
            0 <= i < a ==> s[i] == ' ') && (forall|i: int| z <= i < s.len() ==> s[i] == ' ') && (
        t.len() > 0 ==> t[0] != ' ' && t.last() != ' ')
}

/// The classification table, over a heading already lowercased, filtered and trimmed.
pub open spec fn heading_class(t: Seq<char>) -> (Kind, Tier, u16) {
    if has_prefix(t, "step "@) || has_prefix(t, "phase "@) {
        (Kind::Prose, Tier::Body, ROLE_STEP)
    } else if (has_infix(t, "when to use"@) || has_infix(t, "when not to use"@) || has_infix(t, "applicability"@) || has_infix(t, "triggers"@)) {
        (Kind::Applicability, Tier::Routing, ROLE_APPLICABILITY)
    } else if (has_infix(t, "prerequisite"@) || has_infix(t, "required input"@) || has_infix(t, "requirements"@) || has_infix(t, "setup"@) || has_infix(t, "installation"@)) {
        (Kind::Contract, Tier::Body, ROLE_PREREQ)
    } else if (has_infix(t, "quality check"@) || has_infix(t, "validation"@) || has_infix(t, "verify"@) || has_infix(t, "acceptance"@)) {
        (Kind::Contract, Tier::Body, ROLE_QUALITY)
    } else if (has_infix(t, "output format"@) || has_infix(t, "what this skill produces"@) || has_infix(t, "deliverable"@)) {
        (Kind::Contract, Tier::Body, ROLE_OUTPUT)
    } else if (has_infix(t, "antipattern"@) || has_infix(t, "anti pattern"@)) {
        (Kind::Prose, Tier::Body, ROLE_ANTIPATTERN)
    } else if (has_infix(t, "pitfall"@) || has_infix(t, "gotcha"@) || has_infix(t, "common mistake"@)) {
        (Kind::Prose, Tier::Body, ROLE_PITFALL)
    } else if (has_infix(t, "limitation"@) || has_infix(t, "constraint"@) || has_infix(t, "does not"@) || has_infix(t, "out of scope"@)) {
        (Kind::Prose, Tier::Body, ROLE_LIMITATION)
    } else if (has_infix(t, "tool discovery"@) || has_infix(t, "tools used"@) || has_infix(t, "available tools"@) || has_infix(t, "mcp"@)) {
        (Kind::Binding, Tier::Body, ROLE_TOOLS)
    } else if (has_infix(t, "quick reference"@) || has_infix(t, "cheat sheet"@) || has_infix(t, "cheatsheet"@) || has_infix(t, "reference table"@)) {
        (Kind::Prose, Tier::OnDemand, ROLE_CHEATSHEET)
    } else if (has_infix(t, "example"@) || has_infix(t, "sample"@) || has_infix(t, "walkthrough"@)) {
        (Kind::Prose, Tier::OnDemand, ROLE_EXEMPLAR)
    } else if (has_infix(t, "reference"@) || has_infix(t, "related skill"@) || has_infix(t, "see also"@) || has_infix(t, "further reading"@)) {
        (Kind::Resource, Tier::OnDemand, ROLE_CITATION)
    } else if (has_infix(t, "overview"@) || has_infix(t, "purpose"@) || has_infix(t, "intent"@) || has_infix(t, "what this"@) || has_infix(t, "summary"@)) {
        (Kind::Prose, Tier::Body, ROLE_INTENT)
    } else {
        (Kind::Prose, Tier::Body, ROLE_PROSE)
    }
}

/// The needles that mark a heading as saying when a skill applies.
pub open spec fn names_applicability(t: Seq<char>) -> bool {
    has_infix(t, "when to use"@) || has_infix(t, "when not to use"@) || has_infix(t, "applicability"@)
        || has_infix(t, "triggers"@)
}

/// A numbered step stays a step whatever else its heading says: a normalised heading that
/// opens with `step ` or `phase ` is body prose in the step role.
pub proof fn step_headings_stay_steps(t: Seq<char>)
    requires
        has_prefix(t, "step "@) || has_prefix(t, "phase "@),
    ensures
        heading_class(t) == (Kind::Prose, Tier::Body, ROLE_STEP),
{
}

/// Headings that say when a skill applies route it. A normalised heading that does not open
/// with `step ` or `phase ` and contains `when to use`, `when not to use`, `applicability` or
/// `triggers` is Applicability at the Routing tier; and a heading reaches the Routing tier in
/// no other way.
pub proof fn applicability_headings_route(t: Seq<char>)
    ensures
        (!has_prefix(t, "step "@) && !has_prefix(t, "phase "@) && has_infix(t, "when to use"@))
            ==> heading_class(t) == (Kind::Applicability, Tier::Routing, ROLE_APPLICABILITY),
        (!has_prefix(t, "step "@) && !has_prefix(t, "phase "@) && names_applicability(t))
            ==> heading_class(t) == (Kind::Applicability, Tier::Routing, ROLE_APPLICABILITY),
        heading_class(t).1 == Tier::Routing <==> (!has_prefix(t, "step "@) && !has_prefix(
            t,
            "phase "@,
        ) && names_applicability(t)),
        heading_class(t).0 == Kind::Applicability <==> heading_class(t).1 == Tier::Routing,
{
}

/// The table falls through to plain prose: a normalised heading with no step prefix and none
/// of the table's phrases is body prose.
pub proof fn unmatched_headings_are_prose(t: Seq<char>)
    requires
        !has_prefix(t, "step "@),
        !has_prefix(t, "phase "@),
        !names_applicability(t),
        !(has_infix(t, "prerequisite"@) || has_infix(t, "required input"@) || has_infix(t, "requirements"@) || has_infix(t, "setup"@) || has_infix(t, "installation"@)),
        !(has_infix(t, "quality check"@) || has_infix(t, "validation"@) || has_infix(t, "verify"@) || has_infix(t, "acceptance"@)),
        !(has_infix(t, "output format"@) || has_infix(t, "what this skill produces"@) || has_infix(t, "deliverable"@)),
        !(has_infix(t, "antipattern"@) || has_infix(t, "anti pattern"@)),
        !(has_infix(t, "pitfall"@) || has_infix(t, "gotcha"@) || has_infix(t, "common mistake"@)),
        !(has_infix(t, "limitation"@) || has_infix(t, "constraint"@) || has_infix(t, "does not"@) || has_infix(t, "out of scope"@)),
        !(has_infix(t, "tool discovery"@) || has_infix(t, "tools used"@) || has_infix(t, "available tools"@) || has_infix(t, "mcp"@)),
        !(has_infix(t, "quick reference"@) || has_infix(t, "cheat sheet"@) || has_infix(t, "cheatsheet"@) || has_infix(t, "reference table"@)),
        !(has_infix(t, "example"@) || has_infix(t, "sample"@) || has_infix(t, "walkthrough"@)),
        !(has_infix(t, "reference"@) || has_infix(t, "related skill"@) || has_infix(t, "see also"@) || has_infix(t, "further reading"@)),
        !(has_infix(t, "overview"@) || has_infix(t, "purpose"@) || has_infix(t, "intent"@) || has_infix(t, "what this"@) || has_infix(t, "summary"@)),
    ensures
        heading_class(t) == (Kind::Prose, Tier::Body, ROLE_PROSE),
{
}

/// Where a role stands in the heading table, first row first: a heading that matches several
/// rows takes the earliest.
pub open spec fn table_row(role: u16) -> int {
    if role == ROLE_STEP {
        0
    } else if role == ROLE_APPLICABILITY {
        1
    } else if role == ROLE_PREREQ {
        2
    } else if role == ROLE_QUALITY {
        3
    } else if role == ROLE_OUTPUT {
        4
    } else if role == ROLE_ANTIPATTERN {
        5
    } else if role == ROLE_PITFALL {
        6
    } else if role == ROLE_LIMITATION {
        7
    } else if role == ROLE_TOOLS {
        8
    } else if role == ROLE_CHEATSHEET {
        9
    } else if role == ROLE_EXEMPLAR {
        10
    } else if role == ROLE_CITATION {
        11
    } else if role == ROLE_INTENT {
        12
    } else {
        13
    }
}

/// Each phrase of the table claims its row: a normalised heading that contains the phrase lands
/// in that row or an earlier one, never later and never in plain prose.
pub proof fn heading_phrases_claim_their_rows(t: Seq<char>)
    ensures
        has_infix(t, "when to use"@) ==> table_row(heading_class(t).2) <= 1,
        has_infix(t, "when not to use"@) ==> table_row(heading_class(t).2) <= 1,
        has_infix(t, "applicability"@) ==> table_row(heading_class(t).2) <= 1,
        has_infix(t, "triggers"@) ==> table_row(heading_class(t).2) <= 1,
        has_infix(t, "prerequisite"@) ==> table_row(heading_class(t).2) <= 2,
        has_infix(t, "required input"@) ==> table_row(heading_class(t).2) <= 2,
        has_infix(t, "requirements"@) ==> table_row(heading_class(t).2) <= 2,
        has_infix(t, "setup"@) ==> table_row(heading_class(t).2) <= 2,
        has_infix(t, "installation"@) ==> table_row(heading_class(t).2) <= 2,
        has_infix(t, "quality check"@) ==> table_row(heading_class(t).2) <= 3,
        has_infix(t, "validation"@) ==> table_row(heading_class(t).2) <= 3,
        has_infix(t, "verify"@) ==> table_row(heading_class(t).2) <= 3,
        has_infix(t, "acceptance"@) ==> table_row(heading_class(t).2) <= 3,
        has_infix(t, "output format"@) ==> table_row(heading_class(t).2) <= 4,
        has_infix(t, "what this skill produces"@) ==> table_row(heading_class(t).2) <= 4,
        has_infix(t, "deliverable"@) ==> table_row(heading_class(t).2) <= 4,
        has_infix(t, "antipattern"@) ==> table_row(heading_class(t).2) <= 5,
        has_infix(t, "anti pattern"@) ==> table_row(heading_class(t).2) <= 5,
        has_infix(t, "pitfall"@) ==> table_row(heading_class(t).2) <= 6,
        has_infix(t, "gotcha"@) ==> table_row(heading_class(t).2) <= 6,
        has_infix(t, "common mistake"@) ==> table_row(heading_class(t).2) <= 6,
        has_infix(t, "limitation"@) ==> table_row(heading_class(t).2) <= 7,
        has_infix(t, "constraint"@) ==> table_row(heading_class(t).2) <= 7,
        has_infix(t, "does not"@) ==> table_row(heading_class(t).2) <= 7,
        has_infix(t, "out of scope"@) ==> table_row(heading_class(t).2) <= 7,
        has_infix(t, "tool discovery"@) ==> table_row(heading_class(t).2) <= 8,
        has_infix(t, "tools used"@) ==> table_row(heading_class(t).2) <= 8,
        has_infix(t, "available tools"@) ==> table_row(heading_class(t).2) <= 8,
        has_infix(t, "mcp"@) ==> table_row(heading_class(t).2) <= 8,
        has_infix(t, "quick reference"@) ==> table_row(heading_class(t).2) <= 9,
        has_infix(t, "cheat sheet"@) ==> table_row(heading_class(t).2) <= 9,
        has_infix(t, "cheatsheet"@) ==> table_row(heading_class(t).2) <= 9,
        has_infix(t, "reference table"@) ==> table_row(heading_class(t).2) <= 9,
        has_infix(t, "example"@) ==> table_row(heading_class(t).2) <= 10,
        has_infix(t, "sample"@) ==> table_row(heading_class(t).2) <= 10,
        has_infix(t, "walkthrough"@) ==> table_row(heading_class(t).2) <= 10,
        has_infix(t, "reference"@) ==> table_row(heading_class(t).2) <= 11,
        has_infix(t, "related skill"@) ==> table_row(heading_class(t).2) <= 11,
        has_infix(t, "see also"@) ==> table_row(heading_class(t).2) <= 11,
        has_infix(t, "further reading"@) ==> table_row(heading_class(t).2) <= 11,
        has_infix(t, "overview"@) ==> table_row(heading_class(t).2) <= 12,
        has_infix(t, "purpose"@) ==> table_row(heading_class(t).2) <= 12,
        has_infix(t, "intent"@) ==> table_row(heading_class(t).2) <= 12,
        has_infix(t, "what this"@) ==> table_row(heading_class(t).2) <= 12,
        has_infix(t, "summary"@) ==> table_row(heading_class(t).2) <= 12,
{
}

/// Each role comes with one kind and one tier: steps, antipatterns, pitfalls, limitations,
/// intent and plain prose are body prose; prerequisites, quality checks and outputs are body
/// contracts; tools are a body binding; cheat sheets and examples are prose and citations a
/// resource, all fetched on demand; applicability alone routes.
pub proof fn heading_roles_fix_kind_and_tier(t: Seq<char>)
    ensures
        heading_class(t).2 == ROLE_STEP ==> heading_class(t) == (Kind::Prose, Tier::Body, ROLE_STEP),
        heading_class(t).2 == ROLE_APPLICABILITY ==> heading_class(t) == (Kind::Applicability, Tier::Routing, ROLE_APPLICABILITY),
        heading_class(t).2 == ROLE_PREREQ ==> heading_class(t) == (Kind::Contract, Tier::Body, ROLE_PREREQ),
        heading_class(t).2 == ROLE_QUALITY ==> heading_class(t) == (Kind::Contract, Tier::Body, ROLE_QUALITY),
        heading_class(t).2 == ROLE_OUTPUT ==> heading_class(t) == (Kind::Contract, Tier::Body, ROLE_OUTPUT),
        heading_class(t).2 == ROLE_ANTIPATTERN ==> heading_class(t) == (Kind::Prose, Tier::Body, ROLE_ANTIPATTERN),
        heading_class(t).2 == ROLE_PITFALL ==> heading_class(t) == (Kind::Prose, Tier::Body, ROLE_PITFALL),
        heading_class(t).2 == ROLE_LIMITATION ==> heading_class(t) == (Kind::Prose, Tier::Body, ROLE_LIMITATION),
        heading_class(t).2 == ROLE_TOOLS ==> heading_class(t) == (Kind::Binding, Tier::Body, ROLE_TOOLS),
        heading_class(t).2 == ROLE_CHEATSHEET ==> heading_class(t) == (Kind::Prose, Tier::OnDemand, ROLE_CHEATSHEET),
        heading_class(t).2 == ROLE_EXEMPLAR ==> heading_class(t) == (Kind::Prose, Tier::OnDemand, ROLE_EXEMPLAR),
        heading_class(t).2 == ROLE_CITATION ==> heading_class(t) == (Kind::Resource, Tier::OnDemand, ROLE_CITATION),
        heading_class(t).2 == ROLE_INTENT ==> heading_class(t) == (Kind::Prose, Tier::Body, ROLE_INTENT),
        heading_class(t).2 == ROLE_PROSE ==> heading_class(t) == (Kind::Prose, Tier::Body, ROLE_PROSE),
{
}

/// Whether `h[at..]` begins with `n`.
fn matches_at(h: &Vec<char>, at: usize, n: &str) -> (r: bool)
    requires
        at <= h@.len(),
    ensures
        r == (at + n@.len() <= h@.len() && h@.subrange(at as int, at + n@.len()) == n@),
{
    let len = n.unicode_len();
    if len > h.len() - at {
        return false;
    }
    let mut i: usize = 0;
    while i < len
        invariant
            0 <= i <= len,
            len == n@.len(),
            at + len <= h@.len(),
            forall|j: int| 0 <= j < i ==> h@[at + j] == n@[j],
        decreases len - i,
    {
        if h[at + i] != n.get_char(i) {
            assert(h@.subrange(at as int, at + n@.len())[i as int] != n@[i as int]);
            return false;
        }
        i += 1;
    }
    assert(h@.subrange(at as int, at + n@.len()) =~= n@);
    true
}

/// Whether `n` occurs in `h`.
fn contains(h: &Vec<char>, n: &str) -> (r: bool)
    ensures
        r == has_infix(h@, n@),
{
    let mut at: usize = 0;
    while at <= h.len()
        invariant
            0 <= at <= h@.len() + 1,
            forall|i: int|
                0 <= i < at && i + n@.len() <= h@.len() ==> #[trigger] h@.subrange(i, i + n@.len())
                    != n@,
        decreases h@.len() + 1 - at,
    {
        if matches_at(h, at, n) {
            return true;
        }
        if at == h.len() {
            break;
        }
        at += 1;
    }
    false
}

/// The heading as the table reads it: lowercased, only ASCII letters, digits and spaces kept,
/// surrounding spaces dropped.
fn normalize(title: &str) -> (t: Vec<char>)
    ensures
        trims_to(lowercase(title@).filter(|c: char| kept(c)), t@),
{
    let lower = to_lowercase(title);
    let n = lower.as_str().unicode_len();
    let ghost l = lower@;
    let mut keep: Vec<char> = Vec::new();
    let mut i: usize = 0;
    while i < n
        invariant
            0 <= i <= n,
            n == l.len(),
            l == lower@,
            keep@ == l.subrange(0, i as int).filter(|c: char| kept(c)),
        decreases n - i,
    {
        let c = lower.as_str().get_char(i);
        proof {
            assert(l.subrange(0, i + 1).drop_last() =~= l.subrange(0, i as int));
            reveal(Seq::filter);
            assert(l.subrange(0, i + 1).last() == c);
        }
        if ('a' <= c && c <= 'z') || ('A' <= c && c <= 'Z') || ('0' <= c && c <= '9') || c == ' ' {
            keep.push(c);
        }
        i += 1;
    }
    assert(l.subrange(0, n as int) =~= l);
    let mut a: usize = 0;
    while a < keep.len() && keep[a] == ' '
        invariant
            0 <= a <= keep@.len(),
            forall|j: int| 0 <= j < a ==> keep@[j] == ' ',
        decreases keep@.len() - a,
    {
        a += 1;
    }
    let mut z: usize = keep.len();
    while z > a && keep[z - 1] == ' '
        invariant
            a <= z <= keep@.len(),
            forall|j: int| z <= j < keep@.len() ==> keep@[j] == ' ',
        decreases z - a,
    {
        z -= 1;
    }
    let mut t: Vec<char> = Vec::new();
    let mut k = a;
    while k < z
        invariant
            a <= k <= z,
            z <= keep@.len(),
            t@ == keep@.subrange(a as int, k as int),
        decreases z - k,
    {
        t.push(keep[k]);
        k += 1;
        assert(t@ =~= keep@.subrange(a as int, k as int));
    }
    proof {
        let s = keep@;
        assert(trims_to(s, t@)) by {
            assert(0 <= a <= z <= s.len() && t@ == s.subrange(a as int, z as int));
        }
    }
    t
}

/// The (kind, tier, role) of a section headed `title`.
pub fn heading(title: &str) -> (r: (Kind, Tier, u16))
    ensures
        exists|t: Seq<char>|
            trims_to(lowercase(title@).filter(|c: char| kept(c)), t) && r == heading_class(t),
{
    let t = normalize(title);
    let r = classify(&t);
    r
}

fn classify(t: &Vec<char>) -> (r: (Kind, Tier, u16))
    ensures
        r == heading_class(t@),
{
    let step = matches_at(t, 0, "step ") || matches_at(t, 0, "phase ");
    if step {
        return (Kind::Prose, Tier::Body, ROLE_STEP);
    }
    if (contains(t, "when to use") || contains(t, "when not to use") || contains(t, "applicability") || contains(t, "triggers")) {
        return (Kind::Applicability, Tier::Routing, ROLE_APPLICABILITY);
    }
    if (contains(t, "prerequisite") || contains(t, "required input") || contains(t, "requirements") || contains(t, "setup") || contains(t, "installation")) {
        return (Kind::Contract, Tier::Body, ROLE_PREREQ);
    }
    if (contains(t, "quality check") || contains(t, "validation") || contains(t, "verify") || contains(t, "acceptance")) {
        return (Kind::Contract, Tier::Body, ROLE_QUALITY);
    }
    if (contains(t, "output format") || contains(t, "what this skill produces") || contains(t, "deliverable")) {
        return (Kind::Contract, Tier::Body, ROLE_OUTPUT);
    }
    if (contains(t, "antipattern") || contains(t, "anti pattern")) {
        return (Kind::Prose, Tier::Body, ROLE_ANTIPATTERN);
    }
    if (contains(t, "pitfall") || contains(t, "gotcha") || contains(t, "common mistake")) {
        return (Kind::Prose, Tier::Body, ROLE_PITFALL);
    }
    if (contains(t, "limitation") || contains(t, "constraint") || contains(t, "does not") || contains(t, "out of scope")) {
        return (Kind::Prose, Tier::Body, ROLE_LIMITATION);
    }
    if (contains(t, "tool discovery") || contains(t, "tools used") || contains(t, "available tools") || contains(t, "mcp")) {
        return (Kind::Binding, Tier::Body, ROLE_TOOLS);
    }
    if (contains(t, "quick reference") || contains(t, "cheat sheet") || contains(t, "cheatsheet") || contains(t, "reference table")) {
        return (Kind::Prose, Tier::OnDemand, ROLE_CHEATSHEET);
    }
    if (contains(t, "example") || contains(t, "sample") || contains(t, "walkthrough")) {
        return (Kind::Prose, Tier::OnDemand, ROLE_EXEMPLAR);
    }
    if (contains(t, "reference") || contains(t, "related skill") || contains(t, "see also") || contains(t, "further reading")) {
        return (Kind::Resource, Tier::OnDemand, ROLE_CITATION);
    }
    if (contains(t, "overview") || contains(t, "purpose") || contains(t, "intent") || contains(t, "what this") || contains(t, "summary")) {
        return (Kind::Prose, Tier::Body, ROLE_INTENT);
    }
    (Kind::Prose, Tier::Body, ROLE_PROSE)
}

/// Unicode `White_Space`, the characters `char::is_whitespace` accepts.
pub open spec fn is_space(c: char) -> bool {
    ('\u{9}' <= c <= '\u{d}') || c == ' ' || c == '\u{85}' || c == '\u{a0}' || c == '\u{1680}' || (
    '\u{2000}' <= c <= '\u{200a}') || c == '\u{2028}' || c == '\u{2029}' || c == '\u{202f}' || c
        == '\u{205f}' || c == '\u{3000}'
}

pub(crate) fn space(c: char) -> (r: bool)
    ensures
        r == is_space(c),
{
    ('\u{9}' <= c && c <= '\u{d}') || c == ' ' || c == '\u{85}' || c == '\u{a0}' || c == '\u{1680}'
        || ('\u{2000}' <= c && c <= '\u{200a}') || c == '\u{2028}' || c == '\u{2029}' || c
        == '\u{202f}' || c == '\u{205f}' || c == '\u{3000}'
}

/// The first whitespace-separated word of `s`, if any.
pub open spec fn first_word(s: Seq<char>, w: Seq<char>) -> bool {
    exists|a: int, z: int|
        0 <= a <= z <= s.len() && w == s.subrange(a, z) && (forall|i: int|
            0 <= i < a ==> is_space(s[i])) && (forall|i: int| a <= i < z ==> !is_space(s[i])) && (z
            < s.len() ==> is_space(s[z]))
}

/// The ABI a fence's language runs under, if it runs at all, over the lowercased first word.
pub open spec fn lang_abi(w: Seq<char>) -> Option<Abi> {
    if w == "bash"@ || w == "sh"@ || w == "shell"@ || w == "zsh"@ || w == "console"@ {
        Some(Abi::Sh)
    } else if w == "python"@ || w == "py"@ || w == "python3"@ {
        Some(Abi::Python3)
    } else if w == "javascript"@ || w == "js"@ || w == "node"@ || w == "mjs"@ || w
        == "typescript"@ || w == "ts"@ {
        Some(Abi::Node)
    } else if w == "wasm"@ || w == "wat"@ {
        Some(Abi::Wasm32Wasip2)
    } else {
        None
    }
}

/// Which fence languages run, and under what: `python`, `py` and `python3` run under Python 3;
/// `bash`, `sh`, `shell`, `zsh` and `console` under a shell; `javascript`, `js`, `node`, `mjs`,
/// `typescript` and `ts` under Node; `wasm` and `wat` under WASI; each of these under no other
/// ABI, and a language outside these lists does not run at all.
#[verifier::spinoff_prover]
pub proof fn fence_languages_and_their_abis(w: Seq<char>)
    ensures
        (w == "python"@ || w == "py"@ || w == "python3"@) <==> lang_abi(w) == Some(Abi::Python3),
        (w == "bash"@ || w == "sh"@ || w == "shell"@ || w == "zsh"@ || w == "console"@) <==> lang_abi(w)
            == Some(Abi::Sh),
        (w == "javascript"@ || w == "js"@ || w == "node"@ || w == "mjs"@ || w == "typescript"@ || w
            == "ts"@) <==> lang_abi(w) == Some(Abi::Node),
        (w == "wasm"@ || w == "wat"@) <==> lang_abi(w) == Some(Abi::Wasm32Wasip2),
        lang_abi(w) is None <==> !(w == "python"@ || w == "py"@ || w == "python3"@ || w == "bash"@
            || w == "sh"@ || w == "shell"@ || w == "zsh"@ || w == "console"@ || w == "javascript"@
            || w == "js"@ || w == "node"@ || w == "mjs"@ || w == "typescript"@ || w == "ts"@ || w
            == "wasm"@ || w == "wat"@),
        lang_abi(w) != Some(Abi::Native) && lang_abi(w) != Some(Abi::Wasm32Core),
{
    reveal_strlit("python");
    reveal_strlit("py");
    reveal_strlit("python3");
    reveal_strlit("bash");
    reveal_strlit("sh");
    reveal_strlit("shell");
    reveal_strlit("zsh");
    reveal_strlit("console");
    reveal_strlit("javascript");
    reveal_strlit("js");
    reveal_strlit("node");
    reveal_strlit("mjs");
    reveal_strlit("typescript");
    reveal_strlit("ts");
    reveal_strlit("wasm");
    reveal_strlit("wat");
    assert("py"@[0] != "sh"@[0]);
    assert("py"@[0] != "js"@[0]);
    assert("py"@[0] != "ts"@[0]);
    assert("sh"@[0] != "js"@[0]);
    assert("sh"@[0] != "ts"@[0]);
    assert("zsh"@[0] != "mjs"@[0]);
    assert("zsh"@[0] != "wat"@[0]);
    assert("mjs"@[0] != "wat"@[0]);
    assert("bash"@[0] != "node"@[0]);
    assert("bash"@[0] != "wasm"@[0]);
    assert("node"@[0] != "wasm"@[0]);
    assert("python3"@[0] != "console"@[0]);
    assert(lang_abi("bash"@) == Some(Abi::Sh));
    assert(lang_abi("sh"@) == Some(Abi::Sh));
    assert(lang_abi("shell"@) == Some(Abi::Sh));
    assert(lang_abi("zsh"@) == Some(Abi::Sh));
    assert(lang_abi("console"@) == Some(Abi::Sh));
    assert("python"@.len() == 6 && "javascript"@.len() == 10);
    assert("python"@ != "bash"@ && "python"@ != "shell"@ && "python"@ != "console"@);
    assert(lang_abi("python"@) == Some(Abi::Python3));
    assert(lang_abi("py"@) == Some(Abi::Python3));
    assert(lang_abi("python3"@) == Some(Abi::Python3));
    assert("javascript"@ != "console"@ && "javascript"@ != "python3"@ && "javascript"@ != "python"@);
    assert(lang_abi("javascript"@) == Some(Abi::Node));
    assert(lang_abi("js"@) == Some(Abi::Node));
    assert(lang_abi("node"@) == Some(Abi::Node));
    assert(lang_abi("mjs"@) == Some(Abi::Node));
    assert("typescript"@.len() == 10);
    assert("typescript"@ != "console"@ && "typescript"@ != "python3"@ && "typescript"@ != "python"@);
    assert(lang_abi("typescript"@) == Some(Abi::Node));
    assert(lang_abi("ts"@) == Some(Abi::Node));
    assert(lang_abi("wasm"@) == Some(Abi::Wasm32Wasip2));
    assert(lang_abi("wat"@) == Some(Abi::Wasm32Wasip2));
}

fn word_is(w: &Vec<char>, n: &str) -> (r: bool)
    ensures
        r == (w@ == n@),
{
    if w.len() != n.unicode_len() {
        return false;
    }
    let r = matches_at(w, 0, n);
    assert(w@.subrange(0, w@.len() as int) =~= w@);
    r
}

/// Only languages that actually execute become segments. A `json` or `markdown` fence is data,
/// and calling it executable would put a capability question where none exists.
pub fn fence_abi(lang: &str) -> (r: Option<Abi>)
    ensures
        exists|w: Seq<char>| first_word(lang@, w) && r == lang_abi(lowercase(w)),
{
    let n = lang.unicode_len();
    let mut a: usize = 0;
    while a < n && space(lang.get_char(a))
        invariant
            0 <= a <= n,
            n == lang@.len(),
            forall|i: int| 0 <= i < a ==> is_space(lang@[i]),
        decreases n - a,
    {
        a += 1;
    }
    let mut z = a;
    while z < n && !space(lang.get_char(z))
        invariant
            a <= z <= n,
            n == lang@.len(),
            forall|i: int| a <= i < z ==> !is_space(lang@[i]),
        decreases n - z,
    {
        z += 1;
    }
    let w = lang.substring_char(a, z);
    proof {
        assert(first_word(lang@, w@));
    }
    let lw = to_lowercase(w);
    let mut chars: Vec<char> = Vec::new();
    let m = lw.as_str().unicode_len();
    let mut i: usize = 0;
    while i < m
        invariant
            0 <= i <= m,
            m == lw@.len(),
            chars@ == lw@.subrange(0, i as int),
        decreases m - i,
    {
        chars.push(lw.as_str().get_char(i));
        i += 1;
        assert(chars@ =~= lw@.subrange(0, i as int));
    }
    assert(lw@.subrange(0, m as int) =~= lw@);
    if word_is(&chars, "bash") || word_is(&chars, "sh") || word_is(&chars, "shell") || word_is(
        &chars,
        "zsh",
    ) || word_is(&chars, "console") {
        Some(Abi::Sh)
    } else if word_is(&chars, "python") || word_is(&chars, "py") || word_is(&chars, "python3") {
        Some(Abi::Python3)
    } else if word_is(&chars, "javascript") || word_is(&chars, "js") || word_is(&chars, "node")
        || word_is(&chars, "mjs") || word_is(&chars, "typescript") || word_is(&chars, "ts") {
        Some(Abi::Node)
    } else if word_is(&chars, "wasm") || word_is(&chars, "wat") {
        Some(Abi::Wasm32Wasip2)
    } else {
        None
    }
}

} // verus!
