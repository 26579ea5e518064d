//! The pre-order walk of a tree given by parent links, where every parent comes before its
//! children: the walk from node 0 visits every node under it exactly once.

use vstd::prelude::*;

use vstd::set_lib::{lemma_int_range, set_int_range};

verus! {

/// Every node's parent comes before it.
pub open spec fn parents_first(par: Seq<Option<usize>>) -> bool {
    forall|i: int| 0 <= i < par.len() && (#[trigger] par[i]) is Some ==> par[i]->0 < i
}

/// Node `i` lies in the subtree at `at`: it is `at`, or its parent does.
pub open spec fn under(par: Seq<Option<usize>>, at: int, i: int) -> bool
    decreases i,
{
    if i < 0 || i >= par.len() {
        false
    } else if i == at {
        true
    } else {
        match par[i] {
            Some(p) => p < i && under(par, at, p as int),
            None => false,
        }
    }
}

/// `kids` lists, for each node, its children in increasing order.
pub open spec fn lists_children(par: Seq<Option<usize>>, kids: Seq<Vec<usize>>) -> bool {
    &&& kids.len() == par.len()
    &&& forall|p: int, j: int|
        0 <= p < kids.len() && 0 <= j < kids[p]@.len() ==> (#[trigger] kids[p]@[j]) < par.len()
            && par[kids[p]@[j] as int] == Some(p as usize)
    &&& forall|i: int|
        0 <= i < par.len() && (#[trigger] par[i]) is Some ==> kids[par[i]->0 as int]@.contains(
            i as usize,
        )
    &&& forall|p: int, j: int, k: int|
        0 <= p < kids.len() && 0 <= j < k < kids[p]@.len() ==> #[trigger] kids[p]@[j]
            < #[trigger] kids[p]@[k]
}

/// Only node 0 has no parent.
pub open spec fn single_rooted(par: Seq<Option<usize>>) -> bool {
    forall|i: int| 0 <= i < par.len() ==> ((#[trigger] par[i]) is None <==> i == 0)
}

pub proof fn lemma_under_ge(par: Seq<Option<usize>>, at: int, i: int)
    requires
        under(par, at, i),
    ensures
        at <= i,
    decreases i,
{
    if i != at {
        lemma_under_ge(par, at, par[i]->0 as int);
    }
}

/// What lies under a child lies under its parent.
pub proof fn lemma_under_parent(par: Seq<Option<usize>>, at: int, c: int, i: int)
    requires
        0 <= at < c < par.len(),
        par.len() <= usize::MAX,
        par[c] == Some(at as usize),
        under(par, c, i),
    ensures
        under(par, at, i),
    decreases i,
{
    lemma_under_ge(par, c, i);
    if i != c {
        lemma_under_parent(par, at, c, par[i]->0 as int);
    } else {
        assert(under(par, at, at));
    }
}

/// Two subtrees that share a node are nested.
pub proof fn lemma_under_nested(par: Seq<Option<usize>>, a: int, b: int, i: int)
    requires
        under(par, a, i),
        under(par, b, i),
    ensures
        under(par, a, b) || under(par, b, a),
    decreases i,
{
    if i != a && i != b {
        lemma_under_nested(par, a, b, par[i]->0 as int);
    }
}

/// A node under `at`, other than `at`, lies under one of its children.
pub proof fn lemma_under_child(par: Seq<Option<usize>>, kids: Seq<Vec<usize>>, at: int, i: int)
    requires
        lists_children(par, kids),
        par.len() <= usize::MAX,
        0 <= at < par.len(),
        under(par, at, i),
        i != at,
    ensures
        exists|j: int| 0 <= j < kids[at]@.len() && under(par, #[trigger] kids[at]@[j] as int, i),
    decreases i,
{
    let p = par[i]->0 as int;
    if p == at {
        assert(kids[at]@.contains(i as usize));
        let j = choose|j: int| 0 <= j < kids[at]@.len() && kids[at]@[j] == i as usize;
        assert(under(par, kids[at]@[j] as int, i));
    } else {
        lemma_under_child(par, kids, at, p);
        let j = choose|j: int| 0 <= j < kids[at]@.len() && under(par, #[trigger] kids[at]@[j] as int, p);
        assert(under(par, kids[at]@[j] as int, i));
    }
}

/// In a single-rooted tree every node lies under node 0.
pub proof fn lemma_all_under_root(par: Seq<Option<usize>>, i: int)
    requires
        parents_first(par),
        single_rooted(par),
        0 <= i < par.len(),
    ensures
        under(par, 0, i),
    decreases i,
{
    if i != 0 {
        assert(par[i] is Some);
        lemma_all_under_root(par, par[i]->0 as int);
    }
}

/// A walk without repeats that holds exactly the numbers below `n` has length `n`.
pub proof fn lemma_walk_len(s: Seq<usize>, n: int)
    requires
        0 <= n <= usize::MAX,
        forall|a: int, b: int| 0 <= a < b < s.len() ==> s[a] != s[b],
        forall|k: int| 0 <= k < s.len() ==> s[k] < n,
        forall|i: usize| i < n ==> #[trigger] s.contains(i),
    ensures
        s.len() == n,
{
    let t = s.map_values(|x: usize| x as int);
    assert(t.no_duplicates());
    t.unique_seq_to_set();
    assert forall|x: int| t.to_set().contains(x) <==> set_int_range(0, n).contains(x) by {
        if 0 <= x < n {
            assert(s.contains(x as usize));
            let k = choose|k: int| 0 <= k < s.len() && s[k] == x as usize;
            assert(t[k] == x);
        }
        if t.to_set().contains(x) {
            let k = choose|k: int| 0 <= k < t.len() && t[k] == x;
            assert(s[k] < n);
        }
    }
    assert(t.to_set() =~= set_int_range(0, n));
    lemma_int_range(0, n);
}

/// Appends the pre-order walk of the subtree at `at`: every node under `at` once, `at` first,
/// then the walk of each child in turn.
pub fn visit(kids: &Vec<Vec<usize>>, at: usize, out: &mut Vec<usize>, Ghost(par): Ghost<Seq<Option<usize>>>)
    requires
        at < kids@.len(),
        lists_children(par, kids@),
        parents_first(par),
        par.len() <= usize::MAX,
        forall|k: int| 0 <= k < old(out)@.len() ==> (#[trigger] old(out)@[k]) < kids@.len(),
    ensures
        forall|k: int| 0 <= k < final(out)@.len() ==> (#[trigger] final(out)@[k]) < kids@.len(),
        old(out)@.len() < final(out)@.len(),
        final(out)@.subrange(0, old(out)@.len() as int) == old(out)@,
        final(out)@[old(out)@.len() as int] == at,
        forall|a: int, b: int|
            old(out)@.len() <= a < b < final(out)@.len() ==> final(out)@[a] != final(out)@[b],
        forall|k: int|
            old(out)@.len() <= k < final(out)@.len() ==> under(par, at as int, #[trigger] final(out)@[k] as int),
        forall|i: int|
            #![trigger under(par, at as int, i)]
            under(par, at as int, i) ==> exists|k: int|
                old(out)@.len() <= k < final(out)@.len() && final(out)@[k] == i as usize,
    decreases kids@.len() - at,
{
    let ghost start = out@.len() as int;
    let ghost before = out@;
    out.push(at);
    let row = &kids[at];
    let mut j: usize = 0;
    while j < row.len()
        invariant
            0 <= j <= row@.len(),
            row == &kids@[at as int],
            at < kids@.len(),
            lists_children(par, kids@),
            parents_first(par),
            par.len() <= usize::MAX,
            forall|k: int| 0 <= k < out@.len() ==> (#[trigger] out@[k]) < kids@.len(),
            start < out@.len(),
            out@.subrange(0, start) == before,
            out@[start] == at,
            forall|a: int, b: int| start <= a < b < out@.len() ==> out@[a] != out@[b],
            forall|k: int|
                #![trigger out@[k]]
                start < k < out@.len() ==> exists|q: int|
                    0 <= q < j && under(par, #[trigger] row@[q] as int, out@[k] as int),
            forall|q: int, i: int|
                0 <= q < j && #[trigger] under(par, row@[q] as int, i) ==> exists|k: int|
                    start < k < out@.len() && out@[k] == i as usize,
        decreases row@.len() - j,
    {
        let c = row[j];
        assert(at < c);
        let ghost mid = out@;
        visit(kids, c, out, Ghost(par));
        proof {
            assert(out@.subrange(0, start) =~= before) by {
                assert forall|k: int| 0 <= k < start implies out@[k] == before[k] by {
                    assert(out@[k] == mid[k]);
                }
            }
            assert forall|k: int| #![trigger out@[k]] start < k < out@.len() implies exists|q: int|
                0 <= q < j + 1 && under(par, #[trigger] row@[q] as int, out@[k] as int) by {
                if k < mid.len() {
                    assert(out@[k] == mid[k]);
                } else {
                    assert(under(par, row@[j as int] as int, out@[k] as int));
                }
            }
            assert forall|a: int, b: int| start <= a < b < out@.len() implies out@[a] != out@[b] by {
                if b < mid.len() {
                    assert(out@[a] == mid[a] && out@[b] == mid[b]);
                } else if a >= mid.len() {
                } else {
                    let x = out@[b] as int;
                    assert(under(par, c as int, x));
                    assert(out@[a] == mid[a]);
                    if out@[a] == out@[b] {
                        if a == start {
                            lemma_under_ge(par, c as int, x);
                        } else {
                            let q = choose|q: int| 0 <= q < j && under(par, #[trigger] row@[q] as int, mid[a] as int);
                            let cq = row@[q] as int;
                            assert(row@[q] < row@[j as int]);
                            lemma_under_nested(par, cq, c as int, x);
                            if under(par, cq, c as int) {
                                assert(par[c as int] == Some(at));
                                lemma_under_ge(par, cq, at as int);
                            } else {
                                lemma_under_ge(par, c as int, cq);
                            }
                        }
                    }
                }
            }
            assert forall|q: int, i: int|
                0 <= q < j + 1 && #[trigger] under(par, row@[q] as int, i) implies exists|k: int|
                    start < k < out@.len() && out@[k] == i as usize by {
                if q < j {
                    let k = choose|k: int| start < k < mid.len() && mid[k] == i as usize;
                    assert(out@[k] == mid[k]);
                } else {
                    assert(under(par, c as int, i));
                    let k = choose|k: int| mid.len() <= k < out@.len() && out@[k] == i as usize;
                    assert(start < k);
                }
            }
        }
        j += 1;
    }
    proof {
        assert(out@.subrange(0, start) =~= before);
        assert forall|k: int| start <= k < out@.len() implies under(par, at as int, #[trigger] out@[k] as int) by {
            if k > start {
                let q = choose|q: int| 0 <= q < j && under(par, #[trigger] row@[q] as int, out@[k] as int);
                assert(par[row@[q] as int] == Some(at));
                lemma_under_ge(par, at as int, at as int);
                lemma_under_parent(par, at as int, row@[q] as int, out@[k] as int);
            }
        }
        assert forall|i: int| #![trigger under(par, at as int, i)] under(par, at as int, i) implies exists|k: int|
            start <= k < out@.len() && out@[k] == i as usize by {
            if i == at {
                assert(out@[start] == i as usize);
            } else {
                lemma_under_child(par, kids@, at as int, i);
                let q = choose|q: int| 0 <= q < kids@[at as int]@.len() && under(par, #[trigger] kids@[at as int]@[q] as int, i);
                assert(under(par, row@[q] as int, i));
                let k = choose|k: int| start < k < out@.len() && out@[k] == i as usize;
            }
        }
    }
}

} // verus!
