//! Ordering a directed graph, or showing that it cannot be ordered.
//!
//! A graph is acyclic exactly when its nodes can be ranked so that every edge climbs. The
//! ordering repeatedly takes the smallest node none of whose predecessors is still unplaced,
//! which is Kahn's algorithm with ties broken by index; when no such node exists, every unplaced
//! node waits on another unplaced node, and no ranking exists.

use vstd::prelude::*;

verus! {

/// Every edge target names a node.
pub open spec fn targets_ok(g: Seq<Vec<usize>>) -> bool {
    forall|a: int, k: int| 0 <= a < g.len() && 0 <= k < g[a]@.len() ==> g[a]@[k] < g.len()
}

/// `rank` makes every edge climb.
pub open spec fn ranked(g: Seq<Vec<usize>>, rank: Seq<int>) -> bool {
    &&& rank.len() == g.len()
    &&& forall|a: int, k: int|
        0 <= a < g.len() && 0 <= k < g[a]@.len() ==> rank[a] < rank[g[a]@[k] as int]
}

/// The graph has no cycle: some ranking makes every edge climb.
pub open spec fn acyclic(g: Seq<Vec<usize>>) -> bool {
    exists|rank: Seq<int>| ranked(g, rank)
}

/// Every predecessor of `v` is among `placed`.
pub open spec fn preds_in(g: Seq<Vec<usize>>, placed: Seq<usize>, v: int) -> bool {
    forall|a: int, k: int|
        0 <= a < g.len() && 0 <= k < g[a]@.len() && g[a]@[k] == v ==> placed.contains(a as usize)
}

/// `order` is the order Kahn's algorithm yields when it always takes the smallest ready node.
pub open spec fn kahn_order(g: Seq<Vec<usize>>, order: Seq<usize>) -> bool {
    &&& order.len() == g.len()
    &&& order.no_duplicates()
    &&& forall|i: int| 0 <= i < order.len() ==> order[i] < g.len()
    &&& forall|i: int|
        0 <= i < order.len() ==> preds_in(g, order.subrange(0, i), #[trigger] order[i] as int)
    &&& forall|i: int, v: int|
        0 <= i < order.len() && 0 <= v < order[i] && !order.subrange(0, i).contains(v as usize)
            ==> !preds_in(g, order.subrange(0, i), v)
}

proof fn lemma_min_rank(rank: Seq<int>, done: Seq<bool>, i: int) -> (m: int)
    requires
        0 <= i <= done.len(),
        rank.len() == done.len(),
        exists|u: int| 0 <= u < i && !done[u],
    ensures
        0 <= m < i,
        !done[m],
        forall|u: int| 0 <= u < i && !done[u] ==> rank[m] <= rank[u],
    decreases i,
{
    if exists|u: int| 0 <= u < i - 1 && !done[u] {
        let m0 = lemma_min_rank(rank, done, i - 1);
        if !done[i - 1] && rank[i - 1] < rank[m0] {
            i - 1
        } else {
            m0
        }
    } else {
        i - 1
    }
}

/// Which nodes some unplaced node points at.
fn blocked_by_unplaced(g: &Vec<Vec<usize>>, done: &Vec<bool>) -> (blocked: Vec<bool>)
    requires
        targets_ok(g@),
        done@.len() == g@.len(),
    ensures
        blocked@.len() == g@.len(),
        forall|a2: int, k: int|
            0 <= a2 < g@.len() && 0 <= k < g@[a2]@.len() && !done@[a2] ==> blocked@[g@[a2]@[k] as int],
        forall|b: int|
            0 <= b < g@.len() && blocked@[b] ==> exists|a2: int, k: int|
                0 <= a2 < g@.len() && 0 <= k < g@[a2]@.len() && !done@[a2] && g@[a2]@[k] == b,
{
    let n = g.len();
    let mut blocked: Vec<bool> = vec![false; n];
    let mut a: usize = 0;
    while a < n
        invariant
            n == g@.len(),
            targets_ok(g@),
            done@.len() == n,
            blocked@.len() == n,
            0 <= a <= n,
            forall|a2: int, k: int|
                0 <= a2 < a && 0 <= k < g@[a2]@.len() && !done@[a2] ==> blocked@[g@[a2]@[k] as int],
            forall|b: int|
                0 <= b < n && blocked@[b] ==> exists|a2: int, k: int|
                    0 <= a2 < a && 0 <= k < g@[a2]@.len() && !done@[a2] && g@[a2]@[k] == b,
        decreases n - a,
    {
        if !done[a] {
            let row = &g[a];
            let mut k: usize = 0;
            while k < row.len()
                invariant
                    n == g@.len(),
                    targets_ok(g@),
                    0 <= a < n,
                    !done@[a as int],
                    row@ == g@[a as int]@,
                    done@.len() == n,
                    blocked@.len() == n,
                    0 <= k <= row@.len(),
                    forall|a2: int, k2: int|
                        0 <= a2 < a && 0 <= k2 < g@[a2]@.len() && !done@[a2] ==> blocked@[g@[a2]@[k2] as int],
                    forall|k2: int| 0 <= k2 < k ==> blocked@[row@[k2] as int],
                    forall|b: int|
                        0 <= b < n && blocked@[b] ==> exists|a2: int, k2: int|
                            0 <= a2 <= a && 0 <= k2 < g@[a2]@.len() && !done@[a2] && g@[a2]@[k2]
                                == b,
                decreases row@.len() - k,
            {
                let b = row[k];
                blocked.set(b, true);
                assert(g@[a as int]@[k as int] == b);
                k += 1;
            }
        }
        a += 1;
    }
    blocked
}

/// When every unplaced node has an unplaced predecessor and some node is unplaced, no ranking
/// makes every edge climb: the unplaced node of least rank would have a predecessor below it.
proof fn lemma_stuck(g: Seq<Vec<usize>>, done: Seq<bool>, blocked: Seq<bool>)
    requires
        done.len() == g.len(),
        blocked.len() == g.len(),
        exists|u: int| 0 <= u < g.len() && !done[u],
        forall|u: int| 0 <= u < g.len() && !done[u] ==> blocked[u],
        forall|b: int|
            0 <= b < g.len() && blocked[b] ==> exists|a2: int, k: int|
                0 <= a2 < g.len() && 0 <= k < g[a2]@.len() && !done[a2] && g[a2]@[k] == b,
    ensures
        !acyclic(g),
{
    assert forall|rank: Seq<int>| !ranked(g, rank) by {
        if ranked(g, rank) {
            let m = lemma_min_rank(rank, done, g.len() as int);
            assert(blocked[m]);
            let (a2, k2) = choose|a2: int, k2: int|
                0 <= a2 < g.len() && 0 <= k2 < g[a2]@.len() && !done[a2] && g[a2]@[k2] == m;
            assert(rank[a2] < rank[m]);
        }
    }
}

/// Orders the nodes so that every edge runs forward, taking the smallest ready node each time;
/// or returns an unplaceable node, in which case the graph has a cycle.
#[verifier::rlimit(60)]
pub fn topological(g: &Vec<Vec<usize>>) -> (r: Result<Vec<usize>, usize>)
    requires
        targets_ok(g@),
    ensures
        r is Ok <==> acyclic(g@),
        r matches Ok(order) ==> kahn_order(g@, order@),
        r matches Err(v) ==> v < g@.len(),
{
    let n = g.len();
    let mut done: Vec<bool> = vec![false; n];
    let mut pos: Vec<usize> = vec![0; n];
    let mut order: Vec<usize> = Vec::new();
    let ghost mut s: Set<int> = Set::empty();
    while order.len() < n
        invariant
            n == g@.len(),
            targets_ok(g@),
            done@.len() == n,
            pos@.len() == n,
            order@.len() <= n,
            order@.no_duplicates(),
            s.finite(),
            s.len() == order@.len(),
            forall|v: int| s.contains(v) <==> (0 <= v < n && done@[v]),
            forall|i: int| 0 <= i < order@.len() ==> order@[i] < n,
            forall|v: int| 0 <= v < n ==> (done@[v] <==> order@.contains(v as usize)),
            forall|v: int|
                0 <= v < n && done@[v] ==> pos@[v] < order@.len() && order@[pos@[v] as int]
                    == v,
            forall|a: int, k: int|
                0 <= a < n && 0 <= k < g@[a]@.len() && done@[g@[a]@[k] as int] ==> done@[a]
                    && pos@[a] < pos@[g@[a]@[k] as int],
            forall|i: int|
                0 <= i < order@.len() ==> preds_in(g@, order@.subrange(0, i), #[trigger] order@[i] as int),
            forall|i: int, v: int|
                0 <= i < order@.len() && 0 <= v < order@[i] && !order@.subrange(0, i).contains(
                    v as usize,
                ) ==> !preds_in(g@, order@.subrange(0, i), v),
        decreases n - order@.len(),
    {
        let blocked = blocked_by_unplaced(g, &done);
        let mut v: usize = 0;
        while v < n && (done[v] || blocked[v])
            invariant
                0 <= v <= n,
                done@.len() == n,
                blocked@.len() == n,
                forall|u: int| 0 <= u < v ==> done@[u] || blocked@[u],
            decreases n - v,
        {
            v += 1;
        }
        if v == n {
            proof {
                if forall|u: int| 0 <= u < n ==> done@[u] {
                    vstd::set_lib::lemma_int_range(0, n as int);
                    assert(vstd::set_lib::set_int_range(0, n as int) =~= s);
                }
                lemma_stuck(g@, done@, blocked@);
            }
            let mut u: usize = 0;
            while u < n && done[u]
                invariant
                    0 <= u <= n,
                    done@.len() == n,
                decreases n - u,
            {
                u += 1;
            }
            return Err(if u < n { u } else { 0 });
        }
        let ghost before = order@;
        proof {
            assert forall|a2: int, k2: int|
                0 <= a2 < n && 0 <= k2 < g@[a2]@.len() && g@[a2]@[k2] == v implies before.contains(
                a2 as usize,
            ) by {
                if !done@[a2] {
                    assert(blocked@[g@[a2]@[k2] as int]);
                }
            }
            assert(preds_in(g@, before, v as int));
            assert forall|w: int| 0 <= w < v && !before.contains(w as usize) implies !preds_in(
                g@,
                before,
                w,
            ) by {
                assert(!done@[w]);
                assert(blocked@[w]);
                let (a2, k2) = choose|a2: int, k2: int|
                    0 <= a2 < n && 0 <= k2 < g@[a2]@.len() && !done@[a2] && g@[a2]@[k2] == w;
                assert(!before.contains(a2 as usize));
            }
        }
        done.set(v, true);
        pos.set(v, order.len());
        order.push(v);
        proof {
            s = s.insert(v as int);
            assert(order@.subrange(0, before.len() as int) =~= before);
            assert forall|i: int| 0 <= i < order@.len() implies preds_in(
                g@,
                order@.subrange(0, i),
                #[trigger] order@[i] as int,
            ) by {
                if i < before.len() {
                    assert(order@.subrange(0, i) =~= before.subrange(0, i));
                }
            }
            assert forall|i: int, w: int|
                0 <= i < order@.len() && 0 <= w < order@[i] && !order@.subrange(0, i).contains(
                    w as usize,
                ) implies !preds_in(g@, order@.subrange(0, i), w) by {
                if i < before.len() {
                    assert(order@.subrange(0, i) =~= before.subrange(0, i));
                }
            }
            assert forall|w: int| 0 <= w < n implies (done@[w] <==> order@.contains(w as usize)) by {
                if w == v {
                    assert(order@[before.len() as int] == v);
                } else if done@[w] {
                    assert(before.contains(w as usize));
                    let j = choose|j: int| 0 <= j < before.len() && before[j] == w as usize;
                    assert(order@[j] == w);
                } else if order@.contains(w as usize) {
                    let j = choose|j: int| 0 <= j < order@.len() && order@[j] == w as usize;
                    assert(j < before.len());
                    assert(before.contains(w as usize));
                }
            }
        }
    }
    proof {
        vstd::set_lib::lemma_int_range(0, n as int);
        assert(s.subset_of(vstd::set_lib::set_int_range(0, n as int)));
        vstd::set_lib::lemma_subset_equality(s, vstd::set_lib::set_int_range(0, n as int));
        assert forall|v: int| 0 <= v < n implies done@[v] by {
            assert(vstd::set_lib::set_int_range(0, n as int).contains(v));
        }
        let rank = Seq::new(n as nat, |i: int| pos@[i] as int);
        assert(ranked(g@, rank));
    }
    Ok(order)
}


/// Some node outside `done` has an edge to `u`.
pub open spec fn live_pred(g: Seq<Vec<usize>>, done: Seq<bool>, u: int) -> bool {
    exists|a: int, k: int| 0 <= a < g.len() && 0 <= k < g[a]@.len() && !done[a] && g[a]@[k] == u
}

/// Every node outside `done` has a predecessor outside `done`, and some node is outside it.
#[verifier::opaque]
pub open spec fn stuck(g: Seq<Vec<usize>>, done: Seq<bool>) -> bool {
    &&& done.len() == g.len()
    &&& exists|u: int| 0 <= u < g.len() && !done[u]
    &&& forall|u: int| 0 <= u < g.len() && !done[u] ==> #[trigger] live_pred(g, done, u)
}

/// `c` is a closed walk along the edges of `g`: it starts where it ends and each step follows
/// an edge.
pub open spec fn closed_walk(g: Seq<Vec<usize>>, c: Seq<usize>) -> bool {
    &&& c.len() >= 2
    &&& c[0] == c.last()
    &&& forall|i: int| 0 <= i < c.len() ==> #[trigger] c[i] < g.len()
    &&& forall|i: int| 0 <= i < c.len() - 1 ==> g[c[i] as int]@.contains(#[trigger] c[i + 1])
}

/// Every edge into a done node comes from a done node placed earlier, and every done node was
/// placed before `count`.
pub open spec fn placed_before(g: Seq<Vec<usize>>, done: Seq<bool>, pos: Seq<int>, count: int) -> bool {
    &&& done.len() == g.len()
    &&& pos.len() == g.len()
    &&& forall|v: int| 0 <= v < g.len() && done[v] ==> pos[v] < count
    &&& forall|a: int, k: int|
        0 <= a < g.len() && 0 <= k < g[a]@.len() && done[g[a]@[k] as int] ==> done[a] && pos[a]
            < pos[g[a]@[k] as int]
}

proof fn lemma_place(g: Seq<Vec<usize>>, done: Seq<bool>, pos: Seq<int>, count: int, v: int)
    requires
        targets_ok(g),
        placed_before(g, done, pos, count),
        0 <= v < g.len(),
        !done[v],
        forall|a: int, k: int| 0 <= a < g.len() && 0 <= k < g[a]@.len() && g[a]@[k] == v ==> done[a],
    ensures
        placed_before(g, done.update(v, true), pos.update(v, count), count + 1),
{
    let d2 = done.update(v, true);
    let p2 = pos.update(v, count);
    assert forall|a: int, k: int|
        0 <= a < g.len() && 0 <= k < g[a]@.len() && d2[g[a]@[k] as int] implies d2[a] && p2[a]
            < p2[g[a]@[k] as int] by {
        let b = g[a]@[k] as int;
        if b == v {
            assert(done[a]);
        } else {
            assert(done[b]);
        }
    }
}

proof fn lemma_all_placed(g: Seq<Vec<usize>>, done: Seq<bool>, pos: Seq<int>, count: int)
    requires
        targets_ok(g),
        placed_before(g, done, pos, count),
        forall|v: int| 0 <= v < g.len() ==> done[v],
    ensures
        acyclic(g),
{
    assert forall|a: int, k: int| 0 <= a < g.len() && 0 <= k < g[a]@.len() implies pos[a] < pos[
        g[a]@[k] as int] by {
        assert(done[g[a]@[k] as int]);
    }
    assert(ranked(g, pos));
}

/// The first node that is neither done nor blocked, or `done.len()` when there is none.
fn first_free(done: &Vec<bool>, blocked: &Vec<bool>) -> (v: usize)
    requires
        done@.len() == blocked@.len(),
    ensures
        v <= done@.len(),
        forall|u: int| 0 <= u < v ==> done@[u] || blocked@[u],
        v < done@.len() ==> !done@[v as int] && !blocked@[v as int],
{
    let n = done.len();
    let mut v: usize = 0;
    while v < n && (done[v] || blocked[v])
        invariant
            0 <= v <= n,
            done@.len() == n,
            blocked@.len() == n,
            forall|u: int| 0 <= u < v ==> done@[u] || blocked@[u],
        decreases n - v,
    {
        v += 1;
    }
    v
}

proof fn lemma_now_stuck(g: Seq<Vec<usize>>, done: Seq<bool>, blocked: Seq<bool>)
    requires
        done.len() == g.len(),
        blocked.len() == g.len(),
        exists|u: int| 0 <= u < g.len() && !done[u],
        forall|u: int| 0 <= u < g.len() ==> done[u] || blocked[u],
        forall|b: int|
            0 <= b < g.len() && blocked[b] ==> exists|a2: int, k: int|
                0 <= a2 < g.len() && 0 <= k < g[a2]@.len() && !done[a2] && g[a2]@[k] == b,
    ensures
        stuck(g, done),
{
    reveal(stuck);
    assert forall|u: int| 0 <= u < g.len() && !done[u] implies #[trigger] live_pred(g, done, u) by {
        assert(blocked[u]);
    }
}

/// Strips away every node that no remaining node points at, until none is left to strip. On a
/// graph with a cycle something always remains, and what remains is stuck.
#[verifier::loop_isolation(true)]
fn strip(g: &Vec<Vec<usize>>) -> (done: Vec<bool>)
    requires
        targets_ok(g@),
        !acyclic(g@),
    ensures
        stuck(g@, done@),
        done@.len() == g@.len(),
{
    let n = g.len();
    let mut done: Vec<bool> = vec![false; n];
    let mut count: usize = 0;
    let ghost mut pos: Seq<int> = Seq::new(n as nat, |i: int| 0);
    let ghost mut s: Set<int> = Set::empty();
    while count < n
        invariant
            n == g@.len(),
            targets_ok(g@),
            !acyclic(g@),
            count <= n,
            s.finite(),
            s.len() == count,
            forall|v: int| s.contains(v) <==> (0 <= v < n && done@[v]),
            placed_before(g@, done@, pos, count as int),
        decreases n - count,
    {
        let blocked = blocked_by_unplaced(g, &done);
        let v = first_free(&done, &blocked);
        if v == n {
            proof {
                if forall|u: int| 0 <= u < n ==> done@[u] {
                    lemma_all_placed(g@, done@, pos, count as int);
                }
                lemma_now_stuck(g@, done@, blocked@);
            }
            return done;
        }
        proof {
            assert forall|a: int, k: int| 0 <= a < n && 0 <= k < g@[a]@.len() && g@[a]@[k] == v
                implies done@[a] by {
                if !done@[a] {
                    assert(blocked@[g@[a]@[k] as int]);
                }
            }
            lemma_place(g@, done@, pos, count as int, v as int);
            pos = pos.update(v as int, count as int);
            s = s.insert(v as int);
        }
        done.set(v, true);
        count += 1;
    }
    proof {
        vstd::set_lib::lemma_int_range(0, n as int);
        assert(s.subset_of(vstd::set_lib::set_int_range(0, n as int)));
        vstd::set_lib::lemma_subset_equality(s, vstd::set_lib::set_int_range(0, n as int));
        assert forall|v: int| 0 <= v < n implies done@[v] by {
            assert(vstd::set_lib::set_int_range(0, n as int).contains(v));
        }
        lemma_all_placed(g@, done@, pos, count as int);
    }
    done
}

/// A node outside `done` with an edge to `cur`.
fn predecessor(g: &Vec<Vec<usize>>, done: &Vec<bool>, cur: usize) -> (p: usize)
    requires
        targets_ok(g@),
        stuck(g@, done@),
        done@.len() == g@.len(),
        cur < g@.len(),
        !done@[cur as int],
    ensures
        p < g@.len(),
        !done@[p as int],
        g@[p as int]@.contains(cur),
{
    let n = g.len();
    let mut a: usize = 0;
    while a < n
        invariant
            0 <= a <= n,
            n == g@.len(),
            done@.len() == n,
            forall|a2: int, k: int|
                0 <= a2 < a && 0 <= k < g@[a2]@.len() && !done@[a2] ==> g@[a2]@[k] != cur,
        decreases n - a,
    {
        if !done[a] {
            let mut k: usize = 0;
            while k < g[a].len()
                invariant
                    0 <= k <= g@[a as int]@.len(),
                    a < n,
                    n == g@.len(),
                    done@.len() == n,
                    !done@[a as int],
                    forall|k2: int| 0 <= k2 < k ==> g@[a as int]@[k2] != cur,
                decreases g@[a as int]@.len() - k,
            {
                if g[a][k] == cur {
                    assert(g@[a as int]@[k as int] == cur);
                    return a;
                }
                k += 1;
            }
        }
        a += 1;
    }
    proof {
        reveal(stuck);
        assert(live_pred(g@, done@, cur as int));
        let (a2, k2) = choose|a2: int, k2: int|
            0 <= a2 < n && 0 <= k2 < g@[a2]@.len() && !done@[a2] && g@[a2]@[k2] == cur;
        assert(g@[a2]@[k2] != cur);
    }
    0
}

/// A seq without repeats whose entries lie below `n` has at most `n` entries.
proof fn lemma_distinct_below(c: Seq<usize>, n: int)
    requires
        c.no_duplicates(),
        forall|i: int| 0 <= i < c.len() ==> c[i] < n,
        0 <= n,
    ensures
        c.len() <= n,
{
    let ints = c.map_values(|x: usize| x as int);
    assert(ints.no_duplicates()) by {
        assert forall|i: int, j: int| 0 <= i < ints.len() && 0 <= j < ints.len() && i != j implies ints[i]
            != ints[j] by {
            assert(c[i] != c[j]);
        }
    }
    ints.unique_seq_to_set();
    vstd::set_lib::lemma_int_range(0, n);
    assert(ints.to_set().subset_of(vstd::set_lib::set_int_range(0, n))) by {
        assert forall|x: int| ints.to_set().contains(x) implies vstd::set_lib::set_int_range(0, n).contains(
            x,
        ) by {
            let i = choose|i: int| 0 <= i < ints.len() && ints[i] == x;
            assert(c[i] < n);
        }
    }
    vstd::set_lib::lemma_len_subset(ints.to_set(), vstd::set_lib::set_int_range(0, n));
}

/// A cycle of a graph that has one, as a closed walk along its edges: walking backwards from a
/// node that cannot be placed, each step to a predecessor that cannot be placed either, must
/// come back to a node already visited.
#[verifier::rlimit(50)]
pub fn cycle(g: &Vec<Vec<usize>>) -> (c: Vec<usize>)
    requires
        targets_ok(g@),
        !acyclic(g@),
    ensures
        closed_walk(g@, c@),
{
    let n = g.len();
    let done = strip(g);
    let mut start: usize = 0;
    while start < n && done[start]
        invariant
            0 <= start <= n,
            n == g@.len(),
            done@.len() == n,
            forall|u: int| 0 <= u < start ==> done@[u],
        decreases n - start,
    {
        start += 1;
    }
    if start == n {
        proof {
            reveal(stuck);
            let u = choose|u: int| 0 <= u < g@.len() && !done@[u];
            assert(done@[u]);
        }
        return Vec::new();
    }
    // Edges run from walk[i + 1] to walk[i].
    let mut walk: Vec<usize> = Vec::new();
    walk.push(start);
    loop
        invariant
            walk@.len() >= 1,
            n == g@.len(),
            targets_ok(g@),
            stuck(g@, done@),
            done@.len() == n,
            walk@.no_duplicates(),
            forall|i: int| 0 <= i < walk@.len() ==> #[trigger] walk@[i] < n && !done@[walk@[i] as int],
            forall|i: int|
                0 <= i < walk@.len() - 1 ==> g@[walk@[i + 1] as int]@.contains(#[trigger] walk@[i]),
        decreases n - walk@.len(),
    {
        proof {
            lemma_distinct_below(walk@, n as int);
        }
        let cur = walk[walk.len() - 1];
        let prev = predecessor(g, &done, cur);
        let mut j: usize = 0;
        while j < walk.len() && walk[j] != prev
            invariant
                0 <= j <= walk@.len(),
                forall|i: int| 0 <= i < j ==> walk@[i] != prev,
            decreases walk@.len() - j,
        {
            j += 1;
        }
        if j < walk.len() {
            // prev == walk[j]: the cycle runs prev, walk[last], ..., walk[j].
            let mut out: Vec<usize> = Vec::new();
            out.push(prev);
            let mut q = walk.len();
            while q > j
                invariant
                    j < walk@.len(),
                    j <= q <= walk@.len(),
                    out@.len() == 1 + walk@.len() - q,
                    out@[0] == prev,
                    forall|i: int| 1 <= i < out@.len() ==> out@[i] == walk@[walk@.len() - i],
                decreases q,
            {
                q -= 1;
                out.push(walk[q]);
            }
            proof {
                let w = walk@;
                let last = w.len() - 1;
                assert(out@.last() == w[j as int]);
                assert forall|i: int| 0 <= i < out@.len() - 1 implies g@[out@[i] as int]@.contains(
                    #[trigger] out@[i + 1]) by {
                    if i == 0 {
                        assert(out@[1] == w[last]);
                    } else {
                        assert(out@[i] == w[w.len() - i]);
                        assert(out@[i + 1] == w[w.len() - i - 1]);
                    }
                }
                assert forall|i: int| 0 <= i < out@.len() implies #[trigger] out@[i] < g@.len() by {
                    if i > 0 {
                        assert(out@[i] == w[w.len() - i]);
                    }
                }
            }
            return out;
        }
        let ghost before = walk@;
        walk.push(prev);
        proof {
            assert forall|i: int| 0 <= i < walk@.len() - 1 implies g@[walk@[i + 1] as int]@.contains(
                #[trigger] walk@[i]) by {
                if i < before.len() - 1 {
                    assert(walk@[i] == before[i] && walk@[i + 1] == before[i + 1]);
                }
            }
            assert(walk@.no_duplicates()) by {
                assert forall|x: int, y: int| 0 <= x < walk@.len() && 0 <= y < walk@.len() && x != y implies walk@[x]
                    != walk@[y] by {
                    if x < before.len() && y < before.len() {
                        assert(before[x] != before[y]);
                    } else if x == before.len() {
                        assert(before[y] != prev);
                    } else if y == before.len() {
                        assert(before[x] != prev);
                    }
                }
            }
            lemma_distinct_below(walk@, n as int);
        }
    }
}

} // verus!
