//! One forward pass over the node table proving the graph invariants: a single pre-order tree
//! rooted at a routing-tier node 0, tiers monotone from parent to child, every edge kind's own
//! rule, an acyclic obligation graph, non-overlapping payloads, and a sorted string heap.

use vstd::prelude::*;

use crate::error::Error;
use crate::graph::{
    abi_portable, kind_code, tier_code, EdgeKind, Kind, Node, Tier, TrustClass, NONE32,
    NODE_PAYLOAD_COLD,
};
use crate::manifest::{edge_reads, node_reads, sect_bytes, Manifest};
use crate::order::{acyclic, ranked, targets_ok, topological};
use vstd::utf8::{decode_utf8, encode_utf8, valid_utf8};

verus! {

/// Walking parent pointers up from `from` reaches `target`. Each step must move to a smaller
/// index, which is what makes the walk terminate without cycle detection.
#[verifier::opaque]
pub open spec fn on_path(nodes: Seq<Node>, from: int, target: int) -> bool
    decreases from,
{
    if from < 0 || from >= nodes.len() {
        false
    } else if from == target {
        true
    } else if nodes[from].parent as int >= from {
        false
    } else {
        on_path(nodes, nodes[from].parent as int, target)
    }
}

/// The parent pointers form one tree in pre-order, rooted at a routing-tier node 0, with tiers
/// never decreasing from parent to child.
#[verifier::opaque]
pub open spec fn tree_ok(nodes: Seq<Node>) -> bool {
    &&& nodes.len() > 0 ==> nodes[0].parent == NONE32 && nodes[0].tier == Tier::Routing
    &&& forall|i: int|
        #![trigger nodes[i]]
        1 <= i < nodes.len() ==> {
            &&& nodes[i].parent < i
            &&& on_path(nodes, i - 1, nodes[i].parent as int)
            &&& tier_code(nodes[i].tier) >= tier_code(nodes[nodes[i].parent as int].tier)
        }
}

/// The nodes are exactly the manifest's node records.
pub open spec fn nodes_read(m: Manifest, nodes: Seq<Node>) -> bool {
    &&& nodes.len() == m.node_count
    &&& forall|i: int| 0 <= i < nodes.len() ==> node_reads(sect_bytes(m.nodes), i, #[trigger] nodes[i])
}

fn on_root_path(nodes: &Vec<Node>, from: u32, target: u32) -> (r: bool)
    requires
        from < nodes@.len(),
    ensures
        r == on_path(nodes@, from as int, target as int),
{
    reveal(on_path);
    let mut cur = from;
    loop
        invariant
            cur < nodes@.len(),
            on_path(nodes@, from as int, target as int) == on_path(nodes@, cur as int, target as int),
        decreases cur,
    {
        if cur == target {
            return true;
        }
        let p = nodes[cur as usize].parent;
        if p >= cur {
            return false;
        }
        cur = p;
    }
}

fn as_u32(v: usize) -> (r: u32)
    requires
        v <= u32::MAX,
    ensures
        r == v,
{
    v as u32
}

/// Node record `i` of the table `b` carries a known kind and tier code.
pub open spec fn record_ok(b: Seq<u8>, i: int) -> bool {
    1 <= b[32 * i] <= 6 && b[32 * i + 1] <= 2
}

/// Reads every node record: succeeds exactly when every record has a known kind and tier.
pub fn read_nodes(m: &Manifest) -> (r: Result<Vec<Node>, Error>)
    requires
        m.well_formed(),
    ensures
        r is Ok <==> forall|i: int| 0 <= i < m.node_count ==> #[trigger] record_ok(sect_bytes(m.nodes), i),
        r matches Ok(nodes) ==> nodes_read(*m, nodes@),
{
    let n = m.node_count;
    let mut nodes: Vec<Node> = Vec::new();
    let mut i: u32 = 0;
    while i < n
        invariant
            m.well_formed(),
            n == m.node_count,
            nodes@.len() == i,
            i <= n,
            forall|j: int| 0 <= j < i ==> node_reads(sect_bytes(m.nodes), j, #[trigger] nodes@[j]),
            forall|j: int| 0 <= j < i ==> #[trigger] record_ok(sect_bytes(m.nodes), j),
        decreases n - i,
    {
        let node = match m.node(i) {
            Ok(x) => x,
            Err(e) => {
                assert(!record_ok(sect_bytes(m.nodes), i as int));
                return Err(e);
            },
        };
        nodes.push(node);
        i += 1;
    }
    Ok(nodes)
}

/// Checks the root, the pre-order tree and tier monotonicity.
#[verifier::rlimit(50)]
pub fn check_tree(nodes: &Vec<Node>) -> (r: Result<(), Error>)
    requires
        nodes@.len() <= u32::MAX,
    ensures
        r is Ok <==> tree_ok(nodes@),
{
    reveal(tree_ok);
    let n = nodes.len();
    if n == 0 {
        return Ok(());
    }
    if nodes[0].parent != NONE32 {
        return Err(Error::RootHasParent);
    }
    // Tier monotonicity only composes if the tree's root is the hottest node.
    if nodes[0].tier != Tier::Routing {
        return Err(Error::RootNotRouting);
    }
    let mut k: usize = 1;
    while k < n
        invariant
            1 <= k <= n,
            n == nodes@.len(),
            nodes@[0].parent == NONE32,
            nodes@[0].tier == Tier::Routing,
            forall|j: int|
                #![trigger nodes@[j]]
                1 <= j < k ==> {
                    &&& nodes@[j].parent < j
                    &&& on_path(nodes@, j - 1, nodes@[j].parent as int)
                    &&& tier_code(nodes@[j].tier) >= tier_code(nodes@[nodes@[j].parent as int].tier)
                },
        decreases n - k,
    {
        let p = nodes[k].parent;
        let ku = as_u32(k);
        if p == NONE32 {
            assert(!(nodes@[k as int].parent < k));
            return Err(Error::NonRootWithoutParent(ku));
        }
        // Pre-order storage makes acyclicity a comparison rather than a traversal.
        if p >= ku {
            assert(!(nodes@[k as int].parent < k));
            return Err(Error::ParentNotBefore { node: ku, parent: p });
        }
        if !on_root_path(&nodes, ku - 1, p) {
            assert(!on_path(nodes@, k - 1, nodes@[k as int].parent as int));
            return Err(Error::NotPreOrder(ku));
        }
        if nodes[k].tier.hotter_than(nodes[p as usize].tier) {
            assert(!(tier_code(nodes@[k as int].tier) >= tier_code(nodes@[nodes@[k as int].parent as int].tier)));
            return Err(Error::TierNotMonotone { node: ku, parent: p });
        }
        k += 1;
    }
    Ok(())
}

/// Every name, version and licence index resolves, and every stored commitment exists.
#[verifier::opaque]
pub open spec fn indices_ok(m: Manifest, nodes: Seq<Node>) -> bool {
    &&& (m.version_idx == NONE32 || m.version_idx < m.spec_string_count())
    &&& (m.license_idx == NONE32 || m.license_idx < m.spec_string_count())
    &&& forall|i: int|
        0 <= i < nodes.len() ==> (#[trigger] nodes[i].name_idx == NONE32 || nodes[i].name_idx
            < m.spec_string_count()) && (nodes[i].hash_idx == NONE32 || nodes[i].hash_idx
            < m.spec_hash_count())
}

pub fn check_strings_and_hashes(m: &Manifest, nodes: &Vec<Node>) -> (r: Result<(), Error>)
    ensures
        r is Ok <==> indices_ok(*m, nodes@),
{
    reveal(indices_ok);
    let strs = m.string_count();
    let hashes = m.hash_count();
    if m.version_idx != NONE32 && m.version_idx >= strs {
        return Err(Error::StringIndexOutOfRange(m.version_idx));
    }
    if m.license_idx != NONE32 && m.license_idx >= strs {
        return Err(Error::StringIndexOutOfRange(m.license_idx));
    }
    let mut i: usize = 0;
    while i < nodes.len()
        invariant
            0 <= i <= nodes@.len(),
            strs == m.spec_string_count(),
            hashes == m.spec_hash_count(),
            (m.version_idx == NONE32 || m.version_idx < m.spec_string_count()),
            (m.license_idx == NONE32 || m.license_idx < m.spec_string_count()),
            forall|j: int|
                0 <= j < i ==> (#[trigger] nodes@[j].name_idx == NONE32 || nodes@[j].name_idx
                    < strs) && (nodes@[j].hash_idx == NONE32 || nodes@[j].hash_idx < hashes),
        decreases nodes@.len() - i,
    {
        let node = nodes[i];
        if node.name_idx != NONE32 && node.name_idx >= strs {
            return Err(Error::StringIndexOutOfRange(node.name_idx));
        }
        if node.hash_idx != NONE32 && node.hash_idx >= hashes {
            return Err(Error::HashIndexOutOfRange(node.hash_idx));
        }
        i += 1;
    }
    Ok(())
}

/// The tag byte of edge record `e`.
pub open spec fn tag_at(m: Manifest, e: int) -> u8 {
    sect_bytes(m.edges)[8 * e + 4]
}

/// Whether edge record `e`, leaving node `src`, is an obligation to `dst`: a `SEQ`, `GUARDS`,
/// `NEEDS` or `ALT` edge that stays inside the file.
pub open spec fn obligation_to(m: Manifest, nodes: Seq<Node>, src: int, dst: int) -> bool {
    oblig_before(m, nodes[src].edge_off as int, nodes[src].edge_off + nodes[src].edge_cnt, dst)
}

/// Some edge record in `[from, to)` is an in-file obligation to `dst`.
pub open spec fn oblig_before(m: Manifest, from: int, to: int, dst: int) -> bool {
    exists|e: int|
        from <= e < to && tag_at(m, e) < 128 && 2 <= tag_at(m, e) <= 5 && crate::raw::le32(
            sect_bytes(m.edges),
            8 * e,
        ) == dst
}

/// No chain of obligations returns to where it started: some ranking makes every obligation
/// edge climb.
pub open spec fn obligations_acyclic(m: Manifest, nodes: Seq<Node>) -> bool {
    exists|rank: Seq<int>| #[trigger] climbs(m, nodes, rank)
}

/// `rank` makes every obligation edge climb.
pub open spec fn climbs(m: Manifest, nodes: Seq<Node>, rank: Seq<int>) -> bool {
    rank.len() == nodes.len() && forall|a: int, b: int|
        0 <= a < nodes.len() && 0 <= b < nodes.len() && #[trigger] obligation_to(m, nodes, a, b)
            ==> rank[a] < rank[b]
}

/// The rules each edge obeys, one edge record at a time.
pub open spec fn edge_rule(m: Manifest, nodes: Seq<Node>, src: int, e: int) -> bool {
    let b = sect_bytes(m.edges);
    let tag = b[8 * e + 4];
    let kind = tag % 128;
    let external = tag >= 128;
    let dst = crate::raw::le32(b, 8 * e);
    &&& 2 <= kind <= 6
    &&& external ==> kind == 6
    &&& !external ==> dst < nodes.len()
    &&& kind == 2 ==> dst > src
    &&& kind == 3 ==> nodes[src].kind == Kind::Contract
    &&& kind == 4 ==> (nodes[dst].kind == Kind::Binding || nodes[dst].kind == Kind::Resource
        || nodes[dst].kind == Kind::Segment)
}

/// Two `ALT` edges carry different ordinals.
pub open spec fn alt_pair_ok(m: Manifest, e1: int, e2: int) -> bool {
    tag_at(m, e1) % 128 == 5 && tag_at(m, e2) % 128 == 5 ==> sect_bytes(m.edges)[8 * e1 + 5]
        != sect_bytes(m.edges)[8 * e2 + 5]
}

/// Every edge range lies inside the edge table and every edge obeys its kind's rule, `ALT`
/// ordinals are unique per source, and neither `NEEDS` nor the union of obligations cycles.
#[verifier::opaque]
pub open spec fn edges_ok(m: Manifest, nodes: Seq<Node>) -> bool {
    &&& forall|s: int|
        0 <= s < nodes.len() ==> #[trigger] nodes[s].edge_off + nodes[s].edge_cnt
            <= m.spec_edge_count()
    &&& forall|s: int, e: int|
        0 <= s < nodes.len() && nodes[s].edge_off <= e < nodes[s].edge_off + nodes[s].edge_cnt
            ==> #[trigger] edge_rule(m, nodes, s, e)
    &&& forall|s: int, e1: int, e2: int|
        #![trigger nodes[s], alt_pair_ok(m, e1, e2)]
        0 <= s < nodes.len() && nodes[s].edge_off <= e1 < e2 < nodes[s].edge_off
            + nodes[s].edge_cnt ==> alt_pair_ok(m, e1, e2)
    &&& obligations_acyclic(m, nodes)
}

fn edge_tag_ord(m: &Manifest, e: u32) -> (r: (u8, u8))
    requires
        m.well_formed(),
        e < m.spec_edge_count(),
    ensures
        r.0 == sect_bytes(m.edges)[8 * e + 4],
        r.1 == sect_bytes(m.edges)[8 * e + 5],
{
    let s = m.edges.as_ref().unwrap();
    let total = s.data.len();
    proof {
        assert(8 * (e as int) + 8 <= total) by (nonlinear_arith)
            requires
                e < s.count,
                (total as int) % 8 == 0,
                (total as int) / 8 == s.count,
        ;
    }
    let o = 8 * e as usize;
    (s.data[o + 4], s.data[o + 5])
}

/// `ALT` ordinals are unique among the edges of one source.
fn check_alt_ordinals(m: &Manifest, src: u32, start: u32, end: u32) -> (r: Result<(), Error>)
    requires
        m.well_formed(),
        start <= end <= m.spec_edge_count(),
    ensures
        r is Ok <==> forall|e1: int, e2: int| start <= e1 < e2 < end ==> #[trigger] alt_pair_ok(*m, e1, e2),
{
    let mut e1 = start;
    while e1 < end
        invariant
            m.well_formed(),
            start <= e1 <= end <= m.spec_edge_count(),
            forall|a: int, b: int| start <= a < e1 && a < b < end ==> #[trigger] alt_pair_ok(*m, a, b),
        decreases end - e1,
    {
        let (t1, o1) = edge_tag_ord(m, e1);
        let mut e2 = e1 + 1;
        while e2 < end
            invariant
                m.well_formed(),
                start <= e1 < end <= m.spec_edge_count(),
                e1 < e2 <= end,
                t1 == sect_bytes(m.edges)[8 * e1 + 4],
                o1 == sect_bytes(m.edges)[8 * e1 + 5],
                forall|b: int| e1 < b < e2 ==> #[trigger] alt_pair_ok(*m, e1 as int, b),
            decreases end - e2,
        {
            let (t2, o2) = edge_tag_ord(m, e2);
            if t1 % 128 == 5 && t2 % 128 == 5 && o1 == o2 {
                assert(!alt_pair_ok(*m, e1 as int, e2 as int));
                return Err(Error::DuplicateAltOrdinal { src, ordinal: o1 });
            }
            e2 += 1;
        }
        e1 += 1;
    }
    Ok(())
}

/// Checks every edge, then the `NEEDS` graph and the union of obligation edges for cycles.
#[verifier::rlimit(80)]
pub fn check_edges(m: &Manifest, nodes: &Vec<Node>) -> (r: Result<(), Error>)
    requires
        m.well_formed(),
        nodes@.len() <= u32::MAX,
    ensures
        r is Ok <==> edges_ok(*m, nodes@),
{
    reveal(edges_ok);
    let total = m.edge_count();
    let n = nodes.len();
    let mut needs: Vec<Vec<usize>> = Vec::new();
    let mut obligation: Vec<Vec<usize>> = Vec::new();
    let mut si: usize = 0;
    while si < n
        invariant
            m.well_formed(),
            n == nodes@.len(),
            n <= u32::MAX,
            total == m.spec_edge_count(),
            0 <= si <= n,
            needs@.len() == si,
            obligation@.len() == si,
            forall|s: int|
                0 <= s < si ==> #[trigger] nodes@[s].edge_off + nodes@[s].edge_cnt <= total,
            forall|s: int, e: int|
                0 <= s < si && nodes@[s].edge_off <= e < nodes@[s].edge_off + nodes@[s].edge_cnt
                    ==> #[trigger] edge_rule(*m, nodes@, s, e),
            forall|s: int, e1: int, e2: int|
                #![trigger nodes@[s], alt_pair_ok(*m, e1, e2)]
                0 <= s < si && nodes@[s].edge_off <= e1 < e2 < nodes@[s].edge_off
                    + nodes@[s].edge_cnt ==> alt_pair_ok(*m, e1, e2),
            forall|a: int, k: int|
                0 <= a < si && 0 <= k < obligation@[a]@.len() ==> obligation@[a]@[k] < n,
            forall|a: int, k: int| 0 <= a < si && 0 <= k < needs@[a]@.len() ==> needs@[a]@[k] < n,
            forall|a: int, k: int|
                0 <= a < si && 0 <= k < needs@[a]@.len() ==> obligation@[a]@.contains(
                    #[trigger] needs@[a]@[k],
                ),
            forall|a: int, b: int|
                0 <= a < si && 0 <= b < n ==> (obligation_to(*m, nodes@, a, b) <==> obligation@[a]@.contains(
                    b as usize,
                )),
        decreases n - si,
    {
        let node = nodes[si];
        let src = as_u32(si);
        if node.edge_off > u32::MAX - node.edge_cnt as u32 {
            assert(!(nodes@[si as int].edge_off + nodes@[si as int].edge_cnt <= total));
            return Err(Error::OffsetOverflow { what: "edge range" });
        }
        let end = node.edge_off + node.edge_cnt as u32;
        if end > total {
            assert(!(nodes@[si as int].edge_off + nodes@[si as int].edge_cnt <= total));
            return Err(Error::RangeOutOfBounds {
                what: "edge range",
                off: node.edge_off,
                len: node.edge_cnt as u32,
            });
        }
        let mut row_needs: Vec<usize> = Vec::new();
        let mut row_oblig: Vec<usize> = Vec::new();
        let mut e = node.edge_off;
        while e < end
            invariant
                m.well_formed(),
                n == nodes@.len(),
                n <= u32::MAX,
                total == m.spec_edge_count(),
                node == nodes@[si as int],
                si < n,
                src == si,
                end == node.edge_off + node.edge_cnt,
                end <= total,
                node.edge_off <= e <= end,
                forall|e2: int| node.edge_off <= e2 < e ==> #[trigger] edge_rule(*m, nodes@, si as int, e2),
                forall|k: int| 0 <= k < row_oblig@.len() ==> row_oblig@[k] < n,
                forall|k: int| 0 <= k < row_needs@.len() ==> row_needs@[k] < n,
                forall|k: int| 0 <= k < row_needs@.len() ==> row_oblig@.contains(#[trigger] row_needs@[k]),
                forall|b: int|
                    0 <= b < n ==> (#[trigger] oblig_before(*m, node.edge_off as int, e as int, b)
                        <==> row_oblig@.contains(b as usize)),
            decreases end - e,
        {
            let edge = match m.edge(e) {
                Ok(x) => x,
                Err(err) => {
                    assert(!edge_rule(*m, nodes@, si as int, e as int));
                    return Err(err);
                },
            };
            if edge.external && edge.kind != EdgeKind::Cites {
                assert(!edge_rule(*m, nodes@, si as int, e as int));
                return Err(Error::UnknownEdgeKind(edge.kind.code()));
            }
            if !edge.external && edge.dst as usize >= n {
                assert(!edge_rule(*m, nodes@, si as int, e as int));
                return Err(Error::NodeIndexOutOfRange(edge.dst));
            }
            let ghost needs_before = row_needs@;
            match edge.kind {
                EdgeKind::Sequence => {
                    if edge.dst <= src {
                        assert(!edge_rule(*m, nodes@, si as int, e as int));
                        return Err(Error::SeqNotForward { src, dst: edge.dst });
                    }
                },
                EdgeKind::Guards => {
                    if node.kind != Kind::Contract {
                        assert(!edge_rule(*m, nodes@, si as int, e as int));
                        return Err(Error::GuardsFromNonContract(src));
                    }
                },
                EdgeKind::Needs => {
                    let k = nodes[edge.dst as usize].kind;
                    if !(k == Kind::Binding || k == Kind::Resource || k == Kind::Segment) {
                        assert(!edge_rule(*m, nodes@, si as int, e as int));
                        return Err(Error::NeedsBadTarget { src, dst: edge.dst });
                    }
                    row_needs.push(edge.dst as usize);
                },
                EdgeKind::Alt => {},
                EdgeKind::Cites => {},
            }
            let ghost prev_row = row_oblig@;
            let ghost is_ob = tag_at(*m, e as int) < 128 && 2 <= tag_at(*m, e as int) <= 5;
            proof {
                assert(is_ob == (edge.kind != EdgeKind::Cites && !edge.external));
            }
            if edge.kind != EdgeKind::Cites && !edge.external {
                row_oblig.push(edge.dst as usize);
            }
            proof {
                assert forall|k: int| 0 <= k < row_needs@.len() implies row_oblig@.contains(
                    #[trigger] row_needs@[k],
                ) by {
                    if k < needs_before.len() {
                        assert(row_needs@[k] == needs_before[k]);
                        let j = choose|j: int| 0 <= j < prev_row.len() && prev_row[j] == needs_before[k];
                        assert(row_oblig@[j] == prev_row[j]);
                    } else {
                        assert(row_oblig@[prev_row.len() as int] == edge.dst as usize);
                    }
                }
                assert(edge_rule(*m, nodes@, si as int, e as int));
                assert forall|b: int|
                    0 <= b < n implies (#[trigger] oblig_before(*m, node.edge_off as int, e + 1, b)
                    <==> row_oblig@.contains(b as usize)) by {
                    let old_has = oblig_before(*m, node.edge_off as int, e as int, b);
                    let hit = is_ob && edge.dst == b;
                    if hit {
                        assert(row_oblig@[prev_row.len() as int] == b as usize);
                        assert(oblig_before(*m, node.edge_off as int, e + 1, b));
                    }
                    if old_has {
                        let e2 = choose|e2: int|
                            node.edge_off <= e2 < e && tag_at(*m, e2) < 128 && 2 <= tag_at(*m, e2)
                                <= 5 && crate::raw::le32(sect_bytes(m.edges), 8 * e2) == b;
                        assert(oblig_before(*m, node.edge_off as int, e + 1, b));
                        assert(prev_row.contains(b as usize));
                        let k = choose|k: int| 0 <= k < prev_row.len() && prev_row[k] == b as usize;
                        assert(row_oblig@[k] == b as usize);
                    }
                    if oblig_before(*m, node.edge_off as int, e + 1, b) {
                        let e2 = choose|e2: int|
                            node.edge_off <= e2 < e + 1 && tag_at(*m, e2) < 128 && 2 <= tag_at(
                                *m,
                                e2,
                            ) <= 5 && crate::raw::le32(sect_bytes(m.edges), 8 * e2) == b;
                        if e2 < e {
                            assert(old_has);
                        } else {
                            assert(hit);
                        }
                    }
                    if row_oblig@.contains(b as usize) {
                        let k = choose|k: int| 0 <= k < row_oblig@.len() && row_oblig@[k] == b as usize;
                        if k < prev_row.len() {
                            assert(prev_row.contains(b as usize));
                            assert(old_has);
                        } else {
                            assert(hit);
                        }
                    }
                }
            }
            e += 1;
        }
        match check_alt_ordinals(m, src, node.edge_off, end) {
            Ok(()) => {},
            Err(err) => {
                proof {
                    let (e1, e2) = choose|e1: int, e2: int|
                        node.edge_off <= e1 < e2 < end && !#[trigger] alt_pair_ok(*m, e1, e2);
                    assert(!alt_pair_ok(*m, e1, e2));
                    assert(nodes@[si as int] == node);
                }
                return Err(err);
            },
        }
        needs.push(row_needs);
        obligation.push(row_oblig);
        si += 1;
    }
    match topological(&needs) {
        Ok(_) => {},
        Err(v) => {
            proof {
                if obligations_acyclic(*m, nodes@) {
                    let rank = choose|rank: Seq<int>| climbs(*m, nodes@, rank);
                    assert forall|a: int, k: int|
                        0 <= a < needs@.len() && 0 <= k < needs@[a]@.len() implies rank[a]
                            < rank[needs@[a]@[k] as int] by {
                        assert(obligation@[a]@.contains(needs@[a]@[k]));
                        assert(obligation_to(*m, nodes@, a, needs@[a]@[k] as int));
                    }
                    assert(ranked(needs@, rank));
                }
            }
            return Err(Error::NeedsCycle(as_u32(v)));
        },
    }
    match topological(&obligation) {
        Ok(_) => {},
        Err(v) => {
            proof {
                if obligations_acyclic(*m, nodes@) {
                    let rank = choose|rank: Seq<int>| climbs(*m, nodes@, rank);
                    assert forall|a: int, k: int|
                        0 <= a < obligation@.len() && 0 <= k < obligation@[a]@.len() implies rank[a]
                            < rank[obligation@[a]@[k] as int] by {
                        assert(obligation@[a]@.contains(obligation@[a]@[k]));
                        assert(obligation_to(*m, nodes@, a, obligation@[a]@[k] as int));
                    }
                    assert(ranked(obligation@, rank));
                }
            }
            return Err(Error::ObligationCycle(as_u32(v)));
        },
    }
    proof {
        let rank = choose|rank: Seq<int>| ranked(obligation@, rank);
        assert(climbs(*m, nodes@, rank)) by {
        assert forall|a: int, b: int|
            0 <= a < nodes@.len() && 0 <= b < nodes@.len() && #[trigger] obligation_to(
                *m,
                nodes@,
                a,
                b,
            ) implies rank[a] < rank[b] by {
            assert(obligation@[a]@.contains(b as usize));
            let k = choose|k: int| 0 <= k < obligation@[a]@.len() && obligation@[a]@[k] == b as usize;
        }
        }
    }
    Ok(())
}


/// Whether node `n`'s payload lives in the COLD region.
pub open spec fn is_cold(n: Node) -> bool {
    (n.flags / 2) % 2 == 1
}

/// The decompressed length of the region a node's payload lives in.
pub open spec fn region_len(m: Manifest, n: Node) -> int {
    if is_cold(n) { m.cold.2 as int } else { m.hot.2 as int }
}

/// Every payload lies inside its region, and two payloads in one region either coincide
/// (content-addressed dedup) or do not overlap at all.
#[verifier::opaque]
pub open spec fn payloads_ok(m: Manifest, nodes: Seq<Node>) -> bool {
    &&& forall|i: int|
        0 <= i < nodes.len() && #[trigger] nodes[i].payload_len != 0 ==> nodes[i].payload_off
            + nodes[i].payload_len <= region_len(m, nodes[i])
    &&& forall|i: int, j: int|
        #![trigger nodes[i], nodes[j]]
        0 <= i < j < nodes.len() && nodes[i].payload_len != 0 && nodes[j].payload_len != 0
            && is_cold(nodes[i]) == is_cold(nodes[j]) && nodes[i].payload_off < nodes[j].payload_off
            + nodes[j].payload_len && nodes[j].payload_off < nodes[i].payload_off
            + nodes[i].payload_len ==> nodes[i].payload_off == nodes[j].payload_off
            && nodes[i].payload_len == nodes[j].payload_len
}

pub fn check_payload_ranges(m: &Manifest, nodes: &Vec<Node>) -> (r: Result<(), Error>)
    ensures
        r is Ok <==> payloads_ok(*m, nodes@),
{
    reveal(payloads_ok);
    let n = nodes.len();
    let mut i: usize = 0;
    while i < n
        invariant
            n == nodes@.len(),
            0 <= i <= n,
            forall|k: int|
                0 <= k < i && #[trigger] nodes@[k].payload_len != 0 ==> nodes@[k].payload_off
                    + nodes@[k].payload_len <= region_len(*m, nodes@[k]),
        decreases n - i,
    {
        let node = nodes[i];
        if node.payload_len != 0 {
            let cold = (node.flags / 2) % 2 == 1;
            let limit = if cold { m.cold.2 } else { m.hot.2 };
            assert(limit == region_len(*m, nodes@[i as int]));
            if node.payload_off > u32::MAX - node.payload_len {
                assert(!(nodes@[i as int].payload_off + nodes@[i as int].payload_len <= region_len(
                    *m,
                    nodes@[i as int],
                )));
                return Err(Error::OffsetOverflow { what: "payload" });
            }
            if node.payload_off + node.payload_len > limit {
                assert(!(nodes@[i as int].payload_off + nodes@[i as int].payload_len <= region_len(
                    *m,
                    nodes@[i as int],
                )));
                return Err(Error::RangeOutOfBounds {
                    what: if cold { "cold payload" } else { "hot payload" },
                    off: node.payload_off,
                    len: node.payload_len,
                });
            }
        }
        i += 1;
    }
    let mut a: usize = 0;
    while a < n
        invariant
            n == nodes@.len(),
            0 <= a <= n,
            forall|k: int|
                0 <= k < n && #[trigger] nodes@[k].payload_len != 0 ==> nodes@[k].payload_off
                    + nodes@[k].payload_len <= region_len(*m, nodes@[k]),
            forall|x: int, y: int|
                #![trigger nodes@[x], nodes@[y]]
                0 <= x < a && x < y < n && nodes@[x].payload_len != 0 && nodes@[y].payload_len
                    != 0 && is_cold(nodes@[x]) == is_cold(nodes@[y]) && nodes@[x].payload_off
                    < nodes@[y].payload_off + nodes@[y].payload_len && nodes@[y].payload_off
                    < nodes@[x].payload_off + nodes@[x].payload_len ==> nodes@[x].payload_off
                    == nodes@[y].payload_off && nodes@[x].payload_len == nodes@[y].payload_len,
        decreases n - a,
    {
        let x = nodes[a];
        let mut b: usize = a + 1;
        while b < n
            invariant
                n == nodes@.len(),
                0 <= a < b <= n,
                x == nodes@[a as int],
                forall|k: int|
                    0 <= k < n && #[trigger] nodes@[k].payload_len != 0 ==> nodes@[k].payload_off
                        + nodes@[k].payload_len <= region_len(*m, nodes@[k]),
                forall|y: int|
                    #![trigger nodes@[y]]
                    a < y < b && x.payload_len != 0 && nodes@[y].payload_len != 0 && is_cold(x)
                        == is_cold(nodes@[y]) && x.payload_off < nodes@[y].payload_off
                        + nodes@[y].payload_len && nodes@[y].payload_off < x.payload_off
                        + x.payload_len ==> x.payload_off == nodes@[y].payload_off && x.payload_len
                        == nodes@[y].payload_len,
            decreases n - b,
        {
            let y = nodes[b];
            if x.payload_len != 0 && y.payload_len != 0 && (x.flags / 2) % 2 == (y.flags / 2) % 2 {
                let xe = x.payload_off as u64 + x.payload_len as u64;
                let ye = y.payload_off as u64 + y.payload_len as u64;
                if (x.payload_off as u64) < ye && (y.payload_off as u64) < xe && (x.payload_off
                    != y.payload_off || x.payload_len != y.payload_len) {
                    assert(nodes@[b as int] == y);
                    assert(is_cold(nodes@[a as int]) == is_cold(nodes@[b as int]));
                    return Err(Error::RangeOverlap { a: x.payload_off, b: y.payload_off });
                }
            }
            b += 1;
        }
        a += 1;
    }
    Ok(())
}

/// Segment records are parallel-indexed to `Segment`-kind nodes in pre-order, so the counts
/// agree; every record reads; and a `Portable` claim is only ever made for a wasm ABI.
#[verifier::opaque]
pub open spec fn segments_ok(m: Manifest, nodes: Seq<Node>) -> bool {
    &&& count_segments(nodes) == m.spec_segment_count()
    &&& forall|i: int| 0 <= i < m.spec_segment_count() ==> #[trigger] m.segment_reads(i)
    &&& forall|i: int|
        0 <= i < m.spec_segment_count() ==> sect_bytes(m.segments)[96 * i + 0x27] == 0
            ==> (#[trigger] crate::raw::le16(sect_bytes(m.segments), 96 * i + 0x24) == 1
            || crate::raw::le16(sect_bytes(m.segments), 96 * i + 0x24) == 6)
}

/// How many `Segment`-kind nodes there are.
pub open spec fn count_segments(nodes: Seq<Node>) -> nat
    decreases nodes.len(),
{
    if nodes.len() == 0 {
        0
    } else {
        count_segments(nodes.drop_last()) + if nodes.last().kind == Kind::Segment {
            1nat
        } else {
            0nat
        }
    }
}

pub fn count_segment_nodes(nodes: &Vec<Node>) -> (r: usize)
    ensures
        r == count_segments(nodes@),
{
    let mut c: usize = 0;
    let mut i: usize = 0;
    while i < nodes.len()
        invariant
            0 <= i <= nodes@.len(),
            c == count_segments(nodes@.subrange(0, i as int)),
            c <= i,
        decreases nodes@.len() - i,
    {
        proof {
            assert(nodes@.subrange(0, i + 1).drop_last() =~= nodes@.subrange(0, i as int));
        }
        if nodes[i].kind == Kind::Segment {
            c += 1;
        }
        i += 1;
    }
    assert(nodes@.subrange(0, nodes@.len() as int) == nodes@);
    c
}

pub fn check_segments(m: &Manifest, nodes: &Vec<Node>) -> (r: Result<(), Error>)
    requires
        m.well_formed(),
    ensures
        r is Ok <==> segments_ok(*m, nodes@),
{
    reveal(segments_ok);
    let seg_nodes = count_segment_nodes(nodes);
    let records = m.segment_count();
    if seg_nodes != records as usize {
        return Err(Error::SegmentCountMismatch {
            nodes: if seg_nodes <= u32::MAX as usize { seg_nodes as u32 } else { NONE32 },
            records,
        });
    }
    let mut i: u32 = 0;
    while i < records
        invariant
            m.well_formed(),
            records == m.spec_segment_count(),
            0 <= i <= records,
            forall|k: int|
                0 <= k < i ==> sect_bytes(m.segments)[96 * k + 0x27] == 0 ==> (
                #[trigger] crate::raw::le16(sect_bytes(m.segments), 96 * k + 0x24) == 1
                    || crate::raw::le16(sect_bytes(m.segments), 96 * k + 0x24) == 6),
            forall|k: int| 0 <= k < i ==> #[trigger] m.segment_reads(k),
        decreases records - i,
    {
        let s = match m.segment(i) {
            Ok(x) => x,
            Err(e) => {
                assert(!m.segment_reads(i as int));
                return Err(e);
            },
        };
        if s.trust_class == TrustClass::Portable && !s.abi.is_portable() {
            assert(!(crate::raw::le16(sect_bytes(m.segments), 96 * i + 0x24) == 1
                || crate::raw::le16(sect_bytes(m.segments), 96 * i + 0x24) == 6));
            return Err(Error::PortableClaimOnNonWasm(i));
        }
        i += 1;
    }
    Ok(())
}

/// `a` sorts strictly before `b`, byte by byte.
pub open spec fn lex_lt(a: Seq<u8>, b: Seq<u8>) -> bool {
    exists|i: int|
        0 <= i <= a.len() && i <= b.len() && a.subrange(0, i) == b.subrange(0, i) && ((i == a.len()
            && i < b.len()) || (i < a.len() && i < b.len() && a[i] < b[i]))
}

pub fn bytes_lt(a: &[u8], b: &[u8]) -> (r: bool)
    ensures
        r == lex_lt(a@, b@),
{
    let mut i: usize = 0;
    while i < a.len() && i < b.len() && a[i] == b[i]
        invariant
            0 <= i <= a@.len(),
            i <= b@.len(),
            a@.subrange(0, i as int) == b@.subrange(0, i as int),
        decreases a@.len() - i,
    {
        assert(a@.subrange(0, i + 1) =~= a@.subrange(0, i as int).push(a@[i as int]));
        assert(b@.subrange(0, i + 1) =~= b@.subrange(0, i as int).push(b@[i as int]));
        i += 1;
    }
    let lt = if i == a.len() {
        i < b.len()
    } else if i == b.len() {
        false
    } else {
        a[i] < b[i]
    };
    proof {
        if lt {
            assert(lex_lt(a@, b@));
        } else {
            assert forall|j: int|
                0 <= j <= a@.len() && j <= b@.len() && a@.subrange(0, j) == b@.subrange(0, j)
                    implies !((j == a@.len() && j < b@.len()) || (j < a@.len() && j < b@.len()
                    && a@[j] < b@[j])) by {
                if j < i {
                    assert(a@.subrange(0, i as int)[j] == b@.subrange(0, i as int)[j]);
                } else if j > i {
                    assert(a@.subrange(0, j)[i as int] == b@.subrange(0, j)[i as int]);
                }
            }
        }
    }
    lt
}

/// The string heap is sorted strictly, which also makes it duplicate-free.
#[verifier::opaque]
pub open spec fn strings_ok(m: Manifest) -> bool {
    &&& forall|i: int| 0 <= i < m.spec_string_count() ==> #[trigger] m.string_ok(i)
    &&& forall|i: int|
        1 <= i < m.spec_string_count() ==> lex_lt(m.string_bytes(i - 1), #[trigger] m.string_bytes(i))
}

pub fn check_string_order(m: &Manifest) -> (r: Result<(), Error>)
    ensures
        r is Ok <==> strings_ok(*m),
{
    reveal(strings_ok);
    let count = m.string_count();
    if count == 0 {
        return Ok(());
    }
    let mut prev = match m.string(0) {
        Ok(x) => x,
        Err(e) => {
            assert(!m.string_ok(0));
            return Err(e);
        },
    };
    proof {
        decode_utf8_encode_utf8_helper(m.string_bytes(0));
    }
    let mut i: u32 = 1;
    while i < count
        invariant
            count == m.spec_string_count(),
            1 <= i <= count,
            prev@ == decode_utf8(m.string_bytes(i - 1)),
            encode_utf8(prev@) == m.string_bytes(i - 1),
            forall|k: int| 0 <= k < i ==> #[trigger] m.string_ok(k),
            forall|k: int| 1 <= k < i ==> lex_lt(m.string_bytes(k - 1), #[trigger] m.string_bytes(k)),
        decreases count - i,
    {
        let s = match m.string(i) {
            Ok(x) => x,
            Err(e) => {
                assert(!m.string_ok(i as int));
                return Err(e);
            },
        };
        proof {
            decode_utf8_encode_utf8_helper(m.string_bytes(i as int));
        }
        if !bytes_lt(prev.as_str().as_bytes(), s.as_str().as_bytes()) {
            assert(!lex_lt(m.string_bytes(i - 1), m.string_bytes(i as int)));
            return Err(Error::StringHeapUnsorted(i));
        }
        prev = s;
        i += 1;
    }
    Ok(())
}

proof fn decode_utf8_encode_utf8_helper(b: Seq<u8>)
    requires
        valid_utf8(b),
    ensures
        encode_utf8(decode_utf8(b)) == b,
{
    vstd::utf8::decode_utf8_encode_utf8(b);
}

/// Everything the validator proves of an accepted manifest.
pub open spec fn graph_ok(m: Manifest, nodes: Seq<Node>) -> bool {
    &&& nodes_read(m, nodes)
    &&& tree_ok(nodes)
    &&& indices_ok(m, nodes)
    &&& edges_ok(m, nodes)
    &&& payloads_ok(m, nodes)
    &&& segments_ok(m, nodes)
    &&& strings_ok(m)
}

/// One forward pass over the manifest proving every graph invariant, in the order the checks
/// are specified.
/// The node records are read one way only: two readings of one manifest agree.
proof fn lemma_nodes_read_unique(m: Manifest, a: Seq<Node>, b: Seq<Node>)
    requires
        nodes_read(m, a),
        nodes_read(m, b),
    ensures
        a == b,
{
    assert forall|i: int| 0 <= i < a.len() implies a[i] == b[i] by {
        assert(node_reads(sect_bytes(m.nodes), i, a[i]));
        assert(node_reads(sect_bytes(m.nodes), i, b[i]));
    }
    assert(a =~= b);
}

/// Reading the node records succeeds wherever some reading of them exists.
proof fn lemma_read_means_records_ok(m: Manifest, nodes: Seq<Node>)
    requires
        nodes_read(m, nodes),
    ensures
        forall|i: int| 0 <= i < m.node_count ==> #[trigger] record_ok(sect_bytes(m.nodes), i),
{
    assert forall|i: int| 0 <= i < m.node_count implies #[trigger] record_ok(sect_bytes(m.nodes), i) by {
        assert(node_reads(sect_bytes(m.nodes), i, nodes[i]));
    }
}

/// Reads the node table and checks every graph invariant: succeeds exactly when the manifest
/// has a node table that satisfies them all, and then returns it.
pub fn graph(m: &Manifest) -> (r: Result<Vec<Node>, Error>)
    requires
        m.well_formed(),
    ensures
        r is Ok <==> exists|nodes: Seq<Node>| #[trigger] graph_ok(*m, nodes),
        r matches Ok(nodes) ==> graph_ok(*m, nodes@),
{
    let nodes = match read_nodes(m) {
        Ok(x) => x,
        Err(e) => {
            proof {
                if exists|ns: Seq<Node>| #[trigger] graph_ok(*m, ns) {
                    let ns = choose|ns: Seq<Node>| #[trigger] graph_ok(*m, ns);
                    lemma_read_means_records_ok(*m, ns);
                }
            }
            return Err(e);
        },
    };
    proof {
        if exists|ns: Seq<Node>| #[trigger] graph_ok(*m, ns) {
            let ns = choose|ns: Seq<Node>| #[trigger] graph_ok(*m, ns);
            lemma_nodes_read_unique(*m, ns, nodes@);
        }
    }
    check_tree(&nodes)?;
    check_strings_and_hashes(m, &nodes)?;
    check_edges(m, &nodes)?;
    check_payload_ranges(m, &nodes)?;
    check_segments(m, &nodes)?;
    check_string_order(m)?;
    assert(graph_ok(*m, nodes@));
    Ok(nodes)
}


/// In an accepted tree every parent comes before its child, and the root has none.
pub proof fn lemma_parent_before(nodes: Seq<Node>)
    requires
        tree_ok(nodes),
    ensures
        forall|c: int| 1 <= c < nodes.len() ==> #[trigger] nodes[c].parent < c,
        nodes.len() > 0 ==> nodes[0].parent == NONE32,
{
    reveal(tree_ok);
}


/// In an accepted manifest every stored commitment names an entry of the hash table and every
/// node name names a string.
pub proof fn lemma_indices(m: Manifest, nodes: Seq<Node>)
    requires
        indices_ok(m, nodes),
    ensures
        forall|i: int|
            0 <= i < nodes.len() ==> (#[trigger] nodes[i].hash_idx == NONE32 || nodes[i].hash_idx
                < m.spec_hash_count()) && (nodes[i].name_idx == NONE32 || nodes[i].name_idx
                < m.spec_string_count()),
{
    reveal(indices_ok);
}

} // verus!
