use vstd::prelude::*;

verus! {

/// A directed edge `(from, to, weight)` between 0-based node ids.
pub type WeightedArc = (usize, usize, u64);

/// A generated directed graph on the nodes `0..node_count`, with its edges
/// in the order in which they were added.
pub struct EdgeList {
    pub node_count: usize,
    pub edges: Vec<WeightedArc>,
}

/// There is an edge from `a` to `b` among `edges`.
pub open spec fn has_arc(edges: Seq<WeightedArc>, a: usize, b: usize) -> bool {
    exists|k: int| 0 <= k < edges.len() && (#[trigger] edges[k]).0 == a && edges[k].1 == b
}

/// Every edge joins two of the nodes `0..n` and weighs at most `max_weight`.
pub open spec fn arcs_bounded(edges: Seq<WeightedArc>, n: nat, max_weight: u64) -> bool {
    forall|k: int| 0 <= k < edges.len() ==>
        (#[trigger] edges[k]).0 < n && edges[k].1 < n && edges[k].2 <= max_weight
}

/// No two edges join the same ordered pair of nodes.
pub open spec fn distinct_pairs(edges: Seq<WeightedArc>) -> bool {
    forall|k1: int, k2: int| 0 <= k1 < k2 < edges.len() ==>
        !((#[trigger] edges[k1]).0 == (#[trigger] edges[k2]).0 && edges[k1].1 == edges[k2].1)
}

/// No edge leaves and enters the same node.
pub open spec fn no_self_loops(edges: Seq<WeightedArc>) -> bool {
    forall|k: int| 0 <= k < edges.len() ==> (#[trigger] edges[k]).0 != edges[k].1
}

pub proof fn lemma_has_arc_push(edges: Seq<WeightedArc>, e: WeightedArc, a: usize, b: usize)
    ensures
        has_arc(edges.push(e), a, b) <==> (has_arc(edges, a, b) || (e.0 == a && e.1 == b)),
{
    let s = edges.push(e);
    if has_arc(edges, a, b) {
        let k = choose|k: int| 0 <= k < edges.len() && (#[trigger] edges[k]).0 == a && edges[k].1 == b;
        assert(s[k] == edges[k]);
    }
    if e.0 == a && e.1 == b {
        assert(s[edges.len() as int] == e);
    }
    if has_arc(s, a, b) {
        let k = choose|k: int| 0 <= k < s.len() && (#[trigger] s[k]).0 == a && s[k].1 == b;
        if k < edges.len() {
            assert(s[k] == edges[k]);
        }
    }
}

/// Number of edges that leave node `u`.
pub open spec fn out_count(edges: Seq<WeightedArc>, u: usize) -> nat
    decreases edges.len(),
{
    if edges.len() == 0 {
        0
    } else {
        out_count(edges.drop_last(), u) + if edges.last().0 == u { 1nat } else { 0nat }
    }
}

pub proof fn lemma_out_count_push(edges: Seq<WeightedArc>, e: WeightedArc, u: usize)
    ensures
        out_count(edges.push(e), u) == out_count(edges, u) + if e.0 == u { 1nat } else { 0nat },
{
    assert(edges.push(e).drop_last() =~= edges);
}

/// Step `i` of `p` follows an edge.
pub open spec fn walk_step(edges: Seq<WeightedArc>, p: Seq<usize>, i: int) -> bool {
    has_arc(edges, p[i], p[i + 1])
}

/// `p` is a walk: a non-empty sequence of nodes, each step along an edge.
pub open spec fn is_walk(edges: Seq<WeightedArc>, p: Seq<usize>) -> bool {
    &&& p.len() >= 1
    &&& forall|i: int| 0 <= i < p.len() - 1 ==> #[trigger] walk_step(edges, p, i)
}

/// Node `b` can be reached from node `a` along the edges.
pub open spec fn reaches(edges: Seq<WeightedArc>, a: usize, b: usize) -> bool {
    exists|p: Seq<usize>| #[trigger] is_walk(edges, p) && p[0] == a && p.last() == b
}

pub proof fn lemma_reaches_refl(edges: Seq<WeightedArc>, a: usize)
    ensures
        reaches(edges, a, a),
{
    let p = seq![a];
    assert(is_walk(edges, p));
}

pub proof fn lemma_reaches_step(edges: Seq<WeightedArc>, a: usize, b: usize, c: usize)
    requires
        reaches(edges, a, b),
        has_arc(edges, b, c),
    ensures
        reaches(edges, a, c),
{
    let p = choose|p: Seq<usize>| #[trigger] is_walk(edges, p) && p[0] == a && p.last() == b;
    let q = p.push(c);
    assert forall|i: int| 0 <= i < q.len() - 1 implies #[trigger] walk_step(edges, q, i) by {
        if i < p.len() - 1 {
            assert(walk_step(edges, p, i));
        }
    }
    assert(is_walk(edges, q));
}

pub proof fn lemma_reaches_trans(edges: Seq<WeightedArc>, a: usize, b: usize, c: usize)
    requires
        reaches(edges, a, b),
        reaches(edges, b, c),
    ensures
        reaches(edges, a, c),
{
    let p = choose|p: Seq<usize>| #[trigger] is_walk(edges, p) && p[0] == a && p.last() == b;
    let r = choose|r: Seq<usize>| #[trigger] is_walk(edges, r) && r[0] == b && r.last() == c;
    let q = p + r.skip(1);
    assert forall|i: int| 0 <= i < q.len() - 1 implies #[trigger] walk_step(edges, q, i) by {
        if i < p.len() - 1 {
            assert(walk_step(edges, p, i));
        } else {
            let j = i - (p.len() - 1);
            assert(walk_step(edges, r, j));
            if j == 0 {
                assert(q[i] == p.last());
            } else {
                assert(q[i] == r[j]);
            }
            assert(q[i + 1] == r[j + 1]);
        }
    }
    if r.len() == 1 {
        assert(q.last() == p.last());
    } else {
        assert(q.last() == r.last());
    }
    assert(is_walk(edges, q));
}

pub proof fn lemma_reaches_grow(edges: Seq<WeightedArc>, more: Seq<WeightedArc>, a: usize, b: usize)
    requires
        reaches(edges, a, b),
        edges.len() <= more.len(),
        more.subrange(0, edges.len() as int) == edges,
    ensures
        reaches(more, a, b),
{
    let p = choose|p: Seq<usize>| #[trigger] is_walk(edges, p) && p[0] == a && p.last() == b;
    assert forall|i: int| 0 <= i < p.len() - 1 implies #[trigger] walk_step(more, p, i) by {
        assert(walk_step(edges, p, i));
        let k = choose|k: int| 0 <= k < edges.len() && (#[trigger] edges[k]).0 == p[i] && edges[k].1 == p[i + 1];
        assert(more[k] == more.subrange(0, edges.len() as int)[k]);
    }
    assert(is_walk(more, p));
}

} // verus!
