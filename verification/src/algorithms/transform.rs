use vstd::prelude::*;
use std::collections::HashSet;

verus! {

broadcast use vstd::std_specs::hash::group_hash_axioms;

/// A directed edge `(from, to, weight_bits)`, the weight as the bit pattern
/// of its `f64` value.
pub type WeightedEdge = (usize, usize, u64);

/// The graph that the constant-degree transform builds: every input node
/// becomes a cycle of proxy nodes, one per distinct neighbour.
pub struct TransformResult {
    /// Number of proxy nodes.
    pub node_count: usize,
    /// The zero-weight cycle edges of every node in node order, then one edge
    /// per input edge, in the input edge order.
    pub edges: Vec<WeightedEdge>,
    /// `node_mapping[p]` is the input node that proxy `p` stands for.
    pub node_mapping: Vec<usize>,
    /// The proxy that stands for the input source.
    pub source: usize,
}

/// `s` without repeated elements, each kept at its first occurrence.
pub open spec fn dedup(s: Seq<usize>) -> Seq<usize>
    decreases s.len(),
{
    if s.len() == 0 {
        seq![]
    } else {
        let p = dedup(s.drop_last());
        if p.contains(s.last()) {
            p
        } else {
            p.push(s.last())
        }
    }
}

/// The distinct neighbours of a node: its out-edge targets, then its in-edge
/// sources, in the order given, without repetition.
pub open spec fn neighbor_list(outs: Seq<usize>, ins: Seq<usize>) -> Seq<usize> {
    dedup(outs + ins)
}

/// Number of proxies of a node with the given neighbours: one per neighbour,
/// and one for an isolated node.
pub open spec fn proxy_count(nb: Seq<usize>) -> nat {
    if nb.len() == 0 {
        1
    } else {
        nb.len()
    }
}

/// Index of the first proxy of node `v`.
pub open spec fn proxy_start(nbs: Seq<Seq<usize>>, v: int) -> nat
    decreases v,
{
    if v <= 0 {
        0
    } else {
        proxy_start(nbs, v - 1) + proxy_count(nbs[v - 1])
    }
}

/// Index of the first cycle edge of node `v`.
pub open spec fn cycle_start(nbs: Seq<Seq<usize>>, v: int) -> nat
    decreases v,
{
    if v <= 0 {
        0
    } else {
        cycle_start(nbs, v - 1) + nbs[v - 1].len()
    }
}

/// The proxy of node `a` that faces neighbour `b`.
pub open spec fn proxy_of(nbs: Seq<Seq<usize>>, a: int, b: usize) -> int {
    proxy_start(nbs, a) + nbs[a].index_of(b)
}

/// The neighbour lists of all nodes.
pub open spec fn all_neighbors(outs: Seq<Vec<usize>>, ins: Seq<Vec<usize>>) -> Seq<Seq<usize>> {
    Seq::new(outs.len(), |v: int| neighbor_list(outs[v]@, ins[v]@))
}

/// The adjacency lists and the edge list describe one graph on `n` nodes:
/// every edge `(u, v)` appears among the out-targets of `u` and the
/// in-sources of `v`, and every listed node is below `n`.
pub open spec fn consistent_graph(
    n: nat,
    outs: Seq<Vec<usize>>,
    ins: Seq<Vec<usize>>,
    edges: Seq<WeightedEdge>,
) -> bool {
    &&& outs.len() == n
    &&& ins.len() == n
    &&& forall|v: int, k: int| 0 <= v < n && 0 <= k < outs[v]@.len() ==> #[trigger] outs[v]@[k] < n
    &&& forall|v: int, k: int| 0 <= v < n && 0 <= k < ins[v]@.len() ==> #[trigger] ins[v]@[k] < n
    &&& forall|e: int| 0 <= e < edges.len() ==> {
        let (u, v, w) = #[trigger] edges[e];
        &&& u < n && v < n
        &&& outs[u as int]@.contains(v)
        &&& ins[v as int]@.contains(u)
    }
}

proof fn lemma_dedup_props(s: Seq<usize>)
    ensures
        forall|x: usize| #[trigger] dedup(s).contains(x) <==> s.contains(x),
        dedup(s).no_duplicates(),
        s.len() > 0 ==> dedup(s).len() > 0 && dedup(s)[0] == s[0],
    decreases s.len(),
{
    if s.len() > 0 {
        let p = s.drop_last();
        lemma_dedup_props(p);
        let dp = dedup(p);
        let last = s.last();
        assert forall|x: usize| #[trigger] dedup(s).contains(x) <==> s.contains(x) by {
            if dp.contains(x) {
                assert(p.contains(x));
                let i = choose|i: int| 0 <= i < p.len() && p[i] == x;
                assert(s[i] == x);
                let j = choose|j: int| 0 <= j < dp.len() && dp[j] == x;
                if !dp.contains(last) {
                    assert(dp.push(last)[j] == x);
                }
            }
            if x == last {
                assert(s[s.len() - 1] == x);
                if !dp.contains(last) {
                    assert(dp.push(last)[dp.len() as int] == x);
                }
            }
            if s.contains(x) && x != last {
                let i = choose|i: int| 0 <= i < s.len() && s[i] == x;
                assert(p[i] == x);
                assert(p.contains(x));
            }
            if dedup(s).contains(x) && x != last && !dp.contains(last) {
                let j = choose|j: int| 0 <= j < dp.len() + 1 && dp.push(last)[j] == x;
                assert(dp[j] == x);
            }
        }
        if p.len() == 0 {
            assert(dedup(p) =~= seq![]);
        }
    }
}


proof fn lemma_starts_monotone(nbs: Seq<Seq<usize>>, a: int, b: int)
    requires
        0 <= a <= b,
    ensures
        proxy_start(nbs, a) <= proxy_start(nbs, b),
        cycle_start(nbs, a) <= cycle_start(nbs, b),
    decreases b - a,
{
    if a < b {
        lemma_starts_monotone(nbs, a, b - 1);
    }
}

/// The position of `x` in a list without repetitions that holds it.
fn position_of(list: &Vec<usize>, x: usize) -> (pos: usize)
    requires
        list@.contains(x),
        list@.no_duplicates(),
    ensures
        pos == list@.index_of(x),
        pos < list@.len(),
{
    let mut i: usize = 0;
    while i < list.len()
        invariant
            i <= list@.len(),
            list@.contains(x),
            list@.no_duplicates(),
            forall|j: int| 0 <= j < i ==> list@[j] != x,
        decreases list@.len() - i,
    {
        if list[i] == x {
            proof {
                assert(list@[i as int] == x);
                assert(exists|j: int| 0 <= j < list@.len() && list@[j] == x);
                let k = list@.index_of(x);
                assert(list@[k] == x);
                if k != i {
                    assert(list@[k] != list@[i as int]);
                }
            }
            return i;
        }
        i = i + 1;
    }
    assert(false);
    0
}

/// Appends the elements of `list` that `nb` does not hold yet, in order;
/// `seen` holds the elements of `nb`.
fn append_new(
    nb: &mut Vec<usize>,
    seen: &mut HashSet<usize>,
    list: &Vec<usize>,
    Ghost(prefix): Ghost<Seq<usize>>,
)
    requires
        old(nb)@ == dedup(prefix),
        forall|y: usize| #[trigger] old(seen)@.contains(y) == old(nb)@.contains(y),
    ensures
        final(nb)@ == dedup(prefix + list@),
        forall|y: usize| #[trigger] final(seen)@.contains(y) == final(nb)@.contains(y),
{
    let mut i: usize = 0;
    assert(prefix + list@.take(0) =~= prefix);
    while i < list.len()
        invariant
            i <= list@.len(),
            nb@ == dedup(prefix + list@.take(i as int)),
            forall|y: usize| #[trigger] seen@.contains(y) == nb@.contains(y),
        decreases list@.len() - i,
    {
        let x = list[i];
        let ghost all = prefix + list@.take(i + 1);
        assert(all.drop_last() =~= prefix + list@.take(i as int));
        assert(all.last() == x);
        let ghost old_nb = nb@;
        let ghost old_seen = seen@;
        if seen.insert(x) {
            nb.push(x);
            assert forall|y: usize| #[trigger] seen@.contains(y) == nb@.contains(y) by {
                if y != x {
                    assert(old_seen.contains(y) == old_nb.contains(y));
                    if nb@.contains(y) {
                        let j = choose|j: int| 0 <= j < nb@.len() && nb@[j] == y;
                        assert(old_nb[j] == y);
                    }
                    if old_nb.contains(y) {
                        let j = choose|j: int| 0 <= j < old_nb.len() && old_nb[j] == y;
                        assert(nb@[j] == y);
                    }
                } else {
                    assert(nb@[nb@.len() - 1] == x);
                }
            }
        } else {
            assert(seen@ =~= old_seen);
        }
        i = i + 1;
    }
    assert(list@.take(i as int) =~= list@);
}

/// The distinct neighbours of one node: its out-edge targets, then its
/// in-edge sources, each the first time a set of the ones seen takes it.
fn collect_neighbors(outs: &Vec<usize>, ins: &Vec<usize>) -> (nb: Vec<usize>)
    ensures
        nb@ == neighbor_list(outs@, ins@),
{
    let mut seen: HashSet<usize> = HashSet::new();
    let mut nb: Vec<usize> = Vec::new();
    assert(dedup(Seq::<usize>::empty()) =~= Seq::<usize>::empty());
    append_new(&mut nb, &mut seen, outs, Ghost(Seq::empty()));
    assert(Seq::<usize>::empty() + outs@ =~= outs@);
    append_new(&mut nb, &mut seen, ins, Ghost(outs@));
    nb
}

/// The proxy that stands for `source` in the transformed graph: the proxy
/// facing the target of the first out-edge of `source`, else the one facing
/// the source of its first in-edge, else its only proxy.
pub open spec fn spec_new_source(
    nbs: Seq<Seq<usize>>,
    outs: Seq<Vec<usize>>,
    ins: Seq<Vec<usize>>,
    source: int,
) -> int {
    if outs[source]@.len() > 0 {
        proxy_of(nbs, source, outs[source]@[0])
    } else if ins[source]@.len() > 0 {
        proxy_of(nbs, source, ins[source]@[0])
    } else {
        proxy_start(nbs, source) as int
    }
}

/// Replaces every node by a cycle of proxies, one per distinct neighbour, so
/// that each proxy has constant degree. Cycle edges weigh zero; each input
/// edge `(u, v, w)` becomes an edge of weight `w` from the proxy of `u`
/// facing `v` to the proxy of `v` facing `u`. The node lists `outs[v]` and
/// `ins[v]` give the out-edge targets and in-edge sources of `v` in the
/// graph's own order; `edges` lists the edges in order.
pub fn constant_degree_transform(
    n: usize,
    outs: &Vec<Vec<usize>>,
    ins: &Vec<Vec<usize>>,
    edges: &Vec<WeightedEdge>,
    source: usize,
    max_degree: usize,
) -> (res: TransformResult)
    requires
        consistent_graph(n as nat, outs@, ins@, edges@),
        source < n,
        proxy_start(all_neighbors(outs@, ins@), n as int) <= usize::MAX,
        cycle_start(all_neighbors(outs@, ins@), n as int) + edges@.len() <= usize::MAX,
    ensures
        ({
            let nbs = all_neighbors(outs@, ins@);
            let c = cycle_start(nbs, n as int);
            &&& res.node_count == proxy_start(nbs, n as int)
            &&& res.node_mapping@.len() == res.node_count
            &&& forall|u: int, p: int|
                #![trigger res.node_mapping@[p], proxy_start(nbs, u)]
                0 <= u < n && proxy_start(nbs, u) <= p < proxy_start(nbs, u + 1) ==> res.node_mapping@[p] == u
            &&& res.edges@.len() == c + edges@.len()
            &&& forall|u: int, i: int| 0 <= u < n && 0 <= i < nbs[u].len() ==>
                #[trigger] res.edges@[cycle_start(nbs, u) + i] == (
                    (proxy_start(nbs, u) + i) as usize,
                    (proxy_start(nbs, u) + (i + 1) % (nbs[u].len() as int)) as usize,
                    0u64,
                )
            &&& forall|e: int| 0 <= e < edges@.len() ==> {
                let (u, v, w) = edges@[e];
                #[trigger] res.edges@[c + e] == (
                    proxy_of(nbs, u as int, v) as usize,
                    proxy_of(nbs, v as int, u) as usize,
                    w,
                )
            }
            &&& res.source == spec_new_source(nbs, outs@, ins@, source as int)
            // what follows is implied by the clauses above
            &&& res.source < res.node_count
            &&& res.node_mapping@[res.source as int] == source
            &&& forall|k: int| 0 <= k < res.edges@.len() ==>
                (#[trigger] res.edges@[k]).0 < res.node_count && res.edges@[k].1 < res.node_count
            &&& forall|k: int| 0 <= k < c ==> (#[trigger] res.edges@[k]).2 == 0
                && res.node_mapping@[res.edges@[k].0 as int] == res.node_mapping@[res.edges@[k].1 as int]
            &&& forall|e: int| 0 <= e < edges@.len() ==>
                res.node_mapping@[(#[trigger] res.edges@[c + e]).0 as int] == edges@[e].0
                && res.node_mapping@[res.edges@[c + e].1 as int] == edges@[e].1
        }),
{
    let ghost nbs = all_neighbors(outs@, ins@);
    let mut lists: Vec<Vec<usize>> = Vec::new();
    let mut first: Vec<usize> = Vec::new();
    let mut mapping: Vec<usize> = Vec::new();
    let mut out_edges: Vec<WeightedEdge> = Vec::new();
    let mut count: usize = 0;
    let mut v: usize = 0;
    while v < n
        invariant
            nbs == all_neighbors(outs@, ins@),
            consistent_graph(n as nat, outs@, ins@, edges@),
            proxy_start(nbs, n as int) <= usize::MAX,
            cycle_start(nbs, n as int) + edges@.len() <= usize::MAX,
            v <= n,
            lists@.len() == v,
            first@.len() == v,
            forall|u: int| 0 <= u < v ==> #[trigger] lists@[u]@ == nbs[u],
            forall|u: int| 0 <= u < v ==> #[trigger] first@[u] == proxy_start(nbs, u),
            count == proxy_start(nbs, v as int),
            mapping@.len() == count,
            forall|u: int, p: int|
                #![trigger mapping@[p], proxy_start(nbs, u)]
                0 <= u < v && proxy_start(nbs, u) <= p < proxy_start(nbs, u + 1) ==> mapping@[p] == u,
            out_edges@.len() == cycle_start(nbs, v as int),
            forall|u: int, i: int| 0 <= u < v && 0 <= i < nbs[u].len() ==>
                #[trigger] out_edges@[cycle_start(nbs, u) + i] == (
                    (proxy_start(nbs, u) + i) as usize,
                    (proxy_start(nbs, u) + (i + 1) % (nbs[u].len() as int)) as usize,
                    0u64,
                ),
        decreases n - v,
    {
        proof {
            lemma_starts_monotone(nbs, v + 1, n as int);
            assert(outs@[v as int]@.len() >= 0);
        }
        let nb = collect_neighbors(&outs[v], &ins[v]);
        assert(nb@ == nbs[v as int]);
        first.push(count);
        let len = nb.len();
        let ghost old_mapping = mapping@;
        let ghost old_edges = out_edges@;
        if len == 0 {
            mapping.push(v);
            count = count + 1;
        } else {
            let mut i: usize = 0;
            while i < len
                invariant
                    i <= len,
                    mapping@.len() == old_mapping.len() + i,
                    forall|p: int| 0 <= p < old_mapping.len() ==> #[trigger] mapping@[p] == old_mapping[p],
                    forall|p: int| old_mapping.len() <= p < mapping@.len() ==> #[trigger] mapping@[p] == v,
                decreases len - i,
            {
                mapping.push(v);
                i = i + 1;
            }
            let mut i: usize = 0;
            while i < len
                invariant
                    i <= len,
                    len > 0,
                    count + len <= usize::MAX,
                    out_edges@.len() == old_edges.len() + i,
                    forall|p: int| 0 <= p < old_edges.len() ==> #[trigger] out_edges@[p] == old_edges[p],
                    forall|k: int| 0 <= k < i ==> #[trigger] out_edges@[old_edges.len() + k] == (
                        (count + k) as usize,
                        (count + (k + 1) % (len as int)) as usize,
                        0u64,
                    ),
                decreases len - i,
            {
                let next = if i + 1 < len { i + 1 } else { 0 };
                assert(next == (i + 1) % (len as int)) by (nonlinear_arith)
                    requires
                        i < len,
                        next == (if i + 1 < len { i + 1 } else { 0 }),
                ;
                out_edges.push((count + i, count + next, 0u64));
                i = i + 1;
            }
            count = count + len;
        }
        proof {
            let vv = v as int;
            assert(proxy_start(nbs, vv + 1) == proxy_start(nbs, vv) + proxy_count(nbs[vv]));
            assert(cycle_start(nbs, vv + 1) == cycle_start(nbs, vv) + nbs[vv].len());
            assert forall|u: int, p: int|
                #![trigger mapping@[p], proxy_start(nbs, u)]
                0 <= u < vv + 1 && proxy_start(nbs, u) <= p < proxy_start(nbs, u + 1) implies mapping@[p] == u by {
                if u < vv {
                    lemma_starts_monotone(nbs, u + 1, vv);
                    assert(mapping@[p] == old_mapping[p]);
                }
            }
            assert forall|u: int, i: int| 0 <= u < vv + 1 && 0 <= i < nbs[u].len() implies
                #[trigger] out_edges@[cycle_start(nbs, u) + i] == (
                    (proxy_start(nbs, u) + i) as usize,
                    (proxy_start(nbs, u) + (i + 1) % (nbs[u].len() as int)) as usize,
                    0u64,
                ) by {
                if u < vv {
                    lemma_starts_monotone(nbs, u + 1, vv);
                    assert(out_edges@[cycle_start(nbs, u) + i] == old_edges[cycle_start(nbs, u) + i]);
                } else {
                    assert(out_edges@[old_edges.len() + i] == (
                        (count - len + i) as usize,
                        (count - len + (i + 1) % (len as int)) as usize,
                        0u64,
                    ));
                }
            }
        }
        lists.push(nb);
        v = v + 1;
    }
    proof {
        lemma_starts_monotone(nbs, 0, n as int);
    }
    let cycles = out_edges.len();
    let mut e: usize = 0;
    while e < edges.len()
        invariant
            nbs == all_neighbors(outs@, ins@),
            consistent_graph(n as nat, outs@, ins@, edges@),
            cycles == cycle_start(nbs, n as int),
            cycles + edges@.len() <= usize::MAX,
            e <= edges@.len(),
            lists@.len() == n,
            first@.len() == n,
            forall|u: int| 0 <= u < n ==> #[trigger] lists@[u]@ == nbs[u],
            forall|u: int| 0 <= u < n ==> #[trigger] first@[u] == proxy_start(nbs, u),
            proxy_start(nbs, n as int) <= usize::MAX,
            out_edges@.len() == cycles + e,
            forall|u: int, i: int| 0 <= u < n && 0 <= i < nbs[u].len() ==>
                #[trigger] out_edges@[cycle_start(nbs, u) + i] == (
                    (proxy_start(nbs, u) + i) as usize,
                    (proxy_start(nbs, u) + (i + 1) % (nbs[u].len() as int)) as usize,
                    0u64,
                ),
            forall|k: int| 0 <= k < e ==> {
                let (u, v, w) = edges@[k];
                #[trigger] out_edges@[cycles + k] == (
                    proxy_of(nbs, u as int, v) as usize,
                    proxy_of(nbs, v as int, u) as usize,
                    w,
                )
            },
        decreases edges@.len() - e,
    {
        let (u, v, w) = edges[e];
        proof {
            let ou = outs@[u as int]@;
            let iv = ins@[v as int]@;
            lemma_dedup_props(ou + iv);
            lemma_dedup_props(outs@[v as int]@ + ins@[v as int]@);
            let j = choose|j: int| 0 <= j < ou.len() && ou[j] == v;
            assert((ou + ins@[u as int]@)[j] == v);
            let j2 = choose|j: int| 0 <= j < iv.len() && iv[j] == u;
            assert((outs@[v as int]@ + iv)[outs@[v as int]@.len() + j2] == u);
            lemma_dedup_props(ou + ins@[u as int]@);
            lemma_starts_monotone(nbs, u + 1, n as int);
            lemma_starts_monotone(nbs, v + 1, n as int);
        }
        let ghost before = out_edges@;
        let pu = position_of(&lists[u], v);
        let pv = position_of(&lists[v], u);
        let from = first[u] + pu;
        let to = first[v] + pv;
        out_edges.push((from, to, w));
        proof {
            assert forall|uu: int, i: int| 0 <= uu < n && 0 <= i < nbs[uu].len() implies
                #[trigger] out_edges@[cycle_start(nbs, uu) + i] == (
                    (proxy_start(nbs, uu) + i) as usize,
                    (proxy_start(nbs, uu) + (i + 1) % (nbs[uu].len() as int)) as usize,
                    0u64,
                ) by {
                lemma_starts_monotone(nbs, uu + 1, n as int);
                assert(out_edges@[cycle_start(nbs, uu) + i] == before[cycle_start(nbs, uu) + i]);
            }
        }
        e = e + 1;
    }
    proof {
        lemma_dedup_props(outs@[source as int]@ + ins@[source as int]@);
    }
    let new_source = if outs[source].len() > 0 {
        assert((outs@[source as int]@ + ins@[source as int]@)[0] == outs@[source as int]@[0]);
        first[source] + position_of(&lists[source], outs[source][0])
    } else if ins[source].len() > 0 {
        assert((outs@[source as int]@ + ins@[source as int]@)[0] == ins@[source as int]@[0]);
        first[source] + position_of(&lists[source], ins[source][0])
    } else {
        first[source]
    };
    proof {
        lemma_transform_shape(n as nat, outs@, ins@, edges@, source as int, count as int,
            out_edges@, mapping@, new_source as int);
    }
    TransformResult { node_count: count, edges: out_edges, node_mapping: mapping, source: new_source }
}

proof fn lemma_proxy_in_range(nbs: Seq<Seq<usize>>, u: int, b: usize)
    requires
        0 <= u,
        nbs[u].contains(b),
    ensures
        proxy_start(nbs, u) <= proxy_of(nbs, u, b) < proxy_start(nbs, u + 1),
{
    let k = nbs[u].index_of(b);
    assert(0 <= k < nbs[u].len());
}

proof fn lemma_edge_ends_are_neighbors(n: nat, outs: Seq<Vec<usize>>, ins: Seq<Vec<usize>>, edges: Seq<WeightedEdge>, e: int)
    requires
        consistent_graph(n, outs, ins, edges),
        0 <= e < edges.len(),
    ensures
        all_neighbors(outs, ins)[edges[e].0 as int].contains(edges[e].1),
        all_neighbors(outs, ins)[edges[e].1 as int].contains(edges[e].0),
{
    let (u, v, w) = edges[e];
    let ou = outs[u as int]@;
    let iv = ins[v as int]@;
    lemma_dedup_props(ou + ins[u as int]@);
    lemma_dedup_props(outs[v as int]@ + iv);
    let j = choose|j: int| 0 <= j < ou.len() && ou[j] == v;
    assert((ou + ins[u as int]@)[j] == v);
    let j2 = choose|j: int| 0 <= j < iv.len() && iv[j] == u;
    assert((outs[v as int]@ + iv)[outs[v as int]@.len() + j2] == u);
}

proof fn lemma_cycle_owner(nbs: Seq<Seq<usize>>, n: int, k: int) -> (u: int)
    requires
        0 <= k < cycle_start(nbs, n),
    ensures
        0 <= u < n,
        cycle_start(nbs, u) <= k < cycle_start(nbs, u + 1),
    decreases n,
{
    if n <= 0 {
        assert(false);
        0
    } else if k >= cycle_start(nbs, n - 1) {
        n - 1
    } else {
        lemma_cycle_owner(nbs, n - 1, k)
    }
}

/// The shape of the transformed graph, from the way it is laid out: every
/// edge joins two proxies, each cycle edge weighs zero and stays among the
/// proxies of one node, each other edge joins proxies of the endpoints of the
/// edge it stands for, and the new source is a proxy of the old one.
proof fn lemma_transform_shape(
    n: nat,
    outs: Seq<Vec<usize>>,
    ins: Seq<Vec<usize>>,
    edges: Seq<WeightedEdge>,
    source: int,
    count: int,
    out_edges: Seq<WeightedEdge>,
    mapping: Seq<usize>,
    new_source: int,
)
    requires
        consistent_graph(n, outs, ins, edges),
        0 <= source < n,
        ({
            let nbs = all_neighbors(outs, ins);
            let c = cycle_start(nbs, n as int);
            &&& count == proxy_start(nbs, n as int)
            &&& count <= usize::MAX
            &&& mapping.len() == count
            &&& forall|u: int, p: int|
                #![trigger mapping[p], proxy_start(nbs, u)]
                0 <= u < n && proxy_start(nbs, u) <= p < proxy_start(nbs, u + 1) ==> mapping[p] == u
            &&& out_edges.len() == c + edges.len()
            &&& forall|u: int, i: int| 0 <= u < n && 0 <= i < nbs[u].len() ==>
                #[trigger] out_edges[cycle_start(nbs, u) + i] == (
                    (proxy_start(nbs, u) + i) as usize,
                    (proxy_start(nbs, u) + (i + 1) % (nbs[u].len() as int)) as usize,
                    0u64,
                )
            &&& forall|e: int| 0 <= e < edges.len() ==> {
                let (u, v, w) = edges[e];
                #[trigger] out_edges[c + e] == (
                    proxy_of(nbs, u as int, v) as usize,
                    proxy_of(nbs, v as int, u) as usize,
                    w,
                )
            }
            &&& new_source == spec_new_source(nbs, outs, ins, source)
        }),
    ensures
        ({
            let nbs = all_neighbors(outs, ins);
            let c = cycle_start(nbs, n as int);
            &&& new_source < count
            &&& mapping[new_source] == source
            &&& forall|k: int| 0 <= k < out_edges.len() ==>
                (#[trigger] out_edges[k]).0 < count && out_edges[k].1 < count
            &&& forall|k: int| 0 <= k < c ==> (#[trigger] out_edges[k]).2 == 0
                && mapping[out_edges[k].0 as int] == mapping[out_edges[k].1 as int]
            &&& forall|e: int| 0 <= e < edges.len() ==>
                mapping[(#[trigger] out_edges[c + e]).0 as int] == edges[e].0
                && mapping[out_edges[c + e].1 as int] == edges[e].1
        }),
{
    let nbs = all_neighbors(outs, ins);
    let c = cycle_start(nbs, n as int);
    assert forall|k: int| 0 <= k < c implies (#[trigger] out_edges[k]).2 == 0
        && mapping[out_edges[k].0 as int] == mapping[out_edges[k].1 as int]
        && out_edges[k].0 < count && out_edges[k].1 < count by {
        let u = lemma_cycle_owner(nbs, n as int, k);
        let i = k - cycle_start(nbs, u);
        let len = nbs[u].len() as int;
        assert(cycle_start(nbs, u + 1) == cycle_start(nbs, u) + len);
        assert(0 <= i < len);
        assert(out_edges[cycle_start(nbs, u) + i] == out_edges[k]);
        assert(proxy_start(nbs, u + 1) == proxy_start(nbs, u) + len);
        let j = (i + 1) % len;
        assert(0 <= j < len);
        lemma_starts_monotone(nbs, u + 1, n as int);
        let p = proxy_start(nbs, u) + i;
        let q = proxy_start(nbs, u) + j;
        assert(mapping[p] == u);
        assert(mapping[q] == u);
    }
    assert forall|e: int| 0 <= e < edges.len() implies
        mapping[(#[trigger] out_edges[c + e]).0 as int] == edges[e].0
        && mapping[out_edges[c + e].1 as int] == edges[e].1
        && out_edges[c + e].0 < count && out_edges[c + e].1 < count by {
        let (u, v, w) = edges[e];
        lemma_edge_ends_are_neighbors(n, outs, ins, edges, e);
        lemma_proxy_in_range(nbs, u as int, v);
        lemma_proxy_in_range(nbs, v as int, u);
        lemma_starts_monotone(nbs, u + 1, n as int);
        lemma_starts_monotone(nbs, v + 1, n as int);
        let p = proxy_of(nbs, u as int, v);
        let q = proxy_of(nbs, v as int, u);
        assert(mapping[p] == u);
        assert(mapping[q] == v);
    }
    assert forall|k: int| 0 <= k < out_edges.len() implies
        (#[trigger] out_edges[k]).0 < count && out_edges[k].1 < count by {
        if k >= c {
            let e = k - c;
            assert(out_edges[c + e] == out_edges[k]);
        }
    }
    lemma_dedup_props(outs[source]@ + ins[source]@);
    lemma_starts_monotone(nbs, source + 1, n as int);
    if outs[source]@.len() > 0 {
        assert((outs[source]@ + ins[source]@)[0] == outs[source]@[0]);
        lemma_proxy_in_range(nbs, source, outs[source]@[0]);
    } else if ins[source]@.len() > 0 {
        assert((outs[source]@ + ins[source]@)[0] == ins[source]@[0]);
        lemma_proxy_in_range(nbs, source, ins[source]@[0]);
    }
    assert(mapping[new_source] == source);
}

} // verus!
