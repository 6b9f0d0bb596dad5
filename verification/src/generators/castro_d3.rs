use vstd::prelude::*;
use rand::rngs::StdRng;
use crate::rng::{seeded_rng, draw_inclusive_u64, draw_inclusive_usize, draw_below_usize};
use crate::generators::tree_search::{
    lists_ok, list_views, list_step, is_list_walk, list_reaches, entry_count, swap_label, orient_tree, relabel,
    lemma_list_reaches_refl, lemma_list_reaches_step, lemma_list_reaches_trans, lemma_list_reaches_grow,
    lemma_relabel_reach, tree_of_parents, oriented_lists, lemma_entry_count_update, lemma_entry_count_empty,
};
use crate::generators::edge_list::{
    EdgeList, WeightedArc, has_arc, arcs_bounded, distinct_pairs, no_self_loops, out_count,
    lemma_has_arc_push, lemma_out_count_push, reaches, is_walk, walk_step, lemma_reaches_grow,
};

verus! {

/// Average out-degree of the Castro D3 family.
pub const D3_AVERAGE_OUTDEGREE: usize = 3;

/// Largest edge weight of the Castro D3 family.
pub const D3_MAX_WEIGHT: u64 = 100_000;

/// Seed that the Castro D3 scripts use.
pub const D3_DEFAULT_SEED: u64 = 1;

#[derive(Debug, Clone)]
pub struct CastroD3Config {
    pub node_count: usize,
    pub average_outdegree: usize,
    pub max_weight: u64,
}

impl Default for CastroD3Config {
    fn default() -> (res: Self)
        ensures
            res.node_count == 1024,
            res.average_outdegree == D3_AVERAGE_OUTDEGREE,
            res.max_weight == D3_MAX_WEIGHT,
    {
        CastroD3Config { node_count: 1024, average_outdegree: D3_AVERAGE_OUTDEGREE, max_weight: D3_MAX_WEIGHT }
    }
}

/// The configurations that the generator accepts: at least one node, and
/// a degree cap and an edge target that fit in a machine word.
pub open spec fn d3_config_ok(cfg: CastroD3Config) -> bool {
    &&& cfg.node_count >= 1
    &&& cfg.node_count < usize::MAX
    &&& cfg.average_outdegree < usize::MAX
    &&& cfg.node_count * cfg.average_outdegree <= usize::MAX
}

/// Whether an edge from `i` to `j` may be added to the lists: `i` has room
/// under the cap, `j` is another node, and it is not yet a neighbour of `i`.
pub open spec fn spec_can_add(adj: Seq<Seq<usize>>, i: int, j: usize, cap: nat) -> bool {
    &&& adj[i].len() < cap
    &&& i != j
    &&& !adj[i].contains(j)
}

/// One attempt to place node `i` with `j` drawn from `1..i`: the edge is
/// added in both directions exactly when it may be added in both
/// directions, and otherwise the lists stay as they were.
pub open spec fn attach_outcome(
    before: Seq<Seq<usize>>,
    after: Seq<Seq<usize>>,
    parents_before: Seq<usize>,
    parents_after: Seq<usize>,
    i: usize,
    j: usize,
    cap: nat,
    added: bool,
) -> bool {
    &&& 1 <= j < i
    &&& added == (spec_can_add(before, i as int, j, cap) && spec_can_add(before, j as int, i, cap))
    &&& after == if added {
        before.update(i as int, before[i as int].push(j)).update(j as int, before[j as int].push(i))
    } else {
        before
    }
    &&& parents_after == if added { parents_before.update(i as int, j) } else { parents_before }
}

/// One attempt at an extra edge `e` (0-based endpoints drawn from the nodes,
/// weight at most `max_weight`): it is added exactly when its endpoints
/// differ, its tail has room under the cap and the edge is new; otherwise
/// the edges stay as they were.
pub open spec fn extra_arc_outcome(
    before: Seq<WeightedArc>,
    after: Seq<WeightedArc>,
    n: nat,
    cap: nat,
    max_weight: u64,
    e: WeightedArc,
    added: bool,
) -> bool {
    &&& e.0 < n && e.1 < n && e.2 <= max_weight
    &&& added == (e.0 != e.1 && out_count(before, e.0) < cap && !has_arc(before, e.0, e.1))
    &&& after == if added { before.push(e) } else { before }
}

/// The (from, to) pairs of the edges, in order.
pub open spec fn arc_pairs(edges: Seq<WeightedArc>) -> Seq<(usize, usize)> {
    edges.map_values(|e: WeightedArc| (e.0, e.1))
}

/// The edges out of node `u` of 1-based lists, as 0-based pairs, in list
/// order.
pub open spec fn node_arcs(ls: Seq<Seq<usize>>, u: int) -> Seq<(usize, usize)> {
    ls[u].map_values(|v: usize| ((u - 1) as usize, (v - 1) as usize))
}

/// The edges out of nodes `1..=m` of 1-based lists, node by node.
pub open spec fn list_arcs(ls: Seq<Seq<usize>>, m: nat) -> Seq<(usize, usize)>
    decreases m,
{
    if m == 0 {
        Seq::empty()
    } else {
        list_arcs(ls, (m - 1) as nat) + node_arcs(ls, m as int)
    }
}

/// The lists after `root` and node 1 trade labels.
pub open spec fn relabel_lists(ls: Seq<Seq<usize>>, root: usize) -> Seq<Seq<usize>> {
    Seq::new(ls.len(), |u: int| ls[swap_label(u as usize, root) as int].map_values(|x: usize| swap_label(x, root)))
}

/// The tree edges of a D3 graph on `n` nodes whose spanning tree has the
/// lists `ls` and attachment parents `parent`, when the search starts from
/// `root`: the tree is hung from `root`, `root` and node 1 trade labels,
/// and the lists are emitted node by node.
pub open spec fn d3_tree_arcs(ls: Seq<Seq<usize>>, parent: Seq<usize>, n: nat, root: usize) -> Seq<(usize, usize)> {
    list_arcs(relabel_lists(oriented_lists(ls, parent, root), root), n)
}

/// Whether `x` occurs in `list`.
fn list_contains(list: &Vec<usize>, x: usize) -> (r: bool)
    ensures
        r == list@.contains(x),
{
    let mut k: usize = 0;
    while k < list.len()
        invariant
            k <= list@.len(),
            forall|m: int| 0 <= m < k ==> list@[m] != x,
        decreases list@.len() - k,
    {
        if list[k] == x {
            assert(list@[k as int] == x);
            return true;
        }
        k = k + 1;
    }
    false
}

/// Whether an edge from `i` to `j` may be added to the lists.
pub fn d3_can_add_edge(adj: &Vec<Vec<usize>>, i: usize, j: usize, cap: usize) -> (r: bool)
    requires
        i < adj@.len(),
    ensures
        r == spec_can_add(list_views(adj@), i as int, j, cap as nat),
{
    if adj[i].len() >= cap {
        return false;
    }
    if i == j {
        return false;
    }
    !list_contains(&adj[i], j)
}

/// The random spanning tree of a D3 graph under construction: node 1 is
/// placed first and every later node `i` is joined, in both directions, to
/// an earlier node drawn at random whose lists have room under the cap.
pub struct D3Tree {
    n: usize,
    cap: usize,
    max_weight: u64,
    target: usize,
    rng: StdRng,
    adj: Vec<Vec<usize>>,
    parent: Vec<usize>,
    placed: usize,
}

impl D3Tree {
    /// Number of nodes.
    pub closed spec fn node_count(&self) -> nat {
        self.n as nat
    }

    /// The degree cap: the average out-degree plus one.
    pub closed spec fn degree_cap(&self) -> nat {
        self.cap as nat
    }

    /// Largest edge weight.
    pub closed spec fn weight_limit(&self) -> u64 {
        self.max_weight
    }

    /// Number of edges the finished graph has.
    pub closed spec fn edge_target(&self) -> nat {
        self.target as nat
    }

    /// The undirected adjacency lists (1-based) built so far.
    pub closed spec fn lists(&self) -> Seq<Seq<usize>> {
        list_views(self.adj@)
    }

    /// Nodes `1..=placed` are in the tree.
    pub closed spec fn placed_count(&self) -> nat {
        self.placed as nat
    }

    /// The node that each placed node `x >= 2` was attached to (0 for the
    /// others).
    pub closed spec fn parents(&self) -> Seq<usize> {
        self.parent@
    }

    pub closed spec fn wf(&self) -> bool {
        &&& 1 <= self.placed <= self.n < usize::MAX
        &&& lists_ok(list_views(self.adj@), self.n as nat, self.cap as nat)
        &&& tree_of_parents(list_views(self.adj@), self.parent@, self.placed as nat)
        &&& entry_count(list_views(self.adj@)) + 2 == 2 * self.placed
        &&& forall|v: usize| 1 <= v <= self.placed ==> #[trigger] list_reaches(list_views(self.adj@), v, 1)
        &&& forall|v: usize| 1 <= v <= self.placed ==> #[trigger] list_reaches(list_views(self.adj@), 1, v)
    }

    /// Seeds the generator and places node 1.
    pub fn start(config: &CastroD3Config, seed: u64) -> (t: Self)
        requires
            d3_config_ok(*config),
        ensures
            t.wf(),
            t.node_count() == config.node_count,
            t.degree_cap() == config.average_outdegree + 1,
            t.weight_limit() == config.max_weight,
            t.edge_target() == config.node_count * config.average_outdegree,
            t.placed_count() == 1,
            t.lists() == Seq::new((config.node_count + 1) as nat, |u: int| Seq::<usize>::empty()),
            t.parents() == Seq::new((config.node_count + 1) as nat, |u: int| 0usize),
    {
        let n = config.node_count;
        let target = n * config.average_outdegree;
        let rng = seeded_rng(seed);
        let mut adj: Vec<Vec<usize>> = Vec::new();
        let mut parent: Vec<usize> = Vec::new();
        let mut i: usize = 0;
        while i <= n
            invariant
                i <= n + 1,
                n < usize::MAX,
                adj@.len() == i,
                parent@.len() == i,
                forall|u: int| 0 <= u < i ==> (#[trigger] adj@[u])@.len() == 0,
                forall|u: int| 0 <= u < i ==> #[trigger] parent@[u] == 0,
            decreases n + 1 - i,
        {
            adj.push(Vec::new());
            parent.push(0);
            i = i + 1;
        }
        let t = D3Tree { n, cap: config.average_outdegree + 1, max_weight: config.max_weight, target, rng, adj, parent, placed: 1 };
        proof {
            lemma_list_reaches_refl(list_views(t.adj@), 1);
            let ls = list_views(t.adj@);
            assert forall|u: int, v: usize| 0 <= u < ls.len() implies !(#[trigger] ls[u].contains(v)) by {
                assert(ls[u].len() == 0);
            }
            lemma_entry_count_empty(ls);
            assert(t.parent@ =~= Seq::new((config.node_count + 1) as nat, |u: int| 0usize));
        }
        assert forall|u: int| 0 <= u < t.lists().len() implies #[trigger] t.lists()[u] =~= Seq::<usize>::empty() by {}
        assert(t.lists() =~= Seq::new((config.node_count + 1) as nat, |u: int| Seq::<usize>::empty()));
        t
    }

    /// How many nodes are in the tree.
    pub fn placed(&self) -> (r: usize)
        ensures
            r == self.placed_count(),
    {
        self.placed
    }

    /// Tries to place the next node `i` under node `j` (`1 <= j < i`): the
    /// edge is added in both directions exactly when it may be added in
    /// both directions.
    pub fn attach_to(&mut self, j: usize) -> (added: bool)
        requires
            old(self).wf(),
            old(self).placed_count() < old(self).node_count(),
            1 <= j <= old(self).placed_count(),
        ensures
            final(self).wf(),
            final(self).node_count() == old(self).node_count(),
            final(self).degree_cap() == old(self).degree_cap(),
            final(self).weight_limit() == old(self).weight_limit(),
            final(self).edge_target() == old(self).edge_target(),
            final(self).placed_count() == old(self).placed_count() + if added { 1nat } else { 0nat },
            attach_outcome(
                old(self).lists(),
                final(self).lists(),
                old(self).parents(),
                final(self).parents(),
                (old(self).placed_count() + 1) as usize,
                j,
                old(self).degree_cap(),
                added,
            ),
    {
        let i = self.placed + 1;
        if d3_can_add_edge(&self.adj, i, j, self.cap) && d3_can_add_edge(&self.adj, j, i, self.cap) {
            let ghost before = list_views(self.adj@);
            let ghost pb = self.parent@;
            self.adj[i].push(j);
            self.adj[j].push(i);
            self.parent.set(i, j);
            self.placed = i;
            proof {
                let n = self.n as int;
                let after = list_views(self.adj@);
                assert(after =~= before.update(i as int, before[i as int].push(j))
                    .update(j as int, before[j as int].push(i)));
                assert forall|u: int, k: int| 0 <= u <= n && 0 <= k < after[u].len() implies
                    1 <= #[trigger] after[u][k] <= n && after[u][k] != u by {
                    if u != i && u != j {
                        assert(after[u] == before[u]);
                    } else if k < before[u].len() {
                        assert(after[u][k] == before[u][k]);
                    }
                }
                assert forall|u: int| 0 <= u <= n implies (#[trigger] after[u]).no_duplicates() by {
                    if u != i && u != j {
                        assert(after[u] == before[u]);
                    } else {
                        let t = after[u];
                        assert forall|a: int, b: int| 0 <= a < t.len() && 0 <= b < t.len() && a != b implies t[a] != t[b] by {
                            if a < before[u].len() && b < before[u].len() {
                            } else if a < before[u].len() {
                                assert(before[u].contains(t[a]));
                            } else {
                                assert(before[u].contains(t[b]));
                            }
                        }
                    }
                }
                assert forall|u: int| 0 <= u <= n implies (#[trigger] after[u]).len() <= self.cap by {
                    if u != i && u != j {
                        assert(after[u] == before[u]);
                    }
                }
                assert forall|x: int, y: usize| 0 <= x < before.len() && #[trigger] before[x].contains(y) implies after[x].contains(y) by {
                    let k = choose|k: int| 0 <= k < before[x].len() && before[x][k] == y;
                    assert(after[x][k] == y);
                }
                assert(after[i as int].contains(j)) by {
                    assert(after[i as int][before[i as int].len() as int] == j);
                }
                assert(after[j as int].contains(i)) by {
                    assert(after[j as int][before[j as int].len() as int] == i);
                }
                assert(list_reaches(before, j, 1));
                assert(list_reaches(before, 1, j));
                assert forall|v: usize| 1 <= v <= i implies #[trigger] list_reaches(after, v, 1) && list_reaches(after, 1, v) by {
                    if v < i {
                        assert(list_reaches(before, v, 1));
                        assert(list_reaches(before, 1, v));
                        lemma_list_reaches_grow(before, after, v, 1);
                        lemma_list_reaches_grow(before, after, 1, v);
                    } else {
                        lemma_list_reaches_grow(before, after, j, 1);
                        lemma_list_reaches_grow(before, after, 1, j);
                        lemma_list_reaches_step(after, 1, j, i);
                        lemma_list_reaches_refl(after, i);
                        lemma_list_reaches_step(after, i, i, j);
                        lemma_list_reaches_trans(after, i, j, 1);
                    }
                }
                assert forall|v: usize| 1 <= v <= i implies #[trigger] list_reaches(after, 1, v) by {
                    assert(list_reaches(after, v, 1));
                }
                assert(before == old(self).lists());
                let ii = old(self).placed_count() + 1;
                assert(ii == i);
                assert(1 <= j < ii && spec_can_add(old(self).lists(), ii as int, j, old(self).degree_cap())
                    && spec_can_add(old(self).lists(), j as int, ii as usize, old(self).degree_cap())
                    && self.lists() == old(self).lists().update(ii as int, old(self).lists()[ii as int].push(j))
                        .update(j as int, old(self).lists()[j as int].push(ii as usize)));
                assert(i == (old(self).placed_count() + 1) as usize);
                let pa = self.parent@;
                let m = (i - 1) as int;
                assert forall|u: int, v: usize| 0 <= u < after.len() implies
                    (#[trigger] after[u].contains(v) <==> (
                        (1 <= u <= i && 2 <= v <= i && pa[v as int] == u)
                        || (2 <= u <= i && pa[u] == v))) by {
                    assert(before[u].contains(v) <==> (
                        (1 <= u <= m && 2 <= v <= m && pb[v as int] == u)
                        || (2 <= u <= m && pb[u] == v)));
                    if u == i || u == j {
                        let s0 = before[u];
                        let x = if u == i { j } else { i };
                        assert(after[u] == s0.push(x));
                        if s0.push(x).contains(v) && v != x {
                            let k = choose|k: int| 0 <= k < s0.push(x).len() && s0.push(x)[k] == v;
                            assert(s0[k] == v);
                        }
                        if s0.contains(v) {
                            let k = choose|k: int| 0 <= k < s0.len() && s0[k] == v;
                            assert(s0.push(x)[k] == v);
                        }
                        assert(s0.push(x)[s0.len() as int] == x);
                    } else {
                        assert(after[u] == before[u]);
                    }
                    if 2 <= v <= i && v != i {
                        assert(pa[v as int] == pb[v as int]);
                    }
                    if 2 <= u <= i && u != i {
                        assert(pa[u] == pb[u]);
                    }
                }
                lemma_entry_count_update(before, i as int, before[i as int].push(j));
                lemma_entry_count_update(before.update(i as int, before[i as int].push(j)), j as int, before[j as int].push(i));
                assert(attach_outcome(old(self).lists(), self.lists(), old(self).parents(), self.parents(), i, j, old(self).degree_cap(), true));
            }
            true
        } else {
            assert(i == (old(self).placed_count() + 1) as usize);
            assert(attach_outcome(old(self).lists(), self.lists(), old(self).parents(), self.parents(), i, j, old(self).degree_cap(), false));
            false
        }
    }

    /// One attempt to place the next node `i`: a node `j` is drawn from
    /// `1..i`, and the node is placed under it if the edge may be added in
    /// both directions.
    pub fn try_attach(&mut self) -> (added: bool)
        requires
            old(self).wf(),
            old(self).placed_count() < old(self).node_count(),
        ensures
            final(self).wf(),
            final(self).node_count() == old(self).node_count(),
            final(self).degree_cap() == old(self).degree_cap(),
            final(self).weight_limit() == old(self).weight_limit(),
            final(self).edge_target() == old(self).edge_target(),
            final(self).placed_count() == old(self).placed_count() + if added { 1nat } else { 0nat },
            exists|j: usize| #[trigger] attach_outcome(
                old(self).lists(),
                final(self).lists(),
                old(self).parents(),
                final(self).parents(),
                (old(self).placed_count() + 1) as usize,
                j,
                old(self).degree_cap(),
                added,
            ),
    {
        let i = self.placed + 1;
        let j = draw_below_usize(&mut self.rng, 1, i);
        let added = self.attach_to(j);
        assert(attach_outcome(
            old(self).lists(),
            self.lists(),
            old(self).parents(),
            self.parents(),
            (old(self).placed_count() + 1) as usize,
            j,
            old(self).degree_cap(),
            added,
        ));
        added
    }
}

/// A walk along the out-lists from node 1 is a walk along the edges from
/// node 0, one label lower.
proof fn lemma_lists_to_arcs(tv: Seq<Seq<usize>>, edges: Seq<WeightedArc>, n: nat, cap: nat, w: usize)
    requires
        lists_ok(tv, n, cap),
        1 <= n < usize::MAX,
        forall|u: int, v: usize| 1 <= u <= n ==>
            (#[trigger] tv[u].contains(v) <==> (1 <= v <= n && has_arc(edges, (u - 1) as usize, (v - 1) as usize))),
        list_reaches(tv, 1, w),
    ensures
        reaches(edges, 0, (w - 1) as usize),
{
    let p = choose|p: Seq<usize>| #[trigger] is_list_walk(tv, p) && p[0] == 1 && p.last() == w;
    assert forall|i: int| 0 <= i < p.len() implies 1 <= #[trigger] p[i] <= n by {
        if i > 0 {
            assert(list_step(tv, p, i - 1));
            let x = p[i - 1];
            let k = choose|k: int| 0 <= k < tv[x as int].len() && tv[x as int][k] == p[i];
        }
    }
    let q = Seq::new(p.len(), |i: int| (p[i] - 1) as usize);
    assert forall|i: int| 0 <= i < q.len() - 1 implies #[trigger] walk_step(edges, q, i) by {
        assert(list_step(tv, p, i));
        assert(1 <= p[i] <= n && 1 <= p[i + 1] <= n);
        assert(tv[p[i] as int].contains(p[i + 1]));
    }
    assert(is_walk(edges, q));
    assert(q[0] == 0);
}

/// A Castro D3 graph under construction after its tree has been oriented
/// and emitted; random extra edges are added one attempt at a time.
pub struct D3Builder {
    n: usize,
    cap: usize,
    max_weight: u64,
    target: usize,
    rng: StdRng,
    out: Vec<Vec<usize>>,
    edges: Vec<WeightedArc>,
}

/// The out-lists (1-based) list exactly the edges, no node has more than
/// `cap` of them, and the edges form a simple graph on `0..n` whose weights
/// stay within `max_weight`.
pub open spec fn out_lists_match(out: Seq<Seq<usize>>, edges: Seq<WeightedArc>, n: nat, cap: nat, max_weight: u64) -> bool {
    &&& out.len() == n + 1
    &&& forall|u: int| 1 <= u <= n ==> (#[trigger] out[u]).len() == out_count(edges, (u - 1) as usize)
    &&& forall|u: int| 1 <= u <= n ==> (#[trigger] out[u]).len() <= cap
    &&& forall|u: int, v: usize| 1 <= u <= n ==>
        (#[trigger] out[u].contains(v) <==> (1 <= v <= n && has_arc(edges, (u - 1) as usize, (v - 1) as usize)))
    &&& arcs_bounded(edges, n, max_weight)
    &&& distinct_pairs(edges)
    &&& no_self_loops(edges)
}

proof fn lemma_push_new_arc(edges: Seq<WeightedArc>, e: WeightedArc)
    requires
        distinct_pairs(edges),
        no_self_loops(edges),
        !has_arc(edges, e.0, e.1),
        e.0 != e.1,
    ensures
        distinct_pairs(edges.push(e)),
        no_self_loops(edges.push(e)),
{
    let s = edges.push(e);
    assert forall|k1: int, k2: int| 0 <= k1 < k2 < s.len() implies
        !((#[trigger] s[k1]).0 == (#[trigger] s[k2]).0 && s[k1].1 == s[k2].1) by {
        assert(s[k1] == edges[k1]);
        if k2 < edges.len() {
            assert(s[k2] == edges[k2]);
        } else if s[k1].0 == e.0 && s[k1].1 == e.1 {
            assert(has_arc(edges, e.0, e.1));
        }
    }
    assert forall|k: int| 0 <= k < s.len() implies (#[trigger] s[k]).0 != s[k].1 by {
        if k < edges.len() {
            assert(s[k] == edges[k]);
        }
    }
}

proof fn lemma_out_lists_push(
    out: Seq<Seq<usize>>,
    edges: Seq<WeightedArc>,
    n: nat,
    u: int,
    v: usize,
    w: u64,
    max_weight: u64,
)
    requires
        out.len() == n + 1,
        n < usize::MAX,
        1 <= u <= n,
        1 <= v <= n,
        v != u,
        w <= max_weight,
        !out[u].contains(v),
        forall|x: int| 1 <= x <= n ==> (#[trigger] out[x]).len() == out_count(edges, (x - 1) as usize),
        forall|x: int, y: usize| 1 <= x <= n ==>
            (#[trigger] out[x].contains(y) <==> (1 <= y <= n && has_arc(edges, (x - 1) as usize, (y - 1) as usize))),
        arcs_bounded(edges, n, max_weight),
        distinct_pairs(edges),
        no_self_loops(edges),
    ensures
        ({
            let out2 = out.update(u, out[u].push(v));
            let edges2 = edges.push(((u - 1) as usize, (v - 1) as usize, w));
            &&& forall|x: int| 1 <= x <= n ==> (#[trigger] out2[x]).len() == out_count(edges2, (x - 1) as usize)
            &&& forall|x: int, y: usize| 1 <= x <= n ==>
                (#[trigger] out2[x].contains(y) <==> (1 <= y <= n && has_arc(edges2, (x - 1) as usize, (y - 1) as usize)))
            &&& arcs_bounded(edges2, n, max_weight)
            &&& distinct_pairs(edges2)
            &&& no_self_loops(edges2)
        }),
{
    let out2 = out.update(u, out[u].push(v));
    let e: WeightedArc = ((u - 1) as usize, (v - 1) as usize, w);
    let edges2 = edges.push(e);
    assert forall|x: int| 1 <= x <= n implies (#[trigger] out2[x]).len() == out_count(edges2, (x - 1) as usize) by {
        lemma_out_count_push(edges, e, (x - 1) as usize);
        if x == u {
            assert(out2[x] == out[u].push(v));
        } else {
            assert(out2[x] == out[x]);
            assert((x - 1) as usize != e.0);
        }
    }
    assert forall|x: int, y: usize| 1 <= x <= n implies
        (#[trigger] out2[x].contains(y) <==> (1 <= y <= n && has_arc(edges2, (x - 1) as usize, (y - 1) as usize))) by {
        lemma_has_arc_push(edges, e, (x - 1) as usize, (y - 1) as usize);
        if x != u {
            assert(out2[x] == out[x]);
            assert((x - 1) as usize != e.0);
        }
        if x == u {
            assert(out2[x] == out[u].push(v));
            if out2[x].contains(y) && y != v {
                let k = choose|k: int| 0 <= k < out2[x].len() && out2[x][k] == y;
                assert(out[u][k] == y);
            }
            if y == v {
                assert(out2[x][out[u].len() as int] == y);
            }
            if out[u].contains(y) {
                let k = choose|k: int| 0 <= k < out[u].len() && out[u][k] == y;
                assert(out2[x][k] == y);
            }
        }
    }
    assert(!has_arc(edges, e.0, e.1)) by {
        assert(!out[u].contains(v));
    }
    lemma_push_new_arc(edges, e);
    assert forall|k: int| 0 <= k < edges2.len() implies
        (#[trigger] edges2[k]).0 < n && edges2[k].1 < n && edges2[k].2 <= max_weight by {
        if k < edges.len() {
            assert(edges2[k] == edges[k]);
        }
    }
}

impl D3Tree {
    /// Draws the root from which the tree is searched, hangs the tree from
    /// it (each node keeps, in list order, its neighbours other than its
    /// parent, which is what a depth-first search from the root that takes
    /// neighbours in list order finds), lets the root and node 1 trade
    /// labels, and emits the tree edges node by node, each with a weight
    /// drawn from `0..=max_weight`.
    pub fn orient(self) -> (b: D3Builder)
        requires
            self.wf(),
            self.placed_count() == self.node_count(),
        ensures
            b.wf(),
            b.node_count() == self.node_count(),
            b.degree_cap() == self.degree_cap(),
            b.weight_limit() == self.weight_limit(),
            b.edge_target() == self.edge_target(),
            b.arcs().len() == self.node_count() - 1,
            exists|r: usize| 1 <= r <= self.node_count()
                && #[trigger] d3_tree_arcs(self.lists(), self.parents(), self.node_count(), r) == arc_pairs(b.arcs()),
    {
        let mut rng = self.rng;
        let n = self.n;
        let ghost cap = self.cap as nat;
        let root = draw_inclusive_usize(&mut rng, 1, n);
        let oriented = orient_tree(&self.adj, &self.parent, n, root, Ghost(cap));
        let tree = relabel(&oriented, n, root, Ghost(cap));
        let ghost tv = list_views(tree@);
        proof {
            let rl = relabel_lists(list_views(oriented@), root);
            assert forall|x: int| 0 <= x < tv.len() implies #[trigger] tv[x] =~= rl[x] by {}
            assert(tv =~= rl);
        }
        let mut out: Vec<Vec<usize>> = Vec::new();
        let mut i: usize = 0;
        while i <= n
            invariant
                i <= n + 1,
                n < usize::MAX,
                out@.len() == i,
                forall|x: int| 0 <= x < i ==> (#[trigger] out@[x])@.len() == 0,
            decreases n + 1 - i,
        {
            out.push(Vec::new());
            i = i + 1;
        }
        let mut edges: Vec<WeightedArc> = Vec::new();
        proof {
            assert(arc_pairs(edges@) =~= list_arcs(tv, 0));
            assert forall|x: int| 1 <= x <= n implies (#[trigger] list_views(out@)[x]).len() == out_count(edges@, (x - 1) as usize) by {}
            assert forall|x: int, y: usize| 1 <= x <= n implies
                (#[trigger] list_views(out@)[x].contains(y) <==> (1 <= y <= n && has_arc(edges@, (x - 1) as usize, (y - 1) as usize))) by {}
        }
        proof {
            assert(tv[0].len() == 0) by {
                assert(swap_label(0, root) == 0);
            }
            assert(tv.take(1).drop_last() =~= tv.take(0));
            assert(tv.take(1).last() == tv[0]);
            assert(entry_count(tv.take(0)) == 0);
        }
        let mut u: usize = 1;
        while u <= n
            invariant
                tv == list_views(tree@),
                lists_ok(tv, n as nat, cap),
                n >= 1,
                n < usize::MAX,
                1 <= u <= n + 1,
                out@.len() == n + 1,
                tv.len() == n + 1,
                edges@.len() == entry_count(tv.take(u as int)),
                arc_pairs(edges@) == list_arcs(tv, (u - 1) as nat),
                forall|x: int| 1 <= x < u ==> (#[trigger] out@[x])@ == tv[x],
                forall|x: int| u <= x <= n ==> (#[trigger] out@[x])@.len() == 0,
                forall|x: int| 1 <= x <= n ==> (#[trigger] list_views(out@)[x]).len() == out_count(edges@, (x - 1) as usize),
                forall|x: int, y: usize| 1 <= x <= n ==>
                    (#[trigger] list_views(out@)[x].contains(y) <==> (1 <= y <= n && has_arc(edges@, (x - 1) as usize, (y - 1) as usize))),
                arcs_bounded(edges@, n as nat, self.max_weight),
                distinct_pairs(edges@),
                no_self_loops(edges@),
            decreases n + 1 - u,
        {
            let mut k: usize = 0;
            while k < tree[u].len()
                invariant
                    tv == list_views(tree@),
                    lists_ok(tv, n as nat, cap),
                    n >= 1,
                    n < usize::MAX,
                    1 <= u <= n,
                    k <= tv[u as int].len(),
                    out@.len() == n + 1,
                    tv.len() == n + 1,
                    edges@.len() == entry_count(tv.take(u as int)) + k,
                    arc_pairs(edges@) == list_arcs(tv, (u - 1) as nat) + node_arcs(tv, u as int).take(k as int),
                    forall|x: int| 1 <= x < u ==> (#[trigger] out@[x])@ == tv[x],
                    forall|x: int| u < x <= n ==> (#[trigger] out@[x])@.len() == 0,
                    out@[u as int]@ == tv[u as int].take(k as int),
                    forall|x: int| 1 <= x <= n ==> (#[trigger] list_views(out@)[x]).len() == out_count(edges@, (x - 1) as usize),
                    forall|x: int, y: usize| 1 <= x <= n ==>
                        (#[trigger] list_views(out@)[x].contains(y) <==> (1 <= y <= n && has_arc(edges@, (x - 1) as usize, (y - 1) as usize))),
                    arcs_bounded(edges@, n as nat, self.max_weight),
                    distinct_pairs(edges@),
                    no_self_loops(edges@),
                decreases tv[u as int].len() - k,
            {
                let v = tree[u][k];
                let w = draw_inclusive_u64(&mut rng, 0, self.max_weight);
                let ghost o0 = list_views(out@);
                let ghost e0 = edges@;
                proof {
                    assert(tv[u as int][k as int] == v);
                    assert(1 <= v <= n && v != u);
                    if o0[u as int].contains(v) {
                        let m = choose|m: int| 0 <= m < o0[u as int].len() && o0[u as int][m] == v;
                        assert(tv[u as int][m] == v);
                        assert(tv[u as int].no_duplicates());
                    }
                    lemma_out_lists_push(o0, e0, n as nat, u as int, v, w, self.max_weight);
                }
                edges.push((u - 1, v - 1, w));
                out[u].push(v);
                proof {
                    assert(list_views(out@) =~= o0.update(u as int, o0[u as int].push(v)));
                    assert(out@[u as int]@ =~= tv[u as int].take(k + 1));
                    let na = node_arcs(tv, u as int);
                    assert(arc_pairs(edges@) =~= arc_pairs(e0).push(((u - 1) as usize, (v - 1) as usize)));
                    assert(na.take(k + 1) =~= na.take(k as int).push(na[k as int]));
                    assert(na[k as int] == ((u - 1) as usize, (v - 1) as usize));
                    assert(list_arcs(tv, (u - 1) as nat) + na.take(k + 1) =~= (list_arcs(tv, (u - 1) as nat) + na.take(k as int)).push(na[k as int]));
                }
                k = k + 1;
            }
            proof {
                assert(node_arcs(tv, u as int).take(k as int) =~= node_arcs(tv, u as int));
                assert(list_arcs(tv, u as nat) == list_arcs(tv, (u - 1) as nat) + node_arcs(tv, u as int));
                assert(tv[u as int].take(k as int) =~= tv[u as int]);
                assert(tv.take(u + 1).drop_last() =~= tv.take(u as int));
                assert(tv.take(u + 1).last() == tv[u as int]);
            }
            u = u + 1;
        }
        proof {
            let o = list_views(out@);
            assert forall|x: int| 1 <= x <= n implies (#[trigger] o[x]).len() <= cap by {
                assert(o[x] == tv[x]);
            }
            assert(tv.take(u as int) =~= tv);
            assert(edges@.len() == n - 1);
            assert(u == n + 1);
            assert(d3_tree_arcs(self.lists(), self.parents(), self.node_count(), root) == arc_pairs(edges@));
            lemma_relabel_reach(oriented@, tree@, n as nat, root);
            assert forall|v: usize| v < n implies #[trigger] reaches(edges@, 0, v) by {
                let w = (v + 1) as usize;
                assert(list_reaches(tv, 1, w));
                assert forall|u: int, y: usize| 1 <= u <= n implies
                    (#[trigger] tv[u].contains(y) <==> (1 <= y <= n && has_arc(edges@, (u - 1) as usize, (y - 1) as usize))) by {
                    assert(o[u] == tv[u]);
                }
                lemma_lists_to_arcs(tv, edges@, n as nat, cap, w);
            }
        }
        D3Builder {
            n,
            cap: self.cap,
            max_weight: self.max_weight,
            target: self.target,
            rng,
            out,
            edges,
        }
    }
}

impl D3Builder {
    /// Number of nodes.
    pub closed spec fn node_count(&self) -> nat {
        self.n as nat
    }

    /// The degree cap: the average out-degree plus one.
    pub closed spec fn degree_cap(&self) -> nat {
        self.cap as nat
    }

    /// Largest edge weight.
    pub closed spec fn weight_limit(&self) -> u64 {
        self.max_weight
    }

    /// Number of edges the finished graph has.
    pub closed spec fn edge_target(&self) -> nat {
        self.target as nat
    }

    /// The edges added so far, in order.
    pub closed spec fn arcs(&self) -> Seq<WeightedArc> {
        self.edges@
    }

    pub closed spec fn wf(&self) -> bool {
        &&& 1 <= self.n < usize::MAX
        &&& out_lists_match(list_views(self.out@), self.edges@, self.n as nat, self.cap as nat, self.max_weight)
        &&& forall|v: usize| v < self.n ==> #[trigger] reaches(self.edges@, 0, v)
    }

    /// Number of edges added so far.
    pub fn emitted(&self) -> (r: usize)
        ensures
            r == self.arcs().len(),
    {
        self.edges.len()
    }

    /// Number of edges the finished graph has.
    pub fn target(&self) -> (r: usize)
        ensures
            r == self.edge_target(),
    {
        self.target
    }

    /// Whether the edge from node `i` to node `j` (1-based) may be added:
    /// the endpoints differ, `i` has room under the degree cap, and the edge
    /// is new.
    pub fn extra_edge_allowed(&self, i: usize, j: usize) -> (r: bool)
        requires
            self.wf(),
            1 <= i <= self.node_count(),
            1 <= j <= self.node_count(),
        ensures
            r == ((i - 1) as usize != (j - 1) as usize
                && out_count(self.arcs(), (i - 1) as usize) < self.degree_cap()
                && !has_arc(self.arcs(), (i - 1) as usize, (j - 1) as usize)),
    {
        proof {
            let o = list_views(self.out@);
            assert(o[i as int].len() == out_count(self.edges@, (i - 1) as usize));
            assert(o[i as int].contains(j) <==> has_arc(self.edges@, (i - 1) as usize, (j - 1) as usize));
        }
        if i == j {
            return false;
        }
        if self.out[i].len() >= self.cap {
            return false;
        }
        !list_contains(&self.out[i], j)
    }

    /// Adds the edge from node `i` to node `j` (1-based) with weight `w`.
    pub fn add_extra_edge(&mut self, i: usize, j: usize, w: u64)
        requires
            old(self).wf(),
            1 <= i <= old(self).node_count(),
            1 <= j <= old(self).node_count(),
            w <= old(self).weight_limit(),
            i != j,
            out_count(old(self).arcs(), (i - 1) as usize) < old(self).degree_cap(),
            !has_arc(old(self).arcs(), (i - 1) as usize, (j - 1) as usize),
        ensures
            final(self).wf(),
            final(self).node_count() == old(self).node_count(),
            final(self).degree_cap() == old(self).degree_cap(),
            final(self).weight_limit() == old(self).weight_limit(),
            final(self).edge_target() == old(self).edge_target(),
            final(self).arcs() == old(self).arcs().push(((i - 1) as usize, (j - 1) as usize, w)),
    {
        let n = self.n;
        let ghost o0 = list_views(self.out@);
        let ghost e0 = self.edges@;
        proof {
            assert(o0[i as int] == self.out@[i as int]@);
            assert(o0[i as int].len() == out_count(e0, (i - 1) as usize));
            assert(o0[i as int].contains(j) <==> has_arc(e0, (i - 1) as usize, (j - 1) as usize));
            lemma_out_lists_push(o0, e0, n as nat, i as int, j, w, self.max_weight);
        }
        self.edges.push((i - 1, j - 1, w));
        self.out[i].push(j);
        proof {
            let o1 = list_views(self.out@);
            assert(o1 =~= o0.update(i as int, o0[i as int].push(j)));
            assert forall|x: int| 1 <= x <= n implies (#[trigger] o1[x]).len() <= self.cap by {
                if x != i {
                    assert(o1[x] == o0[x]);
                }
            }
            assert forall|v: usize| v < n implies #[trigger] reaches(self.edges@, 0, v) by {
                assert(reaches(e0, 0, v));
                assert(self.edges@.subrange(0, e0.len() as int) =~= e0);
                lemma_reaches_grow(e0, self.edges@, 0, v);
            }
        }
    }

    /// One attempt at an extra edge: two endpoints are drawn from the nodes;
    /// if the edge between them may be added, a weight is drawn from
    /// `0..=max_weight` and the edge is added.
    pub fn try_extra_edge(&mut self) -> (added: bool)
        requires
            old(self).wf(),
        ensures
            final(self).wf(),
            final(self).node_count() == old(self).node_count(),
            final(self).degree_cap() == old(self).degree_cap(),
            final(self).weight_limit() == old(self).weight_limit(),
            final(self).edge_target() == old(self).edge_target(),
            exists|e: WeightedArc| #[trigger] extra_arc_outcome(
                old(self).arcs(),
                final(self).arcs(),
                old(self).node_count(),
                old(self).degree_cap(),
                old(self).weight_limit(),
                e,
                added,
            ),
    {
        let n = self.n;
        let i = draw_inclusive_usize(&mut self.rng, 1, n);
        let j = draw_inclusive_usize(&mut self.rng, 1, n);
        let ghost drawn: WeightedArc = ((i - 1) as usize, (j - 1) as usize, 0u64);
        if !self.extra_edge_allowed(i, j) {
            assert(extra_arc_outcome(old(self).arcs(), self.arcs(), old(self).node_count(), old(self).degree_cap(), old(self).weight_limit(), drawn, false));
            return false;
        }
        let w = draw_inclusive_u64(&mut self.rng, 0, self.max_weight);
        self.add_extra_edge(i, j, w);
        let ghost e: WeightedArc = ((i - 1) as usize, (j - 1) as usize, w);
        assert(extra_arc_outcome(old(self).arcs(), self.arcs(), old(self).node_count(), old(self).degree_cap(), old(self).weight_limit(), e, true));
        true
    }

    /// The graph built so far. No node has more out-edges than the degree
    /// cap, no edge is a loop, and no ordered pair of nodes is joined twice.
    pub fn finish(self) -> (g: EdgeList)
        requires
            self.wf(),
        ensures
            g.node_count == self.node_count(),
            g.edges@ == self.arcs(),
            arcs_bounded(g.edges@, g.node_count as nat, self.weight_limit()),
            distinct_pairs(g.edges@),
            no_self_loops(g.edges@),
            forall|u: usize| u < g.node_count ==> #[trigger] out_count(g.edges@, u) <= self.degree_cap(),
            forall|v: usize| v < g.node_count ==> #[trigger] reaches(g.edges@, 0, v),
    {
        proof {
            let o = list_views(self.out@);
            assert forall|u: usize| u < self.n implies #[trigger] out_count(self.edges@, u) <= self.cap by {
                let x = u + 1;
                assert(o[x as int].len() == out_count(self.edges@, u));
            }
        }
        EdgeList { node_count: self.n, edges: self.edges }
    }
}

} // verus!
