use vstd::prelude::*;
use std::collections::HashSet;
use rand::rngs::StdRng;
use crate::rng::{seeded_rng, draw_inclusive_u64, draw_inclusive_usize, shuffle_usizes};
use crate::generators::edge_list::{
    EdgeList, WeightedArc, has_arc, arcs_bounded, distinct_pairs, no_self_loops, lemma_has_arc_push,
    reaches, lemma_reaches_refl, lemma_reaches_step, lemma_reaches_trans,
};

verus! {

broadcast use vstd::std_specs::hash::group_hash_axioms;

/// Edge density (edges per node) of the Castro H3 family.
pub const H3_DENSITY: usize = 3;

/// Largest edge weight of the Castro H3 family.
pub const H3_MAX_WEIGHT: u64 = 100_000;

/// Seed that the Castro H3 scripts use.
pub const H3_DEFAULT_SEED: u64 = 1971;

#[derive(Debug, Clone)]
pub struct CastroH3Config {
    pub node_count: usize,
    pub density: usize,
    pub max_weight: u64,
}

impl Default for CastroH3Config {
    fn default() -> (res: Self)
        ensures
            res.node_count == 1024,
            res.density == H3_DENSITY,
            res.max_weight == H3_MAX_WEIGHT,
    {
        CastroH3Config { node_count: 1024, density: H3_DENSITY, max_weight: H3_MAX_WEIGHT }
    }
}

/// The number of edges an H3 graph aims for: `density` per node, but no
/// more than a simple directed graph on `n` nodes can hold.
pub open spec fn spec_h3_target_edges(n: int, density: int) -> int {
    if n * density <= n * (n - 1) {
        n * density
    } else {
        n * (n - 1)
    }
}

/// The number of edges added at random after the Hamiltonian cycle.
pub open spec fn spec_h3_extra_edges(n: int, density: int) -> int {
    let t = spec_h3_target_edges(n, density);
    if t > n {
        t - n
    } else {
        0
    }
}

/// The configurations that the generator accepts: at least one node, and
/// a node count and an edge target that fit in a signed machine word.
pub open spec fn h3_config_ok(cfg: CastroH3Config) -> bool {
    &&& cfg.node_count >= 1
    &&& cfg.node_count <= isize::MAX
    &&& spec_h3_target_edges(cfg.node_count as int, cfg.density as int) <= isize::MAX
}

/// The number of random edges an H3 graph gets after its Hamiltonian cycle.
pub fn h3_extra_edges(config: &CastroH3Config) -> (r: usize)
    requires
        h3_config_ok(*config),
    ensures
        r == spec_h3_extra_edges(config.node_count as int, config.density as int),
{
    let n = config.node_count;
    let max_simple: usize = match n.checked_mul(n - 1) {
        Some(x) => x,
        None => usize::MAX,
    };
    let wanted: usize = match n.checked_mul(config.density) {
        Some(x) => x,
        None => usize::MAX,
    };
    let target: usize = if wanted <= max_simple { wanted } else { max_simple };
    if target > n {
        target - n
    } else {
        0
    }
}

/// The first `n` edges run through the nodes in the order of `perm`, a
/// permutation of `1..=n`, and back to its first node: a Hamiltonian cycle.
pub open spec fn hamiltonian_prefix(edges: Seq<WeightedArc>, perm: Seq<usize>, n: nat) -> bool {
    &&& perm.len() == n
    &&& perm.no_duplicates()
    &&& (forall|i: int| 0 <= i < n ==> 1 <= #[trigger] perm[i] <= n)
    &&& n <= edges.len()
    &&& forall|i: int| 0 <= i < n ==>
        (#[trigger] edges[i]).0 == perm[i] - 1 && edges[i].1 == perm[(i + 1) % (n as int)] - 1
}

/// One attempt at an extra edge `e` (0-based endpoints drawn from the nodes,
/// weight at most `max_weight`): it is added exactly when its endpoints
/// differ and the edge is new; otherwise the edges stay as they were.
pub open spec fn h3_extra_outcome(
    before: Seq<WeightedArc>,
    after: Seq<WeightedArc>,
    n: nat,
    max_weight: u64,
    e: WeightedArc,
    added: bool,
) -> bool {
    &&& e.0 < n && e.1 < n && e.2 <= max_weight
    &&& added == (e.0 != e.1 && !has_arc(before, e.0, e.1))
    &&& after == if added { before.push(e) } else { before }
}

/// A Castro H3 graph under construction. The Hamiltonian cycle is laid
/// first; the extra edges are then drawn one attempt at a time, each
/// attempt drawing two endpoints and keeping the edge only if it is new
/// and not a loop.
pub struct H3Builder {
    n: usize,
    max_weight: u64,
    rng: StdRng,
    adj: Vec<HashSet<usize>>,
    edges: Vec<WeightedArc>,
    remaining: usize,
}

impl H3Builder {
    /// Number of nodes.
    pub closed spec fn node_count(&self) -> nat {
        self.n as nat
    }

    /// Largest edge weight.
    pub closed spec fn weight_limit(&self) -> u64 {
        self.max_weight
    }

    /// The edges added so far, in order.
    pub closed spec fn arcs(&self) -> Seq<WeightedArc> {
        self.edges@
    }

    /// How many extra edges are still to be added.
    pub closed spec fn still_to_add(&self) -> nat {
        self.remaining as nat
    }

    /// The adjacency sets (1-based) list exactly the edges, and the edges
    /// stay within the nodes and the weight limit.
    pub closed spec fn wf(&self) -> bool {
        &&& self.n >= 1
        &&& self.adj@.len() == self.n + 1
        &&& forall|u: int, v: usize| 1 <= u <= self.n ==>
            (#[trigger] self.adj@[u]@.contains(v) <==> (1 <= v <= self.n && has_arc(
                self.edges@,
                (u - 1) as usize,
                (v - 1) as usize,
            )))
        &&& arcs_bounded(self.edges@, self.n as nat, self.max_weight)
        &&& distinct_pairs(self.edges@)
        &&& self.n >= 2 ==> no_self_loops(self.edges@)
        &&& exists|perm: Seq<usize>| hamiltonian_prefix(self.edges@, perm, self.n as nat)
    }

    /// Seeds the generator and lays the Hamiltonian cycle: the labels
    /// `1..=n` are shuffled and each is joined to the next, the last to the
    /// first, with weights drawn from `0..=max_weight`.
    pub fn start(config: &CastroH3Config, seed: u64) -> (b: Self)
        requires
            h3_config_ok(*config),
        ensures
            b.wf(),
            b.node_count() == config.node_count,
            b.weight_limit() == config.max_weight,
            b.still_to_add() == spec_h3_extra_edges(config.node_count as int, config.density as int),
            b.arcs().len() == config.node_count,
            exists|perm: Seq<usize>| hamiltonian_prefix(b.arcs(), perm, config.node_count as nat),
    {
        let n = config.node_count;
        let extra = h3_extra_edges(config);
        let mut rng = seeded_rng(seed);
        let mut perm: Vec<usize> = Vec::new();
        let mut i: usize = 0;
        while i < n
            invariant
                i <= n,
                perm@.len() == i,
                forall|k: int| 0 <= k < i ==> #[trigger] perm@[k] == k + 1,
            decreases n - i,
        {
            perm.push(i + 1);
            i = i + 1;
        }
        let ghost labels = perm@;
        proof {
            assert(labels.no_duplicates());
            labels.lemma_multiset_has_no_duplicates();
        }
        shuffle_usizes(&mut rng, &mut perm);
        proof {
            broadcast use vstd::seq_lib::group_to_multiset_ensures;
            assert forall|x: usize| perm@.to_multiset().contains(x) implies perm@.to_multiset().count(x) == 1 by {
                assert(labels.to_multiset().contains(x));
            }
            perm@.lemma_multiset_has_no_duplicates_conv();
            assert forall|k: int| 0 <= k < n implies 1 <= #[trigger] perm@[k] <= n by {
                let x = perm@[k];
                assert(perm@.contains(x));
                assert(perm@.to_multiset().count(x) > 0);
                assert(labels.contains(x));
            }
        }
        let mut adj: Vec<HashSet<usize>> = Vec::new();
        let mut i: usize = 0;
        while i <= n
            invariant
                i <= n + 1,
                n < usize::MAX,
                adj@.len() == i,
                forall|u: int| 0 <= u < i ==> (#[trigger] adj@[u])@ == Set::<usize>::empty(),
            decreases n + 1 - i,
        {
            adj.push(HashSet::new());
            i = i + 1;
        }
        let mut edges: Vec<WeightedArc> = Vec::new();
        let mut i: usize = 0;
        while i < n
            invariant
                n == config.node_count,
                n >= 1,
                i <= n,
                perm@.len() == n,
                perm@.no_duplicates(),
                forall|k: int| 0 <= k < n ==> 1 <= #[trigger] perm@[k] <= n,
                adj@.len() == n + 1,
                edges@.len() == i,
                forall|k: int| 0 <= k < i ==>
                    (#[trigger] edges@[k]).0 == perm@[k] - 1 && edges@[k].1 == perm@[(k + 1) % (n as int)] - 1,
                forall|u: int, v: usize| 1 <= u <= n ==>
                    (#[trigger] adj@[u]@.contains(v) <==> (1 <= v <= n && has_arc(
                        edges@,
                        (u - 1) as usize,
                        (v - 1) as usize,
                    ))),
                arcs_bounded(edges@, n as nat, config.max_weight),
                distinct_pairs(edges@),
                n >= 2 ==> no_self_loops(edges@),
            decreases n - i,
        {
            let u = perm[i];
            let next = if i + 1 < n { i + 1 } else { 0 };
            assert(next == (i + 1) % (n as int)) by (nonlinear_arith)
                requires
                    i < n,
                    next == (if i + 1 < n { i + 1 } else { 0 }),
            ;
            let v = perm[next];
            let w = draw_inclusive_u64(&mut rng, 0, config.max_weight);
            let ghost old_edges = edges@;
            let ghost old_adj = adj@;
            edges.push((u - 1, v - 1, w));
            adj[u].insert(v);
            proof {
                assert forall|uu: int, vv: usize| 1 <= uu <= n implies
                    (#[trigger] adj@[uu]@.contains(vv) <==> (1 <= vv <= n && has_arc(
                        edges@,
                        (uu - 1) as usize,
                        (vv - 1) as usize,
                    ))) by {
                    lemma_has_arc_push(old_edges, ((u - 1) as usize, (v - 1) as usize, w), (uu - 1) as usize, (vv - 1) as usize);
                    if uu != u {
                        assert(adj@[uu] == old_adj[uu]);
                    }
                }
                assert forall|k1: int, k2: int| 0 <= k1 < k2 < edges@.len() implies
                    !((#[trigger] edges@[k1]).0 == (#[trigger] edges@[k2]).0 && edges@[k1].1 == edges@[k2].1) by {
                    if k2 == i {
                        assert(perm@[k1] != perm@[i as int]);
                    } else {
                        assert(edges@[k1] == old_edges[k1]);
                        assert(edges@[k2] == old_edges[k2]);
                    }
                }
                if n >= 2 {
                    assert(next != i);
                    assert(perm@[next as int] != perm@[i as int]);
                    assert forall|k: int| 0 <= k < edges@.len() implies (#[trigger] edges@[k]).0 != edges@[k].1 by {
                        if k < i {
                            assert(edges@[k] == old_edges[k]);
                        }
                    }
                }
            }
            i = i + 1;
        }
        let b = H3Builder { n, max_weight: config.max_weight, rng, adj, edges, remaining: extra };
        assert(hamiltonian_prefix(b.edges@, perm@, n as nat));
        assert(hamiltonian_prefix(b.arcs(), perm@, n as nat));
        b
    }

    /// How many extra edges are still to be added.
    pub fn remaining(&self) -> (r: usize)
        ensures
            r == self.still_to_add(),
    {
        self.remaining
    }

    /// Whether the edge from node `i` to node `j` (1-based) may be added:
    /// the endpoints differ and the edge is new.
    pub fn extra_edge_allowed(&self, i: usize, j: usize) -> (r: bool)
        requires
            self.wf(),
            1 <= i <= self.node_count(),
            1 <= j <= self.node_count(),
        ensures
            r == ((i - 1) as usize != (j - 1) as usize && !has_arc(self.arcs(), (i - 1) as usize, (j - 1) as usize)),
    {
        broadcast use vstd::std_specs::hash::axiom_set_contains_deref_key;
        assert(self.adj@[i as int]@.contains(j) <==> has_arc(self.edges@, (i - 1) as usize, (j - 1) as usize));
        if i == j {
            return false;
        }
        !self.adj[i].contains(&j)
    }

    /// Adds the edge from node `i` to node `j` (1-based) with weight `w`;
    /// one extra edge fewer is still to be added.
    pub fn add_extra_edge(&mut self, i: usize, j: usize, w: u64)
        requires
            old(self).wf(),
            old(self).still_to_add() > 0,
            1 <= i <= old(self).node_count(),
            1 <= j <= old(self).node_count(),
            w <= old(self).weight_limit(),
            i != j,
            !has_arc(old(self).arcs(), (i - 1) as usize, (j - 1) as usize),
        ensures
            final(self).wf(),
            final(self).node_count() == old(self).node_count(),
            final(self).weight_limit() == old(self).weight_limit(),
            final(self).still_to_add() == old(self).still_to_add() - 1,
            final(self).arcs() == old(self).arcs().push(((i - 1) as usize, (j - 1) as usize, w)),
    {
        let n = self.n;
        let ghost old_adj = self.adj@;
        let ghost old_edges = self.edges@;
        assert(!old_adj[i as int]@.contains(j));
        self.adj[i].insert(j);
        self.edges.push((i - 1, j - 1, w));
        self.remaining = self.remaining - 1;
        proof {
            let perm = choose|perm: Seq<usize>| hamiltonian_prefix(old_edges, perm, n as nat);
            assert forall|k: int| 0 <= k < n implies (#[trigger] self.edges@[k]).0 == perm[k] - 1
                && self.edges@[k].1 == perm[(k + 1) % (n as int)] - 1 by {
                assert(self.edges@[k] == old_edges[k]);
            }
            assert(hamiltonian_prefix(self.edges@, perm, n as nat));
            let e: WeightedArc = ((i - 1) as usize, (j - 1) as usize, w);
            assert forall|uu: int, vv: usize| 1 <= uu <= n implies
                (#[trigger] self.adj@[uu]@.contains(vv) <==> (1 <= vv <= n && has_arc(
                    self.edges@,
                    (uu - 1) as usize,
                    (vv - 1) as usize,
                ))) by {
                lemma_has_arc_push(old_edges, e, (uu - 1) as usize, (vv - 1) as usize);
                if uu != i {
                    assert(self.adj@[uu] == old_adj[uu]);
                }
            }
            assert forall|k1: int, k2: int| 0 <= k1 < k2 < self.edges@.len() implies
                !((#[trigger] self.edges@[k1]).0 == (#[trigger] self.edges@[k2]).0
                    && self.edges@[k1].1 == self.edges@[k2].1) by {
                if k2 == old_edges.len() {
                    assert(self.edges@[k1] == old_edges[k1]);
                    if old_edges[k1].0 == e.0 && old_edges[k1].1 == e.1 {
                        assert(has_arc(old_edges, e.0, e.1));
                    }
                } else {
                    assert(self.edges@[k1] == old_edges[k1]);
                    assert(self.edges@[k2] == old_edges[k2]);
                }
            }
            assert forall|k: int| 0 <= k < self.edges@.len() implies
                (#[trigger] self.edges@[k]).0 < n && self.edges@[k].1 < n && self.edges@[k].2 <= self.max_weight by {
                if k < old_edges.len() {
                    assert(self.edges@[k] == old_edges[k]);
                }
            }
            if n >= 2 {
                assert forall|k: int| 0 <= k < self.edges@.len() implies (#[trigger] self.edges@[k]).0 != self.edges@[k].1 by {
                    if k < old_edges.len() {
                        assert(self.edges@[k] == old_edges[k]);
                    }
                }
            }
            assert(self.edges@ == old_edges.push(e));
        }
    }

    /// One attempt at an extra edge: two endpoints are drawn from the nodes;
    /// if the edge between them may be added, a weight is drawn from
    /// `0..=max_weight` and the edge is added.
    pub fn try_extra_edge(&mut self) -> (added: bool)
        requires
            old(self).wf(),
            old(self).still_to_add() > 0,
        ensures
            final(self).wf(),
            final(self).node_count() == old(self).node_count(),
            final(self).weight_limit() == old(self).weight_limit(),
            added ==> final(self).still_to_add() == old(self).still_to_add() - 1,
            !added ==> final(self).still_to_add() == old(self).still_to_add(),
            exists|e: WeightedArc| #[trigger] h3_extra_outcome(
                old(self).arcs(),
                final(self).arcs(),
                old(self).node_count(),
                old(self).weight_limit(),
                e,
                added,
            ),
    {
        let n = self.n;
        let i = draw_inclusive_usize(&mut self.rng, 1, n);
        let j = draw_inclusive_usize(&mut self.rng, 1, n);
        let ghost drawn: WeightedArc = ((i - 1) as usize, (j - 1) as usize, 0u64);
        if !self.extra_edge_allowed(i, j) {
            assert(h3_extra_outcome(old(self).arcs(), self.arcs(), old(self).node_count(), old(self).weight_limit(), drawn, false));
            return false;
        }
        let w = draw_inclusive_u64(&mut self.rng, 0, self.max_weight);
        self.add_extra_edge(i, j, w);
        let ghost e: WeightedArc = ((i - 1) as usize, (j - 1) as usize, w);
        assert(h3_extra_outcome(old(self).arcs(), self.arcs(), old(self).node_count(), old(self).weight_limit(), e, true));
        true
    }

    /// The graph built so far.
    pub fn finish(self) -> (g: EdgeList)
        requires
            self.wf(),
        ensures
            g.node_count == self.node_count(),
            g.edges@ == self.arcs(),
            arcs_bounded(g.edges@, g.node_count as nat, self.weight_limit()),
            distinct_pairs(g.edges@),
            g.node_count >= 2 ==> no_self_loops(g.edges@),
            forall|a: usize, b: usize| a < g.node_count && b < g.node_count ==> #[trigger] reaches(g.edges@, a, b),
    {
        proof {
            let perm = choose|perm: Seq<usize>| hamiltonian_prefix(self.edges@, perm, self.n as nat);
            lemma_cycle_strongly_connected(self.edges@, perm, self.n as nat);
        }
        EdgeList { node_count: self.n, edges: self.edges }
    }
}

proof fn lemma_cycle_forward(edges: Seq<WeightedArc>, perm: Seq<usize>, n: nat, k: int)
    requires
        hamiltonian_prefix(edges, perm, n),
        0 <= k < n,
    ensures
        reaches(edges, (perm[0] - 1) as usize, (perm[k] - 1) as usize),
    decreases k,
{
    if k == 0 {
        lemma_reaches_refl(edges, (perm[0] - 1) as usize);
    } else {
        lemma_cycle_forward(edges, perm, n, k - 1);
        assert((k - 1 + 1) % (n as int) == k) by (nonlinear_arith)
            requires
                0 < k < n,
        ;
        assert(edges[k - 1].0 == perm[k - 1] - 1 && edges[k - 1].1 == perm[k] - 1);
        assert(has_arc(edges, (perm[k - 1] - 1) as usize, (perm[k] - 1) as usize));
        lemma_reaches_step(edges, (perm[0] - 1) as usize, (perm[k - 1] - 1) as usize, (perm[k] - 1) as usize);
    }
}

proof fn lemma_cycle_back(edges: Seq<WeightedArc>, perm: Seq<usize>, n: nat, k: int)
    requires
        hamiltonian_prefix(edges, perm, n),
        0 <= k < n,
    ensures
        reaches(edges, (perm[k] - 1) as usize, (perm[0] - 1) as usize),
    decreases n - k,
{
    let nn = n as int;
    let next = if k + 1 < nn { k + 1 } else { 0 };
    assert((k + 1) % nn == next) by (nonlinear_arith)
        requires
            0 <= k < nn,
            next == (if k + 1 < nn { k + 1 } else { 0 }),
    ;
    assert(edges[k].0 == perm[k] - 1 && edges[k].1 == perm[next] - 1);
    assert(has_arc(edges, (perm[k] - 1) as usize, (perm[next] - 1) as usize));
    lemma_reaches_refl(edges, (perm[k] - 1) as usize);
    lemma_reaches_step(edges, (perm[k] - 1) as usize, (perm[k] - 1) as usize, (perm[next] - 1) as usize);
    if k + 1 < nn {
        lemma_cycle_back(edges, perm, n, k + 1);
        lemma_reaches_trans(edges, (perm[k] - 1) as usize, (perm[k + 1] - 1) as usize, (perm[0] - 1) as usize);
    }
}

/// A sequence of `n` distinct labels from `1..=n` holds every one of them.
proof fn lemma_permutation_covers(perm: Seq<usize>, n: nat, x: usize)
    requires
        perm.len() == n,
        perm.no_duplicates(),
        forall|i: int| 0 <= i < n ==> 1 <= #[trigger] perm[i] <= n,
        1 <= x <= n,
    ensures
        perm.contains(x),
{
    let f = |v: usize| v as int;
    let ints = perm.map_values(f);
    assert forall|i: int, j: int| 0 <= i < ints.len() && 0 <= j < ints.len() && i != j implies ints[i] != ints[j] by {
        assert(perm[i] != perm[j]);
    }
    assert(ints.no_duplicates());
    ints.unique_seq_to_set();
    let range = vstd::set_lib::set_int_range(1, (n + 1) as int);
    vstd::set_lib::lemma_int_range(1, (n + 1) as int);
    assert forall|v: int| ints.to_set().contains(v) implies range.contains(v) by {
        let i = choose|i: int| 0 <= i < ints.len() && ints[i] == v;
        assert(1 <= perm[i] <= n);
    }
    vstd::seq_lib::seq_to_set_is_finite(ints);
    vstd::set_lib::lemma_subset_equality(ints.to_set(), range);
    assert(range.contains(x as int));
    assert(ints.to_set().contains(x as int));
    let i = choose|i: int| 0 <= i < ints.len() && ints[i] == x as int;
    assert(perm[i] == x);
}

/// The Hamiltonian cycle makes the graph strongly connected: every node
/// reaches every node.
pub proof fn lemma_cycle_strongly_connected(edges: Seq<WeightedArc>, perm: Seq<usize>, n: nat)
    requires
        hamiltonian_prefix(edges, perm, n),
        n <= usize::MAX,
    ensures
        forall|a: usize, b: usize| a < n && b < n ==> #[trigger] reaches(edges, a, b),
{
    assert forall|a: usize, b: usize| a < n && b < n implies #[trigger] reaches(edges, a, b) by {
        lemma_permutation_covers(perm, n, (a + 1) as usize);
        lemma_permutation_covers(perm, n, (b + 1) as usize);
        let ka = choose|i: int| 0 <= i < perm.len() && perm[i] == (a + 1) as usize;
        let kb = choose|i: int| 0 <= i < perm.len() && perm[i] == (b + 1) as usize;
        lemma_cycle_back(edges, perm, n, ka);
        lemma_cycle_forward(edges, perm, n, kb);
        lemma_reaches_trans(edges, a, (perm[0] - 1) as usize, b);
    }
}

} // verus!
