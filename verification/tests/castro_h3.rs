use duan::generators::castro_h3::{h3_extra_edges, CastroH3Config, H3Builder, H3_DEFAULT_SEED};
use duan::generators::edge_list::EdgeList;
use std::collections::{HashSet, VecDeque};

fn generate(config: &CastroH3Config, seed: u64) -> EdgeList {
    let mut builder = H3Builder::start(config, seed);
    while builder.remaining() > 0 {
        builder.try_extra_edge();
    }
    builder.finish()
}

fn reach_count(n: usize, edges: &[(usize, usize)], src: usize) -> usize {
    let mut adj: Vec<Vec<usize>> = vec![Vec::new(); n];
    for &(u, v) in edges {
        adj[u].push(v);
    }
    let mut seen = vec![false; n];
    let mut q = VecDeque::new();
    q.push_back(src);
    seen[src] = true;
    let mut count = 1;
    while let Some(u) = q.pop_front() {
        for &v in &adj[u] {
            if !seen[v] {
                seen[v] = true;
                count += 1;
                q.push_back(v);
            }
        }
    }
    count
}

fn forward(g: &EdgeList) -> Vec<(usize, usize)> {
    g.edges.iter().map(|&(u, v, _)| (u, v)).collect()
}

fn backward(g: &EdgeList) -> Vec<(usize, usize)> {
    g.edges.iter().map(|&(u, v, _)| (v, u)).collect()
}

#[test]
fn castro_h3_correct_size() {
    let config = CastroH3Config { node_count: 256, ..Default::default() };
    let g = generate(&config, 1971);
    assert_eq!(g.node_count, 256);
    assert_eq!(g.edges.len(), 256 * 3);
}

#[test]
fn strongly_connected_via_hamiltonian() {
    let config = CastroH3Config { node_count: 512, ..Default::default() };
    let g = generate(&config, 1971);
    assert_eq!(reach_count(512, &forward(&g), 0), 512);
}

#[test]
fn no_max_outdegree_cap() {
    let config = CastroH3Config { node_count: 64, density: 32, ..Default::default() };
    let g = generate(&config, 1971);
    let mut d = vec![0usize; 64];
    for &(u, _, _) in &g.edges {
        d[u] += 1;
    }
    assert!(d.into_iter().max().unwrap() > 4);
}

#[test]
fn castro_h3_deterministic_for_fixed_seed() {
    let config = CastroH3Config { node_count: 128, ..Default::default() };
    let g1 = generate(&config, 1971);
    let g2 = generate(&config, 1971);
    assert_eq!(g1.edges.len(), g2.edges.len());
    assert_eq!(g1.edges, g2.edges);
}

#[test]
fn castro_h3_full_table() {
    for &n in &[128usize, 256, 512, 1024, 2048, 4096, 8192, 16384, 32768, 65536] {
        let config = CastroH3Config { node_count: n, ..Default::default() };
        let g = generate(&config, H3_DEFAULT_SEED);
        assert_eq!(g.node_count, n, "n mismatch for H3 size {}", n);
        assert_eq!(g.edges.len(), 3 * n, "m mismatch for H3 size {}", n);
        assert_eq!(reach_count(n, &forward(&g), 0), n, "vertex 0 must reach all (forward) for H3 size {}", n);
        assert_eq!(reach_count(n, &backward(&g), 0), n, "vertex 0 must reach all (reverse) for H3 size {}", n);
    }
}

#[test]
fn h3_extra_edges_follow_density_and_simple_graph_limit() {
    assert_eq!(h3_extra_edges(&CastroH3Config { node_count: 256, density: 3, max_weight: 1 }), 512);
    assert_eq!(h3_extra_edges(&CastroH3Config { node_count: 4, density: 32, max_weight: 1 }), 8);
    assert_eq!(h3_extra_edges(&CastroH3Config { node_count: 1, density: 3, max_weight: 1 }), 0);
    assert_eq!(h3_extra_edges(&CastroH3Config { node_count: 10, density: 1, max_weight: 1 }), 0);
    assert_eq!(h3_extra_edges(&CastroH3Config { node_count: 3, density: usize::MAX / 2, max_weight: 1 }), 3);
}

#[test]
fn h3_first_edges_form_a_hamiltonian_cycle() {
    let config = CastroH3Config { node_count: 50, ..Default::default() };
    let g = generate(&config, 7);
    let cycle = &g.edges[..50];
    let mut froms = HashSet::new();
    for k in 0..50 {
        assert!(froms.insert(cycle[k].0));
        assert_eq!(cycle[k].1, cycle[(k + 1) % 50].0);
    }
    assert_eq!(froms.len(), 50);
}

#[test]
fn h3_is_simple_with_weights_in_range() {
    let config = CastroH3Config { node_count: 40, density: 10, max_weight: 9 };
    let g = generate(&config, 11);
    assert_eq!(g.edges.len(), 400);
    let mut seen = HashSet::new();
    for &(u, v, w) in &g.edges {
        assert_ne!(u, v);
        assert!(w <= 9);
        assert!(seen.insert((u, v)));
    }
}

#[test]
fn h3_complete_graph_when_density_exceeds_pairs() {
    let config = CastroH3Config { node_count: 5, density: 100, max_weight: 3 };
    let g = generate(&config, 2);
    assert_eq!(g.edges.len(), 20);
}

#[test]
fn h3_extra_edge_checked_then_added() {
    let config = CastroH3Config { node_count: 4, density: 2, max_weight: 10 };
    let mut builder = H3Builder::start(&config, 5);
    assert!(builder.remaining() > 0);
    assert!(!builder.extra_edge_allowed(3, 3));
    let left = builder.remaining();
    let mut added = None;
    'search: for i in 1..=4usize {
        for j in 1..=4usize {
            if builder.extra_edge_allowed(i, j) {
                builder.add_extra_edge(i, j, 9);
                added = Some((i, j));
                break 'search;
            }
        }
    }
    let (i, j) = added.expect("some edge may be added");
    assert_eq!(builder.remaining(), left - 1);
    assert!(!builder.extra_edge_allowed(i, j));
    let g = builder.finish();
    assert_eq!(*g.edges.last().unwrap(), (i - 1, j - 1, 9));
}
