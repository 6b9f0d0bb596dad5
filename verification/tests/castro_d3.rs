use duan::generators::castro_d3::{d3_can_add_edge, CastroD3Config, D3Tree, D3_DEFAULT_SEED};
use duan::generators::edge_list::EdgeList;
use std::collections::{HashSet, VecDeque};

fn generate(config: &CastroD3Config, seed: u64) -> EdgeList {
    let mut tree = D3Tree::start(config, seed);
    while tree.placed() < config.node_count {
        tree.try_attach();
    }
    let mut builder = tree.orient();
    while builder.emitted() < builder.target() {
        builder.try_extra_edge();
    }
    builder.finish()
}

fn out_degrees(g: &EdgeList) -> Vec<usize> {
    let mut d = vec![0usize; g.node_count];
    for &(u, _, _) in &g.edges {
        d[u] += 1;
    }
    d
}

fn bfs_reach_count(g: &EdgeList, src: usize) -> usize {
    let mut adj: Vec<Vec<usize>> = vec![Vec::new(); g.node_count];
    for &(u, v, _) in &g.edges {
        adj[u].push(v);
    }
    let mut seen = vec![false; g.node_count];
    let mut q = VecDeque::new();
    q.push_back(src);
    seen[src] = true;
    let mut count = 1;
    while let Some(u) = q.pop_front() {
        for &v in &adj[u] {
            if !seen[v] {
                seen[v] = true;
                count += 1;
                q.push_back(v);
            }
        }
    }
    count
}

#[test]
fn castro_d3_correct_size() {
    let config = CastroD3Config { node_count: 256, ..Default::default() };
    let g = generate(&config, 1);
    assert_eq!(g.node_count, 256);
    assert_eq!(g.edges.len(), 256 * 3);
}

#[test]
fn max_outdegree_at_most_four() {
    let config = CastroD3Config { node_count: 1024, ..Default::default() };
    let g = generate(&config, 1);
    for d in out_degrees(&g) {
        assert!(d <= 4, "vertex out-degree {} exceeds cap 4", d);
    }
}

#[test]
fn vertex_zero_reaches_all() {
    let config = CastroD3Config { node_count: 512, ..Default::default() };
    let g = generate(&config, 1);
    assert_eq!(bfs_reach_count(&g, 0), 512);
}

#[test]
fn castro_d3_deterministic_for_fixed_seed() {
    let config = CastroD3Config { node_count: 128, ..Default::default() };
    let g1 = generate(&config, 42);
    let g2 = generate(&config, 42);
    assert_eq!(g1.edges, g2.edges);
}

#[test]
fn no_self_loops_or_duplicates() {
    let config = CastroD3Config { node_count: 256, ..Default::default() };
    let g = generate(&config, 1);
    let mut seen = HashSet::new();
    for &(u, v, _) in &g.edges {
        assert_ne!(u, v);
        assert!(seen.insert((u, v)), "duplicate edge ({},{})", u, v);
    }
}

#[test]
fn castro_d3_full_table() {
    for &n in &[128usize, 256, 512, 1024, 2048, 4096, 8192, 16384] {
        let config = CastroD3Config { node_count: n, ..Default::default() };
        let g = generate(&config, D3_DEFAULT_SEED);
        assert_eq!(g.node_count, n, "n mismatch for D3 size {}", n);
        assert_eq!(g.edges.len(), 3 * n, "m mismatch for D3 size {}", n);
        assert!(
            out_degrees(&g).into_iter().max().unwrap_or(0) <= 4,
            "max out-degree exceeds 4 for D3 size {}",
            n
        );
        assert_eq!(bfs_reach_count(&g, 0), n, "vertex 0 must reach all for D3 size {}", n);
    }
}

#[test]
fn d3_weights_within_range() {
    let config = CastroD3Config { node_count: 300, average_outdegree: 3, max_weight: 7 };
    let g = generate(&config, 5);
    assert!(g.edges.iter().all(|&(u, v, w)| u < 300 && v < 300 && w <= 7));
}

#[test]
fn d3_tree_phase_places_every_node() {
    let config = CastroD3Config { node_count: 64, ..Default::default() };
    let mut tree = D3Tree::start(&config, 3);
    assert_eq!(tree.placed(), 1);
    while tree.placed() < 64 {
        tree.try_attach();
    }
    assert_eq!(tree.placed(), 64);
}

#[test]
fn d3_can_add_edge_checks_room_loop_and_repeat() {
    let adj = vec![vec![], vec![2, 3], vec![1], vec![1]];
    assert!(!d3_can_add_edge(&adj, 1, 2, 4));
    assert!(!d3_can_add_edge(&adj, 2, 2, 4));
    assert!(d3_can_add_edge(&adj, 2, 3, 4));
    assert!(!d3_can_add_edge(&adj, 1, 3, 2));
    assert!(!d3_can_add_edge(&adj, 1, 1, 2));
    assert!(d3_can_add_edge(&adj, 3, 2, 2));
}

#[test]
fn d3_tree_contributes_n_minus_one_edges() {
    for &n in &[1usize, 2, 5, 64, 300] {
        let config = CastroD3Config { node_count: n, ..Default::default() };
        let mut tree = D3Tree::start(&config, 9);
        while tree.placed() < n {
            tree.try_attach();
        }
        let builder = tree.orient();
        assert_eq!(builder.emitted(), n - 1);
        assert_eq!(builder.target(), 3 * n);
    }
}

#[test]
fn d3_tree_hangs_from_node_zero() {
    for &(n, seed) in &[(1usize, 3u64), (2, 4), (7, 5), (64, 6), (300, 7)] {
        let config = CastroD3Config { node_count: n, ..Default::default() };
        let mut tree = D3Tree::start(&config, seed);
        while tree.placed() < n {
            tree.try_attach();
        }
        let g = tree.orient().finish();
        assert_eq!(g.edges.len(), n - 1);
        let mut incoming = vec![0usize; n];
        let mut last_tail = 0usize;
        for &(u, v, _) in &g.edges {
            assert!(u >= last_tail, "tree edges come out node by node");
            last_tail = u;
            incoming[v] += 1;
        }
        assert_eq!(incoming[0], 0);
        for v in 1..n {
            assert_eq!(incoming[v], 1);
        }
    }
}

#[test]
fn d3_extra_edge_checked_then_added() {
    let config = CastroD3Config { node_count: 4, average_outdegree: 1, ..Default::default() };
    let mut tree = D3Tree::start(&config, 11);
    while tree.placed() < 4 {
        tree.try_attach();
    }
    let mut builder = tree.orient();
    assert!(!builder.extra_edge_allowed(2, 2));
    let before = builder.emitted();
    let mut added = None;
    'search: for i in 1..=4usize {
        for j in 1..=4usize {
            if builder.extra_edge_allowed(i, j) {
                builder.add_extra_edge(i, j, 77);
                added = Some((i, j));
                break 'search;
            }
        }
    }
    let (i, j) = added.expect("some edge may be added");
    assert_eq!(builder.emitted(), before + 1);
    assert!(!builder.extra_edge_allowed(i, j));
    let g = builder.finish();
    assert_eq!(*g.edges.last().unwrap(), (i - 1, j - 1, 77));
}

#[test]
fn d3_attach_to_places_node_when_both_ends_have_room() {
    let config = CastroD3Config { node_count: 4, average_outdegree: 0, ..Default::default() };
    let mut tree = D3Tree::start(&config, 1);
    // the degree cap is 1: node 2 goes under node 1, after which node 1 is full
    assert!(tree.attach_to(1));
    assert_eq!(tree.placed(), 2);
    assert!(!tree.attach_to(1));
    assert!(!tree.attach_to(2));
    assert_eq!(tree.placed(), 2);
    let config = CastroD3Config { node_count: 3, ..Default::default() };
    let mut tree = D3Tree::start(&config, 1);
    assert!(tree.attach_to(1));
    assert!(tree.attach_to(2));
    assert_eq!(tree.placed(), 3);
}
