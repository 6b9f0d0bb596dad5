use duan::algorithms::transform::constant_degree_transform;

#[test]
fn transform_builds_cycles_and_maps_edges() {
    // 0 -> 1 (w=7), 1 -> 2 (w=9), node 3 isolated
    let outs = vec![vec![1], vec![2], vec![], vec![]];
    let ins = vec![vec![], vec![0], vec![1], vec![]];
    let edges = vec![(0usize, 1usize, 7u64), (1, 2, 9)];
    let r = constant_degree_transform(4, &outs, &ins, &edges, 0, 2);
    // proxies: node0 -> [p0], node1 -> [p1 (faces 2), p2 (faces 0)], node2 -> [p3], node3 -> [p4]
    assert_eq!(r.node_count, 5);
    assert_eq!(r.node_mapping, vec![0, 1, 1, 2, 3]);
    // cycles: node0 self-loop, node1 p1->p2, p2->p1, node2 self-loop
    assert_eq!(&r.edges[..4], &[(0, 0, 0), (1, 2, 0), (2, 1, 0), (3, 3, 0)]);
    assert_eq!(&r.edges[4..], &[(0, 2, 7), (1, 3, 9)]);
    assert_eq!(r.source, 0);
    assert_eq!(r.node_mapping[r.source], 0);
}

#[test]
fn transform_source_with_only_incoming_edges() {
    let outs = vec![vec![1], vec![]];
    let ins = vec![vec![], vec![0]];
    let edges = vec![(0usize, 1usize, 3u64)];
    let r = constant_degree_transform(2, &outs, &ins, &edges, 1, 4);
    assert_eq!(r.node_mapping[r.source], 1);
    assert_eq!(r.node_count, 2);
}

#[test]
fn transform_edges_join_proxies_of_their_endpoints() {
    // a small graph with a parallel edge, a two-cycle and an isolated node
    let edges = vec![(0usize, 1usize, 5u64), (1, 0, 6), (1, 2, 7), (0, 1, 8), (2, 3, 1)];
    let n = 5;
    let mut outs = vec![Vec::new(); n];
    let mut ins = vec![Vec::new(); n];
    for &(u, v, _) in &edges {
        outs[u].push(v);
        ins[v].push(u);
    }
    let r = constant_degree_transform(n, &outs, &ins, &edges, 2, 3);
    let cycles = r.edges.len() - edges.len();
    for (k, &(a, b, w)) in r.edges.iter().enumerate() {
        assert!(a < r.node_count && b < r.node_count);
        if k < cycles {
            assert_eq!(w, 0);
            assert_eq!(r.node_mapping[a], r.node_mapping[b]);
        } else {
            let (u, v, ow) = edges[k - cycles];
            assert_eq!((r.node_mapping[a], r.node_mapping[b], w), (u, v, ow));
        }
    }
    assert_eq!(r.node_mapping[r.source], 2);
    assert_eq!(r.node_mapping[r.node_count - 1], 4);
}
