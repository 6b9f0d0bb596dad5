use duan::graph_repr::{AosEdge, CsrAosGraph, GraphReadError};

fn sample() -> CsrAosGraph {
    let adj = vec![
        vec![
            AosEdge { weight_bits: 1.0f64.to_bits(), target: 1 },
            AosEdge { weight_bits: 4.0f64.to_bits(), target: 2 },
        ],
        vec![AosEdge { weight_bits: 2.5f64.to_bits(), target: 2 }],
        vec![],
    ];
    CsrAosGraph::from_adjacency(&adj)
}

#[test]
fn csr_offsets_and_edges() {
    let g = sample();
    assert_eq!(g.node_count, 3);
    assert_eq!(g.offsets, vec![0, 2, 3, 3]);
    assert_eq!(g.edges(0).len(), 2);
    assert_eq!(g.edges(1)[0].target, 2);
    assert_eq!(f64::from_bits(g.edges(1)[0].weight_bits), 2.5);
    assert!(g.edges(2).is_empty());
}

#[test]
fn binary_round_trip() {
    let g = sample();
    let bytes = g.to_bytes();
    assert_eq!(&bytes[0..4], b"DUAN");
    assert_eq!(bytes.len(), 24 + 4 * 4 + 12 * 3);
    let h = CsrAosGraph::from_bytes(&bytes).unwrap();
    assert_eq!(h.node_count, g.node_count);
    assert_eq!(h.offsets, g.offsets);
    assert_eq!(h.edges, g.edges);
}

#[test]
fn binary_layout_is_little_endian() {
    let g = sample();
    let bytes = g.to_bytes();
    assert_eq!(&bytes[4..8], &1u32.to_le_bytes());
    assert_eq!(&bytes[8..16], &3u64.to_le_bytes());
    assert_eq!(&bytes[16..24], &3u64.to_le_bytes());
    assert_eq!(&bytes[28..32], &2u32.to_le_bytes());
    assert_eq!(&bytes[40..44], &1u32.to_le_bytes());
    assert_eq!(&bytes[44..52], &1.0f64.to_le_bytes());
}

#[test]
fn binary_errors() {
    let g = sample();
    let bytes = g.to_bytes();
    assert_eq!(CsrAosGraph::from_bytes(&bytes[..3]).err(), Some(GraphReadError::UnexpectedEof));
    let mut bad = bytes.clone();
    bad[0] = b'X';
    assert_eq!(CsrAosGraph::from_bytes(&bad).err(), Some(GraphReadError::BadMagic));
    let mut v2 = bytes.clone();
    v2[4] = 2;
    assert_eq!(CsrAosGraph::from_bytes(&v2).err(), Some(GraphReadError::UnknownVersion));
    assert_eq!(
        CsrAosGraph::from_bytes(&bytes[..bytes.len() - 1]).err(),
        Some(GraphReadError::UnexpectedEof)
    );
    let mut longer = bytes.clone();
    longer.push(9);
    assert!(CsrAosGraph::from_bytes(&longer).is_ok());
}

#[test]
fn offsets_valid_checks_the_offsets() {
    let g = CsrAosGraph::from_adjacency(&vec![vec![AosEdge { weight_bits: 1, target: 1 }], vec![]]);
    assert!(g.offsets_valid());
    let bad = CsrAosGraph { offsets: vec![0, 2, 1], edges: vec![AosEdge { weight_bits: 1, target: 1 }], node_count: 2 };
    assert!(!bad.offsets_valid());
    let short = CsrAosGraph { offsets: vec![0, 1], edges: vec![AosEdge { weight_bits: 1, target: 1 }], node_count: 2 };
    assert!(!short.offsets_valid());
    let wrong_end = CsrAosGraph { offsets: vec![0, 0, 0], edges: vec![AosEdge { weight_bits: 1, target: 1 }], node_count: 2 };
    assert!(!wrong_end.offsets_valid());
}
