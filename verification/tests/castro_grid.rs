use duan::generators::castro_d3::{CastroD3Config, D3_DEFAULT_SEED};
use duan::generators::castro_grid::{
    generate_seeded, grid_dimensions, CastroGridConfig, CastroGridShape, CastroGridWeights,
    GridEdge, GridGraph, GridWeight, CASTRO_GRID_DEFAULT_SEED,
};
use duan::generators::castro_h3::{CastroH3Config, H3_DEFAULT_SEED};
use std::collections::VecDeque;

fn weight_value(w: GridWeight) -> f64 {
    match w {
        GridWeight::Int(x) => x as f64,
        GridWeight::Sqrt2 => std::f64::consts::SQRT_2,
    }
}

fn bfs_reach_count(g: &GridGraph, src: usize) -> usize {
    let n = g.node_count;
    let mut adj: Vec<Vec<usize>> = vec![Vec::new(); n];
    for e in &g.edges {
        adj[e.from].push(e.to);
    }
    let mut seen = vec![false; n];
    let mut q = VecDeque::new();
    q.push_back(src);
    seen[src] = true;
    let mut count = 1;
    while let Some(u) = q.pop_front() {
        for &v in &adj[u] {
            if !seen[v] {
                seen[v] = true;
                count += 1;
                q.push_back(v);
            }
        }
    }
    count
}

fn edge_triples(g: &GridGraph) -> Vec<(usize, usize, GridWeight)> {
    g.edges.iter().map(|e: &GridEdge| (e.from, e.to, e.weight)).collect()
}

#[test]
fn square_dimensions() {
    let cfg = CastroGridConfig::from_node_count(
        256,
        CastroGridShape::Square,
        CastroGridWeights::Euclidean,
    );
    assert_eq!((cfg.rows, cfg.cols), (16, 16));
}

#[test]
fn rectangular_dimensions_4to1() {
    let cfg = CastroGridConfig::from_node_count(
        256,
        CastroGridShape::Rectangular,
        CastroGridWeights::Euclidean,
    );
    assert_eq!((cfg.rows, cfg.cols), (8, 32));
}

#[test]
fn euclidean_weights_use_sqrt2_for_diagonal() {
    let cfg = CastroGridConfig {
        rows: 4,
        cols: 4,
        weights: CastroGridWeights::Euclidean,
        max_weight: 0,
    };
    let g = generate_seeded(&cfg, 1971);
    let mut saw_orth = false;
    let mut saw_diag = false;
    for e in &g.edges {
        let w = weight_value(e.weight);
        if (w - 1.0).abs() < 1e-9 {
            saw_orth = true;
        } else if (w - std::f64::consts::SQRT_2).abs() < 1e-9 {
            saw_diag = true;
        }
    }
    assert!(saw_orth);
    assert!(saw_diag);
}

#[test]
fn random_weights_within_range() {
    let cfg = CastroGridConfig {
        rows: 4,
        cols: 4,
        weights: CastroGridWeights::RandomInt,
        max_weight: 100,
    };
    let g = generate_seeded(&cfg, 1971);
    let wall_weight = ((4 + 4 + 1) as u64 * (100 + 1)) as f64;
    for e in &g.edges {
        let w = weight_value(e.weight);
        let ok_normal = w >= 1.0 && w <= 100.0;
        let ok_wall = (w - wall_weight).abs() < 1e-9;
        assert!(
            ok_normal || ok_wall,
            "weight {} out of [1, 100] and not wall {}",
            w,
            wall_weight
        );
    }
}

#[test]
fn fully_reachable_from_zero() {
    let cfg = CastroGridConfig::from_node_count(
        1024,
        CastroGridShape::Square,
        CastroGridWeights::Euclidean,
    );
    let g = generate_seeded(&cfg, 1971);
    assert_eq!(bfs_reach_count(&g, 0), 1024);
}

#[test]
fn deterministic_random() {
    let cfg = CastroGridConfig {
        rows: 8,
        cols: 8,
        weights: CastroGridWeights::RandomInt,
        max_weight: 100,
    };
    let g1 = generate_seeded(&cfg, 1971);
    let g2 = generate_seeded(&cfg, 1971);
    assert_eq!(edge_triples(&g1), edge_triples(&g2));
}

#[test]
fn castro_grid_dimensions_match_table() {
    let cases = vec![
        (256usize, CastroGridShape::Square, (16usize, 16usize)),
        (256, CastroGridShape::Rectangular, (8, 32)),
        (1024, CastroGridShape::Square, (32, 32)),
        (1024, CastroGridShape::Rectangular, (16, 64)),
        (4096, CastroGridShape::Square, (64, 64)),
        (4096, CastroGridShape::Rectangular, (32, 128)),
        (16_384, CastroGridShape::Square, (128, 128)),
        (16_384, CastroGridShape::Rectangular, (64, 256)),
        (65_536, CastroGridShape::Square, (256, 256)),
        (65_536, CastroGridShape::Rectangular, (128, 512)),
        (262_144, CastroGridShape::Square, (512, 512)),
        (262_144, CastroGridShape::Rectangular, (256, 1024)),
        (1_048_576, CastroGridShape::Square, (1024, 1024)),
        (1_048_576, CastroGridShape::Rectangular, (512, 2048)),
        (4_194_304, CastroGridShape::Square, (2048, 2048)),
        (4_194_304, CastroGridShape::Rectangular, (1024, 4096)),
        (16_777_216, CastroGridShape::Square, (4096, 4096)),
        (16_777_216, CastroGridShape::Rectangular, (2048, 8192)),
    ];
    for (n, shape, expected) in cases {
        let got = grid_dimensions(n, shape);
        assert_eq!(got, expected, "dimensions for n={}, {:?}", n, shape);
    }
}

#[test]
fn castro_grid_edge_count_8connectivity() {
    let r = 16usize;
    let c = 16usize;
    let cfg = CastroGridConfig {
        rows: r,
        cols: c,
        weights: CastroGridWeights::Euclidean,
        max_weight: 0,
    };
    let g = generate_seeded(&cfg, CASTRO_GRID_DEFAULT_SEED);
    assert_eq!(g.node_count, r * c);
    let undirected_edges = r * (c - 1) + (r - 1) * c + 2 * (r - 1) * (c - 1);
    assert_eq!(g.edges.len(), 2 * undirected_edges);
}

#[test]
fn castro_grid_wall_weight_present_in_random() {
    let cfg = CastroGridConfig {
        rows: 16,
        cols: 16,
        weights: CastroGridWeights::RandomInt,
        max_weight: 100_000,
    };
    let g = generate_seeded(&cfg, CASTRO_GRID_DEFAULT_SEED);
    let wall = ((cfg.cols + cfg.rows + 1) as u64 * (cfg.max_weight + 1)) as f64;
    let saw_wall = g.edges.iter().any(|e| (weight_value(e.weight) - wall).abs() < 1e-9);
    assert!(saw_wall, "expected at least one wall-weight edge");
}

#[test]
fn castro_grid_wall_weight_present_in_euclidean() {
    let cfg = CastroGridConfig {
        rows: 16,
        cols: 16,
        weights: CastroGridWeights::Euclidean,
        max_weight: 0,
    };
    let g = generate_seeded(&cfg, CASTRO_GRID_DEFAULT_SEED);
    let wall = ((cfg.cols + cfg.rows + 1) as u64 * 1) as f64;
    let saw_wall = g.edges.iter().any(|e| (weight_value(e.weight) - wall).abs() < 1e-9);
    assert!(saw_wall, "expected at least one wall-weight edge");
}

#[test]
fn castro_grid_random_weights_in_paper_range() {
    let cfg = CastroGridConfig {
        rows: 32,
        cols: 32,
        weights: CastroGridWeights::RandomInt,
        max_weight: 100_000,
    };
    let g = generate_seeded(&cfg, CASTRO_GRID_DEFAULT_SEED);
    let wall = ((cfg.cols + cfg.rows + 1) as u64 * (cfg.max_weight + 1)) as f64;
    for e in &g.edges {
        let w = weight_value(e.weight);
        let in_range = w >= 1.0 && w <= 100_000.0;
        let is_wall = (w - wall).abs() < 1e-9;
        assert!(
            in_range || is_wall,
            "weight {} out of paper range [1, 100000] and not wall {}",
            w,
            wall
        );
    }
}

#[test]
fn castro_grid_euclidean_weights_only_1_or_sqrt2_or_wall() {
    let cfg = CastroGridConfig {
        rows: 16,
        cols: 16,
        weights: CastroGridWeights::Euclidean,
        max_weight: 0,
    };
    let g = generate_seeded(&cfg, CASTRO_GRID_DEFAULT_SEED);
    let wall = ((cfg.cols + cfg.rows + 1) as u64 * 1) as f64;
    for e in &g.edges {
        let w = weight_value(e.weight);
        let ok = (w - 1.0).abs() < 1e-9
            || (w - std::f64::consts::SQRT_2).abs() < 1e-9
            || (w - wall).abs() < 1e-9;
        assert!(ok, "unexpected Euclidean grid weight: {}", w);
    }
}

#[test]
fn castro_d3_h3_seed_constants_match_paper_scripts() {
    assert_eq!(D3_DEFAULT_SEED, 1, "Castro's D3 bash uses seed=1");
    assert_eq!(H3_DEFAULT_SEED, 1971, "Castro's H3 bash uses seed=1971");
    assert_eq!(
        CASTRO_GRID_DEFAULT_SEED, 1971,
        "Castro's grid bash uses seed=1971"
    );
}

#[test]
fn castro_d3_default_max_weight_matches_paper() {
    let cfg = CastroD3Config::default();
    assert_eq!(
        cfg.max_weight, 100_000,
        "Castro's D3 bash uses max_weight=100000"
    );
}

#[test]
fn castro_h3_default_max_weight_and_density_match_paper() {
    let cfg = CastroH3Config::default();
    assert_eq!(
        cfg.max_weight, 100_000,
        "Castro's H3 bash uses C=max_weight=100000"
    );
    assert_eq!(cfg.density, 3, "paper reports H3 density");
}

#[test]
fn grid_edges_pair_up_in_both_directions() {
    let cfg = CastroGridConfig {
        rows: 3,
        cols: 2,
        weights: CastroGridWeights::Euclidean,
        max_weight: 0,
    };
    let g = generate_seeded(&cfg, 7);
    // cell (0,0): right (0->1), down (0->2), down-right (0->3)
    assert_eq!(g.edges[0], GridEdge { from: 0, to: 1, weight: GridWeight::Int(1) });
    assert_eq!(g.edges[1], GridEdge { from: 1, to: 0, weight: GridWeight::Int(1) });
    assert_eq!(g.edges[2], GridEdge { from: 0, to: 2, weight: GridWeight::Int(1) });
    assert_eq!(g.edges[4], GridEdge { from: 0, to: 3, weight: GridWeight::Sqrt2 });
    // 3x2 grid: 2*(3*1 + 2*2 + 2*2*1) directed edges
    assert_eq!(g.edges.len(), 22);
}

#[test]
fn wall_applies_from_row_five_in_middle_column() {
    let cfg = CastroGridConfig {
        rows: 7,
        cols: 4,
        weights: CastroGridWeights::Euclidean,
        max_weight: 0,
    };
    let g = generate_seeded(&cfg, 7);
    let wall = GridWeight::Int(4 + 7 + 1);
    // the edge from (4,1) down to (5,2) enters column 2 at row 5
    let e = g.edges.iter().find(|e| e.from == 4 * 4 + 1 && e.to == 5 * 4 + 2).unwrap();
    assert_eq!(e.weight, wall);
    // the edge from (3,1) down-right to (4,2) is above the wall
    let e = g.edges.iter().find(|e| e.from == 3 * 4 + 1 && e.to == 4 * 4 + 2).unwrap();
    assert_eq!(e.weight, GridWeight::Sqrt2);
}
