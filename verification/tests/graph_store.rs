use duan::generators::castro_grid::{CastroGridShape, CastroGridWeights};
use duan::graph_source::SourceSpec;
use duan::graph_store::{castro_plan, CastroPlan};
use duan::graph_store::{graph_filename, graph_filename_for_instance_key, graph_filename_for_key, BASE_SEED, GRAPH_SIZES};

#[test]
fn graph_filename_formats_counts() {
    assert_eq!(graph_filename(1024, 8), "n1024_ef8.bin");
    assert_eq!(graph_filename(0, 0), "n0_ef0.bin");
}

#[test]
fn filenames_for_keys_and_instances() {
    assert_eq!(graph_filename_for_key(512, "ba_m5"), "n512_ba_m5.bin");
    assert_eq!(graph_filename_for_instance_key(512, "grid", false, 0), "n512_grid.bin");
    assert_eq!(graph_filename_for_instance_key(512, "grid", false, 3), "n512_grid_g3.bin");
    assert_eq!(graph_filename_for_instance_key(512, "dimacs_NY", true, 0), "dimacs_NY.bin");
    assert_eq!(graph_filename_for_instance_key(512, "dimacs_NY", true, 2), "dimacs_NY_g2.bin");
}

#[test]
fn benchmark_constants() {
    assert_eq!(BASE_SEED, 42);
    assert_eq!(GRAPH_SIZES[0], 1 << 9);
    assert_eq!(GRAPH_SIZES[12], 1 << 21);
}

#[test]
fn castro_plans_use_the_published_seeds() {
    match castro_plan(&SourceSpec::CastroD3, 256) {
        Some(CastroPlan::D3 { config, seed }) => {
            assert_eq!((config.node_count, config.average_outdegree, config.max_weight, seed), (256, 3, 100_000, 1));
        }
        other => panic!("unexpected plan {:?}", other),
    }
    match castro_plan(&SourceSpec::CastroH3, 512) {
        Some(CastroPlan::H3 { config, seed }) => {
            assert_eq!((config.node_count, seed), (512, 1971));
        }
        other => panic!("unexpected plan {:?}", other),
    }
    match castro_plan(&SourceSpec::CastroRGridR, 1024) {
        Some(CastroPlan::Grid { node_count, shape, weights, seed }) => {
            assert_eq!((node_count, shape, weights, seed), (1024, CastroGridShape::Rectangular, CastroGridWeights::RandomInt, 1971));
        }
        other => panic!("unexpected plan {:?}", other),
    }
    assert!(castro_plan(&SourceSpec::Grid, 1024).is_none());
    assert!(castro_plan(&SourceSpec::FixedEdgeCount { edge_factor: 4 }, 1024).is_none());
}
