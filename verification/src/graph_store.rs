use vstd::prelude::*;
use crate::text::{decimal, push_decimal, push_str, chars_to_string, is_decimal_digit,
    lemma_decimal_digits, lemma_decimal_injective, lemma_digit_run_split};
use crate::graph_source::SourceSpec;
use crate::generators::castro_d3::{CastroD3Config, D3_AVERAGE_OUTDEGREE, D3_MAX_WEIGHT, D3_DEFAULT_SEED};
use crate::generators::castro_h3::{CastroH3Config, H3_DENSITY, H3_MAX_WEIGHT, H3_DEFAULT_SEED};
use crate::generators::castro_grid::{CastroGridShape, CastroGridWeights, CASTRO_GRID_DEFAULT_SEED};

verus! {

/// Seed of the first instance of every generated graph family.
pub const BASE_SEED: u64 = 42;

/// Largest node count whose graphs are kept with the sources.
pub const COMMIT_MAX_NODES: usize = 131_072;

/// The node counts of the benchmark matrix, powers of two from 2^9 to 2^21.
pub const GRAPH_SIZES: [usize; 13] = [
    512,
    1024,
    2048,
    4096,
    8192,
    16384,
    32768,
    65536,
    131072,
    262144,
    524288,
    1048576,
    2097152,
];

/// The edge factors of the benchmark matrix.
pub const EDGE_FACTORS: [usize; 4] = [4, 8, 16, 32];

/// `.bin`
pub open spec fn bin_suffix() -> Seq<char> {
    seq!['.', 'b', 'i', 'n']
}

fn push_bin_suffix(out: &mut Vec<char>)
    ensures
        final(out)@ == old(out)@ + bin_suffix(),
{
    out.push('.');
    out.push('b');
    out.push('i');
    out.push('n');
    assert(final(out)@ =~= old(out)@ + bin_suffix());
}

/// `n{node_count}_ef{edge_factor}.bin`
pub open spec fn spec_graph_filename(node_count: nat, edge_factor: nat) -> Seq<char> {
    seq!['n'] + decimal(node_count) + seq!['_', 'e', 'f'] + decimal(edge_factor) + bin_suffix()
}

/// `n{node_count}_{key}.bin`
pub open spec fn spec_filename_for_key(node_count: nat, key: Seq<char>) -> Seq<char> {
    seq!['n'] + decimal(node_count) + seq!['_'] + key + bin_suffix()
}

/// File name of one instance of a graph family: sources whose graphs do not
/// depend on the node count are named by their key alone, and instances
/// after the first carry `_g{index}`.
pub open spec fn spec_instance_filename(
    node_count: nat,
    key: Seq<char>,
    ignores_node_count: bool,
    graph_index: nat,
) -> Seq<char> {
    let stem = if ignores_node_count {
        key
    } else {
        seq!['n'] + decimal(node_count) + seq!['_'] + key
    };
    if graph_index == 0 {
        stem + bin_suffix()
    } else {
        stem + seq!['_', 'g'] + decimal(graph_index) + bin_suffix()
    }
}

/// The file name spells the node count and the edge factor in full, so
/// two graphs share a file name only when they have the same node count and
/// the same edge factor.
pub proof fn lemma_graph_filename_injective(n1: nat, e1: nat, n2: nat, e2: nat)
    requires
        spec_graph_filename(n1, e1) == spec_graph_filename(n2, e2),
    ensures
        n1 == n2,
        e1 == e2,
{
    lemma_decimal_digits(n1);
    lemma_decimal_digits(n2);
    lemma_decimal_digits(e1);
    lemma_decimal_digits(e2);
    let s1 = spec_graph_filename(n1, e1);
    let s2 = spec_graph_filename(n2, e2);
    let t1 = seq!['_', 'e', 'f'] + decimal(e1) + bin_suffix();
    let t2 = seq!['_', 'e', 'f'] + decimal(e2) + bin_suffix();
    assert(s1.skip(1) =~= decimal(n1) + t1);
    assert(s2.skip(1) =~= decimal(n2) + t2);
    assert(t1[0] == '_' && t2[0] == '_');
    lemma_digit_run_split(decimal(n1), t1, decimal(n2), t2);
    lemma_decimal_injective(n1, n2);
    assert(t1.skip(3) =~= decimal(e1) + bin_suffix());
    assert(t2.skip(3) =~= decimal(e2) + bin_suffix());
    lemma_digit_run_split(decimal(e1), bin_suffix(), decimal(e2), bin_suffix());
    lemma_decimal_injective(e1, e2);
}

/// The node count is spelled in full before the key, so two graphs share a
/// file name only when they have the same node count and the same key.
pub proof fn lemma_filename_for_key_injective(n1: nat, k1: Seq<char>, n2: nat, k2: Seq<char>)
    requires
        spec_filename_for_key(n1, k1) == spec_filename_for_key(n2, k2),
    ensures
        n1 == n2,
        k1 == k2,
{
    lemma_decimal_digits(n1);
    lemma_decimal_digits(n2);
    let s1 = spec_filename_for_key(n1, k1);
    let s2 = spec_filename_for_key(n2, k2);
    let t1 = seq!['_'] + k1 + bin_suffix();
    let t2 = seq!['_'] + k2 + bin_suffix();
    assert(s1.skip(1) =~= decimal(n1) + t1);
    assert(s2.skip(1) =~= decimal(n2) + t2);
    assert(t1[0] == '_' && t2[0] == '_');
    lemma_digit_run_split(decimal(n1), t1, decimal(n2), t2);
    lemma_decimal_injective(n1, n2);
    assert(k1 =~= t1.subrange(1, t1.len() - 4));
    assert(k2 =~= t2.subrange(1, t2.len() - 4));
}

/// Name of the cached graph with `node_count` nodes and `edge_factor` edges per node.
pub fn graph_filename(node_count: usize, edge_factor: usize) -> (res: String)
    ensures
        res@ == spec_graph_filename(node_count as nat, edge_factor as nat),
{
    let mut out: Vec<char> = Vec::new();
    out.push('n');
    push_decimal(&mut out, node_count);
    out.push('_');
    out.push('e');
    out.push('f');
    push_decimal(&mut out, edge_factor);
    push_bin_suffix(&mut out);
    assert(out@ =~= spec_graph_filename(node_count as nat, edge_factor as nat));
    chars_to_string(&out)
}

/// Name of the cached graph with `node_count` nodes from the source whose
/// cache key is `key`.
pub fn graph_filename_for_key(node_count: usize, key: &str) -> (res: String)
    ensures
        res@ == spec_filename_for_key(node_count as nat, key@),
{
    let mut out: Vec<char> = Vec::new();
    out.push('n');
    push_decimal(&mut out, node_count);
    out.push('_');
    push_str(&mut out, key);
    push_bin_suffix(&mut out);
    assert(out@ =~= spec_filename_for_key(node_count as nat, key@));
    chars_to_string(&out)
}

/// Name of instance `graph_index` of the graph family whose cache key is `key`.
pub fn graph_filename_for_instance_key(
    node_count: usize,
    key: &str,
    ignores_node_count: bool,
    graph_index: usize,
) -> (res: String)
    ensures
        res@ == spec_instance_filename(node_count as nat, key@, ignores_node_count, graph_index as nat),
{
    let mut out: Vec<char> = Vec::new();
    if !ignores_node_count {
        out.push('n');
        push_decimal(&mut out, node_count);
        out.push('_');
    }
    push_str(&mut out, key);
    if graph_index != 0 {
        out.push('_');
        out.push('g');
        push_decimal(&mut out, graph_index);
    }
    push_bin_suffix(&mut out);
    assert(out@ =~= spec_instance_filename(node_count as nat, key@, ignores_node_count, graph_index as nat));
    chars_to_string(&out)
}

/// How a graph of one of the Castro families is generated: its
/// configuration and the seed of its generator.
#[derive(Debug, Clone)]
pub enum CastroPlan {
    D3 { config: CastroD3Config, seed: u64 },
    H3 { config: CastroH3Config, seed: u64 },
    Grid { node_count: usize, shape: CastroGridShape, weights: CastroGridWeights, seed: u64 },
}

/// The generator plan of a Castro family with `node_count` nodes, or
/// nothing for the other sources. Each family keeps its standard average
/// degree, density and weight range and is seeded with the seed of its
/// published scripts (1 for D3, 1971 for H3 and the grids), whatever the
/// seed of the instance: one node count gives one graph.
pub fn castro_plan(source: &SourceSpec, node_count: usize) -> (res: Option<CastroPlan>)
    ensures
        match *source {
            SourceSpec::CastroD3 => res == Some(CastroPlan::D3 {
                config: CastroD3Config {
                    node_count,
                    average_outdegree: D3_AVERAGE_OUTDEGREE,
                    max_weight: D3_MAX_WEIGHT,
                },
                seed: D3_DEFAULT_SEED,
            }),
            SourceSpec::CastroH3 => res == Some(CastroPlan::H3 {
                config: CastroH3Config { node_count, density: H3_DENSITY, max_weight: H3_MAX_WEIGHT },
                seed: H3_DEFAULT_SEED,
            }),
            SourceSpec::CastroSGridED => res == Some(CastroPlan::Grid {
                node_count,
                shape: CastroGridShape::Square,
                weights: CastroGridWeights::Euclidean,
                seed: CASTRO_GRID_DEFAULT_SEED,
            }),
            SourceSpec::CastroRGridED => res == Some(CastroPlan::Grid {
                node_count,
                shape: CastroGridShape::Rectangular,
                weights: CastroGridWeights::Euclidean,
                seed: CASTRO_GRID_DEFAULT_SEED,
            }),
            SourceSpec::CastroSGridR => res == Some(CastroPlan::Grid {
                node_count,
                shape: CastroGridShape::Square,
                weights: CastroGridWeights::RandomInt,
                seed: CASTRO_GRID_DEFAULT_SEED,
            }),
            SourceSpec::CastroRGridR => res == Some(CastroPlan::Grid {
                node_count,
                shape: CastroGridShape::Rectangular,
                weights: CastroGridWeights::RandomInt,
                seed: CASTRO_GRID_DEFAULT_SEED,
            }),
            _ => res is None,
        },
{
    match source {
        SourceSpec::CastroD3 => Some(CastroPlan::D3 {
            config: CastroD3Config {
                node_count,
                average_outdegree: D3_AVERAGE_OUTDEGREE,
                max_weight: D3_MAX_WEIGHT,
            },
            seed: D3_DEFAULT_SEED,
        }),
        SourceSpec::CastroH3 => Some(CastroPlan::H3 {
            config: CastroH3Config { node_count, density: H3_DENSITY, max_weight: H3_MAX_WEIGHT },
            seed: H3_DEFAULT_SEED,
        }),
        SourceSpec::CastroSGridED => Some(CastroPlan::Grid {
            node_count,
            shape: CastroGridShape::Square,
            weights: CastroGridWeights::Euclidean,
            seed: CASTRO_GRID_DEFAULT_SEED,
        }),
        SourceSpec::CastroRGridED => Some(CastroPlan::Grid {
            node_count,
            shape: CastroGridShape::Rectangular,
            weights: CastroGridWeights::Euclidean,
            seed: CASTRO_GRID_DEFAULT_SEED,
        }),
        SourceSpec::CastroSGridR => Some(CastroPlan::Grid {
            node_count,
            shape: CastroGridShape::Square,
            weights: CastroGridWeights::RandomInt,
            seed: CASTRO_GRID_DEFAULT_SEED,
        }),
        SourceSpec::CastroRGridR => Some(CastroPlan::Grid {
            node_count,
            shape: CastroGridShape::Rectangular,
            weights: CastroGridWeights::RandomInt,
            seed: CASTRO_GRID_DEFAULT_SEED,
        }),
        _ => None,
    }
}

} // verus!
