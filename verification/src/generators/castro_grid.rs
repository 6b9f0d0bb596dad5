use vstd::prelude::*;
use crate::rng::{seeded_rng, draw_inclusive_u64};
use crate::generators::edge_list::{WeightedArc, has_arc, reaches, lemma_reaches_refl, lemma_reaches_step, lemma_reaches_trans};

verus! {

/// Largest random edge weight of the Castro grid families.
pub const CASTRO_GRID_MAX_WEIGHT: u64 = 100_000;

/// Seed that the Castro grid scripts use.
pub const CASTRO_GRID_DEFAULT_SEED: u64 = 1971;

/// Square grids have `sqrt(n)` rows and columns; rectangular grids are four
/// times as wide as they are tall.
#[derive(Debug, Clone, Copy, PartialEq, Eq, Structural)]
pub enum CastroGridShape {
    Square,
    Rectangular,
}

/// Euclidean grids weigh axis edges 1 and diagonal edges sqrt(2); random
/// grids draw integer weights in `1..=max_weight`.
#[derive(Debug, Clone, Copy, PartialEq, Eq, Structural)]
pub enum CastroGridWeights {
    Euclidean,
    RandomInt,
}

#[derive(Debug, Clone)]
pub struct CastroGridConfig {
    pub rows: usize,
    pub cols: usize,
    pub weights: CastroGridWeights,
    pub max_weight: u64,
}

/// `n` has an integer square root.
pub open spec fn is_perfect_square(n: int) -> bool {
    exists|s: nat| #[trigger] (s * s) == n
}

/// The integer square root of a perfect square.
pub open spec fn exact_sqrt(n: int) -> nat {
    choose|s: nat| #[trigger] (s * s) == n
}

/// The node counts that a grid of the given shape accepts.
pub open spec fn shape_accepts(n: int, shape: CastroGridShape) -> bool {
    &&& is_perfect_square(n)
    &&& (shape == CastroGridShape::Rectangular ==> exact_sqrt(n) % 2 == 0)
}

/// `(rows, cols)` of a grid with `n` nodes of the given shape.
pub open spec fn spec_grid_dimensions(n: int, shape: CastroGridShape) -> (int, int) {
    let s = exact_sqrt(n) as int;
    match shape {
        CastroGridShape::Square => (s, s),
        CastroGridShape::Rectangular => (s / 2, s * 2),
    }
}

proof fn lemma_square_monotone(a: int, b: int)
    requires
        0 <= a <= b,
    ensures
        a * a <= b * b,
{
    assert(a * a <= b * b) by (nonlinear_arith)
        requires
            0 <= a <= b,
    ;
}

/// The square root of a perfect square, found by bisection.
fn exact_isqrt(n: usize) -> (s: usize)
    requires
        is_perfect_square(n as int),
    ensures
        s as nat == exact_sqrt(n as int),
        s * s == n,
{
    let ghost r: nat = exact_sqrt(n as int);
    let nn: u128 = n as u128;
    let mut lo: u128 = 0;
    let mut hi: u128 = 0x1_0000_0000_0000_0000;
    assert(nn < hi * hi) by (nonlinear_arith)
        requires
            nn <= 0xffff_ffff_ffff_ffff,
            hi == 0x1_0000_0000_0000_0000,
    ;
    while hi - lo > 1
        invariant
            lo < hi <= 0x1_0000_0000_0000_0000,
            lo * lo <= nn,
            nn < hi * hi,
            nn == n,
        decreases hi - lo,
    {
        let mid: u128 = lo + (hi - lo) / 2;
        assert(mid < hi);
        assert(mid * mid <= 0xffff_ffff_ffff_ffff * 0xffff_ffff_ffff_ffff) by {
            lemma_square_monotone(mid as int, 0xffff_ffff_ffff_ffff);
        }
        if mid * mid <= nn {
            lo = mid;
        } else {
            hi = mid;
        }
    }
    assert(lo * lo <= nn < (lo + 1) * (lo + 1));
    proof {
        let rr = r as int;
        assert(rr * rr == n);
        if rr < lo {
            lemma_square_monotone(rr + 1, lo as int);
            assert((rr + 1) * (rr + 1) == rr * rr + 2 * rr + 1) by (nonlinear_arith);
        } else if rr > lo {
            lemma_square_monotone(lo + 1, rr);
        }
        assert(rr == lo);
        if lo >= 1 {
            assert(lo <= lo * lo) by (nonlinear_arith)
                requires
                    lo >= 1,
            ;
        }
        assert(lo <= usize::MAX);
    }
    lo as usize
}

/// Rows and columns of a Castro grid with `n` nodes. The node count must be a
/// perfect square, and for the rectangular shape its square root must be even.
pub fn grid_dimensions(n: usize, shape: CastroGridShape) -> (res: (usize, usize))
    requires
        shape_accepts(n as int, shape),
    ensures
        (res.0 as int, res.1 as int) == spec_grid_dimensions(n as int, shape),
{
    let s = exact_isqrt(n);
    match shape {
        CastroGridShape::Square => (s, s),
        CastroGridShape::Rectangular => {
            assert(s * 2 <= usize::MAX) by (nonlinear_arith)
                requires
                    s * s == n,
                    n <= usize::MAX,
                    s % 2 == 0,
            {
                if s >= 2 {
                    assert(s * 2 <= s * s);
                }
            }
            (s / 2, s * 2)
        },
    }
}

impl CastroGridConfig {
    /// The grid of the given shape and weight family with `n` nodes and the
    /// standard maximum weight.
    pub fn from_node_count(n: usize, shape: CastroGridShape, weights: CastroGridWeights) -> (res: Self)
        requires
            shape_accepts(n as int, shape),
        ensures
            (res.rows as int, res.cols as int) == spec_grid_dimensions(n as int, shape),
            res.weights == weights,
            res.max_weight == CASTRO_GRID_MAX_WEIGHT,
    {
        let (rows, cols) = grid_dimensions(n, shape);
        CastroGridConfig { rows, cols, weights, max_weight: CASTRO_GRID_MAX_WEIGHT }
    }
}


/// The weight of a grid edge: an integer, or the square root of two on the
/// diagonals of a Euclidean grid.
#[derive(Debug, Clone, Copy, PartialEq, Eq, Structural)]
pub enum GridWeight {
    Int(u64),
    Sqrt2,
}

/// A directed edge of a generated grid.
#[derive(Debug, Clone, Copy, PartialEq, Eq, Structural)]
pub struct GridEdge {
    pub from: usize,
    pub to: usize,
    pub weight: GridWeight,
}

/// A generated grid: `rows * cols` nodes, numbered row by row.
pub struct GridGraph {
    pub node_count: usize,
    pub edges: Vec<GridEdge>,
}

/// The largest weight that the random grid family draws (0 for Euclidean grids).
pub open spec fn weight_cap(cfg: CastroGridConfig) -> int {
    match cfg.weights {
        CastroGridWeights::Euclidean => 0,
        CastroGridWeights::RandomInt => cfg.max_weight as int,
    }
}

/// Weight of the wall: every edge that enters the middle column from row 5
/// down costs more than any path around it.
pub open spec fn wall_weight(cfg: CastroGridConfig) -> int {
    (cfg.cols + cfg.rows + 1) * (weight_cap(cfg) + 1)
}

/// The edges between cell `(i, j)` and cell `(ii, jj)` in both directions,
/// if the latter is on the grid; edges into the wall get the wall weight.
pub open spec fn link(cfg: CastroGridConfig, i: int, j: int, ii: int, jj: int, w: GridWeight) -> Seq<GridEdge> {
    if ii >= cfg.rows || jj >= cfg.cols || jj < 0 {
        seq![]
    } else {
        let w2 = if jj == cfg.cols / 2 && ii >= 5 { GridWeight::Int(wall_weight(cfg) as u64) } else { w };
        let a = (i * cfg.cols + j) as usize;
        let b = (ii * cfg.cols + jj) as usize;
        seq![GridEdge { from: a, to: b, weight: w2 }, GridEdge { from: b, to: a, weight: w2 }]
    }
}

/// Index of the first random draw of cell `(i, j)`.
pub open spec fn draw_index(cfg: CastroGridConfig, i: int, j: int) -> int {
    4 * (i * cfg.cols + j)
}

/// The weight of the `k`-th neighbour of cell `(i, j)`: the cell's `k`-th
/// draw on a random grid; 1 along the axes and sqrt(2) on the diagonals of
/// a Euclidean grid.
pub open spec fn neighbor_weight(cfg: CastroGridConfig, d: Seq<u64>, i: int, j: int, k: int) -> GridWeight {
    match cfg.weights {
        CastroGridWeights::RandomInt => GridWeight::Int(d[draw_index(cfg, i, j) + k]),
        CastroGridWeights::Euclidean => if k < 2 { GridWeight::Int(1) } else { GridWeight::Sqrt2 },
    }
}

/// The edges that cell `(i, j)` adds: to the right, below, below right and
/// below left.
pub open spec fn cell_edges(cfg: CastroGridConfig, d: Seq<u64>, i: int, j: int) -> Seq<GridEdge> {
    link(cfg, i, j, i, j + 1, neighbor_weight(cfg, d, i, j, 0))
        + link(cfg, i, j, i + 1, j, neighbor_weight(cfg, d, i, j, 1))
        + link(cfg, i, j, i + 1, j + 1, neighbor_weight(cfg, d, i, j, 2))
        + link(cfg, i, j, i + 1, j - 1, neighbor_weight(cfg, d, i, j, 3))
}

/// The edges of the cells of row `i` before column `j`.
pub open spec fn row_edges(cfg: CastroGridConfig, d: Seq<u64>, i: int, j: int) -> Seq<GridEdge>
    decreases j,
{
    if j <= 0 {
        seq![]
    } else {
        row_edges(cfg, d, i, j - 1) + cell_edges(cfg, d, i, j - 1)
    }
}

/// The edges of the rows before row `i`.
pub open spec fn grid_edges(cfg: CastroGridConfig, d: Seq<u64>, i: int) -> Seq<GridEdge>
    decreases i,
{
    if i <= 0 {
        seq![]
    } else {
        grid_edges(cfg, d, i - 1) + row_edges(cfg, d, i - 1, cfg.cols as int)
    }
}

/// The number of random draws a grid consumes: four per cell on a random
/// grid, none on a Euclidean one.
pub open spec fn draws_needed(cfg: CastroGridConfig) -> int {
    match cfg.weights {
        CastroGridWeights::RandomInt => 4 * cfg.rows * cfg.cols,
        CastroGridWeights::Euclidean => 0,
    }
}

/// The grid configurations that can be generated: a non-empty grid whose
/// node ids and wall weight fit, and a non-empty weight range for random grids.
pub open spec fn generatable(cfg: CastroGridConfig) -> bool {
    &&& cfg.rows > 0
    &&& cfg.cols > 0
    &&& 4 * cfg.rows * cfg.cols <= usize::MAX
    &&& wall_weight(cfg) <= u64::MAX
    &&& (cfg.weights == CastroGridWeights::RandomInt ==> cfg.max_weight >= 1)
}

fn push_link(
    out: &mut Vec<GridEdge>,
    cfg: &CastroGridConfig,
    wall: u64,
    i: usize,
    j: usize,
    ii: usize,
    jj: usize,
    w: GridWeight,
)
    requires
        generatable(*cfg),
        wall == wall_weight(*cfg),
        i < cfg.rows,
        j < cfg.cols,
        ii <= i + 1,
        jj <= j + 1,
    ensures
        final(out)@ == old(out)@ + link(*cfg, i as int, j as int, ii as int, jj as int, w),
{
    if ii >= cfg.rows || jj >= cfg.cols {
        assert(link(*cfg, i as int, j as int, ii as int, jj as int, w) =~= seq![]);
        return;
    }
    let w2 = if jj == cfg.cols / 2 && ii >= 5 { GridWeight::Int(wall) } else { w };
    proof {
        let rows = cfg.rows as int;
        let cols = cfg.cols as int;
        assert(rows * cols <= 4 * rows * cols) by (nonlinear_arith)
            requires
                rows >= 1,
                cols >= 1,
        ;
        assert(ii * cols + jj < rows * cols) by (nonlinear_arith)
            requires
                0 <= ii < rows,
                0 <= jj < cols,
        ;
        assert(i * cols + j < rows * cols) by (nonlinear_arith)
            requires
                0 <= i < rows,
                0 <= j < cols,
        ;
    }
    let a = i * cfg.cols + j;
    let b = ii * cfg.cols + jj;
    out.push(GridEdge { from: a, to: b, weight: w2 });
    out.push(GridEdge { from: b, to: a, weight: w2 });
    assert(final(out)@ =~= old(out)@ + link(*cfg, i as int, j as int, ii as int, jj as int, w));
}

/// Draws the weights of cell `(i, j)` (on a random grid) and adds its edges.
#[verifier::rlimit(50)]
fn add_cell(
    out: &mut Vec<GridEdge>,
    draws: &mut Vec<u64>,
    rng: &mut rand::rngs::StdRng,
    config: &CastroGridConfig,
    wall: u64,
    random: bool,
    i: usize,
    j: usize,
)
    requires
        generatable(*config),
        random == (config.weights == CastroGridWeights::RandomInt),
        wall == wall_weight(*config),
        i < config.rows,
        j < config.cols,
        random ==> old(draws)@.len() == draw_index(*config, i as int, j as int),
        !random ==> old(draws)@.len() == 0,
        forall|k: int| 0 <= k < old(draws)@.len() ==> 1 <= #[trigger] old(draws)@[k] <= config.max_weight,
    ensures
        random ==> final(draws)@.len() == old(draws)@.len() + 4,
        !random ==> final(draws)@.len() == 0,
        final(draws)@.subrange(0, old(draws)@.len() as int) == old(draws)@,
        forall|k: int| 0 <= k < final(draws)@.len() ==> 1 <= #[trigger] final(draws)@[k] <= config.max_weight,
        forall|dd: Seq<u64>| #![trigger cell_edges(*config, dd, i as int, j as int)]
            dd.len() >= final(draws)@.len() && dd.subrange(0, final(draws)@.len() as int) == final(draws)@
                ==> final(out)@ == old(out)@ + cell_edges(*config, dd, i as int, j as int),
{
    proof {
        assert(4 * (i * config.cols + j) + 4 <= 4 * config.rows * config.cols) by (nonlinear_arith)
            requires
                i < config.rows,
                j < config.cols,
        ;
    }
    let (w0, w1, w2, w3) = if random {
        let x0 = draw_inclusive_u64(rng, 1, config.max_weight);
        let x1 = draw_inclusive_u64(rng, 1, config.max_weight);
        let x2 = draw_inclusive_u64(rng, 1, config.max_weight);
        let x3 = draw_inclusive_u64(rng, 1, config.max_weight);
        draws.push(x0);
        draws.push(x1);
        draws.push(x2);
        draws.push(x3);
        (GridWeight::Int(x0), GridWeight::Int(x1), GridWeight::Int(x2), GridWeight::Int(x3))
    } else {
        (GridWeight::Int(1), GridWeight::Int(1), GridWeight::Sqrt2, GridWeight::Sqrt2)
    };
    let ghost o0 = out@;
    push_link(out, config, wall, i, j, i, j + 1, w0);
    push_link(out, config, wall, i, j, i + 1, j, w1);
    push_link(out, config, wall, i, j, i + 1, j + 1, w2);
    if j > 0 {
        push_link(out, config, wall, i, j, i + 1, j - 1, w3);
    }
    proof {
        let ii = i as int;
        let jj = j as int;
        if j == 0 {
            assert(link(*config, ii, jj, ii + 1, jj - 1, w3) =~= seq![]);
        }
        let l0 = link(*config, ii, jj, ii, jj + 1, w0);
        let l1 = link(*config, ii, jj, ii + 1, jj, w1);
        let l2 = link(*config, ii, jj, ii + 1, jj + 1, w2);
        let l3 = link(*config, ii, jj, ii + 1, jj - 1, w3);
        assert(final(out)@ =~= o0 + (l0 + l1 + l2 + l3));
        assert(final(draws)@.subrange(0, old(draws)@.len() as int) =~= old(draws)@);
        assert forall|dd: Seq<u64>| #![trigger cell_edges(*config, dd, ii, jj)]
            dd.len() >= final(draws)@.len() && dd.subrange(0, final(draws)@.len() as int) == final(draws)@
                implies final(out)@ == old(out)@ + cell_edges(*config, dd, ii, jj) by {
            if random {
                let base = draw_index(*config, ii, jj);
                assert(dd[base] == final(draws)@[base]);
                assert(dd[base + 1] == final(draws)@[base + 1]);
                assert(dd[base + 2] == final(draws)@[base + 2]);
                assert(dd[base + 3] == final(draws)@[base + 3]);
            }
            assert(neighbor_weight(*config, dd, ii, jj, 0) == w0);
            assert(neighbor_weight(*config, dd, ii, jj, 1) == w1);
            assert(neighbor_weight(*config, dd, ii, jj, 2) == w2);
            assert(neighbor_weight(*config, dd, ii, jj, 3) == w3);
            assert(cell_edges(*config, dd, ii, jj) == l0 + l1 + l2 + l3);
        }
    }
}

/// Generates a Castro grid: every cell is joined in both directions to its
/// neighbours to the right, below, below right and below left, and edges
/// into the middle column from row 5 down form a heavy wall. On a random
/// grid each cell draws four weights from `1..=max_weight`, whether or not
/// the neighbour exists.
pub fn generate_seeded(config: &CastroGridConfig, seed: u64) -> (res: GridGraph)
    requires
        generatable(*config),
    ensures
        res.node_count == config.rows * config.cols,
        exists|d: Seq<u64>| {
            &&& d.len() == draws_needed(*config)
            &&& (forall|k: int| 0 <= k < d.len() ==> 1 <= #[trigger] d[k] <= config.max_weight)
            &&& res.edges@ == grid_edges(*config, d, config.rows as int)
        },
        res.edges@.len() == spec_grid_edge_count(config.rows as int, config.cols as int),
        all_grid_edges_ok(*config, res.edges@),
        forall|u: usize, v: usize| u < res.node_count && v < res.node_count ==>
            #[trigger] reaches(grid_arcs(res.edges@), u, v),
        config.weights == CastroGridWeights::Euclidean ==> all_euclidean(*config, res.edges@),
{
    let rows = config.rows;
    let cols = config.cols;
    let random = match config.weights {
        CastroGridWeights::RandomInt => true,
        CastroGridWeights::Euclidean => false,
    };
    let c: u64 = if random { config.max_weight } else { 0 };
    proof {
        assert((cols + rows + 1) * (c + 1) == wall_weight(*config));
        assert(rows * cols <= 4 * rows * cols) by (nonlinear_arith)
            requires
                rows >= 1,
                cols >= 1,
        ;
        assert((cols + rows + 1) as int <= (cols + rows + 1) * (c + 1)) by (nonlinear_arith)
            requires
                c >= 0,
                rows >= 1,
        ;
        assert(c + 1 <= (cols + rows + 1) * (c + 1)) by (nonlinear_arith)
            requires
                c >= 0,
                rows >= 1,
        ;
    }
    let wall: u64 = (cols as u64 + rows as u64 + 1) * (c + 1);
    let mut rng = seeded_rng(seed);
    let mut out: Vec<GridEdge> = Vec::new();
    let mut draws: Vec<u64> = Vec::new();
    let mut i: usize = 0;
    assert(4 * 0 * cols == 0) by (nonlinear_arith);
    while i < rows
        invariant
            generatable(*config),
            rows == config.rows,
            cols == config.cols,
            random == (config.weights == CastroGridWeights::RandomInt),
            wall == wall_weight(*config),
            i <= rows,
            random ==> draws@.len() == 4 * i * cols,
            !random ==> draws@.len() == 0,
            forall|k: int| 0 <= k < draws@.len() ==> 1 <= #[trigger] draws@[k] <= config.max_weight,
            forall|dd: Seq<u64>| #![trigger grid_edges(*config, dd, i as int)]
                dd.len() >= draws@.len() && dd.subrange(0, draws@.len() as int) == draws@
                    ==> out@ == grid_edges(*config, dd, i as int),
        decreases rows - i,
    {
        let ghost row_start = out@;
        let ghost draws_start = draws@;
        let mut j: usize = 0;
        proof {
            if random {
                assert(4 * i * cols == 4 * (i * cols + 0)) by (nonlinear_arith);
            }
            assert(draws@.subrange(0, draws_start.len() as int) =~= draws_start);
            assert forall|dd: Seq<u64>| #![trigger row_edges(*config, dd, i as int, 0)]
                dd.len() >= draws@.len() && dd.subrange(0, draws@.len() as int) == draws@
                    implies out@ == row_start + row_edges(*config, dd, i as int, 0) by {
                assert(out@ =~= row_start + row_edges(*config, dd, i as int, 0));
            }
        }
        while j < cols
            invariant
                generatable(*config),
                rows == config.rows,
                cols == config.cols,
                random == (config.weights == CastroGridWeights::RandomInt),
                wall == wall_weight(*config),
                i < rows,
                j <= cols,
                random ==> draws@.len() == 4 * (i * cols + j),
                !random ==> draws@.len() == 0,
                draws_start.len() <= draws@.len(),
                draws@.subrange(0, draws_start.len() as int) == draws_start,
                forall|dd: Seq<u64>| #![trigger grid_edges(*config, dd, i as int)]
                    dd.len() >= draws_start.len() && dd.subrange(0, draws_start.len() as int) == draws_start
                        ==> row_start == grid_edges(*config, dd, i as int),
                forall|k: int| 0 <= k < draws@.len() ==> 1 <= #[trigger] draws@[k] <= config.max_weight,
                forall|dd: Seq<u64>| #![trigger row_edges(*config, dd, i as int, j as int)]
                    dd.len() >= draws@.len() && dd.subrange(0, draws@.len() as int) == draws@
                        ==> out@ == row_start + row_edges(*config, dd, i as int, j as int),
            decreases cols - j,
        {
            proof {
                assert(4 * (i * cols + j) + 4 <= 4 * rows * cols) by (nonlinear_arith)
                    requires
                        i < rows,
                        j < cols,
                ;
            }
            let ghost before = out@;
            let ghost draws_before = draws@;
            add_cell(&mut out, &mut draws, &mut rng, config, wall, random, i, j);
            proof {
                let ii = i as int;
                let jj = j as int;
                assert(draws@.subrange(0, draws_start.len() as int) =~= draws_start);
                assert forall|dd: Seq<u64>| #![trigger row_edges(*config, dd, ii, jj + 1)]
                    dd.len() >= draws@.len() && dd.subrange(0, draws@.len() as int) == draws@
                        implies out@ == row_start + row_edges(*config, dd, ii, jj + 1) by {
                    assert(dd.subrange(0, draws_before.len() as int) =~= draws@.subrange(0, draws_before.len() as int));
                    assert(before == row_start + row_edges(*config, dd, ii, jj));
                    assert(out@ == before + cell_edges(*config, dd, ii, jj));
                    assert(out@ =~= row_start + row_edges(*config, dd, ii, jj + 1));
                }
                if random {
                    assert(4 * (ii * cols + jj) + 4 == 4 * (ii * cols + (jj + 1))) by (nonlinear_arith);
                }
            }
            j = j + 1;
        }
        proof {
            let ii = i as int;
            if random {
                assert(4 * (ii * cols + cols) == 4 * (ii + 1) * cols) by (nonlinear_arith);
            }
            assert forall|dd: Seq<u64>| #![trigger grid_edges(*config, dd, ii + 1)]
                dd.len() >= draws@.len() && dd.subrange(0, draws@.len() as int) == draws@
                    implies out@ == grid_edges(*config, dd, ii + 1) by {
                assert(dd.subrange(0, draws_start.len() as int) =~= draws@.subrange(0, draws_start.len() as int));
                assert(row_start == grid_edges(*config, dd, ii));
                assert(out@ == row_start + row_edges(*config, dd, ii, cols as int));
                assert(grid_edges(*config, dd, ii + 1) == grid_edges(*config, dd, ii) + row_edges(*config, dd, ii, cols as int));
            }
        }
        i = i + 1;
    }
    proof {
        if random {
            assert(4 * rows * cols == draws_needed(*config));
        }
        assert(draws@.subrange(0, draws@.len() as int) =~= draws@);
        assert(out@ == grid_edges(*config, draws@, rows as int));
        lemma_grid_edge_count(*config, draws@);
        lemma_grid_edges_well_formed(*config, draws@);
        lemma_grid_strongly_connected(*config, draws@);
        if !random {
            lemma_euclidean_grid_weights(*config, draws@);
        }
    }
    GridGraph { node_count: rows * cols, edges: out }
}

/// Number of directed edges of a grid with `rows` rows and `cols` columns:
/// both directions of its `4 rows cols - 3 rows - 3 cols + 2` neighbour pairs
/// (horizontal, vertical and both diagonals).
pub open spec fn spec_grid_edge_count(rows: int, cols: int) -> int {
    2 * (4 * rows * cols - 3 * rows - 3 * cols + 2)
}

proof fn lemma_row_edges_len(cfg: CastroGridConfig, d: Seq<u64>, i: int, j: int)
    requires
        0 <= i < cfg.rows,
        0 <= j <= cfg.cols,
        cfg.cols >= 1,
    ensures
        row_edges(cfg, d, i, j).len() == if i + 1 < cfg.rows {
            2 * (2 * (if j < cfg.cols { j } else { cfg.cols - 1 }) + j + (if j > 0 { j - 1 } else { 0 }))
        } else {
            2 * (if j < cfg.cols { j } else { cfg.cols - 1 })
        },
    decreases j,
{
    if j > 0 {
        lemma_row_edges_len(cfg, d, i, j - 1);
        lemma_cell_edges_len(cfg, d, i, j - 1);
        assert(row_edges(cfg, d, i, j) == row_edges(cfg, d, i, j - 1) + cell_edges(cfg, d, i, j - 1));
    } else {
        assert(row_edges(cfg, d, i, j) =~= seq![]);
    }
}

proof fn lemma_link_len(cfg: CastroGridConfig, i: int, j: int, ii: int, jj: int, w: GridWeight)
    ensures
        link(cfg, i, j, ii, jj, w).len() == if ii >= cfg.rows || jj >= cfg.cols || jj < 0 { 0int } else { 2int },
{
}

proof fn lemma_cell_edges_len(cfg: CastroGridConfig, d: Seq<u64>, i: int, j: int)
    requires
        0 <= i < cfg.rows,
        0 <= j < cfg.cols,
    ensures
        cell_edges(cfg, d, i, j).len() == 2 * (
            (if j + 1 < cfg.cols { 1int } else { 0int })
            + (if i + 1 < cfg.rows { 1int } else { 0int })
            + (if i + 1 < cfg.rows && j + 1 < cfg.cols { 1int } else { 0int })
            + (if i + 1 < cfg.rows && j >= 1 { 1int } else { 0int })
        ),
{
    lemma_link_len(cfg, i, j, i, j + 1, neighbor_weight(cfg, d, i, j, 0));
    lemma_link_len(cfg, i, j, i + 1, j, neighbor_weight(cfg, d, i, j, 1));
    lemma_link_len(cfg, i, j, i + 1, j + 1, neighbor_weight(cfg, d, i, j, 2));
    lemma_link_len(cfg, i, j, i + 1, j - 1, neighbor_weight(cfg, d, i, j, 3));
}

proof fn lemma_grid_edges_len(cfg: CastroGridConfig, d: Seq<u64>, i: int)
    requires
        0 <= i <= cfg.rows,
        cfg.rows >= 1,
        cfg.cols >= 1,
    ensures
        grid_edges(cfg, d, i).len() == if i < cfg.rows {
            i * (2 * (4 * cfg.cols - 3))
        } else {
            (i - 1) * (2 * (4 * cfg.cols - 3)) + 2 * (cfg.cols - 1)
        },
    decreases i,
{
    if i > 0 {
        lemma_grid_edges_len(cfg, d, i - 1);
        lemma_row_edges_len(cfg, d, i - 1, cfg.cols as int);
        let k = 2 * (4 * cfg.cols - 3);
        assert((i - 1) * k + k == i * k) by (nonlinear_arith);
    }
}

/// A grid with `rows` rows and `cols` columns has
/// `spec_grid_edge_count(rows, cols)` edges, whatever weights were drawn.
pub proof fn lemma_grid_edge_count(cfg: CastroGridConfig, d: Seq<u64>)
    requires
        cfg.rows >= 1,
        cfg.cols >= 1,
    ensures
        grid_edges(cfg, d, cfg.rows as int).len() == spec_grid_edge_count(cfg.rows as int, cfg.cols as int),
{
    lemma_grid_edges_len(cfg, d, cfg.rows as int);
    let r = cfg.rows as int;
    let c = cfg.cols as int;
    assert((r - 1) * (2 * (4 * c - 3)) + 2 * (c - 1) == 2 * (4 * r * c - 3 * r - 3 * c + 2)) by (nonlinear_arith);
}

/// An edge of a grid joins two distinct nodes of the grid and weighs the
/// wall weight or what its family allows: a draw in `1..=max_weight` on a
/// random grid, 1 or sqrt(2) on a Euclidean one.
pub open spec fn grid_edge_ok(cfg: CastroGridConfig, e: GridEdge) -> bool {
    &&& e.from < cfg.rows * cfg.cols
    &&& e.to < cfg.rows * cfg.cols
    &&& e.from != e.to
    &&& (e.weight == GridWeight::Int(wall_weight(cfg) as u64) || match cfg.weights {
        CastroGridWeights::RandomInt => e.weight matches GridWeight::Int(w) && 1 <= w <= cfg.max_weight,
        CastroGridWeights::Euclidean => e.weight == GridWeight::Int(1) || e.weight == GridWeight::Sqrt2,
    })
}

/// Every edge of the sequence satisfies `grid_edge_ok`.
pub open spec fn all_grid_edges_ok(cfg: CastroGridConfig, s: Seq<GridEdge>) -> bool {
    forall|k: int| 0 <= k < s.len() ==> grid_edge_ok(cfg, #[trigger] s[k])
}

/// The draws that a grid may consume: as many as it needs, each in `1..=max_weight`.
pub open spec fn valid_draws(cfg: CastroGridConfig, d: Seq<u64>) -> bool {
    &&& d.len() == draws_needed(cfg)
    &&& forall|k: int| 0 <= k < d.len() ==> 1 <= #[trigger] d[k] <= cfg.max_weight
}

proof fn lemma_all_ok_concat(cfg: CastroGridConfig, a: Seq<GridEdge>, b: Seq<GridEdge>)
    requires
        all_grid_edges_ok(cfg, a),
        all_grid_edges_ok(cfg, b),
    ensures
        all_grid_edges_ok(cfg, a + b),
{
    assert forall|k: int| 0 <= k < (a + b).len() implies grid_edge_ok(cfg, #[trigger] (a + b)[k]) by {
        if k < a.len() {
            assert((a + b)[k] == a[k]);
        } else {
            assert((a + b)[k] == b[k - a.len()]);
        }
    }
}

proof fn lemma_link_ok(cfg: CastroGridConfig, i: int, j: int, ii: int, jj: int, w: GridWeight)
    requires
        generatable(cfg),
        0 <= i < cfg.rows,
        0 <= j < cfg.cols,
        (ii == i && jj == j + 1) || (ii == i + 1 && j - 1 <= jj <= j + 1),
        w == GridWeight::Int(wall_weight(cfg) as u64) || match cfg.weights {
            CastroGridWeights::RandomInt => w matches GridWeight::Int(x) && 1 <= x <= cfg.max_weight,
            CastroGridWeights::Euclidean => w == GridWeight::Int(1) || w == GridWeight::Sqrt2,
        },
    ensures
        all_grid_edges_ok(cfg, link(cfg, i, j, ii, jj, w)),
{
    if !(ii >= cfg.rows || jj >= cfg.cols || jj < 0) {
        let r = cfg.rows as int;
        let c = cfg.cols as int;
        assert(r * c <= 4 * r * c) by (nonlinear_arith)
            requires
                r >= 1,
                c >= 1,
        ;
        assert(i * c + j < r * c) by (nonlinear_arith)
            requires
                0 <= i < r,
                0 <= j < c,
        ;
        assert(ii * c + jj < r * c) by (nonlinear_arith)
            requires
                0 <= ii < r,
                0 <= jj < c,
        ;
        if ii == i + 1 {
            assert(ii * c + jj == i * c + c + jj) by (nonlinear_arith)
                requires
                    ii == i + 1,
            ;
        }
        assert(i * c + j < ii * c + jj);
    }
}

proof fn lemma_cell_edges_ok(cfg: CastroGridConfig, d: Seq<u64>, i: int, j: int)
    requires
        generatable(cfg),
        valid_draws(cfg, d),
        0 <= i < cfg.rows,
        0 <= j < cfg.cols,
    ensures
        all_grid_edges_ok(cfg, cell_edges(cfg, d, i, j)),
{
    let r = cfg.rows as int;
    let c = cfg.cols as int;
    assert(4 * (i * c + j) + 4 <= 4 * r * c) by (nonlinear_arith)
        requires
            0 <= i < r,
            0 <= j < c,
    ;
    let base = draw_index(cfg, i, j);
    if cfg.weights == CastroGridWeights::RandomInt {
        assert(1 <= d[base] <= cfg.max_weight);
        assert(1 <= d[base + 1] <= cfg.max_weight);
        assert(1 <= d[base + 2] <= cfg.max_weight);
        assert(1 <= d[base + 3] <= cfg.max_weight);
    }
    let l0 = link(cfg, i, j, i, j + 1, neighbor_weight(cfg, d, i, j, 0));
    let l1 = link(cfg, i, j, i + 1, j, neighbor_weight(cfg, d, i, j, 1));
    let l2 = link(cfg, i, j, i + 1, j + 1, neighbor_weight(cfg, d, i, j, 2));
    let l3 = link(cfg, i, j, i + 1, j - 1, neighbor_weight(cfg, d, i, j, 3));
    lemma_link_ok(cfg, i, j, i, j + 1, neighbor_weight(cfg, d, i, j, 0));
    lemma_link_ok(cfg, i, j, i + 1, j, neighbor_weight(cfg, d, i, j, 1));
    lemma_link_ok(cfg, i, j, i + 1, j + 1, neighbor_weight(cfg, d, i, j, 2));
    lemma_link_ok(cfg, i, j, i + 1, j - 1, neighbor_weight(cfg, d, i, j, 3));
    lemma_all_ok_concat(cfg, l0, l1);
    lemma_all_ok_concat(cfg, l0 + l1, l2);
    lemma_all_ok_concat(cfg, l0 + l1 + l2, l3);
}

proof fn lemma_row_edges_ok(cfg: CastroGridConfig, d: Seq<u64>, i: int, j: int)
    requires
        generatable(cfg),
        valid_draws(cfg, d),
        0 <= i < cfg.rows,
        0 <= j <= cfg.cols,
    ensures
        all_grid_edges_ok(cfg, row_edges(cfg, d, i, j)),
    decreases j,
{
    if j > 0 {
        lemma_row_edges_ok(cfg, d, i, j - 1);
        lemma_cell_edges_ok(cfg, d, i, j - 1);
        lemma_all_ok_concat(cfg, row_edges(cfg, d, i, j - 1), cell_edges(cfg, d, i, j - 1));
    }
}

proof fn lemma_grid_edges_ok(cfg: CastroGridConfig, d: Seq<u64>, i: int)
    requires
        generatable(cfg),
        valid_draws(cfg, d),
        0 <= i <= cfg.rows,
    ensures
        all_grid_edges_ok(cfg, grid_edges(cfg, d, i)),
    decreases i,
{
    if i > 0 {
        lemma_grid_edges_ok(cfg, d, i - 1);
        lemma_row_edges_ok(cfg, d, i - 1, cfg.cols as int);
        lemma_all_ok_concat(cfg, grid_edges(cfg, d, i - 1), row_edges(cfg, d, i - 1, cfg.cols as int));
    }
}

/// Every edge of a generated grid joins two distinct nodes of the grid, and
/// its weight is the wall weight, or a draw in `1..=max_weight` on a random
/// grid, or 1 or sqrt(2) on a Euclidean grid.
pub proof fn lemma_grid_edges_well_formed(cfg: CastroGridConfig, d: Seq<u64>)
    requires
        generatable(cfg),
        valid_draws(cfg, d),
    ensures
        all_grid_edges_ok(cfg, grid_edges(cfg, d, cfg.rows as int)),
{
    lemma_grid_edges_ok(cfg, d, cfg.rows as int);
}

/// The grid's edges as unweighted arcs (weight 0), for questions of reach.
pub open spec fn grid_arcs(s: Seq<GridEdge>) -> Seq<WeightedArc> {
    Seq::new(s.len(), |k: int| (s[k].from, s[k].to, 0u64))
}

/// Some edge of `s` goes from `a` to `b`.
pub open spec fn grid_has(s: Seq<GridEdge>, a: usize, b: usize) -> bool {
    exists|k: int| 0 <= k < s.len() && (#[trigger] s[k]).from == a && s[k].to == b
}

/// Node id of cell `(i, j)`.
pub open spec fn cell_id(cfg: CastroGridConfig, i: int, j: int) -> usize {
    (i * cfg.cols + j) as usize
}

proof fn lemma_grid_has_concat(s1: Seq<GridEdge>, s2: Seq<GridEdge>, a: usize, b: usize)
    requires
        grid_has(s1, a, b) || grid_has(s2, a, b),
    ensures
        grid_has(s1 + s2, a, b),
{
    if grid_has(s1, a, b) {
        let k = choose|k: int| 0 <= k < s1.len() && (#[trigger] s1[k]).from == a && s1[k].to == b;
        assert((s1 + s2)[k] == s1[k]);
    } else {
        let k = choose|k: int| 0 <= k < s2.len() && (#[trigger] s2[k]).from == a && s2[k].to == b;
        assert((s1 + s2)[s1.len() + k] == s2[k]);
    }
}

/// Cell `(i, j)` joins itself and cell `(ii, jj)` in both directions.
pub open spec fn joined(s: Seq<GridEdge>, cfg: CastroGridConfig, i: int, j: int, ii: int, jj: int) -> bool {
    &&& grid_has(s, cell_id(cfg, i, j), cell_id(cfg, ii, jj))
    &&& grid_has(s, cell_id(cfg, ii, jj), cell_id(cfg, i, j))
}

proof fn lemma_link_joined(cfg: CastroGridConfig, i: int, j: int, ii: int, jj: int, w: GridWeight)
    requires
        0 <= ii < cfg.rows,
        0 <= jj < cfg.cols,
    ensures
        joined(link(cfg, i, j, ii, jj, w), cfg, i, j, ii, jj),
{
    let l = link(cfg, i, j, ii, jj, w);
    assert(l[0].from == cell_id(cfg, i, j) && l[0].to == cell_id(cfg, ii, jj));
    assert(l[1].from == cell_id(cfg, ii, jj) && l[1].to == cell_id(cfg, i, j));
}

proof fn lemma_joined_concat(s1: Seq<GridEdge>, s2: Seq<GridEdge>, cfg: CastroGridConfig, i: int, j: int, ii: int, jj: int)
    requires
        joined(s1, cfg, i, j, ii, jj) || joined(s2, cfg, i, j, ii, jj),
    ensures
        joined(s1 + s2, cfg, i, j, ii, jj),
{
    if joined(s1, cfg, i, j, ii, jj) {
        lemma_grid_has_concat(s1, s2, cell_id(cfg, i, j), cell_id(cfg, ii, jj));
        lemma_grid_has_concat(s1, s2, cell_id(cfg, ii, jj), cell_id(cfg, i, j));
    } else {
        lemma_grid_has_concat(s1, s2, cell_id(cfg, i, j), cell_id(cfg, ii, jj));
        lemma_grid_has_concat(s1, s2, cell_id(cfg, ii, jj), cell_id(cfg, i, j));
    }
}

/// Cell `(i, j)` is joined to its right neighbour and to the cell below it,
/// where they exist.
proof fn lemma_cell_joined(cfg: CastroGridConfig, d: Seq<u64>, i: int, j: int)
    requires
        0 <= i < cfg.rows,
        0 <= j < cfg.cols,
    ensures
        j + 1 < cfg.cols ==> joined(cell_edges(cfg, d, i, j), cfg, i, j, i, j + 1),
        i + 1 < cfg.rows ==> joined(cell_edges(cfg, d, i, j), cfg, i, j, i + 1, j),
{
    let l0 = link(cfg, i, j, i, j + 1, neighbor_weight(cfg, d, i, j, 0));
    let l1 = link(cfg, i, j, i + 1, j, neighbor_weight(cfg, d, i, j, 1));
    let l2 = link(cfg, i, j, i + 1, j + 1, neighbor_weight(cfg, d, i, j, 2));
    let l3 = link(cfg, i, j, i + 1, j - 1, neighbor_weight(cfg, d, i, j, 3));
    if j + 1 < cfg.cols {
        lemma_link_joined(cfg, i, j, i, j + 1, neighbor_weight(cfg, d, i, j, 0));
        lemma_joined_concat(l0, l1, cfg, i, j, i, j + 1);
        lemma_joined_concat(l0 + l1, l2, cfg, i, j, i, j + 1);
        lemma_joined_concat(l0 + l1 + l2, l3, cfg, i, j, i, j + 1);
    }
    if i + 1 < cfg.rows {
        lemma_link_joined(cfg, i, j, i + 1, j, neighbor_weight(cfg, d, i, j, 1));
        lemma_joined_concat(l0, l1, cfg, i, j, i + 1, j);
        lemma_joined_concat(l0 + l1, l2, cfg, i, j, i + 1, j);
        lemma_joined_concat(l0 + l1 + l2, l3, cfg, i, j, i + 1, j);
    }
}

/// What a cell's edges join, the whole grid joins.
proof fn lemma_grid_joined(cfg: CastroGridConfig, d: Seq<u64>, i: int, j: int, ii: int, jj: int)
    requires
        0 <= i < cfg.rows,
        0 <= j < cfg.cols,
        joined(cell_edges(cfg, d, i, j), cfg, i, j, ii, jj),
    ensures
        joined(grid_edges(cfg, d, cfg.rows as int), cfg, i, j, ii, jj),
{
    lemma_row_joined(cfg, d, i, j, ii, jj, cfg.cols as int);
    lemma_rows_joined(cfg, d, i, j, ii, jj, cfg.rows as int);
}

proof fn lemma_row_joined(cfg: CastroGridConfig, d: Seq<u64>, i: int, j: int, ii: int, jj: int, upto: int)
    requires
        0 <= j < upto,
        joined(cell_edges(cfg, d, i, j), cfg, i, j, ii, jj),
    ensures
        joined(row_edges(cfg, d, i, upto), cfg, i, j, ii, jj),
    decreases upto,
{
    if j == upto - 1 {
        lemma_joined_concat(row_edges(cfg, d, i, upto - 1), cell_edges(cfg, d, i, upto - 1), cfg, i, j, ii, jj);
    } else {
        lemma_row_joined(cfg, d, i, j, ii, jj, upto - 1);
        lemma_joined_concat(row_edges(cfg, d, i, upto - 1), cell_edges(cfg, d, i, upto - 1), cfg, i, j, ii, jj);
    }
}

proof fn lemma_rows_joined(cfg: CastroGridConfig, d: Seq<u64>, i: int, j: int, ii: int, jj: int, upto: int)
    requires
        0 <= i < upto,
        joined(row_edges(cfg, d, i, cfg.cols as int), cfg, i, j, ii, jj),
    ensures
        joined(grid_edges(cfg, d, upto), cfg, i, j, ii, jj),
    decreases upto,
{
    if i == upto - 1 {
        lemma_joined_concat(grid_edges(cfg, d, upto - 1), row_edges(cfg, d, upto - 1, cfg.cols as int), cfg, i, j, ii, jj);
    } else {
        lemma_rows_joined(cfg, d, i, j, ii, jj, upto - 1);
        lemma_joined_concat(grid_edges(cfg, d, upto - 1), row_edges(cfg, d, upto - 1, cfg.cols as int), cfg, i, j, ii, jj);
    }
}

proof fn lemma_joined_arcs(s: Seq<GridEdge>, cfg: CastroGridConfig, i: int, j: int, ii: int, jj: int)
    requires
        joined(s, cfg, i, j, ii, jj),
    ensures
        has_arc(grid_arcs(s), cell_id(cfg, i, j), cell_id(cfg, ii, jj)),
        has_arc(grid_arcs(s), cell_id(cfg, ii, jj), cell_id(cfg, i, j)),
{
    let a = cell_id(cfg, i, j);
    let b = cell_id(cfg, ii, jj);
    let k1 = choose|k: int| 0 <= k < s.len() && (#[trigger] s[k]).from == a && s[k].to == b;
    let k2 = choose|k: int| 0 <= k < s.len() && (#[trigger] s[k]).from == b && s[k].to == a;
    assert(grid_arcs(s)[k1].0 == a && grid_arcs(s)[k1].1 == b);
    assert(grid_arcs(s)[k2].0 == b && grid_arcs(s)[k2].1 == a);
}

/// Node 0 and cell `(i, j)` reach each other.
proof fn lemma_cell_reach(cfg: CastroGridConfig, d: Seq<u64>, i: int, j: int)
    requires
        0 <= i < cfg.rows,
        0 <= j < cfg.cols,
    ensures
        reaches(grid_arcs(grid_edges(cfg, d, cfg.rows as int)), 0, cell_id(cfg, i, j)),
        reaches(grid_arcs(grid_edges(cfg, d, cfg.rows as int)), cell_id(cfg, i, j), 0),
    decreases i, j,
{
    let a = grid_arcs(grid_edges(cfg, d, cfg.rows as int));
    if i == 0 && j == 0 {
        assert(cell_id(cfg, 0, 0) == 0);
        lemma_reaches_refl(a, 0);
    } else if i == 0 {
        lemma_cell_reach(cfg, d, 0, j - 1);
        lemma_cell_joined(cfg, d, 0, j - 1);
        lemma_grid_joined(cfg, d, 0, j - 1, 0, j);
        lemma_joined_arcs(grid_edges(cfg, d, cfg.rows as int), cfg, 0, j - 1, 0, j);
        lemma_reaches_step(a, 0, cell_id(cfg, 0, j - 1), cell_id(cfg, 0, j));
        lemma_reaches_refl(a, cell_id(cfg, 0, j));
        lemma_reaches_step(a, cell_id(cfg, 0, j), cell_id(cfg, 0, j), cell_id(cfg, 0, j - 1));
        lemma_reaches_trans(a, cell_id(cfg, 0, j), cell_id(cfg, 0, j - 1), 0);
    } else {
        lemma_cell_reach(cfg, d, i - 1, j);
        lemma_cell_joined(cfg, d, i - 1, j);
        lemma_grid_joined(cfg, d, i - 1, j, i, j);
        lemma_joined_arcs(grid_edges(cfg, d, cfg.rows as int), cfg, i - 1, j, i, j);
        lemma_reaches_step(a, 0, cell_id(cfg, i - 1, j), cell_id(cfg, i, j));
        lemma_reaches_refl(a, cell_id(cfg, i, j));
        lemma_reaches_step(a, cell_id(cfg, i, j), cell_id(cfg, i, j), cell_id(cfg, i - 1, j));
        lemma_reaches_trans(a, cell_id(cfg, i, j), cell_id(cfg, i - 1, j), 0);
    }
}

/// Every node of a grid reaches every node along its edges: each cell is
/// joined in both directions to its right neighbour and to the cell below.
pub proof fn lemma_grid_strongly_connected(cfg: CastroGridConfig, d: Seq<u64>)
    requires
        generatable(cfg),
    ensures
        forall|u: usize, v: usize| u < cfg.rows * cfg.cols && v < cfg.rows * cfg.cols ==>
            #[trigger] reaches(grid_arcs(grid_edges(cfg, d, cfg.rows as int)), u, v),
{
    let a = grid_arcs(grid_edges(cfg, d, cfg.rows as int));
    let c = cfg.cols as int;
    assert forall|u: usize, v: usize| u < cfg.rows * cfg.cols && v < cfg.rows * cfg.cols implies
        #[trigger] reaches(a, u, v) by {
        let uu = u as int;
        let vv = v as int;
        let iu = uu / c;
        let ju = uu % c;
        let iv = vv / c;
        let jv = vv % c;
        assert(uu == iu * c + ju && 0 <= ju < c && 0 <= iu < cfg.rows) by (nonlinear_arith)
            requires
                c > 0,
                0 <= uu < cfg.rows * c,
                iu == uu / c,
                ju == uu % c,
        ;
        assert(vv == iv * c + jv && 0 <= jv < c && 0 <= iv < cfg.rows) by (nonlinear_arith)
            requires
                c > 0,
                0 <= vv < cfg.rows * c,
                iv == vv / c,
                jv == vv % c,
        ;
        assert(cell_id(cfg, iu, ju) == u);
        assert(cell_id(cfg, iv, jv) == v);
        lemma_cell_reach(cfg, d, iu, ju);
        lemma_cell_reach(cfg, d, iv, jv);
        lemma_reaches_trans(a, u, 0, v);
    }
}

/// Cell `(ii, jj)` is a neighbour that cell `(i, j)` links to: the cell to
/// the right, below, below right or below left.
pub open spec fn is_forward_neighbor(i: int, j: int, ii: int, jj: int) -> bool {
    ||| (ii == i && jj == j + 1)
    ||| (ii == i + 1 && jj == j)
    ||| (ii == i + 1 && jj == j + 1)
    ||| (ii == i + 1 && jj == j - 1)
}

/// Edge `e` joins cell `(i, j)` and its neighbour `(ii, jj)`, in either
/// direction, and unless it enters the wall its weight is the Euclidean
/// distance of the two cells: 1 when they share a row or a column, sqrt(2)
/// when they differ in both.
pub open spec fn euclidean_edge_at(cfg: CastroGridConfig, e: GridEdge, i: int, j: int, ii: int, jj: int) -> bool {
    let a = (i * cfg.cols + j) as usize;
    let b = (ii * cfg.cols + jj) as usize;
    &&& 0 <= i < cfg.rows && 0 <= j < cfg.cols
    &&& 0 <= ii < cfg.rows && 0 <= jj < cfg.cols
    &&& is_forward_neighbor(i, j, ii, jj)
    &&& ((e.from == a && e.to == b) || (e.from == b && e.to == a))
    &&& (jj == cfg.cols / 2 && ii >= 5)
        || e.weight == (if ii == i || jj == j { GridWeight::Int(1) } else { GridWeight::Sqrt2 })
}

/// Edge `e` of a Euclidean grid joins two neighbouring cells with the
/// weight of their distance (or is a wall edge).
pub open spec fn euclidean_edge(cfg: CastroGridConfig, e: GridEdge) -> bool {
    exists|i: int, j: int, ii: int, jj: int| #[trigger] euclidean_edge_at(cfg, e, i, j, ii, jj)
}

/// Every edge of `s` is a Euclidean edge.
pub open spec fn all_euclidean(cfg: CastroGridConfig, s: Seq<GridEdge>) -> bool {
    forall|k: int| 0 <= k < s.len() ==> #[trigger] euclidean_edge(cfg, s[k])
}

proof fn lemma_all_euclidean_concat(cfg: CastroGridConfig, a: Seq<GridEdge>, b: Seq<GridEdge>)
    requires
        all_euclidean(cfg, a),
        all_euclidean(cfg, b),
    ensures
        all_euclidean(cfg, a + b),
{
    assert forall|k: int| 0 <= k < (a + b).len() implies #[trigger] euclidean_edge(cfg, (a + b)[k]) by {
        if k < a.len() {
            assert((a + b)[k] == a[k]);
        } else {
            assert((a + b)[k] == b[k - a.len()]);
        }
    }
}

proof fn lemma_link_euclidean(cfg: CastroGridConfig, i: int, j: int, ii: int, jj: int, w: GridWeight)
    requires
        0 <= i < cfg.rows,
        0 <= j < cfg.cols,
        is_forward_neighbor(i, j, ii, jj),
        w == (if ii == i || jj == j { GridWeight::Int(1) } else { GridWeight::Sqrt2 }),
    ensures
        all_euclidean(cfg, link(cfg, i, j, ii, jj, w)),
{
    let l = link(cfg, i, j, ii, jj, w);
    assert forall|k: int| 0 <= k < l.len() implies #[trigger] euclidean_edge(cfg, l[k]) by {
        assert(euclidean_edge_at(cfg, l[k], i, j, ii, jj));
    }
}

proof fn lemma_cell_euclidean(cfg: CastroGridConfig, d: Seq<u64>, i: int, j: int)
    requires
        cfg.weights == CastroGridWeights::Euclidean,
        0 <= i < cfg.rows,
        0 <= j < cfg.cols,
    ensures
        all_euclidean(cfg, cell_edges(cfg, d, i, j)),
{
    let l0 = link(cfg, i, j, i, j + 1, neighbor_weight(cfg, d, i, j, 0));
    let l1 = link(cfg, i, j, i + 1, j, neighbor_weight(cfg, d, i, j, 1));
    let l2 = link(cfg, i, j, i + 1, j + 1, neighbor_weight(cfg, d, i, j, 2));
    let l3 = link(cfg, i, j, i + 1, j - 1, neighbor_weight(cfg, d, i, j, 3));
    lemma_link_euclidean(cfg, i, j, i, j + 1, neighbor_weight(cfg, d, i, j, 0));
    lemma_link_euclidean(cfg, i, j, i + 1, j, neighbor_weight(cfg, d, i, j, 1));
    lemma_link_euclidean(cfg, i, j, i + 1, j + 1, neighbor_weight(cfg, d, i, j, 2));
    lemma_link_euclidean(cfg, i, j, i + 1, j - 1, neighbor_weight(cfg, d, i, j, 3));
    lemma_all_euclidean_concat(cfg, l0, l1);
    lemma_all_euclidean_concat(cfg, l0 + l1, l2);
    lemma_all_euclidean_concat(cfg, l0 + l1 + l2, l3);
}

proof fn lemma_row_euclidean(cfg: CastroGridConfig, d: Seq<u64>, i: int, j: int)
    requires
        cfg.weights == CastroGridWeights::Euclidean,
        0 <= i < cfg.rows,
        j <= cfg.cols,
    ensures
        all_euclidean(cfg, row_edges(cfg, d, i, j)),
    decreases j,
{
    if j > 0 {
        lemma_row_euclidean(cfg, d, i, j - 1);
        lemma_cell_euclidean(cfg, d, i, j - 1);
        lemma_all_euclidean_concat(cfg, row_edges(cfg, d, i, j - 1), cell_edges(cfg, d, i, j - 1));
    }
}

proof fn lemma_rows_euclidean(cfg: CastroGridConfig, d: Seq<u64>, i: int)
    requires
        cfg.weights == CastroGridWeights::Euclidean,
        i <= cfg.rows,
    ensures
        all_euclidean(cfg, grid_edges(cfg, d, i)),
    decreases i,
{
    if i > 0 {
        lemma_rows_euclidean(cfg, d, i - 1);
        lemma_row_euclidean(cfg, d, i - 1, cfg.cols as int);
        lemma_all_euclidean_concat(cfg, grid_edges(cfg, d, i - 1), row_edges(cfg, d, i - 1, cfg.cols as int));
    }
}

/// On a Euclidean grid every edge joins a cell to its neighbour to the
/// right, below, below right or below left (in one direction or the other),
/// and every edge that does not enter the wall weighs the Euclidean
/// distance of its cells: 1 along a row or a column, sqrt(2) on a diagonal.
pub proof fn lemma_euclidean_grid_weights(cfg: CastroGridConfig, d: Seq<u64>)
    requires
        cfg.weights == CastroGridWeights::Euclidean,
    ensures
        all_euclidean(cfg, grid_edges(cfg, d, cfg.rows as int)),
{
    lemma_rows_euclidean(cfg, d, cfg.rows as int);
}

} // verus!
