use vstd::prelude::*;

verus! {

/// Dijkstra's algorithm over the compressed-sparse-row form of the graph.
pub struct DijkstraOpt;

impl DijkstraOpt {
    pub fn new() -> (res: Self)
        ensures
            res == DijkstraOpt,
    {
        DijkstraOpt
    }
}

impl Default for DijkstraOpt {
    fn default() -> (res: Self)
        ensures
            res == DijkstraOpt,
    {
        Self::new()
    }
}

} // verus!
