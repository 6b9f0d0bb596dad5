use vstd::prelude::*;

verus! {

/// Generator of random graphs with an exact number of distinct directed edges.
pub struct FixedEdgeCountGenerator;

impl FixedEdgeCountGenerator {
    pub fn new() -> (res: Self)
        ensures
            res == FixedEdgeCountGenerator,
    {
        FixedEdgeCountGenerator
    }
}

impl Default for FixedEdgeCountGenerator {
    fn default() -> (res: Self)
        ensures
            res == FixedEdgeCountGenerator,
    {
        Self::new()
    }
}

} // verus!
