use vstd::prelude::*;

verus! {

/// The bounded multi-source shortest-path solver, optionally run on the
/// constant-degree transform of the input graph.
pub struct BmsspO6 {
    use_transform: bool,
    max_degree: usize,
}

impl BmsspO6 {
    /// Whether the input graph is first transformed to constant degree.
    pub closed spec fn spec_uses_transform(&self) -> bool {
        self.use_transform
    }

    /// The degree bound handed to the transform.
    pub closed spec fn spec_max_degree(&self) -> usize {
        self.max_degree
    }

    /// The solver on the graph as given.
    pub fn new() -> (res: Self)
        ensures
            !res.spec_uses_transform(),
            res.spec_max_degree() == 4,
    {
        BmsspO6 { use_transform: false, max_degree: 4 }
    }

    /// The solver on the constant-degree transform of the graph.
    pub fn with_transformation(max_degree: usize) -> (res: Self)
        ensures
            res.spec_uses_transform(),
            res.spec_max_degree() == max_degree,
    {
        BmsspO6 { use_transform: true, max_degree }
    }

    /// Whether the input graph is first transformed to constant degree.
    pub fn uses_transform(&self) -> (b: bool)
        ensures
            b == self.spec_uses_transform(),
    {
        self.use_transform
    }

    /// The degree bound handed to the transform.
    pub fn max_degree(&self) -> (d: usize)
        ensures
            d == self.spec_max_degree(),
    {
        self.max_degree
    }
}

impl Default for BmsspO6 {
    fn default() -> (res: Self)
        ensures
            !res.spec_uses_transform(),
            res.spec_max_degree() == 4,
    {
        Self::new()
    }
}

} // verus!
