use vstd::prelude::*;

verus! {

/// Generator of G(n, p) random graphs with uniform random weights.
pub struct ErdosRenyiGenerator;

impl ErdosRenyiGenerator {
    pub fn new() -> (res: Self)
        ensures
            res == ErdosRenyiGenerator,
    {
        ErdosRenyiGenerator
    }
}

impl Default for ErdosRenyiGenerator {
    fn default() -> (res: Self)
        ensures
            res == ErdosRenyiGenerator,
    {
        Self::new()
    }
}

} // verus!
