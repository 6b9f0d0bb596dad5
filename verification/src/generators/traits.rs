use vstd::prelude::*;

verus! {

/// A generator configuration that can say whether it is usable.
pub trait GeneratorConfig {
    fn validate(&self) -> Result<(), String>;
}

} // verus!
