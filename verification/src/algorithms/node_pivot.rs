use vstd::prelude::*;

verus! {

/// Per-node bookkeeping of pivot finding: the source whose tree the node
/// joined, and for a source the size of its tree.
#[derive(Clone, Copy, Debug, PartialEq, Eq, Structural)]
pub struct NodePivot {
    pub root: u32,
    pub tree_size: u32,
}

} // verus!
