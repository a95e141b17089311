//! In-memory model of a rooted phylogenetic tree over a fixed taxon set.
//!
//! Nodes carry dense integer ids `0..num_nodes` with node `0` the root, and
//! every non-root node's parent has a strictly smaller id, so ancestor walks
//! terminate by construction. Each leaf maps to a taxon id `0..ntaxa`.

use vstd::prelude::*;

verus! {

/// A rooted tree, read-only for the decomposer.
pub struct Tree {
    /// Number of taxa (leaf labels range over `0..ntaxa`).
    pub ntaxa: usize,
    /// `parent[v]` is the parent of node `v`; `parent[0] == 0`.
    pub parent: Vec<usize>,
    /// `leaf[v]` holds exactly when node `v` is a leaf.
    pub leaf: Vec<bool>,
    /// For a leaf `v`, `taxa[v]` is its taxon id; unused for internal nodes.
    pub taxa: Vec<usize>,
}

impl Tree {
    pub open spec fn num_nodes(self) -> int {
        self.parent@.len() as int
    }

    /// Well-formedness: non-empty, self-parented root, parents strictly
    /// below children in id order, and leaf taxon ids within `0..ntaxa`.
    pub open spec fn wf(self) -> bool {
        &&& self.num_nodes() >= 1
        &&& self.leaf@.len() == self.num_nodes()
        &&& self.taxa@.len() == self.num_nodes()
        &&& self.parent@[0] == 0
        &&& forall|v: int| 1 <= v < self.num_nodes() ==> #[trigger] self.parent@[v] < v
        &&& forall|v: int|
            0 <= v < self.num_nodes() && self.leaf@[v] ==> #[trigger] self.taxa@[v] < self.ntaxa
    }

}

} // verus!
