//! Balanced recursive decomposition of a rooted phylogenetic tree into
//! contiguous taxon ranges, together with a prefix-sum index over an
//! associated multiple-sequence alignment that answers per-range, per-column
//! non-gap character counts by a single subtraction.

pub mod crucible;
pub mod decomp;
pub mod tree;
