use melt::decomp::hierarchical_decomp;
use melt::tree::Tree;

/// Balanced binary tree with 8 leaves: node 0 the root, internal nodes 1..7,
/// leaves 7..15 carrying taxa 0..8 in order.
fn balanced_eight() -> Tree {
    let parent = vec![0, 0, 0, 1, 1, 2, 2, 3, 3, 4, 4, 5, 5, 6, 6];
    let leaf: Vec<bool> = (0..15).map(|v| v >= 7).collect();
    let taxa: Vec<usize> = (0..15).map(|v: usize| v.saturating_sub(7)).collect();
    Tree {
        ntaxa: 8,
        parent,
        leaf,
        taxa,
    }
}

/// Star tree: root 0 with five leaf children carrying taxa 0..5.
fn star_five() -> Tree {
    Tree {
        ntaxa: 5,
        parent: vec![0, 0, 0, 0, 0, 0],
        leaf: vec![false, true, true, true, true, true],
        taxa: vec![0, 0, 1, 2, 3, 4],
    }
}

/// Caterpillar-like tree whose decomposition genuinely reorders the taxa.
fn caterpillar_four() -> Tree {
    Tree {
        ntaxa: 4,
        parent: vec![0, 0, 0, 1, 1, 3, 3],
        leaf: vec![false, false, true, false, true, true, true],
        taxa: vec![0, 0, 0, 0, 1, 2, 3],
    }
}

#[test]
fn balanced_eight_ranges() {
    let t = balanced_eight();
    let h = hierarchical_decomp(&t, 3);
    // Identity layout: each split keeps the already contiguous halves.
    assert_eq!(h.reordered_taxa, vec![0, 1, 2, 3, 4, 5, 6, 7]);
    // Every level of the hierarchy is recorded, largest unit first.
    assert_eq!(
        h.decomposition_ranges,
        vec![(0, 8), (4, 8), (0, 4), (6, 8), (4, 6), (2, 4), (0, 2)]
    );
}

#[test]
fn balanced_eight_final_ranges_partition() {
    let t = balanced_eight();
    let h = hierarchical_decomp(&t, 3);
    // The leaf-level ranges (size below the bound) tile 0..8 disjointly.
    let mut small: Vec<(usize, usize)> = h
        .decomposition_ranges
        .iter()
        .copied()
        .filter(|r| r.1 - r.0 < 3)
        .collect();
    small.sort();
    assert_eq!(small, vec![(0, 2), (2, 4), (4, 6), (6, 8)]);
}

#[test]
fn balanced_eight_covers_all_indices() {
    let t = balanced_eight();
    let h = hierarchical_decomp(&t, 3);
    let mut covered = vec![false; 8];
    for &(lb, ub) in &h.decomposition_ranges {
        assert!(lb < ub && ub <= 8);
        assert!(ub - lb >= 2);
        for c in covered.iter_mut().take(ub).skip(lb) {
            *c = true;
        }
    }
    assert!(covered.iter().all(|&c| c));
}

#[test]
fn star_tree_stops_without_split() {
    let t = star_five();
    for max_size in 1..5 {
        let h = hierarchical_decomp(&t, max_size);
        // Leaves-only unit: no internal cut exists, so the decomposition
        // terminates with the single unresolved range of all five taxa.
        assert_eq!(h.decomposition_ranges, vec![(0, 5)]);
        assert_eq!(h.reordered_taxa, vec![0, 1, 2, 3, 4]);
    }
}

#[test]
fn star_tree_large_bound_is_final() {
    let t = star_five();
    let h = hierarchical_decomp(&t, 6);
    assert_eq!(h.decomposition_ranges, vec![(0, 5)]);
}

#[test]
fn caterpillar_reorders_taxa() {
    let t = caterpillar_four();
    let h = hierarchical_decomp(&t, 2);
    assert_eq!(h.reordered_taxa, vec![2, 3, 1, 0]);
    assert_eq!(h.decomposition_ranges, vec![(0, 4), (2, 4), (0, 2)]);
}

#[test]
fn caterpillar_is_permutation() {
    let t = caterpillar_four();
    for max_size in 1..6 {
        let h = hierarchical_decomp(&t, max_size);
        let mut seen = vec![false; 4];
        assert_eq!(h.reordered_taxa.len(), 4);
        for &x in &h.reordered_taxa {
            assert!(x < 4);
            assert!(!seen[x]);
            seen[x] = true;
        }
    }
}

#[test]
fn determinism_repeated_runs() {
    for max_size in 1..5 {
        let a = hierarchical_decomp(&balanced_eight(), max_size);
        let b = hierarchical_decomp(&balanced_eight(), max_size);
        assert_eq!(a.reordered_taxa, b.reordered_taxa);
        assert_eq!(a.decomposition_ranges, b.decomposition_ranges);
        let c = hierarchical_decomp(&caterpillar_four(), max_size);
        let d = hierarchical_decomp(&caterpillar_four(), max_size);
        assert_eq!(c.reordered_taxa, d.reordered_taxa);
        assert_eq!(c.decomposition_ranges, d.decomposition_ranges);
    }
}

#[test]
fn single_taxon_records_nothing() {
    let t = Tree {
        ntaxa: 1,
        parent: vec![0, 0],
        leaf: vec![false, true],
        taxa: vec![0, 0],
    };
    let h = hierarchical_decomp(&t, 1);
    assert_eq!(h.reordered_taxa, vec![0]);
    assert!(h.decomposition_ranges.is_empty());
}

#[test]
fn cherry_records_whole_range() {
    let t = Tree {
        ntaxa: 2,
        parent: vec![0, 0, 0],
        leaf: vec![false, true, true],
        taxa: vec![0, 0, 1],
    };
    let h = hierarchical_decomp(&t, 5);
    assert_eq!(h.reordered_taxa, vec![0, 1]);
    assert_eq!(h.decomposition_ranges, vec![(0, 2)]);
}
