use melt::crucible::CrucibleCtxt;

fn two_row_alignment() -> Vec<Vec<u8>> {
    vec![b"AC-G".to_vec(), b"--CG".to_vec()]
}

#[test]
fn prefix_table_two_rows() {
    let seqs = two_row_alignment();
    let ctxt = CrucibleCtxt::from_records(&seqs, vec![(0, 2)]);
    assert_eq!(ctxt.nchars_partial_sum[0], vec![0, 0, 0, 0]);
    assert_eq!(ctxt.nchars_partial_sum[1], vec![1, 1, 0, 1]);
    assert_eq!(ctxt.nchars_partial_sum[2], vec![1, 1, 1, 2]);
}

#[test]
fn retrieve_single_range() {
    let seqs = two_row_alignment();
    let ctxt = CrucibleCtxt::from_records(&seqs, vec![(0, 2)]);
    assert_eq!(ctxt.retrieve_nchars(0), vec![1, 1, 1, 2]);
}

#[test]
fn retrieve_noalloc_matches() {
    let seqs = two_row_alignment();
    let ctxt = CrucibleCtxt::from_records(&seqs, vec![(0, 2), (1, 2)]);
    let mut buf = vec![0u32; 4];
    ctxt.retrieve_nchars_noalloc(0, &mut buf);
    assert_eq!(buf, vec![1, 1, 1, 2]);
    ctxt.retrieve_nchars_noalloc(1, &mut buf);
    assert_eq!(buf, vec![0, 0, 1, 1]);
}

#[test]
fn retrieve_matches_direct_count() {
    let seqs = vec![
        b"AC-GT-".to_vec(),
        b"--CGA-".to_vec(),
        b"TTTT--".to_vec(),
        b"-----G".to_vec(),
    ];
    let ranges = vec![(0, 4), (0, 2), (2, 4), (1, 3), (2, 2)];
    let ctxt = CrucibleCtxt::from_records(&seqs, ranges.clone());
    for (idx, &(lo, hi)) in ranges.iter().enumerate() {
        let got = ctxt.retrieve_nchars(idx);
        for (j, &g) in got.iter().enumerate() {
            let direct = seqs[lo..hi].iter().filter(|s| s[j] != b'-').count() as u32;
            assert_eq!(g, direct);
        }
    }
}

#[test]
fn first_row_zero_last_row_totals() {
    let seqs = vec![b"A-C".to_vec(), b"AAC".to_vec(), b"---".to_vec()];
    let ctxt = CrucibleCtxt::from_records(&seqs, vec![(0, 3)]);
    assert_eq!(ctxt.nchars_partial_sum[0], vec![0, 0, 0]);
    for j in 0..3 {
        let total = seqs.iter().filter(|s| s[j] != b'-').count() as u32;
        assert_eq!(ctxt.nchars_partial_sum[3][j], total);
    }
}

#[test]
fn new_keeps_fields() {
    let table = vec![vec![0, 0], vec![1, 0]];
    let ranges = vec![(0, 1)];
    let ctxt = CrucibleCtxt::new(table.clone(), ranges.clone());
    assert_eq!(ctxt.nchars_partial_sum, table);
    assert_eq!(ctxt.hmm_ranges, ranges);
}

#[test]
fn num_hmms_counts_ranges() {
    let seqs = two_row_alignment();
    let ctxt = CrucibleCtxt::from_records(&seqs, vec![(0, 2), (0, 1), (1, 2)]);
    assert_eq!(ctxt.num_hmms(), 3);
}

#[test]
fn empty_range_counts_zero() {
    let seqs = two_row_alignment();
    let ctxt = CrucibleCtxt::from_records(&seqs, vec![(1, 1)]);
    assert_eq!(ctxt.retrieve_nchars(0), vec![0, 0, 0, 0]);
}

#[test]
fn decomposition_feeds_index() {
    // The orchestrator's compute path: decompose, reorder the alignment to
    // match the permutation, and index it by the recorded ranges.
    let t = melt::tree::Tree {
        ntaxa: 4,
        parent: vec![0, 0, 0, 1, 1, 3, 3],
        leaf: vec![false, false, true, false, true, true, true],
        taxa: vec![0, 0, 0, 0, 1, 2, 3],
    };
    let h = melt::decomp::hierarchical_decomp(&t, 2);
    let by_taxon: Vec<Vec<u8>> = vec![
        b"AAAA".to_vec(),
        b"A-AA".to_vec(),
        b"A--A".to_vec(),
        b"A---".to_vec(),
    ];
    let reordered: Vec<Vec<u8>> = h
        .reordered_taxa
        .iter()
        .map(|&taxon| by_taxon[taxon].clone())
        .collect();
    let ctxt = melt::crucible::CrucibleCtxt::from_records(
        &reordered,
        h.decomposition_ranges.clone(),
    );
    assert_eq!(ctxt.num_hmms(), h.decomposition_ranges.len());
    for idx in 0..ctxt.num_hmms() {
        let (lo, hi) = h.decomposition_ranges[idx];
        let got = ctxt.retrieve_nchars(idx);
        for (j, &g) in got.iter().enumerate() {
            let direct = reordered[lo..hi].iter().filter(|s| s[j] != b'-').count() as u32;
            assert_eq!(g, direct);
        }
    }
}
