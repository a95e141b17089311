//! Sequence Count Index: a 2-D prefix-sum table of non-gap character counts
//! over an alignment, plus the decomposition ranges it is queried with.

use vstd::pervasive::VecAdditionalExecFns;
use vstd::prelude::*;

verus! {

/// The mathematical view of an alignment held as byte rows.
pub open spec fn seqs_view(s: Seq<Vec<u8>>) -> Seq<Seq<u8>> {
    s.map_values(|v: Vec<u8>| v@)
}

/// The fixed gap sentinel symbol of the alignment: ASCII `-`.
pub const GAP: u8 = 45;

/// Number of non-gap symbols in column `j` among the first `i` rows of `seqs`.
pub open spec fn nongap_prefix(seqs: Seq<Seq<u8>>, i: int, j: int) -> int
    decreases i,
{
    if i <= 0 {
        0
    } else {
        nongap_prefix(seqs, i - 1, j) + if seqs[i - 1][j] == GAP {
            0int
        } else {
            1int
        }
    }
}

/// Number of non-gap symbols in column `j` among rows `lo..hi` of `seqs`:
/// the direct count that a range query must reproduce.
pub open spec fn nongap_range(seqs: Seq<Seq<u8>>, lo: int, hi: int, j: int) -> int
    decreases hi - lo,
{
    if hi <= lo {
        0
    } else {
        nongap_range(seqs, lo, hi - 1, j) + if seqs[hi - 1][j] == GAP {
            0int
        } else {
            1int
        }
    }
}

/// A prefix count over `i` rows lies between 0 and `i`.
pub proof fn lemma_nongap_prefix_bounds(seqs: Seq<Seq<u8>>, i: int, j: int)
    requires
        i >= 0,
    ensures
        0 <= nongap_prefix(seqs, i, j) <= i,
    decreases i,
{
    if i > 0 {
        lemma_nongap_prefix_bounds(seqs, i - 1, j);
    }
}

/// The difference of two prefix counts is the direct count over the rows
/// between them.
pub proof fn lemma_prefix_diff_is_range_count(seqs: Seq<Seq<u8>>, lo: int, hi: int, j: int)
    requires
        0 <= lo <= hi,
    ensures
        nongap_prefix(seqs, hi, j) - nongap_prefix(seqs, lo, j) == nongap_range(seqs, lo, hi, j),
    decreases hi - lo,
{
    if hi > lo {
        lemma_prefix_diff_is_range_count(seqs, lo, hi - 1, j);
    }
}

/// Prefix-sum index over an alignment, queried per decomposition range.
pub struct CrucibleCtxt {
    /// `(n + 1) x k` table; entry `(i, j)` counts the non-gap symbols in
    /// column `j` among the first `i` sequences.
    pub nchars_partial_sum: Vec<Vec<u32>>,
    /// Half-open index intervals into the reordered alignment.
    pub hmm_ranges: Vec<(usize, usize)>,
}

impl CrucibleCtxt {
    /// The table as a mathematical matrix.
    pub open spec fn table(self) -> Seq<Seq<u32>> {
        self.nchars_partial_sum@.map_values(|r: Vec<u32>| r@)
    }

    pub open spec fn nrows(self) -> int {
        self.table().len() as int
    }

    pub open spec fn ncols(self) -> int {
        self.table()[0].len() as int
    }

    /// Structural invariant: at least the all-zero row, rectangular shape,
    /// zero first row, columns non-decreasing along the row axis, and every
    /// range within the row bounds.
    pub open spec fn wf(self) -> bool {
        &&& self.nrows() >= 1
        &&& forall|i: int| 0 <= i < self.nrows() ==> (#[trigger] self.table()[i]).len() == self.ncols()
        &&& forall|j: int| 0 <= j < self.ncols() ==> self.table()[0][j] == 0
        &&& forall|i: int, j: int|
            0 <= i < self.nrows() - 1 && 0 <= j < self.ncols() ==> (#[trigger] self.table()[i][j])
                <= self.table()[i + 1][j]
        &&& forall|r: int|
            0 <= r < self.hmm_ranges@.len() ==> (#[trigger] self.hmm_ranges@[r]).0
                <= self.hmm_ranges@[r].1 < self.nrows()
    }

    /// The table is exactly the prefix-count matrix of `seqs`.
    pub open spec fn models(self, seqs: Seq<Seq<u8>>) -> bool {
        &&& self.nrows() == seqs.len() + 1
        &&& forall|i: int, j: int|
            0 <= i < self.nrows() && 0 <= j < self.ncols() ==> (#[trigger] self.table()[i][j])
                == nongap_prefix(seqs, i, j)
    }

    /// Along one column, the table is monotone between any two rows.
    pub proof fn lemma_col_monotone(self, i1: int, i2: int, j: int)
        requires
            self.wf(),
            0 <= i1 <= i2 < self.nrows(),
            0 <= j < self.ncols(),
        ensures
            self.table()[i1][j] <= self.table()[i2][j],
        decreases i2 - i1,
    {
        if i1 < i2 {
            self.lemma_col_monotone(i1, i2 - 1, j);
        }
    }

    pub fn new(nchars_partial_sum: Vec<Vec<u32>>, hmm_ranges: Vec<(usize, usize)>) -> (r: Self)
        ensures
            r.nchars_partial_sum == nchars_partial_sum,
            r.hmm_ranges == hmm_ranges,
    {
        Self { nchars_partial_sum, hmm_ranges }
    }

    pub fn num_hmms(&self) -> (r: usize)
        ensures
            r == self.hmm_ranges@.len(),
    {
        self.hmm_ranges.len()
    }

    /// Builds the prefix table from `n >= 1` sequences of equal width, in
    /// one pass, ordered to match the reordered taxa.
    pub fn from_records(seqs: &Vec<Vec<u8>>, hmm_ranges: Vec<(usize, usize)>) -> (r: Self)
        requires
            1 <= seqs@.len() <= u32::MAX,
            seqs@.len() < usize::MAX,
            forall|i: int| 0 <= i < seqs@.len() ==> (#[trigger] seqs@[i])@.len() == seqs@[0]@.len(),
            forall|rg: int|
                0 <= rg < hmm_ranges@.len() ==> (#[trigger] hmm_ranges@[rg]).0 <= hmm_ranges@[rg].1
                    <= seqs@.len(),
        ensures
            r.wf(),
            r.models(seqs_view(seqs@)),
            r.hmm_ranges == hmm_ranges,
            r.nrows() == seqs@.len() + 1,
            r.ncols() == seqs@[0]@.len(),
    {
        let n: usize = seqs.len();
        let k: usize = seqs[0].len();
        let mut table: Vec<Vec<u32>> = Vec::new();
        let mut row0: Vec<u32> = Vec::new();
        let mut j: usize = 0;
        while j < k
            invariant
                j <= k,
                row0@.len() == j,
                forall|b: int| 0 <= b < j ==> row0@[b] == 0,
            decreases k - j,
        {
            row0.push(0);
            j += 1;
        }
        table.push(row0);
        let mut i: usize = 1;
        while i <= n
            invariant
                1 <= i <= n + 1,
                n == seqs@.len(),
                1 <= n <= u32::MAX,
                n < usize::MAX,
                k == seqs@[0]@.len(),
                forall|a: int| 0 <= a < n ==> (#[trigger] seqs@[a])@.len() == k,
                table@.len() == i,
                forall|a: int| 0 <= a < i ==> (#[trigger] table@[a])@.len() == k,
                forall|a: int, b: int|
                    0 <= a < i && 0 <= b < k ==> (#[trigger] table@[a]@[b]) == nongap_prefix(
                        seqs_view(seqs@),
                        a,
                        b,
                    ),
            decreases n + 1 - i,
        {
            let mut row: Vec<u32> = Vec::new();
            let mut j: usize = 0;
            while j < k
                invariant
                    j <= k,
                    1 <= i <= n,
                    n == seqs@.len(),
                    1 <= n <= u32::MAX,
                    k == seqs@[0]@.len(),
                    forall|a: int| 0 <= a < n ==> (#[trigger] seqs@[a])@.len() == k,
                    table@.len() == i,
                    forall|a: int| 0 <= a < i ==> (#[trigger] table@[a])@.len() == k,
                    forall|a: int, b: int|
                        0 <= a < i && 0 <= b < k ==> (#[trigger] table@[a]@[b]) == nongap_prefix(
                            seqs_view(seqs@),
                            a,
                            b,
                        ),
                    row@.len() == j,
                    forall|b: int|
                        0 <= b < j ==> (#[trigger] row@[b]) == nongap_prefix(
                            seqs_view(seqs@),
                            i as int,
                            b,
                        ),
                decreases k - j,
            {
                let c: u8 = seqs[i - 1][j];
                let inc: u32 = if c == GAP {
                    0
                } else {
                    1
                };
                let prev: u32 = table[i - 1][j];
                proof {
                    lemma_nongap_prefix_bounds(seqs_view(seqs@), i - 1, j as int);
                    assert(seqs_view(seqs@)[i - 1][j as int] == seqs@[i - 1]@[j as int]);
                }
                row.push(prev + inc);
                j += 1;
            }
            table.push(row);
            i += 1;
        }
        let r = Self { nchars_partial_sum: table, hmm_ranges };
        proof {
            assert forall|a: int, b: int|
                0 <= a < r.nrows() - 1 && 0 <= b < r.ncols() implies (#[trigger] r.table()[a][b])
                <= r.table()[a + 1][b] by {
                lemma_nongap_prefix_bounds(seqs_view(seqs@), a, b);
            }
        }
        r
    }

    /// Fills `buf` with, per column, the difference of the two table rows at
    /// the bounds of range `hmm_idx`.
    pub fn retrieve_nchars_noalloc(&self, hmm_idx: usize, buf: &mut Vec<u32>)
        requires
            self.wf(),
            hmm_idx < self.hmm_ranges@.len(),
            old(buf)@.len() == self.ncols(),
        ensures
            final(buf)@.len() == self.ncols(),
            forall|j: int|
                0 <= j < self.ncols() ==> (#[trigger] final(buf)@[j]) as int == self.table()[self.hmm_ranges@[
                    hmm_idx as int].1 as int][j] as int - self.table()[self.hmm_ranges@[hmm_idx as int].0 as int][j] as int,
    {
        let rg = self.hmm_ranges[hmm_idx];
        let start: usize = rg.0;
        let end: usize = rg.1;
        let k: usize = self.nchars_partial_sum[0].len();
        let mut j: usize = 0;
        while j < k
            invariant
                j <= k,
                self.wf(),
                hmm_idx < self.hmm_ranges@.len(),
                start == self.hmm_ranges@[hmm_idx as int].0,
                end == self.hmm_ranges@[hmm_idx as int].1,
                k == self.ncols(),
                buf@.len() == k,
                forall|b: int|
                    0 <= b < j ==> (#[trigger] buf@[b]) as int == self.table()[end as int][b] as int
                        - self.table()[start as int][b] as int,
            decreases k - j,
        {
            proof {
                self.lemma_col_monotone(start as int, end as int, j as int);
            }
            let hi: u32 = self.nchars_partial_sum[end][j];
            let lo: u32 = self.nchars_partial_sum[start][j];
            buf.set(j, hi - lo);
            j += 1;
        }
    }

    /// As `retrieve_nchars_noalloc`, returning a fresh buffer.
    pub fn retrieve_nchars(&self, hmm_idx: usize) -> (r: Vec<u32>)
        requires
            self.wf(),
            hmm_idx < self.hmm_ranges@.len(),
        ensures
            r@.len() == self.ncols(),
            forall|j: int|
                0 <= j < self.ncols() ==> (#[trigger] r@[j]) as int == self.table()[self.hmm_ranges@[
                    hmm_idx as int].1 as int][j] as int - self.table()[self.hmm_ranges@[hmm_idx as int].0 as int][j] as int,
    {
        let k: usize = self.nchars_partial_sum[0].len();
        let mut buf: Vec<u32> = Vec::new();
        let mut j: usize = 0;
        while j < k
            invariant
                j <= k,
                buf@.len() == j,
            decreases k - j,
        {
            buf.push(0);
            j += 1;
        }
        self.retrieve_nchars_noalloc(hmm_idx, &mut buf);
        buf
    }
}

/// Round trip of the index: the value the range queries return per column —
/// the difference of the two table rows at the range's bounds — equals the
/// direct count of non-gap symbols in that column over exactly the range's
/// rows of the alignment.
pub proof fn lemma_nchars_round_trip(ctxt: CrucibleCtxt, seqs: Seq<Seq<u8>>, hmm_idx: int, j: int)
    requires
        ctxt.wf(),
        ctxt.models(seqs),
        0 <= hmm_idx < ctxt.hmm_ranges@.len(),
        0 <= j < ctxt.ncols(),
    ensures
        ctxt.table()[ctxt.hmm_ranges@[hmm_idx].1 as int][j] as int - ctxt.table()[ctxt.hmm_ranges@[
            hmm_idx].0 as int][j] as int == nongap_range(
            seqs,
            ctxt.hmm_ranges@[hmm_idx].0 as int,
            ctxt.hmm_ranges@[hmm_idx].1 as int,
            j,
        ),
{
    lemma_prefix_diff_is_range_count(
        seqs,
        ctxt.hmm_ranges@[hmm_idx].0 as int,
        ctxt.hmm_ranges@[hmm_idx].1 as int,
        j,
    );
}

/// The first table row is all zero, and the last row holds, per column, the
/// total non-gap count of that column over the whole alignment.
pub proof fn lemma_prefix_table_rows(ctxt: CrucibleCtxt, seqs: Seq<Seq<u8>>)
    requires
        ctxt.wf(),
        ctxt.models(seqs),
    ensures
        forall|j: int| 0 <= j < ctxt.ncols() ==> ctxt.table()[0][j] == 0,
        forall|j: int|
            0 <= j < ctxt.ncols() ==> ctxt.table()[seqs.len() as int][j] as int == nongap_range(
                seqs,
                0,
                seqs.len() as int,
                j,
            ),
{
    assert forall|j: int|
        0 <= j < ctxt.ncols() implies ctxt.table()[seqs.len() as int][j] as int == nongap_range(
        seqs,
        0,
        seqs.len() as int,
        j,
    ) by {
        lemma_prefix_diff_is_range_count(seqs, 0, seqs.len() as int, j);
    }
}

} // verus!
