//! Balanced decomposer: splits a tree's taxon set into contiguous ranges of
//! a reordered taxon permutation, largest unresolved unit first.

use crate::tree::Tree;
use vstd::multiset::Multiset;
use vstd::pervasive::VecAdditionalExecFns;
use vstd::prelude::*;

verus! {

/// The identity permutation of `0..n` as a sequence.
pub open spec fn identity_perm(n: int) -> Seq<usize> {
    Seq::new(n as nat, |i: int| i as usize)
}

/// How many entries of `s` are set.
spec fn count_marked(s: Seq<bool>) -> int
    decreases s.len(),
{
    if s.len() == 0 {
        0
    } else {
        count_marked(s.drop_last()) + if s.last() {
            1int
        } else {
            0int
        }
    }
}

proof fn lemma_count_marked_bounds(s: Seq<bool>)
    ensures
        0 <= count_marked(s) <= s.len(),
    decreases s.len(),
{
    if s.len() > 0 {
        lemma_count_marked_bounds(s.drop_last());
    }
}

/// Setting one clear entry raises the marked count by one.
proof fn lemma_count_marked_set(s: Seq<bool>, i: int)
    requires
        0 <= i < s.len(),
        !s[i],
    ensures
        count_marked(s.update(i, true)) == count_marked(s) + 1,
    decreases s.len(),
{
    let t = s.update(i, true);
    if i == s.len() - 1 {
        assert(t.drop_last() =~= s.drop_last());
    } else {
        assert(t.drop_last() =~= s.drop_last().update(i, true));
        lemma_count_marked_set(s.drop_last(), i);
    }
}

/// The sum of the first `k` entries of `s`.
spec fn seq_sum(s: Seq<usize>, k: int) -> int
    decreases k,
{
    if k <= 0 {
        0
    } else {
        seq_sum(s, k - 1) + s[k - 1]
    }
}

proof fn lemma_seq_sum_agree(s1: Seq<usize>, s2: Seq<usize>, k: int)
    requires
        k <= s1.len(),
        k <= s2.len(),
        forall|i: int| 0 <= i < k ==> s1[i] == s2[i],
    ensures
        seq_sum(s1, k) == seq_sum(s2, k),
    decreases k,
{
    if k > 0 {
        lemma_seq_sum_agree(s1, s2, k - 1);
    }
}

proof fn lemma_seq_sum_update(s: Seq<usize>, k: int, p: int, x: usize)
    requires
        0 <= p < k <= s.len(),
    ensures
        seq_sum(s.update(p, x), k) == seq_sum(s, k) - s[p] + x,
    decreases k,
{
    if p == k - 1 {
        lemma_seq_sum_agree(s.update(p, x), s, k - 1);
    } else {
        lemma_seq_sum_update(s, k - 1, p, x);
    }
}

proof fn lemma_seq_sum_elem(s: Seq<usize>, k: int, p: int)
    requires
        0 <= p < k <= s.len(),
    ensures
        s[p] <= seq_sum(s, k),
        seq_sum(s, k) >= 0,
    decreases k,
{
    if p < k - 1 {
        lemma_seq_sum_elem(s, k - 1, p);
    } else if k >= 2 {
        lemma_seq_sum_elem(s, k - 1, k - 2);
    } else {
        assert(seq_sum(s, 0) == 0);
    }
    assert(seq_sum(s, k) == seq_sum(s, k - 1) + s[k - 1]);
}

/// Two distinct entries together stay within the sum of the prefix holding
/// both.
proof fn lemma_seq_sum_pair(s: Seq<usize>, k: int, p: int, q: int)
    requires
        0 <= p < q < k <= s.len(),
    ensures
        s[p] + s[q] <= seq_sum(s, k),
    decreases k,
{
    if q == k - 1 {
        lemma_seq_sum_elem(s, k - 1, p);
    } else {
        lemma_seq_sum_pair(s, k - 1, p, q);
    }
}

/// Difference of two machine integers, whichever way round they stand.
fn abs_delta(a: usize, b: usize) -> (r: usize)
    ensures
        r == if a >= b {
            a - b
        } else {
            b - a
        },
{
    if a >= b {
        a - b
    } else {
        b - a
    }
}

/// Does the walk from `v` up the parent chain meet `root` before leaving the
/// unit, that is, before meeting a cut node or the global root? A `true`
/// answer for `v != root` guarantees `v` itself is not a cut.
fn in_region(t: &Tree, cuts: &Vec<bool>, v: usize, root: usize) -> (r: bool)
    requires
        t.wf(),
        cuts@.len() == t.num_nodes(),
        v < t.num_nodes(),
        root < t.num_nodes(),
    ensures
        r && v != root ==> !cuts@[v as int],
{
    let mut a: usize = v;
    loop
        invariant
            t.wf(),
            cuts@.len() == t.num_nodes(),
            a < t.num_nodes(),
            root < t.num_nodes(),
            v < t.num_nodes(),
            a != v ==> (v != root ==> !cuts@[v as int]),
        decreases a,
    {
        if a == root {
            return true;
        }
        if cuts[a] {
            return false;
        }
        if a == 0 {
            return false;
        }
        a = t.parent[a];
    }
}

/// Is `v` in the subtree of `anc` (cuts disregarded)?
fn is_under(t: &Tree, v: usize, anc: usize) -> (r: bool)
    requires
        t.wf(),
        v < t.num_nodes(),
        anc < t.num_nodes(),
{
    let mut a: usize = v;
    loop
        invariant
            t.wf(),
            a < t.num_nodes(),
        decreases a,
    {
        if a == anc {
            return true;
        }
        if a == 0 {
            return false;
        }
        a = t.parent[a];
    }
}

/// Builds the subtree-size table: one entry per node, the number of leaves
/// under it, by a single pass that pushes each node's count into its parent
/// (children have larger ids than their parents, so a descending sweep sees
/// every child before its parent is read).
///
/// The table steers the choice of cut; the decomposer's stated guarantees do
/// not depend on its values, so no more than its shape is promised here.
fn subtree_sizes(t: &Tree) -> (ts: Vec<usize>)
    requires
        t.wf(),
    ensures
        ts@.len() == t.num_nodes(),
{
    let n: usize = t.parent.len();
    let mut ts: Vec<usize> = Vec::new();
    let mut v: usize = 0;
    while v < n
        invariant
            v <= n,
            t.wf(),
            n == t.num_nodes(),
            ts@.len() == v,
            seq_sum(ts@, v as int) <= v,
        decreases n - v,
    {
        let x: usize = if t.leaf[v] {
            1
        } else {
            0
        };
        proof {
            lemma_seq_sum_agree(ts@.push(x), ts@, v as int);
        }
        ts.push(x);
        v += 1;
    }
    let mut i: usize = n - 1;
    while i >= 1
        invariant
            i <= n - 1,
            n >= 1,
            t.wf(),
            n == t.num_nodes(),
            ts@.len() == n,
            seq_sum(ts@, i + 1) <= n,
        decreases i,
    {
        let p: usize = t.parent[i];
        proof {
            lemma_seq_sum_pair(ts@, i + 1, p as int, i as int);
            lemma_seq_sum_update(ts@, i as int, p as int, (ts@[p as int] + ts@[i as int]) as usize);
        }
        let s: usize = ts[p] + ts[i];
        ts.set(p, s);
        i -= 1;
    }
    ts
}

proof fn lemma_insert_add_commute<A>(a: Multiset<A>, b: Multiset<A>, x: A)
    ensures
        a.insert(x).add(b) == a.add(b).insert(x),
{
    broadcast use vstd::multiset::group_multiset_axioms;

    assert(a.insert(x).add(b) =~= a.add(b).insert(x));
}

/// Sets, in `marks`, the taxon id of every leaf in the subtree of `anc`.
fn mark_subtree_leaves(t: &Tree, anc: usize, marks: &mut Vec<bool>)
    requires
        t.wf(),
        anc < t.num_nodes(),
        old(marks)@.len() == t.ntaxa,
    ensures
        final(marks)@.len() == t.ntaxa,
{
    let n: usize = t.parent.len();
    let mut v: usize = 0;
    while v < n
        invariant
            v <= n,
            t.wf(),
            n == t.num_nodes(),
            anc < t.num_nodes(),
            marks@.len() == t.ntaxa,
        decreases n - v,
    {
        if t.leaf[v] {
            if is_under(t, v, anc) {
                let tid: usize = t.taxa[v];
                marks.set(tid, true);
            }
        }
        v += 1;
    }
}

/// Clears the scratch mark table for reuse by the next cut.
fn clear_marks(marks: &mut Vec<bool>)
    ensures
        final(marks)@.len() == old(marks)@.len(),
        forall|i: int| 0 <= i < final(marks)@.len() ==> !final(marks)@[i],
{
    let n: usize = marks.len();
    let mut i: usize = 0;
    while i < n
        invariant
            i <= n,
            marks@.len() == n,
            forall|p: int| 0 <= p < i ==> !marks@[p],
        decreases n - i,
    {
        marks.set(i, false);
        i += 1;
    }
}

/// Stably reorders `v[lb..ub]` so the marked values precede the unmarked
/// ones, keeping relative order within each side, and returns how many are
/// marked. The rest of the vector is untouched and the sub-slice keeps its
/// multiset of values.
fn stable_partition(v: &mut Vec<usize>, lb: usize, ub: usize, marks: &Vec<bool>) -> (cnt: usize)
    requires
        lb <= ub <= old(v)@.len(),
        forall|i: int| lb <= i < ub ==> #[trigger] old(v)@[i] < marks@.len(),
    ensures
        final(v)@.len() == old(v)@.len(),
        cnt <= ub - lb,
        forall|i: int| 0 <= i < lb ==> final(v)@[i] == old(v)@[i],
        forall|i: int| ub <= i < final(v)@.len() ==> final(v)@[i] == old(v)@[i],
        final(v)@.subrange(lb as int, ub as int).to_multiset() == old(v)@.subrange(
            lb as int,
            ub as int,
        ).to_multiset(),
        forall|i: int| lb <= i < ub ==> #[trigger] final(v)@[i] < marks@.len(),
{
    broadcast use vstd::seq_lib::group_to_multiset_ensures;

    let ghost orig = v@;
    let mut sel: Vec<usize> = Vec::new();
    let mut rest: Vec<usize> = Vec::new();
    let mut i: usize = lb;
    while i < ub
        invariant
            lb <= i <= ub <= v@.len(),
            v@ == orig,
            forall|p: int| lb <= p < ub ==> #[trigger] orig[p] < marks@.len(),
            sel@.len() + rest@.len() == i - lb,
            forall|p: int| 0 <= p < sel@.len() ==> #[trigger] sel@[p] < marks@.len(),
            forall|p: int| 0 <= p < rest@.len() ==> #[trigger] rest@[p] < marks@.len(),
            sel@.to_multiset().add(rest@.to_multiset()) == orig.subrange(
                lb as int,
                i as int,
            ).to_multiset(),
        decreases ub - i,
    {
        let x: usize = v[i];
        let ghost pre_sel = sel@;
        let ghost pre_rest = rest@;
        proof {
            assert(orig.subrange(lb as int, i + 1) =~= orig.subrange(lb as int, i as int).push(x));
        }
        if marks[x] {
            sel.push(x);
            proof {
                assert(sel@ == pre_sel.push(x));
                vstd::seq_lib::to_multiset_build(pre_sel, x);
                assert(sel@.to_multiset() == pre_sel.to_multiset().insert(x));
                lemma_insert_add_commute(pre_sel.to_multiset(), pre_rest.to_multiset(), x);
            }
        } else {
            rest.push(x);
            proof {
                assert(rest@ == pre_rest.push(x));
                vstd::seq_lib::to_multiset_build(pre_rest, x);
                assert(rest@.to_multiset() == pre_rest.to_multiset().insert(x));
                assert(pre_sel.to_multiset().add(pre_rest.to_multiset().insert(x))
                    == pre_sel.to_multiset().add(pre_rest.to_multiset()).insert(x)) by {
                    broadcast use vstd::multiset::group_multiset_axioms;

                    assert(pre_sel.to_multiset().add(pre_rest.to_multiset().insert(x))
                        =~= pre_sel.to_multiset().add(pre_rest.to_multiset()).insert(x));
                }
            }
        }
        proof {
            vstd::seq_lib::to_multiset_build(orig.subrange(lb as int, i as int), x);
            assert(orig.subrange(lb as int, i + 1).to_multiset() == orig.subrange(
                lb as int,
                i as int,
            ).to_multiset().insert(x));
        }
        i += 1;
    }
    let cnt: usize = sel.len();
    let mut w: usize = 0;
    while w < cnt
        invariant
            w <= cnt,
            cnt == sel@.len(),
            sel@.len() + rest@.len() == ub - lb,
            lb <= ub <= v@.len(),
            v@.len() == orig.len(),
            forall|p: int| 0 <= p < lb ==> #[trigger] v@[p] == orig[p],
            forall|p: int| ub <= p < v@.len() ==> #[trigger] v@[p] == orig[p],
            forall|p: int| 0 <= p < w ==> #[trigger] v@[lb + p] == sel@[p],
            forall|p: int| 0 <= p < sel@.len() ==> #[trigger] sel@[p] < marks@.len(),
            forall|p: int| 0 <= p < rest@.len() ==> #[trigger] rest@[p] < marks@.len(),
            sel@.to_multiset().add(rest@.to_multiset()) == orig.subrange(
                lb as int,
                ub as int,
            ).to_multiset(),
        decreases cnt - w,
    {
        v.set(lb + w, sel[w]);
        w += 1;
    }
    let rlen: usize = rest.len();
    let mut w2: usize = 0;
    while w2 < rlen
        invariant
            w2 <= rlen,
            rlen == rest@.len(),
            cnt == sel@.len(),
            sel@.len() + rest@.len() == ub - lb,
            lb <= ub <= v@.len(),
            v@.len() == orig.len(),
            forall|p: int| 0 <= p < lb ==> #[trigger] v@[p] == orig[p],
            forall|p: int| ub <= p < v@.len() ==> #[trigger] v@[p] == orig[p],
            forall|p: int| 0 <= p < cnt ==> #[trigger] v@[lb + p] == sel@[p],
            forall|p: int| 0 <= p < w2 ==> #[trigger] v@[lb + cnt + p] == rest@[p],
            forall|p: int| 0 <= p < sel@.len() ==> #[trigger] sel@[p] < marks@.len(),
            forall|p: int| 0 <= p < rest@.len() ==> #[trigger] rest@[p] < marks@.len(),
            sel@.to_multiset().add(rest@.to_multiset()) == orig.subrange(
                lb as int,
                ub as int,
            ).to_multiset(),
        decreases rlen - w2,
    {
        v.set(lb + cnt + w2, rest[w2]);
        w2 += 1;
    }
    proof {
        assert forall|q: int| 0 <= q < ub - lb implies v@.subrange(lb as int, ub as int)[q] == (sel@
            + rest@)[q] by {
            if q < cnt {
                assert(v@[lb + q] == sel@[q]);
            } else {
                assert(v@[lb + cnt + (q - cnt)] == rest@[q - cnt]);
            }
        }
        assert(v@.subrange(lb as int, ub as int) =~= sel@ + rest@);
        vstd::seq_lib::lemma_multiset_commutative(sel@, rest@);
        assert forall|i: int| lb <= i < ub implies #[trigger] v@[i] < marks@.len() by {
            let q = i - lb;
            if q < cnt {
                assert(v@[lb + q] == sel@[q]);
            } else {
                assert(v@[lb + cnt + (q - cnt)] == rest@[q - cnt]);
            }
        }
    }
    cnt
}

/// Removes and returns the greatest entry of `pq` in lexicographic order of
/// `(size, lower bound, upper bound, root)`: the largest pending unit, with
/// a fixed deterministic tie-break.
fn pop_max(pq: &mut Vec<(usize, usize, usize, usize)>) -> (e: (usize, usize, usize, usize))
    requires
        old(pq)@.len() >= 1,
    ensures
        final(pq)@.len() == old(pq)@.len() - 1,
        old(pq)@.contains(e),
        forall|i: int| 0 <= i < final(pq)@.len() ==> old(pq)@.contains(#[trigger] final(pq)@[i]),
        forall|i: int| 0 <= i < final(pq)@.len() ==> (#[trigger] final(pq)@[i]).0 <= e.0,
{
    let mut mi: usize = 0;
    let mut j: usize = 1;
    while j < pq.len()
        invariant
            1 <= j <= pq@.len(),
            mi < pq@.len(),
            forall|t: int| 0 <= t < j ==> (#[trigger] pq@[t]).0 <= pq@[mi as int].0,
        decreases pq@.len() - j,
    {
        let a = pq[j];
        let b = pq[mi];
        let gt: bool = a.0 > b.0 || (a.0 == b.0 && (a.1 > b.1 || (a.1 == b.1 && (a.2 > b.2 || (a.2
            == b.2 && a.3 > b.3)))));
        if gt {
            mi = j;
        }
        j += 1;
    }
    let ghost before = pq@;
    let ghost m = mi as int;
    let e = pq.swap_remove(mi);
    proof {
        assert(before[m] == e);
        assert(before.contains(e));
        assert forall|i: int| 0 <= i < pq@.len() implies before.contains(#[trigger] pq@[i])
            && (pq@[i]).0 <= e.0 by {
            if i == m {
                assert(before[before.len() - 1] == pq@[i]);
            } else {
                assert(before[i] == pq@[i]);
            }
        }
    }
    e
}

/// Scans every node still in the unit of `root` for the internal cut whose
/// two-way split of `size` is most balanced; ties go to the smallest node
/// id, so the choice is a deterministic function of the inputs. Returns
/// nothing when the unit has no internal candidate (a pure leaf cluster).
fn find_best_cut(t: &Tree, ts: &Vec<usize>, cuts: &Vec<bool>, root: usize, size: usize) -> (r:
    Option<usize>)
    requires
        t.wf(),
        ts@.len() == t.num_nodes(),
        cuts@.len() == t.num_nodes(),
        root < t.num_nodes(),
    ensures
        r is Some ==> {
            let bc = r->0;
            &&& bc < t.num_nodes()
            &&& bc != root
            &&& !cuts@[bc as int]
            &&& !t.leaf@[bc as int]
        },
{
    let n: usize = t.parent.len();
    let mut best: usize = 0;
    let mut best_imb: usize = 0;
    let mut found: bool = false;
    let mut i: usize = 0;
    while i < n
        invariant
            i <= n,
            t.wf(),
            n == t.num_nodes(),
            ts@.len() == t.num_nodes(),
            cuts@.len() == t.num_nodes(),
            root < t.num_nodes(),
            found ==> best < t.num_nodes() && best != root && !cuts@[best as int]
                && !t.leaf@[best as int],
        decreases n - i,
    {
        if i != root && !t.leaf[i] && in_region(t, cuts, i, root) {
            let d: usize = abs_delta(size, ts[i]);
            let imb: usize = abs_delta(d, ts[i]);
            if !found || imb < best_imb {
                found = true;
                best = i;
                best_imb = imb;
            }
        }
        i += 1;
    }
    if found {
        Some(best)
    } else {
        None
    }
}

/// Equal-length sequences that agree outside `[lb, ub)` and whose `[lb, ub)`
/// sub-slices agree as multisets agree as whole multisets.
proof fn lemma_multiset_patch(s1: Seq<usize>, s2: Seq<usize>, lb: int, ub: int)
    requires
        s1.len() == s2.len(),
        0 <= lb <= ub <= s1.len(),
        forall|i: int| 0 <= i < lb ==> s1[i] == s2[i],
        forall|i: int| ub <= i < s1.len() ==> s1[i] == s2[i],
        s1.subrange(lb, ub).to_multiset() == s2.subrange(lb, ub).to_multiset(),
    ensures
        s1.to_multiset() == s2.to_multiset(),
{
    let n = s1.len() as int;
    assert(s1 =~= s1.subrange(0, lb) + s1.subrange(lb, ub) + s1.subrange(ub, n));
    assert(s2 =~= s2.subrange(0, lb) + s2.subrange(lb, ub) + s2.subrange(ub, n));
    assert(s1.subrange(0, lb) =~= s2.subrange(0, lb));
    assert(s1.subrange(ub, n) =~= s2.subrange(ub, n));
    vstd::seq_lib::lemma_multiset_commutative(s1.subrange(0, lb), s1.subrange(lb, ub));
    vstd::seq_lib::lemma_multiset_commutative(
        s1.subrange(0, lb) + s1.subrange(lb, ub),
        s1.subrange(ub, n),
    );
    vstd::seq_lib::lemma_multiset_commutative(s2.subrange(0, lb), s2.subrange(lb, ub));
    vstd::seq_lib::lemma_multiset_commutative(
        s2.subrange(0, lb) + s2.subrange(lb, ub),
        s2.subrange(ub, n),
    );
}

/// The decomposition's result: a permutation of the taxon ids and the
/// recorded half-open ranges into it, one per decomposition unit.
pub struct TaxaHierarchy {
    pub reordered_taxa: Vec<usize>,
    pub decomposition_ranges: Vec<(usize, usize)>,
}

/// Balanced hierarchical decomposition of the tree's taxa.
///
/// A work list of pending units, keyed by current size with a fixed
/// lexicographic tie-break, is processed largest first. A popped unit of at
/// least two taxa is recorded as a range; a unit of at least `max_size` taxa
/// is split at the internal node that balances it best (ties to the smallest
/// node id), its taxa are grouped to the front of the unit's sub-slice, and
/// both sides are re-enqueued. A unit made only of leaves is left as it is.
///
/// The result's `reordered_taxa` is a permutation of `0..ntaxa`; every
/// recorded range lies within `[0, ntaxa)` and holds at least two taxa; and
/// whenever `ntaxa >= 2` the first recorded range is the whole of
/// `[0, ntaxa)`, so the ranges together cover every taxon index.
pub fn hierarchical_decomp(tree: &Tree, max_size: usize) -> (h: TaxaHierarchy)
    requires
        tree.wf(),
        max_size >= 1,
    ensures
        h.reordered_taxa@.len() == tree.ntaxa,
        h.reordered_taxa@.to_multiset() == identity_perm(tree.ntaxa as int).to_multiset(),
        forall|r: int|
            0 <= r < h.decomposition_ranges@.len() ==> (#[trigger] h.decomposition_ranges@[r]).0 + 2
                <= h.decomposition_ranges@[r].1 <= tree.ntaxa,
        tree.ntaxa >= 2 ==> h.decomposition_ranges@.len() >= 1 && h.decomposition_ranges@[0] == (
        0usize,
        tree.ntaxa,
        ),
        tree.ntaxa < 2 ==> h.decomposition_ranges@.len() == 0,
        forall|r1: int, r2: int|
            #![trigger h.decomposition_ranges@[r1], h.decomposition_ranges@[r2]]
            0 <= r1 <= r2 < h.decomposition_ranges@.len() ==> h.decomposition_ranges@[r1].1
                - h.decomposition_ranges@[r1].0 >= h.decomposition_ranges@[r2].1
                - h.decomposition_ranges@[r2].0,
{
    let n_nodes: usize = tree.parent.len();
    let ntaxa: usize = tree.ntaxa;
    let mut reordered_taxa: Vec<usize> = Vec::new();
    let mut q: usize = 0;
    while q < ntaxa
        invariant
            q <= ntaxa,
            reordered_taxa@.len() == q,
            forall|p: int| 0 <= p < q ==> #[trigger] reordered_taxa@[p] == p,
        decreases ntaxa - q,
    {
        reordered_taxa.push(q);
        q += 1;
    }
    proof {
        assert(reordered_taxa@ =~= identity_perm(ntaxa as int));
    }
    let mut marks: Vec<bool> = Vec::new();
    let mut q2: usize = 0;
    while q2 < ntaxa
        invariant
            q2 <= ntaxa,
            marks@.len() == q2,
        decreases ntaxa - q2,
    {
        marks.push(false);
        q2 += 1;
    }
    let mut cuts: Vec<bool> = Vec::new();
    let mut q3: usize = 0;
    while q3 < n_nodes
        invariant
            q3 <= n_nodes,
            cuts@.len() == q3,
        decreases n_nodes - q3,
    {
        cuts.push(false);
        q3 += 1;
    }
    cuts.set(0, true);
    proof {
        lemma_count_marked_bounds(cuts@);
    }
    let mut ts: Vec<usize> = subtree_sizes(tree);
    let mut pq: Vec<(usize, usize, usize, usize)> = Vec::new();
    pq.push((ntaxa, 0, ntaxa, 0));
    let mut decomposition_ranges: Vec<(usize, usize)> = Vec::new();
    let ghost mut bound: int = ntaxa as int;
    while pq.len() > 0
        invariant
            tree.wf(),
            max_size >= 1,
            n_nodes == tree.num_nodes(),
            ntaxa == tree.ntaxa,
            ts@.len() == n_nodes,
            cuts@.len() == n_nodes,
            cuts@[0],
            0 <= count_marked(cuts@) <= n_nodes,
            marks@.len() == ntaxa,
            reordered_taxa@.len() == ntaxa,
            forall|p: int| 0 <= p < ntaxa ==> #[trigger] reordered_taxa@[p] < ntaxa,
            reordered_taxa@.to_multiset() == identity_perm(ntaxa as int).to_multiset(),
            forall|e: int|
                0 <= e < pq@.len() ==> (#[trigger] pq@[e]).1 <= pq@[e].2 <= ntaxa && pq@[e].0
                    == pq@[e].2 - pq@[e].1 && pq@[e].3 < n_nodes,
            forall|r: int|
                0 <= r < decomposition_ranges@.len() ==> (#[trigger] decomposition_ranges@[r]).0 + 2
                    <= decomposition_ranges@[r].1 <= ntaxa,
            ntaxa >= 2 && decomposition_ranges@.len() == 0 ==> pq@ =~= seq![
                (ntaxa, 0usize, ntaxa, 0usize),
            ],
            ntaxa >= 2 && decomposition_ranges@.len() >= 1 ==> decomposition_ranges@[0] == (
            0usize,
            ntaxa,
            ),
            ntaxa < 2 ==> decomposition_ranges@.len() == 0,
            forall|e: int| 0 <= e < pq@.len() ==> (#[trigger] pq@[e]).0 <= bound,
            forall|r: int|
                0 <= r < decomposition_ranges@.len() ==> (#[trigger] decomposition_ranges@[r]).1
                    - decomposition_ranges@[r].0 >= bound,
            forall|r1: int, r2: int|
                #![trigger decomposition_ranges@[r1], decomposition_ranges@[r2]]
                0 <= r1 <= r2 < decomposition_ranges@.len() ==> decomposition_ranges@[r1].1
                    - decomposition_ranges@[r1].0 >= decomposition_ranges@[r2].1
                    - decomposition_ranges@[r2].0,
        decreases n_nodes - count_marked(cuts@), pq@.len(),
    {
        let ghost pq_before = pq@;
        let e = pop_max(&mut pq);
        proof {
            bound = e.0 as int;
        }
        proof {
            let idx = choose|idx: int| 0 <= idx < pq_before.len() && pq_before[idx] == e;
            assert(pq_before[idx] == e);
        }
        let size: usize = e.0;
        let lb: usize = e.1;
        let ub: usize = e.2;
        let root: usize = e.3;
        proof {
            assert forall|e2: int| 0 <= e2 < pq@.len() implies (#[trigger] pq@[e2]).1 <= pq@[e2].2
                <= ntaxa && pq@[e2].0 == pq@[e2].2 - pq@[e2].1 && pq@[e2].3 < n_nodes by {
                let w = choose|w: int| 0 <= w < pq_before.len() && pq_before[w] == pq@[e2];
                assert(pq_before[w] == pq@[e2]);
            }
        }
        if size >= 2 {
            decomposition_ranges.push((lb, ub));
        }
        if size >= max_size {
            match find_best_cut(tree, &ts, &cuts, root, size) {
                None => {
                    // a pure leaf cluster: stop refining this unit
                },
                Some(bc) => {
                    assert(bc != 0);
                    let d: usize = ts[bc];
                    let mut a: usize = tree.parent[bc];
                    while a != root
                        invariant
                            tree.wf(),
                            n_nodes == tree.num_nodes(),
                            a < n_nodes,
                            ts@.len() == n_nodes,
                        decreases a,
                    {
                        // In a well-formed run the cut's mass never exceeds
                        // an ancestor's recorded size; the guard keeps the
                        // update total without relying on that.
                        let cur: usize = ts[a];
                        ts.set(
                            a,
                            if cur >= d {
                                cur - d
                            } else {
                                0
                            },
                        );
                        if a == 0 {
                            break ;
                        }
                        a = tree.parent[a];
                    }
                    let ghost pre_cuts = cuts@;
                    cuts.set(bc, true);
                    proof {
                        lemma_count_marked_set(pre_cuts, bc as int);
                        lemma_count_marked_bounds(cuts@);
                    }
                    mark_subtree_leaves(tree, bc, &mut marks);
                    let ghost pre_taxa = reordered_taxa@;
                    let cnt: usize = stable_partition(&mut reordered_taxa, lb, ub, &marks);
                    proof {
                        lemma_multiset_patch(reordered_taxa@, pre_taxa, lb as int, ub as int);
                        assert forall|p: int| 0 <= p < ntaxa implies #[trigger] reordered_taxa@[p]
                            < ntaxa by {
                            if p < lb || p >= ub {
                                assert(reordered_taxa@[p] == pre_taxa[p]);
                            }
                        }
                    }
                    clear_marks(&mut marks);
                    let mid: usize = lb + cnt;
                    pq.push((mid - lb, lb, mid, bc));
                    pq.push((ub - mid, mid, ub, root));
                },
            }
        }
    }
    TaxaHierarchy { reordered_taxa, decomposition_ranges }
}

/// The index set a half-open range stands for.
pub open spec fn range_set(rg: (usize, usize)) -> Set<int> {
    Set::new(|x: int| rg.0 <= x < rg.1)
}

/// The union of the index sets of all the ranges.
pub open spec fn ranges_union(rs: Seq<(usize, usize)>) -> Set<int>
    decreases rs.len(),
{
    if rs.len() == 0 {
        Set::empty()
    } else {
        ranges_union(rs.drop_last()).union(range_set(rs.last()))
    }
}

/// Coverage law: the recorded ranges of a decomposition over at least two
/// taxa, read as index sets into `reordered_taxa`, together are exactly
/// `[0, ntaxa)`. The premises are what `hierarchical_decomp` ensures of its
/// result. (The ranges are not pairwise disjoint: a split unit's range stays
/// recorded beside the ranges of its two sides, since the hierarchy keeps
/// every level of the decomposition.)
pub proof fn lemma_ranges_cover(rs: Seq<(usize, usize)>, ntaxa: usize)
    requires
        ntaxa >= 2,
        rs.len() >= 1,
        rs[0] == (0usize, ntaxa),
        forall|r: int| 0 <= r < rs.len() ==> (#[trigger] rs[r]).1 <= ntaxa,
    ensures
        ranges_union(rs) =~= Set::new(|x: int| 0 <= x < ntaxa),
    decreases rs.len(),
{
    if rs.len() == 1 {
        reveal_with_fuel(ranges_union, 2);
        assert(rs.last() == rs[0]);
        assert(ranges_union(rs) == ranges_union(rs.drop_last()).union(range_set(rs.last())));
        assert(ranges_union(rs.drop_last()) =~= Set::empty());
        assert(ranges_union(rs) =~= Set::new(|x: int| 0 <= x < ntaxa));
    } else {
        lemma_ranges_cover(rs.drop_last(), ntaxa);
        assert(rs.last().1 <= ntaxa);
        assert(ranges_union(rs) =~= Set::new(|x: int| 0 <= x < ntaxa));
    }
}

/// Permutation law: a sequence whose multiset of values is that of the
/// identity permutation of `0..n` — as `hierarchical_decomp` ensures of
/// `reordered_taxa` — is a bijection: it has length `n`, every value lies
/// below `n`, no value repeats, and every taxon id occurs.
pub proof fn lemma_permutation_bijective(s: Seq<usize>, n: usize)
    requires
        s.to_multiset() == identity_perm(n as int).to_multiset(),
    ensures
        s.len() == n,
        forall|i: int| 0 <= i < s.len() ==> #[trigger] s[i] < n,
        forall|i: int, j: int| 0 <= i < j < s.len() ==> s[i] != s[j],
        forall|v: usize| v < n ==> s.contains(v),
{
    broadcast use vstd::seq_lib::group_to_multiset_ensures;

    let id = identity_perm(n as int);
    assert(id.len() == n);
    assert(s.len() == s.to_multiset().len());
    assert(id.len() == id.to_multiset().len());
    assert(id.no_duplicates());
    id.lemma_multiset_has_no_duplicates();
    assert(forall|x: usize| s.to_multiset().contains(x) ==> s.to_multiset().count(x) == 1);
    s.lemma_multiset_has_no_duplicates_conv();
    assert(s.no_duplicates());
    assert forall|v: usize| v < n implies s.contains(v) by {
        assert(id[v as int] == v);
        assert(id.contains(v));
        assert(id.to_multiset().count(v) > 0);
        assert(s.to_multiset().count(v) > 0);
    }
    assert forall|i: int| 0 <= i < s.len() implies #[trigger] s[i] < n by {
        let x = s[i];
        assert(s.contains(x));
        assert(s.to_multiset().count(x) > 0);
        assert(id.to_multiset().count(x) > 0);
        assert(id.contains(x));
        let w = choose|w: int| 0 <= w < id.len() && id[w] == x;
        assert(x == w as usize);
    }
}

} // verus!
