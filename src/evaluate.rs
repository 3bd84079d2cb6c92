use vstd::prelude::*;
use crate::dataset::FeatureVector;
use crate::path_tally::{lemma_score_is_path_tally, path_tally};
use crate::tree::Tree;

verus! {

/// The feature vectors of a sequence of samples.
pub open spec fn rows<S: FeatureVector>(samples: Seq<S>) -> Seq<Seq<u8>> {
    samples.map_values(|s: S| s.features())
}

/// Every feature that `t` tests exists in every row.
pub open spec fn fits(t: Tree, rows: Seq<Seq<u8>>) -> bool {
    forall|i: int| 0 <= i < rows.len() ==> #[trigger] t.features_below(rows[i].len())
}

/// Every index is a valid row index.
pub open spec fn indices_valid(idx: Seq<usize>, n: nat) -> bool {
    forall|j: int| 0 <= j < idx.len() ==> #[trigger] idx[j] < n
}

/// The indices, in order, whose rows the root of `t` sends to the given side.
pub open spec fn side(t: Tree, rows: Seq<Seq<u8>>, idx: Seq<usize>, right: bool) -> Seq<usize>
    decreases idx.len(),
{
    if idx.len() == 0 {
        Seq::empty()
    } else {
        let rest = side(t, rows, idx.drop_last(), right);
        if t.goes_right(rows[idx.last() as int]) == right {
            rest.push(idx.last())
        } else {
            rest
        }
    }
}

/// How many of the indexed samples carry label `l`.
pub open spec fn label_count(labels: Seq<usize>, idx: Seq<usize>, l: nat) -> nat
    decreases idx.len(),
{
    if idx.len() == 0 {
        0
    } else {
        label_count(labels, idx.drop_last(), l) + if labels[idx.last() as int] == l {
            1nat
        } else {
            0nat
        }
    }
}

/// The largest count of one label below `bound` among the indexed samples.
pub open spec fn majority(labels: Seq<usize>, idx: Seq<usize>, bound: nat) -> nat
    decreases bound,
{
    if bound == 0 {
        0
    } else {
        let prev = majority(labels, idx, (bound - 1) as nat);
        let here = label_count(labels, idx, (bound - 1) as nat);
        if prev < here {
            here
        } else {
            prev
        }
    }
}

/// One more than the largest label (one for no labels).
pub open spec fn label_bound(labels: Seq<usize>) -> nat
    decreases labels.len(),
{
    if labels.len() == 0 {
        1
    } else {
        let prev = label_bound(labels.drop_last());
        if prev < labels.last() + 1 {
            (labels.last() + 1) as nat
        } else {
            prev
        }
    }
}

/// The number of indexed samples that `t` classifies correctly when each of
/// its decision paths is given its majority label: a leaf splits its samples
/// into two paths, an internal node hands each side to one child.
pub open spec fn score(
    t: Tree,
    rows: Seq<Seq<u8>>,
    labels: Seq<usize>,
    idx: Seq<usize>,
    bound: nat,
) -> nat
    decreases t,
{
    let l = side(t, rows, idx, false);
    let r = side(t, rows, idx, true);
    match t.branch {
        None => majority(labels, l, bound) + majority(labels, r, bound),
        Some(b) => score(b.left, rows, labels, l, bound) + score(b.right, rows, labels, r, bound),
    }
}

/// `[0, 1, ..., n - 1]`.
pub open spec fn all_indices(n: nat) -> Seq<usize> {
    Seq::new(n, |i: int| i as usize)
}

/// The best achievable number of correct classifications of `t` on the data.
pub open spec fn correct_count(t: Tree, rows: Seq<Seq<u8>>, labels: Seq<usize>) -> nat {
    score(t, rows, labels, all_indices(rows.len()), label_bound(labels))
}

pub proof fn lemma_side_len(t: Tree, rows: Seq<Seq<u8>>, idx: Seq<usize>)
    ensures
        side(t, rows, idx, false).len() + side(t, rows, idx, true).len() == idx.len(),
    decreases idx.len(),
{
    if idx.len() > 0 {
        lemma_side_len(t, rows, idx.drop_last());
    }
}

pub proof fn lemma_side_valid(t: Tree, rows: Seq<Seq<u8>>, idx: Seq<usize>, right: bool, n: nat)
    requires
        indices_valid(idx, n),
    ensures
        indices_valid(side(t, rows, idx, right), n),
    decreases idx.len(),
{
    if idx.len() > 0 {
        lemma_side_valid(t, rows, idx.drop_last(), right, n);
    }
}

pub proof fn lemma_label_count_le(labels: Seq<usize>, idx: Seq<usize>, l: nat)
    ensures
        label_count(labels, idx, l) <= idx.len(),
    decreases idx.len(),
{
    if idx.len() > 0 {
        lemma_label_count_le(labels, idx.drop_last(), l);
    }
}

pub proof fn lemma_majority_le(labels: Seq<usize>, idx: Seq<usize>, bound: nat)
    ensures
        majority(labels, idx, bound) <= idx.len(),
    decreases bound,
{
    if bound > 0 {
        lemma_majority_le(labels, idx, (bound - 1) as nat);
        lemma_label_count_le(labels, idx, (bound - 1) as nat);
    }
}

/// No tree classifies more samples correctly than there are.
pub proof fn lemma_score_le(
    t: Tree,
    rows: Seq<Seq<u8>>,
    labels: Seq<usize>,
    idx: Seq<usize>,
    bound: nat,
)
    ensures
        score(t, rows, labels, idx, bound) <= idx.len(),
    decreases t,
{
    let l = side(t, rows, idx, false);
    let r = side(t, rows, idx, true);
    lemma_side_len(t, rows, idx);
    match t.branch {
        None => {
            lemma_majority_le(labels, l, bound);
            lemma_majority_le(labels, r, bound);
        },
        Some(b) => {
            lemma_score_le(b.left, rows, labels, l, bound);
            lemma_score_le(b.right, rows, labels, r, bound);
        },
    }
}

pub proof fn lemma_label_bound(labels: Seq<usize>)
    ensures
        label_bound(labels) >= 1,
        forall|i: int| 0 <= i < labels.len() ==> labels[i] < label_bound(labels),
    decreases labels.len(),
{
    if labels.len() > 0 {
        lemma_label_bound(labels.drop_last());
        assert forall|i: int| 0 <= i < labels.len() implies labels[i] < label_bound(labels) by {
            if i < labels.len() - 1 {
                assert(labels[i] == labels.drop_last()[i]);
            }
        }
    }
}

/// `label_bound` as a loop; every label must leave room for one more.
pub(crate) fn compute_label_bound(labels: &[usize]) -> (r: usize)
    requires
        forall|i: int| 0 <= i < labels@.len() ==> labels@[i] < usize::MAX,
    ensures
        r == label_bound(labels@),
{
    let mut bound: usize = 1;
    let mut i: usize = 0;
    while i < labels.len()
        invariant
            i <= labels@.len(),
            bound == label_bound(labels@.take(i as int)),
            forall|k: int| 0 <= k < labels@.len() ==> labels@[k] < usize::MAX,
        decreases labels@.len() - i,
    {
        assert(labels@.take(i as int + 1).drop_last() =~= labels@.take(i as int));
        if bound < labels[i] + 1 {
            bound = labels[i] + 1;
        }
        i = i + 1;
    }
    assert(labels@.take(i as int) =~= labels@);
    bound
}

/// Splits the indexed samples by the root test of `t`, keeping their order.
pub fn split<S: FeatureVector>(t: &Tree, samples: &[S], idx: &Vec<usize>) -> (r: (
    Vec<usize>,
    Vec<usize>,
))
    requires
        indices_valid(idx@, samples@.len()),
        fits(*t, rows(samples@)),
    ensures
        r.0@ == side(*t, rows(samples@), idx@, false),
        r.1@ == side(*t, rows(samples@), idx@, true),
{
    let ghost rs = rows(samples@);
    let mut left: Vec<usize> = Vec::new();
    let mut right: Vec<usize> = Vec::new();
    let mut j: usize = 0;
    while j < idx.len()
        invariant
            j <= idx@.len(),
            indices_valid(idx@, samples@.len()),
            fits(*t, rs),
            rs == rows(samples@),
            left@ == side(*t, rs, idx@.take(j as int), false),
            right@ == side(*t, rs, idx@.take(j as int), true),
        decreases idx@.len() - j,
    {
        let k = idx[j];
        assert(idx@.take(j as int + 1).drop_last() =~= idx@.take(j as int));
        assert(idx@.take(j as int + 1).last() == k);
        assert(t.features_below(rs[k as int].len()));
        assert(rs[k as int] == samples@[k as int].features());
        let v = samples[k].feature(t.feature);
        if v > t.threshold {
            right.push(k);
        } else {
            left.push(k);
        }
        j = j + 1;
    }
    assert(idx@.take(j as int) =~= idx@);
    (left, right)
}

/// The largest count of one label below `bound` among the indexed samples.
fn count_majority(labels: &[usize], idx: &Vec<usize>, bound: usize) -> (r: usize)
    requires
        indices_valid(idx@, labels@.len()),
        forall|i: int| 0 <= i < labels@.len() ==> labels@[i] < bound,
    ensures
        r == majority(labels@, idx@, bound as nat),
        r <= idx@.len(),
{
    let mut counts: Vec<usize> = Vec::new();
    let mut l: usize = 0;
    while l < bound
        invariant
            l <= bound,
            counts@.len() == l,
            forall|m: int| 0 <= m < l ==> counts@[m] == 0,
        decreases bound - l,
    {
        counts.push(0);
        l = l + 1;
    }
    let mut j: usize = 0;
    while j < idx.len()
        invariant
            j <= idx@.len(),
            counts@.len() == bound,
            indices_valid(idx@, labels@.len()),
            forall|i: int| 0 <= i < labels@.len() ==> labels@[i] < bound,
            forall|m: int|
                0 <= m < bound ==> #[trigger] counts@[m] == label_count(
                    labels@,
                    idx@.take(j as int),
                    m as nat,
                ),
        decreases idx@.len() - j,
    {
        let lab = labels[idx[j]];
        assert(idx@.take(j as int + 1).drop_last() =~= idx@.take(j as int));
        proof {
            lemma_label_count_le(labels@, idx@.take(j as int), lab as nat);
        }
        counts.set(lab, counts[lab] + 1);
        j = j + 1;
    }
    assert(idx@.take(j as int) =~= idx@);
    let mut best: usize = 0;
    let mut m: usize = 0;
    while m < bound
        invariant
            m <= bound,
            counts@.len() == bound,
            forall|q: int|
                0 <= q < bound ==> #[trigger] counts@[q] == label_count(labels@, idx@, q as nat),
            best == majority(labels@, idx@, m as nat),
        decreases bound - m,
    {
        if best < counts[m] {
            best = counts[m];
        }
        m = m + 1;
    }
    proof {
        lemma_majority_le(labels@, idx@, bound as nat);
    }
    best
}

/// `score` over the indexed samples.
pub(crate) fn score_indices<S: FeatureVector>(
    t: &Tree,
    samples: &[S],
    labels: &[usize],
    idx: &Vec<usize>,
    bound: usize,
) -> (r: usize)
    requires
        samples@.len() == labels@.len(),
        indices_valid(idx@, samples@.len()),
        fits(*t, rows(samples@)),
        forall|i: int| 0 <= i < labels@.len() ==> labels@[i] < bound,
    ensures
        r == score(*t, rows(samples@), labels@, idx@, bound as nat),
        r <= idx@.len(),
    decreases t,
{
    let ghost rs = rows(samples@);
    let n = idx.len();
    let (l, r) = split(t, samples, idx);
    proof {
        lemma_side_len(*t, rs, idx@);
        lemma_side_valid(*t, rs, idx@, false, samples@.len());
        lemma_side_valid(*t, rs, idx@, true, samples@.len());
        lemma_score_le(*t, rs, labels@, idx@, bound as nat);
    }
    match &t.branch {
        None => count_majority(labels, &l, bound) + count_majority(labels, &r, bound),
        Some(b) => {
            assert forall|i: int| 0 <= i < rs.len() implies #[trigger] b.left.features_below(
                rs[i].len(),
            ) by {
                assert(t.features_below(rs[i].len()));
            }
            assert forall|i: int| 0 <= i < rs.len() implies #[trigger] b.right.features_below(
                rs[i].len(),
            ) by {
                assert(t.features_below(rs[i].len()));
            }
            score_indices(&b.left, samples, labels, &l, bound) + score_indices(
                &b.right,
                samples,
                labels,
                &r,
                bound,
            )
        },
    }
}

/// `[0, 1, ..., n - 1]`.
pub fn index_range(n: usize) -> (r: Vec<usize>)
    ensures
        r@ == all_indices(n as nat),
{
    let mut v: Vec<usize> = Vec::new();
    let mut i: usize = 0;
    while i < n
        invariant
            i <= n,
            v@ == all_indices(i as nat),
        decreases n - i,
    {
        v.push(i);
        i = i + 1;
        assert(v@ =~= all_indices(i as nat));
    }
    v
}

/// The largest number of samples that `t` classifies correctly when each of
/// its decision paths is assigned the label most frequent among the samples
/// that follow it. For a perfect tree this is the sum, over the decision path
/// ids, of the largest label count on the path; an empty sample set gives 0.
pub fn evaluate<S: FeatureVector>(t: &Tree, samples: &[S], labels: &[usize]) -> (r: usize)
    requires
        samples@.len() == labels@.len(),
        fits(*t, rows(samples@)),
        forall|i: int| 0 <= i < labels@.len() ==> labels@[i] < usize::MAX,
    ensures
        r == correct_count(*t, rows(samples@), labels@),
        t.perfect() ==> r == path_tally(
            *t,
            rows(samples@),
            labels@,
            all_indices(samples@.len()),
            label_bound(labels@),
            t.paths(),
        ),
        r <= samples@.len(),
{
    let bound = compute_label_bound(labels);
    proof {
        lemma_label_bound(labels@);
        if t.perfect() {
            lemma_score_is_path_tally(
                *t,
                rows(samples@),
                labels@,
                all_indices(samples@.len()),
                label_bound(labels@),
            );
        }
    }
    let idx = index_range(samples.len());
    assert(indices_valid(idx@, samples@.len()));
    score_indices(t, samples, labels, &idx, bound)
}

} // verus!

verus! {

/// A tree together with its accuracy, `correct / total`.
pub struct TreeEvaluation {
    pub tree: Tree,
    pub correct: usize,
    pub total: usize,
}

impl TreeEvaluation {
    pub open spec fn wf(&self) -> bool {
        self.total > 0
    }

    /// This evaluation's accuracy is strictly below `other`'s.
    pub open spec fn less_accurate(&self, other: &TreeEvaluation) -> bool {
        self.correct * other.total < other.correct * self.total
    }

    /// Whether this evaluation's accuracy is strictly below `other`'s.
    pub fn is_less_accurate(&self, other: &TreeEvaluation) -> (r: bool)
        ensures
            r == self.less_accurate(other),
    {
        let a = self.correct as u128;
        let b = other.total as u128;
        let c = other.correct as u128;
        let d = self.total as u128;
        proof {
            lemma_product_fits(a as nat, b as nat);
            lemma_product_fits(c as nat, d as nat);
        }
        a * b < c * d
    }
}

proof fn lemma_product_fits(a: nat, b: nat)
    requires
        a <= u64::MAX,
        b <= u64::MAX,
    ensures
        a * b <= u128::MAX,
{
    assert(a * b <= u64::MAX * u64::MAX) by (nonlinear_arith)
        requires
            a <= u64::MAX,
            b <= u64::MAX,
    ;
}

/// If `a` is no better than `b` and `b` is worse than `c`, then `a` is worse than `c`.
pub proof fn lemma_le_lt(a: TreeEvaluation, b: TreeEvaluation, c: TreeEvaluation)
    requires
        a.wf(),
        b.wf(),
        c.wf(),
        !b.less_accurate(&a),
        b.less_accurate(&c),
    ensures
        a.less_accurate(&c),
{
    let (ac, at, bc, bt, cc, ct) = (
        a.correct as int,
        a.total as int,
        b.correct as int,
        b.total as int,
        c.correct as int,
        c.total as int,
    );
    assert(ac * bt * ct <= bc * at * ct) by (nonlinear_arith)
        requires
            ac * bt <= bc * at,
            ct > 0,
    ;
    assert(bc * ct * at < cc * bt * at) by (nonlinear_arith)
        requires
            bc * ct < cc * bt,
            at > 0,
    ;
    assert(ac * ct * bt < cc * at * bt) by (nonlinear_arith)
        requires
            ac * bt * ct <= bc * at * ct,
            bc * ct * at < cc * bt * at,
    ;
    assert(ac * ct < cc * at) by (nonlinear_arith)
        requires
            ac * ct * bt < cc * at * bt,
            bt > 0,
    ;
}

} // verus!
