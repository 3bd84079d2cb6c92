use vstd::prelude::*;
use crate::dataset::FeatureVector;
use crate::draw::Probability;
use crate::evolve::{mutate_tree, mutation_of};
use crate::evaluate::{
    compute_label_bound, correct_count, fits, index_range, indices_valid, lemma_label_bound,
    lemma_score_le, lemma_side_len, lemma_side_valid, rows, score, score_indices, side, split,
};
use crate::tree::{Branch, Tree};

verus! {

/// Every row has more features than `feature_max`.
pub open spec fn rows_longer(rows: Seq<Seq<u8>>, feature_max: nat) -> bool {
    forall|i: int| 0 <= i < rows.len() ==> feature_max < #[trigger] rows[i].len()
}

/// Recursive hill-climbing over the fields of a tree.
pub struct Searcher {
    /// The number of random root mutations tried at every node.
    pub trials_per_depth: usize,
    /// The chance that a field below the root is redrawn by a mutation.
    pub mutate_prob: Probability,
    pub feature_max: usize,
    pub threshold_max: u8,
}

/// The candidate with the larger count; `x` on a tie.
pub fn better_tree(x: (Tree, usize), y: (Tree, usize)) -> (r: (Tree, usize))
    ensures
        r == (if x.1 < y.1 { y } else { x }),
{
    if x.1 < y.1 {
        y
    } else {
        x
    }
}

impl Searcher {
    pub open spec fn wf(&self) -> bool {
        self.mutate_prob.wf() && self.feature_max < usize::MAX
    }

    /// The facts about the data that every step of the search relies on.
    pub open spec fn data_ok(&self, t: Tree, rows: Seq<Seq<u8>>, labels: Seq<usize>) -> bool {
        &&& self.wf()
        &&& rows.len() == labels.len()
        &&& fits(t, rows)
        &&& rows_longer(rows, self.feature_max as nat)
    }

    /// Improves `t` on the samples: the result never scores lower than `t`.
    pub fn search<S: FeatureVector>(&self, t: &Tree, samples: &[S], labels: &[usize]) -> (r: (
        Tree,
        usize,
    ))
        requires
            self.data_ok(*t, rows(samples@), labels@),
            forall|i: int| 0 <= i < labels@.len() ==> labels@[i] < usize::MAX,
        ensures
            r.1 == correct_count(r.0, rows(samples@), labels@),
            r.1 >= correct_count(*t, rows(samples@), labels@),
            r.0.same_shape(*t),
            fits(r.0, rows(samples@)),
            t.bounded(self.feature_max as nat, self.threshold_max as nat) ==> r.0.bounded(
                self.feature_max as nat,
                self.threshold_max as nat,
            ),
            self.trials_per_depth == 0 ==> r.0 == *t,
    {
        let bound = compute_label_bound(labels);
        proof {
            lemma_label_bound(labels@);
        }
        let idx = index_range(samples.len());
        self.recursive_search(t, samples, labels, &idx, bound, self.trials_per_depth)
    }

    /// Searches the children on their own sides first, then tries root mutations
    /// of the combined tree.
    fn recursive_search<S: FeatureVector>(
        &self,
        t: &Tree,
        samples: &[S],
        labels: &[usize],
        idx: &Vec<usize>,
        bound: usize,
        trials: usize,
    ) -> (r: (Tree, usize))
        requires
            self.data_ok(*t, rows(samples@), labels@),
            indices_valid(idx@, samples@.len()),
            forall|i: int| 0 <= i < labels@.len() ==> labels@[i] < bound,
        ensures
            r.1 == score(r.0, rows(samples@), labels@, idx@, bound as nat),
            r.1 >= score(*t, rows(samples@), labels@, idx@, bound as nat),
            r.0.same_shape(*t),
            fits(r.0, rows(samples@)),
            t.bounded(self.feature_max as nat, self.threshold_max as nat) ==> r.0.bounded(
                self.feature_max as nat,
                self.threshold_max as nat,
            ),
            trials == 0 ==> r.0 == *t,
        decreases *t, 1nat,
    {
        if t.branch.is_some() {
            let child_res = self.child_search(t, samples, labels, idx, bound, trials);
            let random_res = self.random_search(&child_res.0, samples, labels, idx, bound, trials);
            proof {
                lemma_same_shape_trans(random_res.0, child_res.0, *t);
            }
            better_tree(child_res, random_res)
        } else {
            self.random_search(t, samples, labels, idx, bound, trials)
        }
    }

    /// Searches each child on the samples that the root sends to it.
    fn child_search<S: FeatureVector>(
        &self,
        t: &Tree,
        samples: &[S],
        labels: &[usize],
        idx: &Vec<usize>,
        bound: usize,
        trials: usize,
    ) -> (r: (Tree, usize))
        requires
            self.data_ok(*t, rows(samples@), labels@),
            t.branch.is_some(),
            indices_valid(idx@, samples@.len()),
            forall|i: int| 0 <= i < labels@.len() ==> labels@[i] < bound,
        ensures
            r.1 == score(r.0, rows(samples@), labels@, idx@, bound as nat),
            r.1 >= score(*t, rows(samples@), labels@, idx@, bound as nat),
            r.0.same_shape(*t),
            fits(r.0, rows(samples@)),
            t.bounded(self.feature_max as nat, self.threshold_max as nat) ==> r.0.bounded(
                self.feature_max as nat,
                self.threshold_max as nat,
            ),
            r.0.feature == t.feature,
            r.0.threshold == t.threshold,
            trials == 0 ==> r.0 == *t,
        decreases *t, 0nat,
    {
        let ghost rs = rows(samples@);
        let n = idx.len();
        let b = t.branch.as_ref().unwrap();
        let (left_idx, right_idx) = split(t, samples, idx);
        proof {
            lemma_side_len(*t, rs, idx@);
            lemma_side_valid(*t, rs, idx@, false, samples@.len());
            lemma_side_valid(*t, rs, idx@, true, samples@.len());
            lemma_fits_children(*t, rs);
        }
        let (left_best, left_correct) = self.recursive_search(
            &b.left,
            samples,
            labels,
            &left_idx,
            bound,
            trials,
        );
        let (right_best, right_correct) = self.recursive_search(
            &b.right,
            samples,
            labels,
            &right_idx,
            bound,
            trials,
        );
        proof {
            lemma_score_le(left_best, rs, labels@, left_idx@, bound as nat);
            lemma_score_le(right_best, rs, labels@, right_idx@, bound as nat);
        }
        let r = Tree {
            feature: t.feature,
            threshold: t.threshold,
            branch: Some(Box::new(Branch { left: left_best, right: right_best })),
        };
        proof {
            assert(side(r, rs, idx@, false) == side(*t, rs, idx@, false)) by {
                lemma_side_same_root(r, *t, rs, idx@, false);
            }
            assert(side(r, rs, idx@, true) == side(*t, rs, idx@, true)) by {
                lemma_side_same_root(r, *t, rs, idx@, true);
            }
            assert forall|i: int| 0 <= i < rs.len() implies #[trigger] r.features_below(
                rs[i].len(),
            ) by {
                assert(t.features_below(rs[i].len()));
                assert(left_best.features_below(rs[i].len()));
                assert(right_best.features_below(rs[i].len()));
            }
        }
        (r, left_correct + right_correct)
    }

    /// Keeps the best of `t` and `trials` root-forced mutations of it, on the
    /// indexed samples; the earliest wins a tie.
    fn random_search<S: FeatureVector>(
        &self,
        t: &Tree,
        samples: &[S],
        labels: &[usize],
        idx: &Vec<usize>,
        bound: usize,
        trials: usize,
    ) -> (r: (Tree, usize))
        requires
            self.data_ok(*t, rows(samples@), labels@),
            indices_valid(idx@, samples@.len()),
            forall|i: int| 0 <= i < labels@.len() ==> labels@[i] < bound,
        ensures
            r.1 == score(r.0, rows(samples@), labels@, idx@, bound as nat),
            r.1 >= score(*t, rows(samples@), labels@, idx@, bound as nat),
            r.0.same_shape(*t),
            fits(r.0, rows(samples@)),
            t.bounded(self.feature_max as nat, self.threshold_max as nat) ==> r.0.bounded(
                self.feature_max as nat,
                self.threshold_max as nat,
            ),
            r.0 == *t || (r.1 > score(*t, rows(samples@), labels@, idx@, bound as nat)
                && mutation_of(
                r.0,
                *t,
                self.mutate_prob,
                self.feature_max as nat,
                self.threshold_max as nat,
                true,
            )),
            trials == 0 ==> r.0 == *t,
    {
        let ghost rs = rows(samples@);
        let ghost base = score(*t, rs, labels@, idx@, bound as nat);
        let correct = score_indices(t, samples, labels, idx, bound);
        proof {
            lemma_same_shape_refl(*t);
        }
        let mut res = (t.copy(), correct);
        let mut i: usize = 0;
        while i < trials
            invariant
                self.data_ok(*t, rs, labels@),
                rs == rows(samples@),
                samples@.len() == labels@.len(),
                indices_valid(idx@, samples@.len()),
                forall|k: int| 0 <= k < labels@.len() ==> labels@[k] < bound,
                res.1 == score(res.0, rs, labels@, idx@, bound as nat),
                res.1 >= base,
                res.0.same_shape(*t),
                fits(res.0, rs),
                t.bounded(self.feature_max as nat, self.threshold_max as nat) ==> res.0.bounded(
                    self.feature_max as nat,
                    self.threshold_max as nat,
                ),
                i <= trials,
                i == 0 ==> res.0 == *t,
                res.0 == *t || (res.1 > base && mutation_of(
                    res.0,
                    *t,
                    self.mutate_prob,
                    self.feature_max as nat,
                    self.threshold_max as nat,
                    true,
                )),
            decreases trials - i,
        {
            let mutated = self.mutate(t, true);
            assert forall|k: int| 0 <= k < rs.len() implies #[trigger] mutated.features_below(
                rs[k].len(),
            ) by {
                assert(t.features_below(rs[k].len()));
            }
            let sub_correct = score_indices(&mutated, samples, labels, idx, bound);
            res = better_tree(res, (mutated, sub_correct));
            i = i + 1;
        }
        res
    }

    /// A copy of `t` in which the root's fields are redrawn when `root` holds,
    /// and every other field is redrawn with probability `mutate_prob`.
    pub fn mutate(&self, t: &Tree, root: bool) -> (r: Tree)
        requires
            self.wf(),
        ensures
            mutation_of(
                r,
                *t,
                self.mutate_prob,
                self.feature_max as nat,
                self.threshold_max as nat,
                root,
            ),
            r.same_shape(*t),
            forall|n: nat|
                t.features_below(n) && self.feature_max < n ==> #[trigger] r.features_below(n),
            t.bounded(self.feature_max as nat, self.threshold_max as nat)
                || self.mutate_prob.numerator == self.mutate_prob.denominator ==> r.bounded(
                self.feature_max as nat,
                self.threshold_max as nat,
            ),
            root ==> r.feature <= self.feature_max && r.threshold <= self.threshold_max,
            !root ==> (self.mutate_prob.numerator == 0 ==> r == *t),
    {
        mutate_tree(t, self.mutate_prob, self.feature_max, self.threshold_max, root)
    }
}

pub proof fn lemma_same_shape_refl(t: Tree)
    ensures
        t.same_shape(t),
    decreases t,
{
    if let Some(b) = t.branch {
        lemma_same_shape_refl(b.left);
        lemma_same_shape_refl(b.right);
    }
}

pub proof fn lemma_same_shape_trans(a: Tree, b: Tree, c: Tree)
    requires
        a.same_shape(b),
        b.same_shape(c),
    ensures
        a.same_shape(c),
    decreases a,
{
    match (a.branch, b.branch, c.branch) {
        (Some(x), Some(y), Some(z)) => {
            lemma_same_shape_trans(x.left, y.left, z.left);
            lemma_same_shape_trans(x.right, y.right, z.right);
        },
        _ => {},
    }
}

proof fn lemma_fits_children(t: Tree, rs: Seq<Seq<u8>>)
    requires
        fits(t, rs),
        t.branch.is_some(),
    ensures
        fits(t.branch.unwrap().left, rs),
        fits(t.branch.unwrap().right, rs),
{
    let b = t.branch.unwrap();
    assert forall|i: int| 0 <= i < rs.len() implies #[trigger] b.left.features_below(
        rs[i].len(),
    ) by {
        assert(t.features_below(rs[i].len()));
    }
    assert forall|i: int| 0 <= i < rs.len() implies #[trigger] b.right.features_below(
        rs[i].len(),
    ) by {
        assert(t.features_below(rs[i].len()));
    }
}

/// Two nodes with the same test split every sample list alike.
proof fn lemma_side_same_root(a: Tree, b: Tree, rs: Seq<Seq<u8>>, idx: Seq<usize>, right: bool)
    requires
        a.feature == b.feature,
        a.threshold == b.threshold,
    ensures
        side(a, rs, idx, right) == side(b, rs, idx, right),
    decreases idx.len(),
{
    if idx.len() > 0 {
        lemma_side_same_root(a, b, rs, idx.drop_last(), right);
    }
}

} // verus!
