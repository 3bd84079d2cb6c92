use vstd::prelude::*;
use crate::draw::draw_upto;

verus! {

/// A binary decision tree. Every node tests one feature against a threshold;
/// a node has either no children or exactly two.
#[derive(Debug, PartialEq, Eq)]
pub struct Tree {
    pub feature: usize,
    pub threshold: u8,
    pub branch: Option<Box<Branch>>,
}

/// The two children of an internal node.
#[derive(Debug, PartialEq, Eq)]
pub struct Branch {
    pub left: Tree,
    pub right: Tree,
}

/// `2^n`.
pub open spec fn pow2(n: nat) -> nat
    decreases n,
{
    if n == 0 {
        1
    } else {
        2 * pow2((n - 1) as nat)
    }
}

impl Tree {
    /// The depth along the leftmost spine (a leaf has depth 0).
    pub open spec fn depth(self) -> nat
        decreases self,
    {
        match self.branch {
            None => 0,
            Some(b) => 1 + b.left.depth(),
        }
    }

    /// Every leaf sits at the same depth.
    pub open spec fn perfect(self) -> bool
        decreases self,
    {
        match self.branch {
            None => true,
            Some(b) => b.left.perfect() && b.right.perfect() && b.left.depth() == b.right.depth(),
        }
    }

    /// A perfect tree of exactly depth `d`.
    pub open spec fn perfect_of_depth(self, d: nat) -> bool {
        self.perfect() && self.depth() == d
    }

    /// The number of decision paths: two per leaf.
    pub open spec fn paths(self) -> nat
        decreases self,
    {
        match self.branch {
            None => 2,
            Some(b) => 2 * b.left.paths(),
        }
    }

    /// Whether the node sends `s` to its right side.
    pub open spec fn goes_right(self, s: Seq<u8>) -> bool {
        s[self.feature as int] > self.threshold
    }

    /// The decision path of `s`: the root's choice is the least significant bit.
    pub open spec fn path(self, s: Seq<u8>) -> nat
        decreases self,
    {
        let bit: nat = if self.goes_right(s) { 1 } else { 0 };
        match self.branch {
            None => bit,
            Some(b) => 2 * (if self.goes_right(s) { b.right.path(s) } else { b.left.path(s) }) + bit,
        }
    }

    /// Every feature index in the tree is below `n`.
    pub open spec fn features_below(self, n: nat) -> bool
        decreases self,
    {
        self.feature < n && match self.branch {
            None => true,
            Some(b) => b.left.features_below(n) && b.right.features_below(n),
        }
    }

    /// Every feature is at most `feature_max` and every threshold at most `threshold_max`.
    pub open spec fn bounded(self, feature_max: nat, threshold_max: nat) -> bool
        decreases self,
    {
        self.feature <= feature_max && self.threshold <= threshold_max && match self.branch {
            None => true,
            Some(b) => b.left.bounded(feature_max, threshold_max) && b.right.bounded(
                feature_max,
                threshold_max,
            ),
        }
    }

    /// Every feature and every threshold is zero.
    pub open spec fn all_zero(self) -> bool
        decreases self,
    {
        self.feature == 0 && self.threshold == 0 && match self.branch {
            None => true,
            Some(b) => b.left.all_zero() && b.right.all_zero(),
        }
    }

    /// The two trees have the same shape.
    pub open spec fn same_shape(self, other: Tree) -> bool
        decreases self,
    {
        match (self.branch, other.branch) {
            (None, None) => true,
            (Some(a), Some(b)) => a.left.same_shape(b.left) && a.right.same_shape(b.right),
            _ => false,
        }
    }

    /// The perfect tree of the given depth whose fields are all zero.
    pub fn new(depth: u8) -> (r: Tree)
        ensures
            r.perfect_of_depth(depth as nat),
            r.paths() == pow2(depth as nat + 1),
            r.all_zero(),
        decreases depth,
    {
        proof {
            reveal_with_fuel(pow2, 2);
        }
        if depth == 0 {
            Tree { feature: 0, threshold: 0, branch: None }
        } else {
            let left = Tree::new(depth - 1);
            let right = Tree::new(depth - 1);
            Tree { feature: 0, threshold: 0, branch: Some(Box::new(Branch { left, right })) }
        }
    }

    /// A perfect tree of the given depth whose features are drawn from
    /// `[0, feature_max]` and thresholds from `[0, threshold_max]`.
    pub fn random(depth: u8, feature_max: usize, threshold_max: u8) -> (r: Tree)
        requires
            feature_max < usize::MAX,
        ensures
            r.perfect_of_depth(depth as nat),
            r.paths() == pow2(depth as nat + 1),
            r.bounded(feature_max as nat, threshold_max as nat),
        decreases depth,
    {
        proof {
            reveal_with_fuel(pow2, 2);
        }
        let feature = draw_upto(feature_max);
        let threshold = draw_upto(threshold_max as usize) as u8;
        if depth == 0 {
            Tree { feature, threshold, branch: None }
        } else {
            let left = Tree::random(depth - 1, feature_max, threshold_max);
            let right = Tree::random(depth - 1, feature_max, threshold_max);
            Tree { feature, threshold, branch: Some(Box::new(Branch { left, right })) }
        }
    }

    /// A deep copy.
    pub fn copy(&self) -> (r: Tree)
        ensures
            r == *self,
        decreases self,
    {
        match &self.branch {
            None => Tree { feature: self.feature, threshold: self.threshold, branch: None },
            Some(b) => {
                let left = b.left.copy();
                let right = b.right.copy();
                Tree {
                    feature: self.feature,
                    threshold: self.threshold,
                    branch: Some(Box::new(Branch { left, right })),
                }
            },
        }
    }

    /// The number of decision paths, `2^(depth+1)` for a perfect tree.
    pub fn count_decision_paths(&self) -> (r: usize)
        requires
            self.perfect(),
            self.paths() <= usize::MAX,
        ensures
            r == self.paths(),
            r == pow2(self.depth() + 1),
        decreases self,
    {
        proof {
            lemma_paths_pow2(*self);
        }
        match &self.branch {
            None => 2,
            Some(b) => {
                let child = b.left.count_decision_paths();
                child * 2
            },
        }
    }

    /// The decision path that `sample` follows, an integer in `[0, paths())`.
    pub fn decision_path(&self, sample: &[u8]) -> (r: usize)
        requires
            self.perfect(),
            self.paths() <= usize::MAX,
            self.features_below(sample@.len()),
        ensures
            r == self.path(sample@),
            r < self.paths(),
        decreases self,
    {
        proof {
            lemma_path_below_paths(*self, sample@);
        }
        let right = sample[self.feature] > self.threshold;
        let bit: usize = if right { 1 } else { 0 };
        match &self.branch {
            None => bit,
            Some(b) => {
                proof {
                    lemma_paths_pow2(b.left);
                    lemma_paths_pow2(b.right);
                }
                let child = if right { b.right.decision_path(sample) } else { b.left.decision_path(sample) };
                child * 2 + bit
            },
        }
    }
}

/// A perfect tree of depth `d` has `2^(d+1)` decision paths.
pub proof fn lemma_paths_pow2(t: Tree)
    requires
        t.perfect(),
    ensures
        t.paths() == pow2(t.depth() + 1),
    decreases t,
{
    match t.branch {
        None => {
            assert(pow2(1) == 2) by {
                reveal_with_fuel(pow2, 2);
            }
        },
        Some(b) => {
            lemma_paths_pow2(b.left);
        },
    }
}

/// For a perfect tree every decision path lies in `[0, paths())`.
pub proof fn lemma_path_below_paths(t: Tree, s: Seq<u8>)
    requires
        t.perfect(),
    ensures
        t.path(s) < t.paths(),
    decreases t,
{
    match t.branch {
        None => {},
        Some(b) => {
            lemma_path_below_paths(b.left, s);
            lemma_path_below_paths(b.right, s);
            lemma_paths_pow2(b.left);
            lemma_paths_pow2(b.right);
        },
    }
}

} // verus!
