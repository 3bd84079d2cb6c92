use vstd::prelude::*;
use crate::evaluate::TreeEvaluation;

verus! {

/// The coordinator's state: the most accurate evaluation submitted so far and
/// the number of submissions. Its owner persists the best evaluation whenever
/// `submit` reports an improvement.
pub struct Coordinator {
    pub best: Option<TreeEvaluation>,
    pub count: usize,
}

/// Whether `eval` improves on `best`: there is none yet, or `eval` is strictly
/// more accurate.
pub open spec fn improves(best: Option<TreeEvaluation>, eval: TreeEvaluation) -> bool {
    match best {
        None => true,
        Some(b) => b.less_accurate(&eval),
    }
}

impl Coordinator {
    pub open spec fn wf(&self) -> bool {
        match self.best {
            None => true,
            Some(b) => b.wf(),
        }
    }

    /// A coordinator seeded with the evaluation of an earlier checkpoint, if any.
    pub fn new(seed: Option<TreeEvaluation>) -> (r: Coordinator)
        requires
            match seed {
                None => true,
                Some(b) => b.wf(),
            },
        ensures
            r.wf(),
            r.best == seed,
            r.count == 0,
    {
        Coordinator { best: seed, count: 0 }
    }

    /// Records a submission. It replaces the best evaluation, and returns true,
    /// exactly when it is strictly more accurate; otherwise the best is kept.
    pub fn submit(&mut self, eval: TreeEvaluation) -> (improved: bool)
        requires
            old(self).wf(),
            eval.wf(),
        ensures
            final(self).wf(),
            improved == improves(old(self).best, eval),
            improved ==> final(self).best == Some(eval),
            !improved ==> final(self).best == old(self).best,
            final(self).count == if old(self).count < usize::MAX {
                old(self).count + 1
            } else {
                old(self).count as int
            },
    {
        if self.count < usize::MAX {
            self.count = self.count + 1;
        }
        let better = match &self.best {
            None => true,
            Some(b) => b.is_less_accurate(&eval),
        };
        if better {
            self.best = Some(eval);
        }
        better
    }

    /// The most accurate evaluation so far.
    pub fn best(&self) -> (r: &Option<TreeEvaluation>)
        ensures
            *r == self.best,
    {
        &self.best
    }
}

} // verus!
