use vstd::prelude::*;

verus! {

/// The state of one restart of a worker: the best count of correct
/// classifications seen so far and the number of searches since it improved.
pub struct Restart {
    pub best_correct: usize,
    pub stagnant: usize,
    pub limit: usize,
}

impl Restart {
    /// A fresh restart that gives up after `limit` searches without improvement.
    pub fn new(limit: usize) -> (r: Restart)
        ensures
            r.best_correct == 0,
            r.stagnant == 0,
            r.limit == limit,
    {
        Restart { best_correct: 0, stagnant: 0, limit }
    }

    /// Records the result of one search; returns whether it improved on the
    /// best so far, in which case it should be submitted.
    pub fn observe(&mut self, correct: usize) -> (improved: bool)
        ensures
            improved == (correct > old(self).best_correct),
            final(self).limit == old(self).limit,
            improved ==> final(self).best_correct == correct && final(self).stagnant == 0,
            !improved ==> final(self).best_correct == old(self).best_correct && final(self).stagnant
                == if old(self).stagnant < usize::MAX {
                old(self).stagnant + 1
            } else {
                old(self).stagnant as int
            },
    {
        if correct > self.best_correct {
            self.best_correct = correct;
            self.stagnant = 0;
            true
        } else {
            if self.stagnant < usize::MAX {
                self.stagnant = self.stagnant + 1;
            }
            false
        }
    }

    /// Whether the restart has stagnated and a new random start is due.
    pub fn exhausted(&self) -> (r: bool)
        ensures
            r == (self.stagnant >= self.limit),
    {
        self.stagnant >= self.limit
    }
}

} // verus!
