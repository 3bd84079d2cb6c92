use rand::Rng;
use vstd::prelude::*;

verus! {

/// Relies on rand's `thread_rng().gen_range(0, n)`: a value drawn from `[0, n)`;
/// it panics when `n == 0`, which `requires` leaves out.
#[verifier::external_body]
pub(crate) fn draw_below(n: usize) -> (r: usize)
    requires
        n > 0,
    ensures
        r < n,
{
    rand::thread_rng().gen_range(0, n)
}

/// A uniform draw from `[0, max]`.
pub fn draw_upto(max: usize) -> (r: usize)
    requires
        max < usize::MAX,
    ensures
        r <= max,
{
    draw_below(max + 1)
}

/// A probability given as the ratio `numerator / denominator`.
#[derive(Clone, Copy, Debug, PartialEq, Eq)]
pub struct Probability {
    pub numerator: usize,
    pub denominator: usize,
}

impl Probability {
    pub open spec fn wf(self) -> bool {
        0 < self.denominator && self.numerator <= self.denominator
    }

    /// The probability one: every trial succeeds.
    pub fn certain() -> (r: Probability)
        ensures
            r.wf(),
            r.numerator == r.denominator,
    {
        Probability { numerator: 1, denominator: 1 }
    }

    /// A Bernoulli trial that succeeds with this probability.
    pub fn trial(&self) -> (r: bool)
        requires
            self.wf(),
        ensures
            self.numerator == self.denominator ==> r,
            self.numerator == 0 ==> !r,
    {
        draw_below(self.denominator) < self.numerator
    }
}

} // verus!
