use vstd::prelude::*;

pub mod mnist;

verus! {

/// A fixed-length vector of byte-valued features.
pub trait FeatureVector {
    spec fn features(&self) -> Seq<u8>;

    fn feature(&self, i: usize) -> (r: u8)
        requires
            i < self.features().len(),
        ensures
            r == self.features()[i as int],
    ;

    /// The number of features.
    fn len(&self) -> (r: usize)
        ensures
            r == self.features().len(),
    ;
}

impl FeatureVector for Vec<u8> {
    open spec fn features(&self) -> Seq<u8> {
        self@
    }

    fn feature(&self, i: usize) -> (r: u8) {
        self[i]
    }

    fn len(&self) -> (r: usize) {
        self.len()
    }
}

/// A labeled dataset with a training and a test split.
pub trait Dataset {
    type Sample: FeatureVector;

    /// The largest feature index.
    fn feature_max() -> usize;

    /// The largest useful threshold.
    fn threshold_max() -> u8;

    /// The training samples and their labels, in parallel.
    fn train_data(&self) -> (&[Self::Sample], &[usize]);

    /// The test samples and their labels, in parallel.
    fn test_data(&self) -> (&[Self::Sample], &[usize]);
}

} // verus!
