use vstd::prelude::*;

verus! {

/// Why a command could not produce its output.
#[derive(Debug, Clone, Copy, PartialEq, Eq, Structural)]
pub enum RndError {
    /// A range whose lower bound is not below its upper bound.
    BoundsOrder,
    /// A die without sides.
    NoSides,
    /// Assignment lists of different lengths.
    UnequalLists,
    /// Weights given, but not one per item.
    WeightCount,
    /// Nothing to choose from.
    NoItems,
    /// Every weight is zero.
    AllWeightsZero,
    /// A weight that is not a non-negative decimal number.
    InvalidWeight,
    /// More items asked for without repetition than there are.
    TooFewItems,
    /// Weights whose sum, over a common denominator, is too large to draw from.
    WeightsTooLarge,
}

impl RndError {
    /// The message shown for this error.
    pub fn message(&self) -> (r: &'static str)
        ensures
            r@ == match self {
                RndError::BoundsOrder => "lower bound should be smaller than upper"@,
                RndError::NoSides => "number of sides must be at least 1"@,
                RndError::UnequalLists => "`left` and `right` lists of unequal length"@,
                RndError::WeightCount => "number of weights must equal the number of items"@,
                RndError::NoItems => "No weights provided in distribution"@,
                RndError::AllWeightsZero => "All weights are zero in distribution"@,
                RndError::InvalidWeight => "A weight is invalid in distribution"@,
                RndError::TooFewItems => "cannot choose more items than there are without repetition"@,
                RndError::WeightsTooLarge => "weights are too large or too finely divided"@,
            },
    {
        match self {
            RndError::BoundsOrder => "lower bound should be smaller than upper",
            RndError::NoSides => "number of sides must be at least 1",
            RndError::UnequalLists => "`left` and `right` lists of unequal length",
            RndError::WeightCount => "number of weights must equal the number of items",
            RndError::NoItems => "No weights provided in distribution",
            RndError::AllWeightsZero => "All weights are zero in distribution",
            RndError::InvalidWeight => "A weight is invalid in distribution",
            RndError::TooFewItems => "cannot choose more items than there are without repetition",
            RndError::WeightsTooLarge => "weights are too large or too finely divided",
        }
    }
}

} // verus!
