//! A simple statistics library: central tendency, dispersion and order
//! statistics over integer samples, with a randomized selection/sort engine.

use vstd::prelude::*;

pub mod sort;
pub mod stats;
pub mod univariate;

pub use sort::quicksort;
pub use stats::{Degree, mean, median, sum_square_deviations, variance, population_variance};
pub use univariate::{average_deviation, mode};

verus! {

/// The explicit failure modes of the statistics functions.
///
/// `TooFewSamples` reports a sample too small for the requested statistic
/// (for instance an empty sample for the mean, or fewer than two points for
/// the sample variance). `ZeroElement` reports a zero element where none is
/// allowed (harmonic mean). `ZeroScale` reports a zero scale or standard
/// deviation in a formula that divides by it.
#[derive(Clone, Copy, Debug, PartialEq, Eq, Structural)]
pub enum StatsError {
    TooFewSamples,
    ZeroElement,
    ZeroScale,
}

} // verus!
