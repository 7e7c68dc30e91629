//! Descriptive statistics over samples of IEEE 754 binary64 numbers: mean,
//! population variance, standard deviation, and the test whether a value lies
//! within one standard deviation of the mean.
//!
//! A number is held as its bit pattern, and all arithmetic is integer
//! arithmetic on patterns. Every operation is proved to return the datum that
//! IEEE 754 asks for: the exact result rounded to the nearest representable
//! value, ties to even. The statistics are proved to be the compositions of
//! these operations that add up a sample from the left.
pub mod addition;
pub mod binary64;
pub mod datum;
pub mod division;
pub mod laws;
pub mod multiplication;
pub mod order;
pub mod pack;
pub mod rounding;
pub mod square_root;
pub mod stats;

pub use crate::binary64::Binary64;
pub use crate::stats::{
    average, empiric_deviation, matches_sigma_environment, variance, EmptyInputError,
    EIGHTY_TO_SIGMA, FIFTY_TO_SIGMA, NINETY_FIVE_TO_SIGMA, NINETY_NINE_TO_SIGMA, NINETY_TO_SIGMA,
    ONE_SIGMA, SEVENTY_TO_SIGMA, SIXTY_TO_SIGMA, THREE_SIGMA, TWO_SIGMA,
};
