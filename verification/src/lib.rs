//! Gene/GEM correlation analysis: evaluates pairwise correlation statistics
//! between the rows of two datasets, corrects the p-values for multiple
//! comparisons, and returns a ranked, optionally truncated result.
//!
//! Sample values, correlation statistics and p-values are carried as the bit
//! patterns of IEEE 754 binary64 numbers (`u64`). All order-dependent logic
//! (ranking, sorting, filtering, the running minimum of the step-up
//! adjustments) is defined over those bit patterns; the numeric kernels that
//! produce them (the correlation formulas and the rank-dependent scaling
//! factors) are supplied by the caller.

pub mod adjustment;
pub mod analysis;
pub mod bits;
pub mod correlation;
pub mod external_sort;
pub mod kendall;
pub mod ranking;
pub mod sorting;
pub mod types;
