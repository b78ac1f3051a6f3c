//! Shared type aliases of the analysis pipeline.

use crate::correlation::CorResult;
use vstd::prelude::*;

verus! {

/// The materialized outcome of an analysis run.
pub type VecOfResults = Vec<CorResult>;

/// One dataset row: primary label, optional secondary label (CpG Site ID),
/// and the sample values as binary64 bit patterns.
pub type TupleExpressionValues = (String, Option<String>, Vec<u64>);

/// A fully buffered dataset.
pub type CollectedMatrix = Vec<TupleExpressionValues>;

} // verus!
