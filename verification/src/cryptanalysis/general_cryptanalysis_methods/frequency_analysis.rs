//! Analyses of how often each symbol occurs.

use crate::utils::segmentation::SegmentationError;
use vstd::prelude::*;

pub mod coincidence_index;
pub mod distribution_algorithms;

verus! {

/// Why a text is too small for a statistic.
#[derive(Debug, Clone, Copy, PartialEq, Eq, Structural)]
pub enum StatisticalError {
    /// Relative frequencies of no symbol at all.
    EmptyInputDistribution,
    /// An index of coincidence of fewer than two symbols.
    InsufficientSample,
}

/// Why an analysis of an opcode stream has no result.
#[derive(Debug, Clone, Copy, PartialEq, Eq, Structural)]
pub enum AnalysisError {
    /// The stream is not made of the alphabet's symbols.
    Segmentation(SegmentationError),
    /// The stream holds too few symbols.
    Statistical(StatisticalError),
}

} // verus!
