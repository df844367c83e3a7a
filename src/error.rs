//! Errors of a generation run.
use vstd::prelude::*;
use crate::config::ConfigError;
use crate::envelope::EnvelopeError;

verus! {

/// Why guide points could not be laid out.
#[derive(Debug, Clone, Copy, PartialEq, Eq, Structural)]
pub enum LayoutError {
    /// More high and low points were asked for than the interior has cells.
    TooManyPoints,
    /// A point found no free location within the allowed number of draws.
    RetriesExceeded,
}

/// Why a point could not be sampled.
#[derive(Debug, Clone, Copy, PartialEq, Eq, Structural)]
pub enum SampleError {
    /// The derived lower bound lies above the upper bound.
    InvertedRange,
}

/// Any failure of a generation run.
#[derive(Debug, Clone, Copy, PartialEq, Eq, Structural)]
pub enum TerrainError {
    Config(ConfigError),
    Layout(LayoutError),
    Envelope(EnvelopeError),
    Sample(SampleError),
}

} // verus!
