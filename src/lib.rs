//! Constrained fractal terrain synthesis: guide-point layout, slope envelopes,
//! diamond-square displacement and range normalisation over integer elevations.
pub mod config;
pub mod displace;
pub mod envelope;
pub mod error;
pub mod generate;
pub mod grid;
pub mod indexed;
pub mod layout;
pub mod normalize;
pub mod profile;
pub mod sampling;

