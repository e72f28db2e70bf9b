//! Quantised model: weight blocks, fused projections, streaming decode.

pub mod model;
pub mod q4;
pub mod streaming;
