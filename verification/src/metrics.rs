//! The integer tallies behind the H1–H5 communication-health metrics.
//!
//! Every `compute_h*` returns exact counts, timestamp spans (microseconds)
//! and medians (doubled, so that they stay integers); turning them into
//! rates and minutes is a division that the caller performs.

pub mod common;
pub mod h1_justification;
pub mod h2_safety;
pub mod h3_power;
pub mod h4_consensus;
pub mod h5_diversity;
pub mod enrich;
