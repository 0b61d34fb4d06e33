//! Organizational / community communication analysis: thread grouping,
//! phrase detection, role and channel classification and the integer
//! tallies behind the five communication-health hypotheses (H1–H5).

pub mod strings;
pub mod models;
pub mod error;
pub mod types;
pub mod config;
pub mod text;
pub mod analysis;
pub mod metrics;
pub mod calendar;
pub mod morphology;
pub mod graph;
pub mod digest;
pub mod anonymize;
pub mod nlp;
pub mod period;
pub mod sidecar;
pub mod wordpiece;
