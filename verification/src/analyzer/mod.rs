//! Folding events into summaries.

pub mod tally;
pub mod buckets;
pub mod spikes;
pub mod errors;
pub mod http;
pub mod stats;
pub mod engine;
