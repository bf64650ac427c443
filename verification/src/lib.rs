//! Log analysis: line parsing, per-level statistics, recurring-error
//! ranking, error-spike detection and HTTP request summaries.

pub mod text;
pub mod wide;
pub mod time;
pub mod model;
pub mod parser;
pub mod analyzer;
