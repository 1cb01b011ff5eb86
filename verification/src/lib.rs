//! Arid: duplicate-code detection over normalized Python source.
//!
//! The library holds the verified core of the checker: normalization of
//! analysed source into line tokens, corpus construction, suffix and LCP
//! arrays, maximal-repeat extraction, metrics, baselines and suppressions.

pub mod model;
pub mod order;
pub mod suffix;
pub mod corpus;
pub mod detect;
pub mod outcome;
pub mod exit_policy;
pub mod cli;
pub mod error;
pub mod config;
pub mod invocation;
pub mod paths;
pub mod format;
pub mod baseline;
pub mod fingerprint;
pub mod baseline_status;
pub mod baseline_filter;
pub mod chars;
pub mod analysis;
pub mod suppression;
pub mod normalize;
pub mod metrics;
pub mod report;
pub mod path_explanation;
pub mod capabilities;
pub mod focus;
pub mod markdown;
pub mod summary;
pub mod text;
pub mod scan;
