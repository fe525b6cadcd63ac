//! Usage telemetry ingestion and aggregation for a local CLI tool.
//!
//! The crate parses tolerant JSON usage records and credential settings,
//! resolves which API credential ("provider") is currently active, and
//! aggregates deduplicated usage events into daily and lifetime rollups,
//! all behind verified contracts. Costs are carried as integer micro-dollars
//! and rates as integer millionths, so every aggregate is exact.
#![verifier::loop_isolation(false)]

pub mod clock;
pub mod hashing;
pub mod jsonval;
pub mod laws;
pub mod migrate;
pub mod models;
pub mod parser;
pub mod pricing;
pub mod queries;
pub mod seqs;
pub mod state;
pub mod store;
pub mod text;
pub mod tracker;
pub mod watcher;
