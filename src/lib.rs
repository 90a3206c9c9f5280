//! Ingestion core for daily short-position disclosures: telemetry decisions,
//! record normalization, an idempotent store and the feeder that drives them.
//!
//! The feeder here writes into the in-memory store of `store`, and its
//! guarantees (one row per key, idempotent reruns, skip-and-count of invalid
//! entries) are about that store. The command-line program still refreshes
//! its database through data_harvest's `IbexShortFeeder`, which follows its
//! own rules: it also wipes positions that are no longer reported and
//! compares whole records. Nothing proved here speaks of that path; what the
//! program takes from this library is the logging setup and the check of the
//! selector.

pub mod feeder;
pub mod record;
pub mod store;
pub mod telemetry;
