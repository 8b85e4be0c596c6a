//! The record of what has been ingested into a vault.

pub mod model;

pub use model::{IngestOutcome, Manifest, SourceEntry, SourceStatus, SourceVersion};
