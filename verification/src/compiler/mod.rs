//! Turning raw sources into wiki pages.

pub mod concurrency;
pub mod driver;
pub mod link_fix;
pub mod operations;
pub mod prompts;
pub mod provider;
pub mod synthesize;
pub mod token_estimate;
