//! What a vault holds on disk besides its pages and sources.

pub mod bundle;
pub mod fs_ops;
pub mod git;
pub mod wiki_log;
