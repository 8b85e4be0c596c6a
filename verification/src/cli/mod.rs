//! The commands: what they decide and what they say.

pub mod compile;
pub mod config;
pub mod credentials;
pub mod messages;
pub mod vault;
