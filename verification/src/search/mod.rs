//! Finding what a vault holds.

pub mod index;
pub mod query;
pub mod rrf;
pub mod vectors;
