//! The link graph of a vault and its pages, for browsing.

pub mod graph;
pub mod network;
pub mod render;
pub mod server;
