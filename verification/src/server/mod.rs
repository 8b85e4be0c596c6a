//! The tools that the library offers to clients, and what it says while they run.

pub mod health;
pub mod mcp_server;
pub mod output;
