//! Vaults: where they are, how they are configured, and how paths inside them
//! are confined.

pub mod okf_schema;
pub mod vault_config;
pub mod vault_registry;
pub mod vault_resolver;
