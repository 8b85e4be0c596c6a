//! Services that the library's work rests on.

pub mod api_client;
pub mod embedding_service;
