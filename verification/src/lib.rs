//! A personal knowledge base that a language model keeps: a *vault* holds raw
//! snapshots of sources, a wiki that is compiled from them, and a manifest of what
//! was taken in and what became of it.
//!
//! This crate is everything about a vault that is decided or computed. Nothing in it
//! reads a file, asks a model or opens a connection: what stands on disk is handed in
//! as values, what has to be done is handed back as values, and where work outside
//! alternates with decisions, a state machine says what comes next. The program in
//! `app/` does that work.
//!
//! - [`manifest`]: which snapshot of each source is active, and which is compiled.
//! - [`vault`]: which vault is meant, its configuration, and paths that stay inside it.
//! - [`ingest`]: taking a source in and taking it out again.
//! - [`compiler`]: from raw snapshots to prompts, and from answers to pages.
//! - [`validator`]: wiki pages, their links, checks and repairs.
//! - [`search`]: what is searched, and how two rankings become one.
//! - [`storage`]: the bundle, the log and commits.
//! - [`explorer`]: the wiki as a graph, and its pages as HTML.
//! - [`server`], [`cli`], [`services`]: what the tools and commands decide and say.
//! - [`text`], [`order`], [`paths`], [`table`]: what the others are written with.

pub mod cli;
pub mod compiler;
pub mod explorer;
pub mod ingest;
pub mod manifest;
pub mod order;
pub mod paths;
pub mod search;
pub mod server;
pub mod services;
pub mod storage;
pub mod table;
pub mod text;
pub mod validator;
pub mod vault;
