//! Sources: how they are named, kept and taken apart.

pub mod frontmatter;
pub mod local;
pub mod pipeline;
pub mod web;
