//! Checking compiled wiki pages: their frontmatter, their links and their
//! provenance.

pub mod fix;
pub mod frontmatter;
pub mod report;
pub mod rules;
pub mod wikilink;
