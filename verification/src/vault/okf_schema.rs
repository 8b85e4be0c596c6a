//! The version of the frontmatter schema, shared by raw blobs and compiled pages.

use vstd::prelude::*;

verus! {

pub const OKF_SCHEMA_VERSION: &'static str = "0.2";

} // verus!
