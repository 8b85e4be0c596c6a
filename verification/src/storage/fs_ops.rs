//! Files of a vault by their paths in it. A path that leads out of the vault is refused
//! before the disk is looked at.

use vstd::prelude::*;

use crate::paths::path_under;
use crate::vault::vault_resolver::{sandbox_path, sandboxed};

verus! {

/// Whether there is something at a path of the vault at `root`. `on_disk` says whether
/// there is something at a full path; it is not asked about a path that is refused.
pub fn is_there<F: Fn(&str) -> bool>(root: &str, relative: &str, on_disk: &F) -> (r: bool)
    requires
        forall|p: &str| call_requires(*on_disk, (p,)),
    ensures
        match sandboxed(relative@) {
            Err(_) => !r,
            Ok(at) => exists|p: &str|
                p@ == path_under(root@, at) && #[trigger] call_ensures(*on_disk, (p,), r),
        },
{
    match sandbox_path(root, relative) {
        Err(_) => false,
        Ok(path) => on_disk(path.as_str()),
    }
}

} // verus!
