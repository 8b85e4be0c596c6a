//! The model that makes vectors of texts.

use vstd::prelude::*;

use crate::paths::{join_path, path_from};
use crate::text::{is_blank, is_white, law_trimming_takes_white_space_off_the_ends, trim};

verus! {

/// Where the model is kept.
pub open spec fn models_cache_dir(
    cache_dir: Option<Seq<char>>,
    home: Option<Seq<char>>,
    user_profile: Option<Seq<char>>,
    executable_dir: Option<Seq<char>>,
) -> Seq<char> {
    match cache_dir {
        Some(dir) if trim(dir).len() > 0 => dir,
        _ => match (home, user_profile, executable_dir) {
            (Some(h), _, _) => path_from(h, ".okf-mcp/models"@),
            (None, Some(p), _) => path_from(p, ".okf-mcp/models"@),
            (None, None, Some(dir)) => path_from(dir, "okf-mcp-models"@),
            (None, None, None) => ".fastembed_cache"@,
        },
    }
}

/// Where the model is kept: the directory that the environment names, else one in the
/// home directory, else one beside the program. Never one that depends on where the
/// program is started, unless nothing else is known.
pub fn resolve_models_cache_dir(
    cache_dir: Option<&str>,
    home: Option<&str>,
    user_profile: Option<&str>,
    executable_dir: Option<&str>,
) -> (r: String)
    ensures
        r@ == models_cache_dir(
            crate::compiler::provider::opt_str(cache_dir),
            crate::compiler::provider::opt_str(home),
            crate::compiler::provider::opt_str(user_profile),
            crate::compiler::provider::opt_str(executable_dir),
        ),
{
    match cache_dir {
        Some(dir) => {
            if !is_blank(dir) {
                return dir.to_string();
            }
        },
        None => {},
    }
    match home {
        Some(h) => {
            return join_path(h, ".okf-mcp/models");
        },
        None => {},
    }
    match user_profile {
        Some(p) => {
            return join_path(p, ".okf-mcp/models");
        },
        None => {},
    }
    match executable_dir {
        Some(dir) => join_path(dir, "okf-mcp-models"),
        None => ".fastembed_cache".to_string(),
    }
}

/// The directory that the environment names is used, if there is more than white space in
/// its name. Else the home directory counts first, then the user's profile, then where the
/// program stands; the place where it was started counts only if none of them is known.
pub proof fn law_the_directory_that_is_named_comes_first(
    named: Seq<char>,
    home: Option<Seq<char>>,
    user_profile: Option<Seq<char>>,
    executable_dir: Option<Seq<char>>,
)
    ensures
        (exists|i: int| 0 <= i < named.len() && !is_white(#[trigger] named[i]))
            ==> models_cache_dir(Some(named), home, user_profile, executable_dir) == named,
        (forall|i: int| 0 <= i < named.len() ==> is_white(#[trigger] named[i]))
            ==> models_cache_dir(Some(named), home, user_profile, executable_dir)
            == models_cache_dir(None, home, user_profile, executable_dir),
        home is Some ==> models_cache_dir(None, home, user_profile, executable_dir) == path_from(
            home->0,
            ".okf-mcp/models"@,
        ),
        home is None && user_profile is Some ==> models_cache_dir(
            None,
            home,
            user_profile,
            executable_dir,
        ) == path_from(user_profile->0, ".okf-mcp/models"@),
        home is None && user_profile is None && executable_dir is Some ==> models_cache_dir(
            None,
            home,
            user_profile,
            executable_dir,
        ) == path_from(executable_dir->0, "okf-mcp-models"@),
{
    law_trimming_takes_white_space_off_the_ends(named);
    let (a, b) = choose|a: int, b: int|
        0 <= a <= b <= named.len() && #[trigger] named.subrange(a, b) == trim(named) && (forall|
            i: int,
        |
            0 <= i < a || b <= i < named.len() ==> is_white(#[trigger] named[i]));
    if trim(named).len() > 0 {
        assert(named.subrange(a, b)[0] == named[a]);
    }
}

} // verus!
