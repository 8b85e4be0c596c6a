//! The registry of vaults (`~/.config/okf/vaults.toml`): the path of every vault
//! that was registered on this machine, by name, and which one is the default.

use vstd::prelude::*;

use crate::paths::{join_path, path_from};
use crate::table::Table;
use crate::text::{opt_view, text_eq};

verus! {

/// Where the registry stands below the home directory.
pub const REGISTRY_RELATIVE_PATH: &'static str = ".config/okf/vaults.toml";

/// A registered vault.
#[derive(Debug)]
pub struct VaultEntry {
    pub path: String,
    pub description: Option<String>,
}

/// Every registered vault, by name.
#[derive(Debug)]
pub struct VaultRegistry {
    pub default: Option<String>,
    pub vaults: Table<VaultEntry>,
}

/// Why no default vault could be named.
#[derive(Debug)]
pub enum DefaultVaultError {
    /// No default is set.
    NoneConfigured,
    /// The default is set to a name under which no vault is registered.
    NotRegistered { name: String },
}

impl DefaultVaultError {
    /// The message for a person.
    pub fn message(&self) -> (r: String)
        ensures
            r@ == match self {
                DefaultVaultError::NoneConfigured => "no vault specified, no `.okf/` directory found in any parent of the current directory, and no default vault is registered — pass --vault, run from inside a vault, or run `okf-mcp vault default <name>`"@,
                DefaultVaultError::NotRegistered { name } => "default vault '"@ + name@
                    + "' is not registered"@,
            },
    {
        match self {
            DefaultVaultError::NoneConfigured => "no vault specified, no `.okf/` directory found in any parent of the current directory, and no default vault is registered — pass --vault, run from inside a vault, or run `okf-mcp vault default <name>`".to_string(),
            DefaultVaultError::NotRegistered { name } => {
                let mut s = "default vault '".to_string();
                s.append(name.as_str());
                s.append("' is not registered");
                s
            },
        }
    }
}

/// Where a name or a path leads: to the path registered under it, else to
/// itself.
pub open spec fn resolved(vaults: Map<Seq<char>, VaultEntry>, name_or_path: Seq<char>) -> Seq<
    char,
> {
    if vaults.contains_key(name_or_path) {
        vaults[name_or_path].path@
    } else {
        name_or_path
    }
}

/// What the default vault comes to.
pub enum DefaultView {
    /// Its path.
    Path(Seq<char>),
    /// No default is set.
    NoneConfigured,
    /// The default is a name under which no vault is registered.
    NotRegistered(Seq<char>),
}

/// What the default vault comes to, where `default` is the name that is set.
pub open spec fn default_of(
    default: Option<Seq<char>>,
    vaults: Map<Seq<char>, VaultEntry>,
) -> DefaultView {
    match default {
        None => DefaultView::NoneConfigured,
        Some(name) => if vaults.contains_key(name) {
            DefaultView::Path(vaults[name].path@)
        } else {
            DefaultView::NotRegistered(name)
        },
    }
}

/// What a search for the default vault says.
pub open spec fn default_view(r: Result<String, DefaultVaultError>) -> DefaultView {
    match r {
        Ok(path) => DefaultView::Path(path@),
        Err(DefaultVaultError::NoneConfigured) => DefaultView::NoneConfigured,
        Err(DefaultVaultError::NotRegistered { name }) => DefaultView::NotRegistered(name@),
    }
}

/// The default once `name` was to become it.
pub open spec fn default_after_set(
    default: Option<Seq<char>>,
    vaults: Map<Seq<char>, VaultEntry>,
    name: Seq<char>,
) -> Option<Seq<char>> {
    if vaults.contains_key(name) {
        Some(name)
    } else {
        default
    }
}

/// The default once `name` was to be taken out of the registry.
pub open spec fn default_after_remove(
    default: Option<Seq<char>>,
    vaults: Map<Seq<char>, VaultEntry>,
    name: Seq<char>,
) -> Option<Seq<char>> {
    if vaults.contains_key(name) && default == Some(name) {
        None
    } else {
        default
    }
}

impl Default for VaultRegistry {
    fn default() -> (r: VaultRegistry)
        ensures
            r.default is None,
            r.vaults@ == Map::<Seq<char>, VaultEntry>::empty(),
    {
        VaultRegistry { default: None, vaults: Table::new() }
    }
}

impl VaultRegistry {
    /// Where the registry stands for a user with this home directory.
    pub fn registry_path(home: &str) -> (r: String)
        ensures
            r@ == path_from(home@, REGISTRY_RELATIVE_PATH@),
    {
        join_path(home, REGISTRY_RELATIVE_PATH)
    }

    /// A registered name leads to its path; anything else is taken as a path, so
    /// a vault need not be registered to be named.
    pub fn resolve(&self, name_or_path: &str) -> (r: String)
        ensures
            r@ == resolved(self.vaults@, name_or_path@),
    {
        match self.vaults.get(name_or_path) {
            Some(entry) => entry.path.clone(),
            None => name_or_path.to_string(),
        }
    }

    /// The path of the default vault.
    pub fn default_path(&self) -> (r: Result<String, DefaultVaultError>)
        ensures
            default_view(r) == default_of(opt_view(self.default), self.vaults@),
    {
        match &self.default {
            None => Err(DefaultVaultError::NoneConfigured),
            Some(name) => match self.vaults.get(name.as_str()) {
                Some(entry) => Ok(entry.path.clone()),
                None => Err(DefaultVaultError::NotRegistered { name: name.clone() }),
            },
        }
    }

    /// Registers the vault at `path` under `name`, in place of what was
    /// registered there.
    pub fn add(&mut self, path: &str, name: &str, description: Option<&str>)
        ensures
            final(self).default == old(self).default,
            final(self).vaults@.dom() == old(self).vaults@.dom().insert(name@),
            final(self).vaults@.contains_key(name@),
            final(self).vaults@[name@].path@ == path@,
            opt_view(final(self).vaults@[name@].description) == (match description {
                Some(d) => Some(d@),
                None => None,
            }),
            forall|other: Seq<char>|
                other != name@ && old(self).vaults@.contains_key(other) ==> #[trigger] final(
                    self).vaults@[other] == old(self).vaults@[other],
    {
        let text: Option<String> = match description {
            Some(d) => Some(d.to_string()),
            None => None,
        };
        let entry = VaultEntry { path: path.to_string(), description: text };
        self.vaults.insert(name, entry);
    }

    /// Takes `name` out of the registry; a default that named it is no longer
    /// set. Returns whether it was registered.
    pub fn remove(&mut self, name: &str) -> (r: bool)
        ensures
            r == old(self).vaults@.contains_key(name@),
            final(self).vaults@ == old(self).vaults@.remove(name@),
            opt_view(final(self).default) == default_after_remove(
                opt_view(old(self).default),
                old(self).vaults@,
                name@,
            ),
    {
        if self.vaults.remove(name).is_none() {
            return false;
        }
        let was_default: bool = match &self.default {
            Some(d) => text_eq(d.as_str(), name),
            None => false,
        };
        if was_default {
            self.default = None;
        }
        true
    }

    /// Makes `name` the default, if a vault is registered under it.
    pub fn set_default(&mut self, name: &str) -> (r: bool)
        ensures
            r == old(self).vaults@.contains_key(name@),
            final(self).vaults == old(self).vaults,
            opt_view(final(self).default) == default_after_set(
                opt_view(old(self).default),
                old(self).vaults@,
                name@,
            ),
    {
        if self.vaults.contains(name) {
            self.default = Some(name.to_string());
            true
        } else {
            false
        }
    }
}

/// Once a registered vault was made the default, the default leads to its path. It goes
/// on doing so when another vault is taken out of the registry; when its own is, no
/// default is set any more. Taking out a name that is not registered changes nothing.
pub proof fn law_default_follows_the_registry(
    default: Option<Seq<char>>,
    vaults: Map<Seq<char>, VaultEntry>,
    name: Seq<char>,
    other: Seq<char>,
)
    requires
        vaults.contains_key(name),
        other != name,
    ensures
        ({
            let set = default_after_set(default, vaults, name);
            &&& default_of(set, vaults) == DefaultView::Path(vaults[name].path@)
            &&& default_of(default_after_remove(set, vaults, other), vaults.remove(other))
                == DefaultView::Path(vaults[name].path@)
            &&& default_of(default_after_remove(set, vaults, name), vaults.remove(name))
                == DefaultView::NoneConfigured
        }),
        !vaults.contains_key(other) ==> default_of(
            default_after_remove(default, vaults, other),
            vaults.remove(other),
        ) == default_of(default, vaults),
{
}

/// A name under which a vault is registered leads to that vault; anything else is taken as
/// the path that it is. A name that is not registered does not become the default, and one
/// that was the default and is no longer registered is told by its name.
pub proof fn law_a_name_leads_to_its_vault_and_a_path_to_itself(
    default: Option<Seq<char>>,
    vaults: Map<Seq<char>, VaultEntry>,
    name: Seq<char>,
    entry: VaultEntry,
)
    ensures
        resolved(vaults.insert(name, entry), name) == entry.path@,
        resolved(vaults.remove(name), name) == name,
        !vaults.contains_key(name) ==> default_after_set(default, vaults, name) == default,
        default_of(Some(name), vaults.remove(name)) == DefaultView::NotRegistered(name),
        default_of(None, vaults) == DefaultView::NoneConfigured,
{
}

} // verus!
