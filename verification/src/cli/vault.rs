//! The vaults of this machine, as the commands show and change them.

use vstd::prelude::*;

use crate::order::{in_order, lemma_sorted, sort, sorted};
use crate::table::Table;
use crate::text::{has_part, lemma_part, lemma_part_of_itself, opt_view, text_eq, views};
use crate::vault::vault_registry::{VaultEntry, VaultRegistry};

verus! {

/// What is said of a vault.
pub open spec fn vault_line(name: Seq<char>, entry: VaultEntry, is_default: bool) -> Seq<char> {
    let head = name + (if is_default {
        " (default)"@
    } else {
        ""@
    }) + ": "@ + entry.path@;
    match entry.description {
        Some(d) => head + " — "@ + d@,
        None => head,
    }
}

/// Whether `line` is what is said of the registered vault `name`.
pub open spec fn is_line_of(registry: VaultRegistry, name: Seq<char>, line: Seq<char>) -> bool {
    registry.vaults@.contains_key(name) && line == vault_line(
        name,
        registry.vaults@[name],
        opt_view(registry.default) == Some(name),
    )
}

/// The names of the vaults, in order.
pub open spec fn vault_names(registry: VaultRegistry) -> Seq<Seq<char>> {
    sorted::<String>(
        registry.vaults.listing().map_values(|row: (Seq<char>, VaultEntry)| row.0),
    )
}

fn names_of(vaults: &Table<VaultEntry>) -> (r: Vec<String>)
    ensures
        views(r@) == vaults.listing().map_values(|row: (Seq<char>, VaultEntry)| row.0),
{
    let ghost rows = vaults.listing();
    let ghost f = |row: (Seq<char>, VaultEntry)| row.0;
    let n: usize = vaults.len();
    let mut out: Vec<String> = Vec::new();
    let mut i: usize = 0;
    assert(views(out@) =~= rows.take(0).map_values(f));
    while i < n
        invariant
            rows == vaults.listing(),
            f == (|row: (Seq<char>, VaultEntry)| row.0),
            n == rows.len(),
            i <= n,
            views(out@) == rows.take(i as int).map_values(f),
        decreases n - i,
    {
        let ghost before = out@;
        let name = vaults.name_at(i);
        out.push(name.to_string());
        proof {
            assert(views(out@) =~= views(before).push(name@));
            assert(rows.take(i + 1).map_values(f) =~= rows.take(i as int).map_values(f).push(
                name@,
            ));
        }
        i += 1;
    }
    assert(rows.take(n as int) =~= rows);
    out
}

/// A line for each vault, by name; one that says how to add one, if there are none.
pub fn list(registry: &VaultRegistry) -> (r: Vec<String>)
    ensures
        if registry.vaults.listing().len() == 0 {
            views(r@) == seq![
                "No vaults registered. Use `okf-mcp vault add <path> --name <name>`."@,
            ]
        } else {
            let names = vault_names(*registry);
            &&& r@.len() == names.len()
            &&& forall|i: int|
                0 <= i < r@.len() ==> is_line_of(*registry, names[i], (#[trigger] r@[i])@)
        },
{
    let mut out: Vec<String> = Vec::new();
    if registry.vaults.len() == 0 {
        out.push("No vaults registered. Use `okf-mcp vault add <path> --name <name>`.".to_string());
        assert(views(out@) =~= seq![
            "No vaults registered. Use `okf-mcp vault add <path> --name <name>`."@,
        ]);
        return out;
    }
    let names = sort(names_of(&registry.vaults));
    let ghost all = vault_names(*registry);
    proof {
        crate::order::lemma_sorted::<String>(
            registry.vaults.listing().map_values(|row: (Seq<char>, VaultEntry)| row.0),
        );
    }
    while out.len() < names.len()
        invariant
            views(names@) == all,
            all == vault_names(*registry),
            crate::table::distinct(registry.vaults.listing()),
            forall|v: Seq<char>| #[trigger]
                all.contains(v) ==> registry.vaults.listing().map_values(
                    |row: (Seq<char>, VaultEntry)| row.0,
                ).contains(v),
            out@.len() <= names@.len(),
            forall|i: int|
                0 <= i < out@.len() ==> is_line_of(*registry, all[i], (#[trigger] out@[i])@),
        decreases names@.len() - out@.len(),
    {
        let i: usize = out.len();
        let name = names[i].as_str();
        proof {
            assert(all[i as int] == name@);
            assert(all.contains(name@));
            let rows = registry.vaults.listing();
            let keys = rows.map_values(|row: (Seq<char>, VaultEntry)| row.0);
            let k = choose|k: int| 0 <= k < keys.len() && keys[k] == name@;
            crate::table::lemma_row(rows, k);
        }
        let is_default: bool = match &registry.default {
            Some(d) => text_eq(d.as_str(), name),
            None => false,
        };
        let mut s = name.to_string();
        if is_default {
            s.append(" (default)");
        } else {
            s.append("");
        }
        s.append(": ");
        match registry.vaults.get(name) {
            Some(entry) => {
                s.append(entry.path.as_str());
                match &entry.description {
                    Some(d) => {
                        s.append(" — ");
                        s.append(d.as_str());
                    },
                    None => {},
                }
            },
            None => {},
        }
        assert(registry.vaults@.contains_key(name@));
        assert(is_default == (opt_view(registry.default) == Some(name@)));
        assert(s@ =~= vault_line(name@, registry.vaults@[name@], is_default));
        assert(is_line_of(*registry, all[i as int], s@));
        out.push(s);
    }
    assert(all.len() == names@.len());
    out
}

/// What is said of a vault that is not registered.
pub open spec fn unknown_vault(name: Seq<char>) -> Seq<char> {
    "no vault named '"@ + name + "' is registered"@
}

fn unknown_vault_text(name: &str) -> (r: String)
    ensures
        r@ == unknown_vault(name@),
{
    let mut s = "no vault named '".to_string();
    s.append(name);
    s.append("' is registered");
    s
}

/// Takes a vault out of the registry; its directory stays. If it was the default, there is
/// none then.
pub fn remove(registry: &mut VaultRegistry, name: &str) -> (r: Result<String, String>)
    ensures
        if old(registry).vaults@.contains_key(name@) {
            &&& r is Ok
            &&& r->Ok_0@ == "Removed vault '"@ + name@ + "' from registry."@
            &&& final(registry).vaults@ == old(registry).vaults@.remove(name@)
            &&& opt_view(final(registry).default) == (if opt_view(old(registry).default) == Some(
                name@,
            ) {
                None
            } else {
                opt_view(old(registry).default)
            })
        } else {
            &&& r is Err
            &&& r->Err_0@ == unknown_vault(name@)
            &&& final(registry).vaults@ == old(registry).vaults@
            &&& opt_view(final(registry).default) == opt_view(old(registry).default)
        },
{
    if registry.remove(name) {
        let mut s = "Removed vault '".to_string();
        s.append(name);
        s.append("' from registry.");
        Ok(s)
    } else {
        Err(unknown_vault_text(name))
    }
}

/// The directory that is removed together with a vault. Only with `force`: everything in
/// it is lost.
pub fn delete(registry: &VaultRegistry, name: &str, force: bool) -> (r: Result<String, String>)
    ensures
        if !registry.vaults@.contains_key(name@) {
            r is Err && r->Err_0@ == unknown_vault(name@)
        } else if !force {
            r is Err && r->Err_0@ == "refusing to delete vault '"@ + name@ + "' ("@
                + registry.vaults@[name@].path@
                + ") without --force — this permanently deletes the directory and everything in it"@
        } else {
            r is Ok && r->Ok_0@ == registry.vaults@[name@].path@
        },
{
    match registry.vaults.get(name) {
        None => Err(unknown_vault_text(name)),
        Some(entry) => {
            if force {
                return Ok(entry.path.clone());
            }
            let mut s = "refusing to delete vault '".to_string();
            s.append(name);
            s.append("' (");
            s.append(entry.path.as_str());
            s.append(
                ") without --force — this permanently deletes the directory and everything in it",
            );
            Err(s)
        },
    }
}

/// Makes a registered vault the default.
pub fn default(registry: &mut VaultRegistry, name: &str) -> (r: Result<String, String>)
    ensures
        final(registry).vaults@ == old(registry).vaults@,
        if old(registry).vaults@.contains_key(name@) {
            &&& r is Ok
            &&& r->Ok_0@ == "Default vault set to '"@ + name@ + "'."@
            &&& opt_view(final(registry).default) == Some(name@)
        } else {
            &&& r is Err
            &&& r->Err_0@ == unknown_vault(name@) + " — run `okf-mcp vault add` first"@
            &&& opt_view(final(registry).default) == opt_view(old(registry).default)
        },
{
    if registry.set_default(name) {
        let mut s = "Default vault set to '".to_string();
        s.append(name);
        s.append("'.");
        Ok(s)
    } else {
        let mut s = unknown_vault_text(name);
        s.append(" — run `okf-mcp vault add` first");
        Err(s)
    }
}

/// Whether a new vault may be made at `path`: only where nothing is yet. `non_empty` says
/// whether something is.
pub fn may_create(path: &str, name: &str, non_empty: bool) -> (r: Result<(), String>)
    ensures
        if non_empty {
            r is Err && r->Err_0@ == "'"@ + path@
                + "' already exists and is not empty — use `okf-mcp vault add "@ + path@
                + " --name "@ + name@ + "` to register an existing vault instead"@
        } else {
            r is Ok
        },
{
    if !non_empty {
        return Ok(());
    }
    let mut s = "'".to_string();
    s.append(path);
    s.append("' already exists and is not empty — use `okf-mcp vault add ");
    s.append(path);
    s.append(" --name ");
    s.append(name);
    s.append("` to register an existing vault instead");
    Err(s)
}

/// The vaults that are listed are all that are registered, and no others, by name.
pub proof fn law_every_registered_vault_is_listed(registry: VaultRegistry, name: Seq<char>)
    requires
        crate::table::distinct(registry.vaults.listing()),
    ensures
        in_order::<String>(vault_names(registry)),
        vault_names(registry).len() == registry.vaults.listing().len(),
        vault_names(registry).contains(name) <==> registry.vaults@.contains_key(name),
{
    let rows = registry.vaults.listing();
    let names = rows.map_values(|row: (Seq<char>, VaultEntry)| row.0);
    lemma_sorted::<String>(names);
    if names.contains(name) {
        let k = choose|k: int| 0 <= k < names.len() && names[k] == name;
        crate::table::lemma_row(rows, k);
    }
    if registry.vaults@.contains_key(name) {
        let k = choose|k: int| #[trigger] crate::table::named_at(rows, name, k);
        assert(names[k] == name);
    }
}

/// The line of a vault says its name, where it stands, what it is for, if that is known, and
/// whether it is the default.
pub proof fn law_a_line_tells_a_vault(name: Seq<char>, entry: VaultEntry)
    ensures
        entry.description is None ==> vault_line(name, entry, false) == name + ""@ + ": "@
            + entry.path@,
        entry.description is None ==> vault_line(name, entry, true) == name + " (default)"@
            + ": "@ + entry.path@,
        entry.description is Some ==> vault_line(name, entry, false) == name + ""@ + ": "@
            + entry.path@ + " — "@ + entry.description->0@,
        entry.description is Some ==> vault_line(name, entry, true) == name + " (default)"@
            + ": "@ + entry.path@ + " — "@ + entry.description->0@,
{
}

/// A vault that is not registered is told by the name that was given.
pub proof fn law_an_unknown_vault_is_told_by_its_name(name: Seq<char>)
    ensures
        has_part(unknown_vault(name), name),
{
    lemma_part_of_itself(name);
    lemma_part("no vault named '"@, name, "' is registered"@, name);
}

} // verus!
