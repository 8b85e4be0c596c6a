use okf_mcp::cli::vault::{delete, list, may_create, remove};
use okf_mcp::table::Table;
use okf_mcp::vault::vault_config::{OkfVaultConfig, DEFAULT_TEMPERATURE_BITS};
use okf_mcp::vault::vault_registry::{DefaultVaultError, VaultEntry, VaultRegistry};
use okf_mcp::vault::vault_resolver::{
    ancestors_of, resolve_vault_with, sandbox_path, Candidate, SandboxError,
};

fn registry(default: Option<&str>, vaults: &[(&str, &str)]) -> VaultRegistry {
    let mut registry = VaultRegistry {
        default: default.map(|s| s.to_string()),
        ..VaultRegistry::default()
    };
    for (name, path) in vaults {
        registry.vaults.insert(name, VaultEntry { path: path.to_string(), description: None });
    }
    registry
}

fn candidates(path: &str, marked: &[&str]) -> Vec<Candidate> {
    ancestors_of(path)
        .into_iter()
        .map(|dir| {
            let has_marker = marked.contains(&dir.as_str());
            Candidate { dir, has_marker }
        })
        .collect()
}

#[test]
fn a_vault_with_no_config_file_yet_loads_defaults() {
    let config = OkfVaultConfig::default();
    assert!(config.compiler.default_model.is_none());
    assert_eq!(f32::from_bits(config.compiler.temperature_bits), 0.2);
    assert_eq!(f32::from_bits(DEFAULT_TEMPERATURE_BITS), 0.2);
    assert_eq!(config.compiler.max_tokens, 4096);
}

#[test]
fn loading_a_registry_that_does_not_exist_yet_returns_an_empty_one() {
    let registry = VaultRegistry::default();
    assert!(registry.default.is_none());
    assert_eq!(registry.vaults.len(), 0);
}

#[test]
fn resolve_prefers_a_registered_name_over_treating_it_as_a_literal_path() {
    let registry = registry(None, &[("work", "/Users/dev/Vaults/Work")]);
    assert_eq!(registry.resolve("work"), "/Users/dev/Vaults/Work");
    assert_eq!(registry.resolve("/some/literal/path"), "/some/literal/path");
}

#[test]
fn default_path_errors_when_no_default_is_configured() {
    let error = VaultRegistry::default().default_path().unwrap_err();
    assert!(matches!(error, DefaultVaultError::NoneConfigured));
    assert!(!error.message().is_empty());
}

#[test]
fn default_path_errors_when_the_default_name_is_not_actually_registered() {
    let error = registry(Some("ghost"), &[]).default_path().unwrap_err();
    assert!(matches!(&error, DefaultVaultError::NotRegistered { name } if name == "ghost"));
    assert!(error.message().contains("ghost"));
}

#[test]
fn default_path_resolves_the_registered_default_vault() {
    let registry = registry(Some("work"), &[("work", "/Users/dev/Vaults/Work")]);
    assert_eq!(registry.default_path().unwrap(), "/Users/dev/Vaults/Work");
}

#[test]
fn the_registry_stands_below_the_home_directory() {
    assert_eq!(VaultRegistry::registry_path("/home/x"), "/home/x/.config/okf/vaults.toml");
    assert_eq!(VaultRegistry::registry_path("/home/x/"), "/home/x/.config/okf/vaults.toml");
    assert_eq!(VaultRegistry::registry_path(""), ".config/okf/vaults.toml");
}

#[test]
fn explicit_vault_wins_even_from_outside_any_vault_directory() {
    let resolved = resolve_vault_with(
        Some("/vaults/one"),
        &candidates("/tmp", &[]),
        &VaultRegistry::default(),
    )
    .unwrap();
    assert_eq!(resolved, "/vaults/one");
}

#[test]
fn cwd_walk_up_finds_a_dot_okf_marker_in_a_parent_directory() {
    let resolved = resolve_vault_with(
        None,
        &candidates("/vault/a/b/c", &["/vault"]),
        &VaultRegistry::default(),
    )
    .unwrap();
    assert_eq!(resolved, "/vault");
}

#[test]
fn falls_back_to_the_registry_default_when_no_marker_is_found() {
    let registry = registry(Some("work"), &[("work", "/vaults/work")]);
    let resolved = resolve_vault_with(None, &candidates("/outside", &[]), &registry).unwrap();
    assert_eq!(resolved, "/vaults/work");
}

#[test]
fn sandbox_path_accepts_a_legitimate_relative_path() {
    assert_eq!(sandbox_path("/vault", "raw/x.md").unwrap(), "/vault/raw/x.md");
}

#[test]
fn sandbox_path_rejects_a_parent_dir_escape() {
    assert!(matches!(sandbox_path("/vault", "../../etc/passwd"), Err(SandboxError::Escapes)));
    assert!(matches!(sandbox_path("/vault", "raw/../../x"), Err(SandboxError::Escapes)));
}

#[test]
fn sandbox_path_rejects_an_absolute_path() {
    assert!(matches!(sandbox_path("/vault", "/etc/passwd"), Err(SandboxError::Absolute)));
}

#[test]
fn sandbox_path_allows_dot_dot_that_stays_inside_the_root() {
    assert_eq!(
        sandbox_path("/vault", "raw/../wiki/index.md").unwrap(),
        "/vault/wiki/index.md"
    );
}

#[test]
fn two_vaults_never_resolve_into_each_others_roots() {
    let resolved_a = sandbox_path("/vaults/a", "raw/x.md").unwrap();
    let resolved_b = sandbox_path("/vaults/b", "raw/x.md").unwrap();
    assert!(resolved_a.starts_with("/vaults/a/"));
    assert!(resolved_b.starts_with("/vaults/b/"));
    assert_ne!(resolved_a, resolved_b);
}

#[test]
fn vaults_are_listed_by_name_with_the_default_marked() {
    let mut registry = registry(Some("work"), &[("work", "/w"), ("home", "/h")]);
    registry.add("/a", "archive", Some("old things"));
    assert_eq!(
        list(&registry),
        vec!["archive: /a — old things", "home: /h", "work (default): /w"]
    );
    assert_eq!(
        list(&VaultRegistry::default()),
        vec!["No vaults registered. Use `okf-mcp vault add <path> --name <name>`."]
    );
}

#[test]
fn removing_the_default_vault_leaves_no_default() {
    let mut registry = registry(Some("work"), &[("work", "/w"), ("home", "/h")]);
    assert_eq!(
        remove(&mut registry, "work").unwrap(),
        "Removed vault 'work' from registry."
    );
    assert!(registry.default.is_none());
    assert_eq!(
        remove(&mut registry, "work").unwrap_err(),
        "no vault named 'work' is registered"
    );
    assert_eq!(registry.vaults.len(), 1);
}

#[test]
fn a_directory_is_only_deleted_with_force() {
    let registry = registry(None, &[("work", "/w")]);
    assert_eq!(delete(&registry, "work", true).unwrap(), "/w");
    assert!(delete(&registry, "work", false)
        .unwrap_err()
        .starts_with("refusing to delete vault 'work' (/w) without --force"));
    assert!(delete(&registry, "ghost", true).is_err());
}

#[test]
fn only_a_registered_vault_becomes_the_default() {
    let mut registry = registry(None, &[("work", "/w")]);
    assert_eq!(
        okf_mcp::cli::vault::default(&mut registry, "ghost").unwrap_err(),
        "no vault named 'ghost' is registered — run `okf-mcp vault add` first"
    );
    assert_eq!(
        okf_mcp::cli::vault::default(&mut registry, "work").unwrap(),
        "Default vault set to 'work'."
    );
    assert_eq!(registry.default.as_deref(), Some("work"));
}

#[test]
fn a_vault_is_not_made_where_something_is() {
    assert!(may_create("/x", "x", false).is_ok());
    assert_eq!(
        may_create("/x", "n", true).unwrap_err(),
        "'/x' already exists and is not empty — use `okf-mcp vault add /x --name n` to register an existing vault instead"
    );
}

#[test]
fn a_table_holds_one_value_per_name() {
    let mut table: Table<u32> = Table::new();
    table.insert("a", 1);
    table.insert("b", 2);
    table.insert("a", 3);
    assert_eq!(table.len(), 2);
    assert_eq!(table.get("a"), Some(&3));
    assert_eq!(table.remove("a"), Some(3));
    assert_eq!(table.remove("a"), None);
    assert_eq!(table.into_rows(), vec![("b".to_string(), 2)]);
}

#[test]
fn the_default_follows_the_registry() {
    let mut registry = registry(None, &[("work", "/w"), ("home", "/h")]);
    assert!(!registry.set_default("ghost"));
    assert!(registry.default_path().is_err());
    assert!(registry.set_default("work"));
    assert_eq!(registry.default_path().unwrap(), "/w");
    assert!(registry.remove("home"));
    assert_eq!(registry.default_path().unwrap(), "/w");
    assert!(!registry.remove("home"));
    assert!(registry.remove("work"));
    assert!(matches!(registry.default_path(), Err(DefaultVaultError::NoneConfigured)));
}
