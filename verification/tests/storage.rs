use okf_mcp::manifest::model::Manifest;
use okf_mcp::services::api_client::{after_failed_attempt, scrape_request_url};
use okf_mcp::services::embedding_service::resolve_models_cache_dir;
use okf_mcp::storage::bundle::build_bundle;
use okf_mcp::storage::fs_ops::is_there;
use okf_mcp::storage::git::{
    commit, is_git_repository, repository_check, CommitOutcome, GitOutput, GitStep,
};
use okf_mcp::storage::wiki_log::append;
use okf_mcp::vault::vault_resolver::sandbox_path;
use okf_mcp::validator::frontmatter::{
    parse_wiki_page, split_frontmatter, PageFile, SourceRef, WikiFrontmatter,
};

fn text_field(value: &serde_yaml::Value, key: &str) -> Option<String> {
    value.get(key).and_then(|v| v.as_str()).map(|s| s.to_string())
}

fn frontmatter_of(yaml: &str) -> Result<WikiFrontmatter, String> {
    let value = serde_yaml::from_str::<serde_yaml::Value>(yaml).map_err(|e| e.to_string())?;
    if !value.is_mapping() {
        return Err("not a mapping".to_string());
    }
    let page_type = text_field(&value, "type").ok_or("missing field `type`".to_string())?;
    let title = text_field(&value, "title").ok_or("missing field `title`".to_string())?;
    let mut sources = Vec::new();
    if let Some(list) = value.get("sources").and_then(|v| v.as_sequence()) {
        for item in list {
            sources.push(SourceRef {
                resource: text_field(item, "resource").ok_or("missing field `resource`".to_string())?,
                id: text_field(item, "id"),
                title: text_field(item, "title"),
            });
        }
    }
    let mut tags = Vec::new();
    if let Some(list) = value.get("tags").and_then(|v| v.as_sequence()) {
        for item in list {
            tags.push(item.as_str().unwrap_or_default().to_string());
        }
    }
    Ok(WikiFrontmatter {
        okf_version: text_field(&value, "okf_version"),
        page_type,
        id: text_field(&value, "id"),
        title,
        description: text_field(&value, "description"),
        sources,
        tags,
        timestamp: text_field(&value, "timestamp"),
    })
}

fn page(path: &str, content: &str) -> PageFile {
    let frontmatter = match split_frontmatter(content) {
        Ok((yaml, _)) => frontmatter_of(&yaml),
        Err(_) => Err(String::new()),
    };
    PageFile {
        path: path.to_string(),
        content: content.to_string(),
        parsed: parse_wiki_page(content, frontmatter),
    }
}

fn wiki_page(slug: &str, sources: &[&str]) -> PageFile {
    let sources_yaml = if sources.is_empty() {
        String::new()
    } else {
        let entries: String =
            sources.iter().map(|s| format!("  - resource: \"{s}\"\n")).collect();
        format!("sources:\n{entries}")
    };
    page(
        &format!("wiki/concepts/{slug}.md"),
        &format!(
            "---\nokf_version: \"0.2\"\ntype: concept\nid: concept_{slug}\ntitle: \"{slug}\"\n{sources_yaml}---\n\n# {slug}\n"
        ),
    )
}

#[test]
fn an_empty_vault_produces_an_empty_bundle() {
    let bundle = build_bundle(&Manifest::default(), &Vec::new());
    assert!(bundle.concepts.is_empty());
    assert!(bundle.raw_sources.is_empty());
}

#[test]
fn the_bundle_lists_active_raw_sources_and_compiled_concepts() {
    let mut manifest = Manifest::default();
    manifest.record_ingest("https://example.com/spec", "sha256:aaa", "raw_aaa", "t0");
    let bundle = build_bundle(&manifest, &vec![wiki_page("foo", &["/raw/raw_aaa.md"])]);
    assert_eq!(bundle.raw_sources.len(), 1);
    assert_eq!(bundle.raw_sources[0].raw_id, "raw_aaa");
    assert_eq!(bundle.concepts.len(), 1);
    assert_eq!(bundle.concepts[0].sources, vec!["/raw/raw_aaa.md".to_string()]);
}

#[test]
fn an_entity_page_with_no_id_field_gets_its_slug_derived_from_its_path() {
    let ada = page(
        "wiki/entities/ada-lovelace.md",
        "---\ntype: Person\ntitle: \"Ada Lovelace\"\n---\n\n# Ada Lovelace\n",
    );
    let bundle = build_bundle(&Manifest::default(), &vec![ada]);
    assert_eq!(bundle.concepts.len(), 1);
    assert_eq!(bundle.concepts[0].id, "ada-lovelace");
    assert_eq!(bundle.concepts[0].path, "wiki/entities/ada-lovelace.md");
}

#[test]
fn tombstoned_sources_are_excluded_from_the_bundle() {
    let mut manifest = Manifest::default();
    manifest.record_ingest("uri", "sha256:aaa", "raw_aaa", "t0");
    manifest.tombstone("uri", "gone", "t1").unwrap();
    assert!(build_bundle(&manifest, &Vec::new()).raw_sources.is_empty());
}

#[test]
fn write_bundle_produces_stable_output_across_repeated_calls() {
    let mut manifest = Manifest::default();
    manifest.record_ingest("uri", "sha256:aaa", "raw_aaa", "t0");
    let whole = |pages: Vec<PageFile>| format!("{:?}", build_bundle(&manifest, &pages));
    let first = whole(vec![wiki_page("a", &[]), wiki_page("b", &[])]);
    let second = whole(vec![wiki_page("a", &[]), wiki_page("b", &[])]);
    assert_eq!(first, second);
    let turned = whole(vec![wiki_page("b", &[]), wiki_page("a", &[])]);
    assert_eq!(first, turned);
    assert!(first.contains("wiki/concepts/a.md") && first.contains("raw_aaa"), "{first}");
}

#[test]
fn exists_reflects_the_real_filesystem_state() {
    let nothing = |_: &str| -> bool { false };
    assert!(!is_there("/vault", "raw/a.md", &nothing));
    let on_disk = |path: &str| -> bool { path == "/vault/raw/a.md" };
    assert!(is_there("/vault", "raw/a.md", &on_disk));
    assert!(!is_there("/vault", "raw/b.md", &on_disk));
}

#[test]
fn a_path_escaping_the_vault_root_is_rejected() {
    assert!(sandbox_path("/vault", "../escape.md").is_err());
    let everything = |_: &str| -> bool { true };
    assert!(!is_there("/vault", "../escape.md", &everything));
    assert!(!is_there("/vault", "../../etc/passwd", &everything));
    assert!(!is_there("/vault", "/etc/passwd", &everything));
}

fn answer(success: bool, stdout: &str, stderr: &str) -> Result<GitOutput, String> {
    Ok(GitOutput { success, stdout: stdout.to_string(), stderr: stderr.to_string() })
}

fn paths() -> Vec<String> {
    vec!["a.md".to_string()]
}

/// Answers each run that a commit asks for, and keeps the runs.
fn run_commit<F: Fn(&str) -> Result<GitOutput, String>>(
    paths: &Vec<String>,
    message: &str,
    git: F,
) -> (Result<CommitOutcome, String>, Vec<String>) {
    let mut runs = Vec::new();
    let mut step = commit("/vault", paths, message);
    loop {
        step = match step {
            GitStep::Run { args, then } => {
                let run = args.join(" ");
                let ran = git(&run);
                runs.push(run);
                then.answered(ran)
            }
            GitStep::Done(outcome) => return (outcome, runs),
        };
    }
}

#[test]
fn a_plain_directory_is_not_reported_as_a_git_repository() {
    assert_eq!(repository_check().join(" "), "rev-parse --is-inside-work-tree");
    assert!(!is_git_repository(&answer(false, "", "not a repository")));
    assert!(!is_git_repository(&Err("no git".to_string())));
    assert!(is_git_repository(&answer(true, "true", "")));
}

#[test]
fn commit_errors_when_the_vault_is_not_a_git_repository() {
    let (outcome, runs) = run_commit(&paths(), "message", |_| answer(false, "", ""));
    assert_eq!(
        outcome.unwrap_err(),
        "'/vault' is not a git repository — run 'git init' there first"
    );
    assert_eq!(runs, vec!["rev-parse --is-inside-work-tree"]);
}

#[test]
fn commit_stages_and_commits_a_new_file() {
    let (outcome, runs) = run_commit(&paths(), "add a.md", |run| match run {
        "rev-parse --is-inside-work-tree" => answer(true, "true", ""),
        "add -- a.md" => answer(true, "", ""),
        "diff --cached --quiet" => answer(false, "", ""),
        "commit -m add a.md" => answer(true, "1 file changed", ""),
        other => Err(format!("unexpected: {other}")),
    });
    let outcome = outcome.unwrap();
    assert!(outcome.committed);
    assert_eq!(outcome.stdout, "1 file changed");
    assert_eq!(
        runs,
        vec![
            "rev-parse --is-inside-work-tree",
            "add -- a.md",
            "diff --cached --quiet",
            "commit -m add a.md",
        ]
    );
}

#[test]
fn commit_with_no_paths_is_a_no_op() {
    let (outcome, runs) = run_commit(&Vec::new(), "nothing to commit", |_| answer(true, "", ""));
    let outcome = outcome.unwrap();
    assert!(!outcome.committed);
    assert_eq!(outcome.stdout, "");
    assert_eq!(runs, vec!["rev-parse --is-inside-work-tree"]);
}

#[test]
fn recommitting_unchanged_content_is_a_no_op() {
    let (outcome, runs) = run_commit(&paths(), "second", |_| answer(true, "", ""));
    assert!(!outcome.unwrap().committed);
    assert_eq!(
        runs,
        vec!["rev-parse --is-inside-work-tree", "add -- a.md", "diff --cached --quiet"]
    );
}

#[test]
fn what_git_says_when_it_fails_is_passed_on() {
    let (outcome, runs) =
        run_commit(&paths(), "m", |run| answer(!run.starts_with("add"), "", "no such path"));
    assert_eq!(outcome.unwrap_err(), "git add failed: no such path");
    assert_eq!(runs.len(), 2);
    let (outcome, runs) = run_commit(&paths(), "m", |run| {
        answer(!run.starts_with("diff") && !run.starts_with("commit"), "", "no name set")
    });
    assert_eq!(outcome.unwrap_err(), "git commit failed: no name set");
    assert_eq!(runs.len(), 4);
    for (at, first) in ["add", "diff", "commit"].iter().enumerate() {
        let (outcome, runs) = run_commit(&paths(), "m", |run| {
            if run.starts_with(first) {
                Err("git cannot be run".to_string())
            } else {
                answer(!run.starts_with("diff"), "", "")
            }
        });
        assert_eq!(outcome.unwrap_err(), "git cannot be run");
        assert_eq!(runs.len(), at + 2);
    }
}

#[test]
fn append_creates_the_file_with_a_header_on_first_use() {
    let content = append(true, "t0", "compile", "ok", "2 source(s) processed");
    assert!(content.starts_with("# Compile Log"));
    assert!(content.contains("[compile] ok: 2 source(s) processed"));
}

#[test]
fn append_adds_a_new_line_without_touching_earlier_entries() {
    let mut content = append(true, "t0", "compile", "ok", "first run");
    content.push_str(&append(false, "t1", "report_and_commit", "error", "lint failed"));
    assert!(content.contains("[compile] ok: first run"));
    assert!(content.contains("[report_and_commit] error: lint failed"));
    assert_eq!(content.matches("# Compile Log").count(), 1);
}

#[test]
fn append_records_a_failed_run_with_an_error_status() {
    let content = append(true, "t0", "fix_broken_links", "error", "0 synthesized, 1 failed");
    assert!(content.contains("[fix_broken_links] error: 0 synthesized, 1 failed"));
}

#[test]
fn append_preserves_non_utf8_prior_content_instead_of_treating_it_as_empty() {
    let mut raw: Vec<u8> = vec![0xff, 0xfe, 0x00, 0x01];
    raw.extend(append(false, "t0", "compile", "ok", "after binary content").into_bytes());
    assert_eq!(&raw[..4], &[0xff, 0xfe, 0x00, 0x01]);
    assert!(String::from_utf8_lossy(&raw).contains("[compile] ok: after binary content"));
    assert!(!String::from_utf8_lossy(&raw).contains("# Compile Log"));
}

#[test]
fn resolve_models_cache_dir_prefers_an_explicit_fastembed_cache_dir_env_var() {
    assert_eq!(
        resolve_models_cache_dir(Some("/explicit/cache/dir"), Some("/home/x"), None, None),
        "/explicit/cache/dir"
    );
    assert_eq!(
        resolve_models_cache_dir(Some("  "), Some("/home/x"), None, None),
        "/home/x/.okf-mcp/models"
    );
}

#[test]
fn resolve_models_cache_dir_falls_back_to_home_when_the_env_var_is_unset() {
    assert_eq!(
        resolve_models_cache_dir(None, Some("/home/x"), Some("/profile"), None),
        "/home/x/.okf-mcp/models"
    );
    assert_eq!(
        resolve_models_cache_dir(None, None, Some("/profile"), None),
        "/profile/.okf-mcp/models"
    );
}

#[test]
fn resolve_models_cache_dir_is_absolute_and_not_the_relative_default_when_home_is_unset() {
    let resolved = resolve_models_cache_dir(None, None, None, Some("/opt/okf"));
    assert!(resolved.starts_with('/'), "expected an absolute path, got {resolved:?}");
    assert_ne!(resolved, ".fastembed_cache");
    assert_eq!(resolved, "/opt/okf/okf-mcp-models");
    assert_eq!(resolve_models_cache_dir(None, None, None, None), ".fastembed_cache");
}

#[test]
fn a_scrape_is_asked_for_below_the_base_address() {
    assert_eq!(
        scrape_request_url("https://api.firecrawl.dev//"),
        "https://api.firecrawl.dev/v2/scrape"
    );
}

#[test]
fn attempts_run_out() {
    assert_eq!(after_failed_attempt(0, 2), Some(1));
    assert_eq!(after_failed_attempt(1, 2), Some(2));
    assert_eq!(after_failed_attempt(2, 2), None);
    assert_eq!(after_failed_attempt(0, 0), None);
}

#[test]
fn the_bundle_lists_sources_by_uri_however_the_manifest_keeps_them() {
    let mut forth = Manifest::default();
    forth.record_ingest("a", "sha256:a", "raw_a", "t0");
    forth.record_ingest("b", "sha256:b", "raw_b", "t0");
    let mut back = Manifest::default();
    back.record_ingest("b", "sha256:b", "raw_b", "t0");
    back.record_ingest("a", "sha256:a", "raw_a", "t0");
    let rows = |manifest: &Manifest| format!("{:?}", build_bundle(manifest, &Vec::new()));
    assert_eq!(rows(&forth), rows(&back));
    assert_eq!(build_bundle(&back, &Vec::new()).raw_sources[0].uri, "a");
}
