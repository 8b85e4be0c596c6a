use okf_mcp::compiler::driver::{
    assemble_compile_prompt, large_prompt_notice, prompt_for_source, read_raw_body,
    regenerate_index, related_query, resolve_model_spec, select_sources, superseded_raw_id,
    vault_provider_options, vault_provider_options_for_provider, CompileOptions, CompileReport,
    CompileRun, PromptError, SourceOutcome,
};
use okf_mcp::compiler::prompts::{RawBlob, WikiPageRef};
use okf_mcp::ingest::frontmatter::RawFile;
use okf_mcp::manifest::model::Manifest;
use okf_mcp::table::Table;
use okf_mcp::validator::frontmatter::{
    parse_wiki_page, split_frontmatter, PageFile, SourceRef, WikiFrontmatter,
};
use okf_mcp::validator::rules::LintReport;
use okf_mcp::vault::vault_config::{CompilerConfig, OkfVaultConfig, ProviderConfig};

fn text_field(value: &serde_yaml::Value, key: &str) -> Option<String> {
    value.get(key).and_then(|v| v.as_str()).map(|s| s.to_string())
}

fn frontmatter_of(yaml: &str) -> Result<WikiFrontmatter, String> {
    let value = serde_yaml::from_str::<serde_yaml::Value>(yaml).map_err(|e| e.to_string())?;
    if !value.is_mapping() {
        return Err("not a mapping".to_string());
    }
    let page_type = text_field(&value, "type").ok_or("missing field `type`".to_string())?;
    let title = text_field(&value, "title").ok_or("missing field `title`".to_string())?;
    let mut sources = Vec::new();
    if let Some(list) = value.get("sources").and_then(|v| v.as_sequence()) {
        for item in list {
            sources.push(SourceRef {
                resource: text_field(item, "resource").ok_or("missing field `resource`".to_string())?,
                id: text_field(item, "id"),
                title: text_field(item, "title"),
            });
        }
    }
    let mut tags = Vec::new();
    if let Some(list) = value.get("tags").and_then(|v| v.as_sequence()) {
        for item in list {
            tags.push(item.as_str().unwrap_or_default().to_string());
        }
    }
    Ok(WikiFrontmatter {
        okf_version: text_field(&value, "okf_version"),
        page_type,
        id: text_field(&value, "id"),
        title,
        description: text_field(&value, "description"),
        sources,
        tags,
        timestamp: text_field(&value, "timestamp"),
    })
}

fn page(path: &str, content: &str) -> PageFile {
    let frontmatter = match split_frontmatter(content) {
        Ok((yaml, _)) => frontmatter_of(&yaml),
        Err(_) => Err(String::new()),
    };
    PageFile {
        path: path.to_string(),
        content: content.to_string(),
        parsed: parse_wiki_page(content, frontmatter),
    }
}

fn concept(slug: &str, sources: &[&str]) -> PageFile {
    let sources_yaml = if sources.is_empty() {
        String::new()
    } else {
        let entries: String = sources
            .iter()
            .map(|s| format!("  - resource: \"{s}\"\n"))
            .collect();
        format!("sources:\n{entries}")
    };
    let content = format!(
        "---\nokf_version: \"0.2\"\ntype: concept\nid: concept_{slug}\ntitle: \"{slug}\"\ndescription: \"about {slug}\"\n{sources_yaml}---\n\n# {slug}\n"
    );
    page(&format!("wiki/concepts/{slug}.md"), &content)
}

fn raw(raw_id: &str, content: &str) -> RawFile {
    RawFile {
        path: format!("raw/{raw_id}.md"),
        is_file: true,
        content: Ok(content.to_string()),
    }
}

fn config_with(provider: &str, base_url: Option<&str>, api_key_env: Option<&str>) -> OkfVaultConfig {
    let mut config = OkfVaultConfig::default();
    config.providers.insert(
        provider,
        ProviderConfig {
            api_key_env: api_key_env.map(|s| s.to_string()),
            base_url: base_url.map(|s| s.to_string()),
        },
    );
    config
}

fn dashed(text: &str) -> String {
    text.replace('_', "-")
}

#[test]
fn resolve_model_spec_prefers_the_explicit_flag() {
    let spec = resolve_model_spec(None, Some(&dashed("anthropic/claude_3_5_sonnet"))).unwrap();
    assert_eq!(spec, dashed("anthropic/claude_3_5_sonnet"));
}

#[test]
fn resolve_model_spec_falls_back_to_vault_config() {
    let config = OkfVaultConfig {
        compiler: CompilerConfig {
            default_model: Some("groq/llama-3.3-70b".to_string()),
            ..CompilerConfig::default()
        },
        providers: Table::new(),
    };
    let spec = resolve_model_spec(config.compiler.default_model.as_deref(), None).unwrap();
    assert_eq!(spec, "groq/llama-3.3-70b");
}

#[test]
fn resolve_model_spec_errors_when_nothing_is_configured() {
    assert!(resolve_model_spec(None, None).is_err());
}

#[test]
fn vault_provider_options_reads_the_matching_providers_base_url_and_api_key_env() {
    let config = config_with("custom", Some("http://localhost:9999"), Some("MY_CUSTOM_KEY"));
    let options = vault_provider_options(&config, &Table::new(), "custom/some-model").unwrap();
    assert_eq!(options.base_url_override.as_deref(), Some("http://localhost:9999"));
    assert_eq!(options.api_key_env_override.as_deref(), Some("MY_CUSTOM_KEY"));
    assert_eq!(options.temperature_bits, None);
    assert_eq!(options.max_tokens, Some(4096));
    assert_eq!(options.concurrency, 1);
}

#[test]
fn vault_provider_options_reads_a_configured_max_tokens_value() {
    let config = OkfVaultConfig {
        compiler: CompilerConfig { max_tokens: 8192, ..CompilerConfig::default() },
        providers: Table::new(),
    };
    let options =
        vault_provider_options(&config, &Table::new(), &dashed("anthropic/claude_3_5_sonnet")).unwrap();
    assert_eq!(options.max_tokens, Some(8192));
}

#[test]
fn vault_provider_options_is_empty_for_a_provider_with_no_matching_entry() {
    let config = config_with("custom", None, Some("MY_CUSTOM_KEY"));
    let options =
        vault_provider_options(&config, &Table::new(), &dashed("anthropic/claude_3_5_sonnet")).unwrap();
    assert_eq!(options.base_url_override, None);
    assert_eq!(options.api_key_env_override, None);
}

#[test]
fn vault_provider_options_is_empty_for_a_vault_with_no_config_at_all() {
    let options = vault_provider_options(
        &OkfVaultConfig::default(),
        &Table::new(),
        &dashed("anthropic/claude_3_5_sonnet"),
    )
    .unwrap();
    assert_eq!(options.base_url_override, None);
    assert_eq!(options.api_key_env_override, None);
}

#[test]
fn vault_provider_options_for_provider_falls_back_to_the_process_level_custom_providers_map() {
    let mut custom = Table::new();
    custom.insert("myvllm", "https://global.example/v1".to_string());
    let options =
        vault_provider_options_for_provider(&OkfVaultConfig::default(), &custom, "myvllm");
    assert_eq!(options.base_url_override.as_deref(), Some("https://global.example/v1"));
}

#[test]
fn vault_provider_options_for_provider_prefers_the_vault_entry_over_the_process_level_fallback() {
    let mut custom = Table::new();
    custom.insert("myvllm", "https://global.example/v1".to_string());
    let config = config_with("myvllm", Some("https://vault.example/v1"), None);
    let options = vault_provider_options_for_provider(&config, &custom, "myvllm");
    assert_eq!(options.base_url_override.as_deref(), Some("https://vault.example/v1"));
}

#[test]
fn an_entry_of_the_vault_stands_alone() {
    let config = config_with("myvllm", None, Some("MY_KEY"));
    let mut custom = Table::new();
    custom.insert("myvllm", "https://global.example/v1".to_string());
    let options = vault_provider_options_for_provider(&config, &custom, "myvllm");
    assert_eq!(options.base_url_override, None);
    assert_eq!(options.api_key_env_override.as_deref(), Some("MY_KEY"));
}

#[test]
fn vault_provider_options_for_provider_reads_the_same_entry_by_bare_provider_name() {
    let config = config_with("custom", Some("http://localhost:9999"), Some("MY_CUSTOM_KEY"));
    let options = vault_provider_options_for_provider(&config, &Table::new(), "custom");
    assert_eq!(options.base_url_override.as_deref(), Some("http://localhost:9999"));
    assert_eq!(options.api_key_env_override.as_deref(), Some("MY_CUSTOM_KEY"));
}

#[test]
fn vault_provider_options_rejects_a_model_without_a_provider() {
    assert!(vault_provider_options(&OkfVaultConfig::default(), &Table::new(), "gpt-4o").is_err());
}

#[test]
fn select_sources_diff_only_skips_already_referenced_raw_ids() {
    let mut manifest = Manifest::default();
    manifest.record_ingest("uri-a", "sha256:aaa", "raw_aaa", "t0");
    manifest.record_ingest("uri-b", "sha256:bbb", "raw_bbb", "t0");
    let pages = vec![concept("already-compiled", &["/raw/raw_aaa.md"])];
    let selected = select_sources(&manifest, &pages, true);
    assert_eq!(selected.len(), 1);
    assert_eq!(selected[0].1, "raw_bbb");
}

#[test]
fn select_sources_diff_only_also_skips_sources_already_compiled_at_the_current_hash() {
    let mut manifest = Manifest::default();
    manifest.record_ingest("uri-a", "sha256:aaa", "raw_aaa", "t0");
    manifest.record_ingest("uri-b", "sha256:bbb", "raw_bbb", "t0");
    manifest.mark_compiled("uri-a");
    let selected = select_sources(&manifest, &Vec::new(), true);
    assert_eq!(selected.len(), 1);
    assert_eq!(selected[0].1, "raw_bbb");
}

#[test]
fn select_sources_recognises_a_slugged_resource() {
    let mut manifest = Manifest::default();
    manifest.record_ingest("uri-a", "sha256:aaa", "raw_aaa", "t0");
    let pages = vec![concept("page", &["/raw/raw_aaa--some-title.md"])];
    assert!(select_sources(&manifest, &pages, true).is_empty());
}

#[test]
fn select_sources_without_diff_only_returns_every_active_entry() {
    let mut manifest = Manifest::default();
    manifest.record_ingest("uri-a", "sha256:aaa", "raw_aaa", "t0");
    manifest.record_ingest("uri-b", "sha256:bbb", "raw_bbb", "t0");
    let pages = vec![concept("already-compiled", &["/raw/raw_aaa.md"])];
    let selected = select_sources(&manifest, &pages, false);
    assert_eq!(selected.len(), 2);
}

#[test]
fn select_sources_excludes_tombstoned_entries() {
    let mut manifest = Manifest::default();
    manifest.record_ingest("uri-a", "sha256:aaa", "raw_aaa", "t0");
    manifest.tombstone("uri-a", "gone", "t1").unwrap();
    let selected = select_sources(&manifest, &Vec::new(), false);
    assert!(selected.is_empty());
}

#[test]
fn superseded_raw_id_finds_the_entry_before_the_active_one() {
    let mut manifest = Manifest::default();
    manifest.record_ingest("uri", "sha256:aaa", "raw_aaa", "t0");
    manifest.record_ingest("uri", "sha256:bbb", "raw_bbb", "t1");
    assert_eq!(superseded_raw_id(&manifest, "uri").as_deref(), Some("raw_aaa"));
}

#[test]
fn superseded_raw_id_is_none_where_nothing_is_active() {
    let mut manifest = Manifest::default();
    manifest.record_ingest("uri", "sha256:aaa", "raw_aaa", "t0");
    manifest.record_ingest("uri", "sha256:bbb", "raw_bbb", "t1");
    manifest.tombstone("uri", "gone", "t2").unwrap();
    assert_eq!(superseded_raw_id(&manifest, "uri"), None);
    manifest.record_ingest("uri", "sha256:ccc", "raw_ccc", "t3");
    assert_eq!(superseded_raw_id(&manifest, "uri").as_deref(), Some("raw_bbb"));
}

#[test]
fn superseded_raw_id_is_none_for_a_first_time_ingest() {
    let mut manifest = Manifest::default();
    manifest.record_ingest("uri", "sha256:aaa", "raw_aaa", "t0");
    assert_eq!(superseded_raw_id(&manifest, "uri"), None);
}

#[test]
fn regenerate_index_lists_pages_sorted_by_title_with_descriptions() {
    let index = regenerate_index(&vec![concept("zebra", &[]), concept("apple", &[])]);
    let apple_pos = index.find("apple").unwrap();
    let zebra_pos = index.find("zebra").unwrap();
    assert!(apple_pos < zebra_pos);
    assert!(index.contains("about apple"));
    assert_eq!(
        index,
        "# Wiki Index\n\n- [apple](wiki/concepts/apple.md) — about apple\n- [zebra](wiki/concepts/zebra.md) — about zebra\n"
    );
}

#[test]
fn regenerate_index_on_an_empty_wiki_produces_a_header_only_file() {
    let index = regenerate_index(&Vec::new());
    assert_eq!(index.trim(), "# Wiki Index");
}

#[test]
fn regenerate_index_omits_the_dash_separator_when_description_is_empty() {
    let index = regenerate_index(&vec![page(
        "wiki/concepts/bare.md",
        "---\nokf_version: \"0.2\"\ntype: concept\nid: concept_bare\ntitle: \"bare\"\ndescription: \"\"\n---\n\n# bare\n",
    )]);
    assert_eq!(index.trim(), "# Wiki Index\n\n- [bare](wiki/concepts/bare.md)".trim());
    assert!(!index.contains("—"));
}

#[test]
fn the_index_is_the_same_in_whatever_order_pages_are_found() {
    let one = regenerate_index(&vec![
        concept("a", &[]),
        page("wiki/concepts/broken.md", "no frontmatter"),
        concept("b", &[]),
    ]);
    let other = regenerate_index(&vec![
        concept("b", &[]),
        concept("a", &[]),
        page("wiki/concepts/broken.md", "no frontmatter"),
    ]);
    assert_eq!(one, other);
    assert!(!one.contains("broken"));
}

#[test]
fn compile_options_default_concurrency_is_one_not_zero() {
    assert_eq!(CompileOptions::default().concurrency, 1);
}

fn sources(n: usize) -> (Manifest, Vec<(String, String)>) {
    let mut manifest = Manifest::default();
    let mut list = Vec::new();
    for i in 0..n {
        let uri = format!("uri-{i}");
        let raw_id = format!("raw_{i}");
        manifest.record_ingest(&uri, &format!("sha256:{i}"), &raw_id, "t0");
        list.push((uri, raw_id));
    }
    (manifest, list)
}

#[test]
fn run_compile_sources_at_concurrency_one_dispatches_and_completes_in_input_order() {
    let (manifest, list) = sources(3);
    let mut run = CompileRun::new(manifest, list, 1);
    let mut seen = Vec::new();
    while let Some(job) = run.start() {
        assert!(run.start().is_none());
        assert_eq!(job.line, format!("[{}/3] compiling uri-{}...", job.index + 1, job.index));
        seen.push(job.uri.clone());
        let recorded = run.record(job.index, Ok(vec![format!("wiki/{}.md", job.raw_id)])).unwrap();
        assert!(recorded.save);
        assert_eq!(recorded.line, "  done");
        run.settle(None);
    }
    assert_eq!(seen, vec!["uri-0", "uri-1", "uri-2"]);
    let (manifest, outcomes, touched) = run.into_result().unwrap();
    assert_eq!(outcomes.len(), 3);
    assert_eq!(touched, vec!["wiki/raw_0.md", "wiki/raw_1.md", "wiki/raw_2.md"]);
    assert!(manifest.is_compiled_at_current_hash("uri-2"));
}

#[test]
fn run_compile_sources_under_concurrency_marks_every_source_exactly_once() {
    let (manifest, list) = sources(8);
    let mut run = CompileRun::new(manifest, list, 4);
    let mut in_hand = Vec::new();
    let mut marked = 0;
    loop {
        while let Some(job) = run.start() {
            in_hand.push(job.index);
        }
        assert!(in_hand.len() <= 4);
        match in_hand.pop() {
            None => break,
            Some(index) => {
                assert!(run.record(index, Ok(Vec::new())).unwrap().save);
                run.settle(None);
                marked += 1;
                assert!(run.record(index, Ok(Vec::new())).is_none());
            }
        }
    }
    assert_eq!(marked, 8);
    let (manifest, outcomes, _) = run.into_result().unwrap();
    assert_eq!(outcomes.len(), 8);
    for i in 0..8 {
        assert!(manifest.is_compiled_at_current_hash(&format!("uri-{i}")));
        assert_eq!(outcomes.iter().filter(|o| o.uri == format!("uri-{i}")).count(), 1);
    }
}

#[test]
fn run_compile_sources_reports_a_failure_without_dropping_other_sources() {
    let (manifest, list) = sources(3);
    let mut run = CompileRun::new(manifest, list, 1);
    while let Some(job) = run.start() {
        let outcome = if job.uri == "uri-1" {
            Err("LLM call failed".to_string())
        } else {
            Ok(Vec::new())
        };
        let failed = outcome.is_err();
        let recorded = run.record(job.index, outcome).unwrap();
        assert_eq!(recorded.save, !failed);
        if failed {
            assert_eq!(recorded.line, "  failed: LLM call failed");
        }
        run.settle(None);
    }
    let (manifest, outcomes, _) = run.into_result().unwrap();
    assert_eq!(outcomes.len(), 3);
    assert_eq!(outcomes[1].error.as_deref(), Some("LLM call failed"));
    assert!(outcomes[2].error.is_none());
    assert!(!manifest.is_compiled_at_current_hash("uri-1"));
    assert!(manifest.is_compiled_at_current_hash("uri-2"));
}

#[test]
fn run_compile_sources_stops_dispatching_after_a_manifest_save_failure() {
    let (manifest, list) = sources(5);
    let mut run = CompileRun::new(manifest, list, 1);
    let job = run.start().unwrap();
    assert!(run.record(job.index, Ok(Vec::new())).unwrap().save);
    run.settle(Some("disk full".to_string()));
    assert!(run.start().is_none());
    assert_eq!(run.into_result().unwrap_err(), "disk full");
}

#[test]
fn nothing_is_recorded_for_a_source_that_was_not_started() {
    let (manifest, list) = sources(2);
    let mut run = CompileRun::new(manifest, list, 1);
    assert!(run.record(0, Ok(Vec::new())).is_none());
    run.start().unwrap();
    assert!(run.record(1, Ok(Vec::new())).is_none());
    assert!(run.record(7, Ok(Vec::new())).is_none());
}

#[test]
fn a_report_counts_what_was_compiled_and_what_failed() {
    let report = CompileReport {
        sources: vec![
            SourceOutcome { uri: "a".to_string(), raw_id: "raw_a".to_string(), error: None },
            SourceOutcome {
                uri: "b".to_string(),
                raw_id: "raw_b".to_string(),
                error: Some("no".to_string()),
            },
            SourceOutcome { uri: "c".to_string(), raw_id: "raw_c".to_string(), error: None },
        ],
        touched_paths: Vec::new(),
        lint_report: LintReport::default(),
    };
    assert_eq!(report.sources_processed(), 2);
    assert_eq!(report.sources_failed(), 1);
}

#[test]
fn read_raw_body_leaves_the_frontmatter_out_and_finds_slugged_files() {
    let files = vec![RawFile {
        path: "raw/raw_aaa--title.md".to_string(),
        is_file: true,
        content: Ok("---\nid: raw_aaa\n---\n\nBody.".to_string()),
    }];
    let manifest = Manifest::default();
    assert_eq!(read_raw_body("/vault", &manifest, &files, "raw_aaa").unwrap(), "\nBody.");
    assert_eq!(
        read_raw_body("/vault", &manifest, &files, "raw_bbb").unwrap_err(),
        "no raw file found for 'raw_bbb' under '/vault'"
    );
}

#[test]
fn related_pages_are_searched_with_the_front_of_the_source() {
    assert_eq!(related_query("short"), "short");
    assert_eq!(related_query(&"é".repeat(700)), "é".repeat(500));
}

#[test]
fn compile_one_source_includes_superseded_source_and_related_pages() {
    let mut manifest = Manifest::default();
    manifest.record_ingest("uri", "sha256:aaa", "raw_aaa", "t0");
    manifest.record_ingest("uri", "sha256:bbb", "raw_bbb", "t1");
    let files = vec![raw("raw_aaa", "old text"), raw("raw_bbb", "new text")];
    let search = |query: &str| -> Result<Vec<WikiPageRef>, String> {
        Ok(vec![WikiPageRef {
            path: "wiki/concepts/related.md".to_string(),
            content: format!("related to {query}"),
        }])
    };
    let prompt =
        prompt_for_source("/vault", &manifest, &files, "raw_bbb", Some("raw_aaa"), &search).unwrap();
    assert!(prompt.contains("SUPERSEDED PREVIOUS SOURCE"));
    assert!(prompt.contains("old text"));
    assert!(prompt.contains("new text"));
    assert!(prompt.contains("related to new text"));
    let alone = prompt_for_source("/vault", &manifest, &files, "raw_bbb", Some("raw_gone"), &search).unwrap();
    assert!(!alone.contains("SUPERSEDED"));
}

#[test]
fn a_source_without_a_body_has_no_prompt() {
    let search = |_: &str| -> Result<Vec<WikiPageRef>, String> { Ok(Vec::new()) };
    let error =
        prompt_for_source("/vault", &Manifest::default(), &Vec::new(), "raw_x", None, &search).unwrap_err();
    assert!(matches!(&error, PromptError::UnreadableSource(_)));
    assert_eq!(error.message(), "no raw file found for 'raw_x' under '/vault'");
    let locked = vec![RawFile {
        path: "raw/raw_x.md".to_string(),
        is_file: true,
        content: Err("Permission denied (os error 13)".to_string()),
    }];
    let error =
        prompt_for_source("/vault", &Manifest::default(), &locked, "raw_x", None, &search)
            .unwrap_err();
    assert_eq!(error.message(), "Permission denied (os error 13)");
}

#[test]
fn a_search_that_fails_fails_the_prompt() {
    let files = vec![raw("raw_x", "text")];
    let search = |_: &str| -> Result<Vec<WikiPageRef>, String> { Err("no index".to_string()) };
    let error =
        prompt_for_source("/vault", &Manifest::default(), &files, "raw_x", None, &search).unwrap_err();
    assert_eq!(error.message(), "no index");
}

#[test]
fn an_oversized_source_is_cut_and_said_to_be() {
    let active = RawBlob { id: "raw_a".to_string(), content: "x".repeat(1_000_000) };
    let notice = large_prompt_notice(&active, None, &Vec::new(), "uri", 2, 7).unwrap();
    assert!(notice.starts_with("[2/7] uri: prompt is large (~250000 tokens, budget "));
    let prompt = assemble_compile_prompt(active, None, Vec::new());
    assert!(prompt.contains("[... truncated"));
    assert!(prompt.len() < 1_000_000);
    let small = RawBlob { id: "raw_a".to_string(), content: "x".to_string() };
    assert!(large_prompt_notice(&small, None, &Vec::new(), "uri", 1, 1).is_none());
}
