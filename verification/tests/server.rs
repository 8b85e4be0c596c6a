use okf_mcp::compiler::driver::{CompileOptions, CompileReport, SourceOutcome};
use okf_mcp::compiler::link_fix::LinkFixStatus;
use okf_mcp::compiler::synthesize::{JobKind, StoredJob, StoredJobKind, SynthesizeJob};
use okf_mcp::server::health::{check_http_response, check_structural, health_request};
use okf_mcp::server::mcp_server::{
    apply_arg_overrides, compile_summary, default_search_limit, default_synthesize_batch_size,
    evict_stale_and_excess_synthesize_jobs, find_concept_path, is_clean, link_fix_status_text,
    next_fix, unknown_job, CompileArgs, FixStep, RebuildArgs, SubmitStatus, SynthesizeNextArgs,
    SynthesizeSession, SYNTHESIZE_JOB_CAP, SYNTHESIZE_JOB_TTL,
};
use okf_mcp::server::output::{Output, OutputStream, ProgressEvent, Transport};
use okf_mcp::table::Table;
use okf_mcp::validator::frontmatter::{
    parse_wiki_page, split_frontmatter, PageFile, SourceRef, WikiFrontmatter,
};
use okf_mcp::validator::rules::LintReport;

fn text_field(value: &serde_yaml::Value, key: &str) -> Option<String> {
    value.get(key).and_then(|v| v.as_str()).map(|s| s.to_string())
}

fn frontmatter_of(yaml: &str) -> Result<WikiFrontmatter, String> {
    let value = serde_yaml::from_str::<serde_yaml::Value>(yaml).map_err(|e| e.to_string())?;
    if !value.is_mapping() {
        return Err("not a mapping".to_string());
    }
    let page_type = text_field(&value, "type").ok_or("missing field `type`".to_string())?;
    let title = text_field(&value, "title").ok_or("missing field `title`".to_string())?;
    let mut sources = Vec::new();
    if let Some(list) = value.get("sources").and_then(|v| v.as_sequence()) {
        for item in list {
            sources.push(SourceRef {
                resource: text_field(item, "resource").ok_or("missing field `resource`".to_string())?,
                id: text_field(item, "id"),
                title: text_field(item, "title"),
            });
        }
    }
    let mut tags = Vec::new();
    if let Some(list) = value.get("tags").and_then(|v| v.as_sequence()) {
        for item in list {
            tags.push(item.as_str().unwrap_or_default().to_string());
        }
    }
    Ok(WikiFrontmatter {
        okf_version: text_field(&value, "okf_version"),
        page_type,
        id: text_field(&value, "id"),
        title,
        description: text_field(&value, "description"),
        sources,
        tags,
        timestamp: text_field(&value, "timestamp"),
    })
}

fn page(path: &str, content: &str) -> PageFile {
    let frontmatter = match split_frontmatter(content) {
        Ok((yaml, _)) => frontmatter_of(&yaml),
        Err(_) => Err(String::new()),
    };
    PageFile {
        path: path.to_string(),
        content: content.to_string(),
        parsed: parse_wiki_page(content, frontmatter),
    }
}

fn fix_job(slug: &str, created_at: u64) -> StoredJob {
    StoredJob {
        vault_root: "/vault".to_string(),
        kind: StoredJobKind::Fix { slug: slug.to_string() },
        created_at,
    }
}

fn options(temperature: Option<f32>, base_url: Option<&str>) -> CompileOptions {
    CompileOptions {
        temperature_bits: temperature.map(|t| t.to_bits()),
        base_url_override: base_url.map(|s| s.to_string()),
        ..CompileOptions::default()
    }
}

#[test]
fn evict_stale_and_excess_synthesize_jobs_removes_entries_past_the_ttl() {
    let now = 10_000_000;
    let mut jobs = Table::new();
    jobs.insert("stale", fix_job("x", now - SYNTHESIZE_JOB_TTL - 1000));
    jobs.insert("fresh", fix_job("y", now));
    evict_stale_and_excess_synthesize_jobs(&mut jobs, now);
    assert!(!jobs.contains("stale"));
    assert!(jobs.contains("fresh"));
}

#[test]
fn evict_stale_and_excess_synthesize_jobs_caps_total_count_evicting_oldest_first() {
    let now = 10_000_000;
    let mut jobs = Table::new();
    for i in 0..(SYNTHESIZE_JOB_CAP + 3) {
        let age = ((SYNTHESIZE_JOB_CAP + 3 - i) as u64) * 1000;
        jobs.insert(&format!("job-{i}"), fix_job("x", now - age));
    }
    evict_stale_and_excess_synthesize_jobs(&mut jobs, now);
    assert_eq!(jobs.len(), SYNTHESIZE_JOB_CAP);
    assert!(!jobs.contains("job-0"));
    assert!(!jobs.contains("job-1"));
    assert!(!jobs.contains("job-2"));
    assert!(jobs.contains(&format!("job-{}", SYNTHESIZE_JOB_CAP + 2)));
}

#[test]
fn a_job_is_dropped_exactly_when_its_time_is_over() {
    let mut jobs = Table::new();
    jobs.insert("old", fix_job("x", 0));
    evict_stale_and_excess_synthesize_jobs(&mut jobs, SYNTHESIZE_JOB_TTL - 1);
    assert!(jobs.contains("old"));
    evict_stale_and_excess_synthesize_jobs(&mut jobs, SYNTHESIZE_JOB_TTL);
    assert!(!jobs.contains("old"));
}

fn handed(job_id: &str, uri: &str) -> (SynthesizeJob, StoredJob) {
    (
        SynthesizeJob {
            job_id: job_id.to_string(),
            kind: JobKind::Compile,
            prompt: "prompt".to_string(),
        },
        StoredJob {
            vault_root: "/vault".to_string(),
            kind: StoredJobKind::Compile { uri: uri.to_string() },
            created_at: 0,
        },
    )
}

#[test]
fn synthesize_submit_isolates_an_unknown_job_id_from_the_rest_of_the_batch() {
    let mut session = SynthesizeSession::new();
    assert_eq!(session.next_job, 1);
    session.hand_out(vec![handed("job-1", "uri-a"), handed("job-2", "uri-b")], 0);
    assert_eq!(session.next_job, 3);
    let mut reindex = Vec::new();
    assert!(session.look_up("job-99", 1).is_none());
    match unknown_job() {
        SubmitStatus::Error { error } => assert_eq!(error, "job not found or expired"),
        _ => panic!("expected an error"),
    }
    let pending = session.look_up("job-1", 1).unwrap();
    assert_eq!(pending.vault_root, "/vault");
    assert_eq!(pending.compiles.as_deref(), Some("uri-a"));
    let status = session.finish("job-1", "/vault", Ok(vec!["a.md".to_string()]), &mut reindex);
    assert!(matches!(&status, SubmitStatus::Applied { touched_paths } if touched_paths.len() == 1));
    assert!(session.look_up("job-1", 1).is_none());
    let status = session.finish("job-2", "/vault", Err("escapes".to_string()), &mut reindex);
    assert!(matches!(&status, SubmitStatus::Error { error } if error == "escapes"));
    assert!(session.look_up("job-2", 1).is_some());
    session.finish("job-2", "/vault", Ok(Vec::new()), &mut reindex);
    assert_eq!(reindex, vec!["/vault"]);
}

#[test]
fn a_fix_job_marks_no_source() {
    let mut session = SynthesizeSession::new();
    session.jobs.insert("job-1", fix_job("x", 0));
    assert!(session.look_up("job-1", 0).unwrap().compiles.is_none());
}

#[test]
fn apply_arg_overrides_passes_vault_options_through_unchanged_except_concurrency_defaults_to_one() {
    let vault_options = CompileOptions {
        temperature_bits: Some(0.2f32.to_bits()),
        base_url_override: Some("https://vault.example/v1".to_string()),
        api_key_env_override: Some("VAULT_KEY_ENV".to_string()),
        max_tokens: Some(4096),
        concurrency: 7,
    };
    let options = apply_arg_overrides(vault_options, None, None, None);
    assert_eq!(options.temperature_bits.map(f32::from_bits), Some(0.2));
    assert_eq!(options.base_url_override.as_deref(), Some("https://vault.example/v1"));
    assert_eq!(options.api_key_env_override.as_deref(), Some("VAULT_KEY_ENV"));
    assert_eq!(options.max_tokens, Some(4096));
    assert_eq!(options.concurrency, 1);
}

#[test]
fn apply_arg_overrides_lets_an_explicit_temperature_win_over_the_vault_derived_value() {
    let options =
        apply_arg_overrides(options(Some(0.2), None), Some(0.9f32.to_bits()), None, None);
    assert_eq!(options.temperature_bits.map(f32::from_bits), Some(0.9));
}

#[test]
fn apply_arg_overrides_lets_an_explicit_base_url_override_win() {
    let options = apply_arg_overrides(
        options(None, Some("https://vault.example/v1")),
        None,
        Some("https://arg.example/v1".to_string()),
        None,
    );
    assert_eq!(options.base_url_override.as_deref(), Some("https://arg.example/v1"));
}

#[test]
fn apply_arg_overrides_uses_an_explicit_concurrency_value_instead_of_the_default() {
    let options = apply_arg_overrides(CompileOptions::default(), None, None, Some(5));
    assert_eq!(options.concurrency, 5);
}

#[test]
fn arguments_mean_what_they_leave_out() {
    assert_eq!(default_synthesize_batch_size(), 10);
    assert_eq!(default_search_limit(), 5);
    let mut next = SynthesizeNextArgs { batch_size: 0, diff: None, vault: None };
    assert_eq!(next.effective_batch_size(), 1);
    assert!(next.diff_only());
    next.batch_size = 51;
    next.diff = Some(false);
    assert_eq!(next.effective_batch_size(), 50);
    assert!(!next.diff_only());
    next.batch_size = 7;
    assert_eq!(next.effective_batch_size(), 7);
    let compile = CompileArgs {
        diff: None,
        model: None,
        temperature_bits: None,
        base_url_override: None,
        fix: None,
        concurrency: None,
        vault: None,
    };
    assert!(compile.diff_only());
    let rebuild = RebuildArgs {
        force: Some(true),
        model: None,
        temperature_bits: None,
        base_url_override: None,
        fix: None,
        concurrency: None,
        vault: None,
    };
    assert!(!rebuild.diff_only());
}

#[test]
fn read_concept_resolves_an_entity_page_by_slug_with_no_id_field() {
    let pages = vec![
        page("wiki/concepts/a.md", "---\ntype: concept\nid: concept_legacy\ntitle: \"a\"\n---\n\n# a\n"),
        page(
            "wiki/entities/ada-lovelace.md",
            "---\ntype: Person\ntitle: \"Ada Lovelace\"\n---\n\n# Ada Lovelace\n",
        ),
    ];
    let nowhere = |_: &str| -> bool { false };
    assert_eq!(
        find_concept_path("/vault", "ada-lovelace", &pages, &nowhere).unwrap(),
        "wiki/entities/ada-lovelace.md"
    );
    assert_eq!(
        find_concept_path("/vault", "legacy", &pages, &nowhere).unwrap(),
        "wiki/concepts/a.md"
    );
    assert_eq!(
        find_concept_path("/vault", "concept_legacy", &pages, &nowhere).unwrap(),
        "wiki/concepts/a.md"
    );
    assert_eq!(
        find_concept_path("/vault", "ghost", &pages, &nowhere).unwrap_err(),
        "no wiki concept found for 'ghost'"
    );
    let on_disk = |path: &str| -> bool { path == "/vault/wiki/index.md" };
    assert_eq!(
        find_concept_path("/vault", "wiki/./index.md", &pages, &on_disk).unwrap(),
        "wiki/index.md"
    );
    let everything = |_: &str| -> bool { true };
    assert!(find_concept_path("/vault", "../../etc/passwd", &pages, &everything).is_err());
}

#[test]
fn a_check_is_clean_unless_strict_minds_orphans() {
    let orphans = LintReport {
        orphan_pages: vec!["wiki/concepts/a.md".to_string()],
        ..LintReport::default()
    };
    assert!(is_clean(&orphans, false));
    assert!(!is_clean(&orphans, true));
    let broken = LintReport {
        broken_links: vec![("a".to_string(), "b".to_string())],
        ..LintReport::default()
    };
    assert!(!is_clean(&broken, false));
}

#[test]
fn a_compile_run_is_answered_with_numbers() {
    let report = CompileReport {
        sources: vec![
            SourceOutcome { uri: "a".to_string(), raw_id: "r".to_string(), error: None },
            SourceOutcome {
                uri: "b".to_string(),
                raw_id: "s".to_string(),
                error: Some("x".to_string()),
            },
        ],
        touched_paths: Vec::new(),
        lint_report: LintReport {
            missing_sources: vec![("p".to_string(), "q".to_string())],
            orphan_pages: vec!["o".to_string()],
            ..LintReport::default()
        },
    };
    let summary = compile_summary(&report);
    assert_eq!((summary.sources_processed, summary.sources_failed), (1, 1));
    assert!(!summary.clean);
    assert_eq!(
        (summary.broken_links, summary.missing_sources, summary.orphan_pages),
        (0, 1, 1)
    );
    assert_eq!(link_fix_status_text(&LinkFixStatus::Synthesized), "synthesized");
    assert_eq!(
        link_fix_status_text(&LinkFixStatus::SkippedNoSourceContext),
        "skipped_no_source_context"
    );
    assert_eq!(link_fix_status_text(&LinkFixStatus::Failed("x".to_string())), "failed: x");
}

#[test]
fn links_are_fixed_only_after_what_needs_no_model() {
    let broken = LintReport {
        broken_links: vec![("a".to_string(), "b".to_string())],
        ..LintReport::default()
    };
    assert_eq!(next_fix(false, None), FixStep::Nothing);
    assert_eq!(next_fix(false, Some(&broken)), FixStep::Nothing);
    assert_eq!(next_fix(true, None), FixStep::Mechanical);
    assert_eq!(next_fix(true, Some(&broken)), FixStep::Links);
    assert_eq!(next_fix(true, Some(&LintReport::default())), FixStep::Nothing);
}

#[test]
fn for_transport_routes_http_to_stdout_and_stdio_to_stderr() {
    assert_eq!(Output::for_transport(Transport::Http).0, OutputStream::Stdout);
    assert_eq!(Output::for_transport(Transport::Stdio).0, OutputStream::Stderr);
}

#[test]
fn cli_always_routes_to_stdout() {
    assert_eq!(Output::cli().0, OutputStream::Stdout);
}

#[test]
fn started_event_formats_as_indexed_label_with_ellipsis() {
    let event = ProgressEvent::Started {
        index: 2,
        total: 5,
        label: "compiling https://example.com/a".to_string(),
    };
    assert_eq!(event.text(), "[2/5] compiling https://example.com/a...");
}

#[test]
fn finished_event_without_error_formats_as_done() {
    let event = ProgressEvent::Finished {
        index: 1,
        total: 1,
        label: "compiling https://example.com/a".to_string(),
        error: None,
    };
    assert_eq!(event.text(), "  done");
}

#[test]
fn finished_event_with_error_formats_the_error_message() {
    let event = ProgressEvent::Finished {
        index: 1,
        total: 1,
        label: "compiling https://example.com/a".to_string(),
        error: Some("LLM call failed".to_string()),
    };
    assert_eq!(event.text(), "  failed: LLM call failed");
}

#[test]
fn a_server_is_well_if_its_first_line_says_so() {
    assert!(check_http_response("HTTP/1.1 200 OK\r\n\r\nbody").is_ok());
    assert_eq!(
        check_http_response("HTTP/1.1 503 Service Unavailable\r\n 200 \r\n").unwrap_err(),
        "unexpected /healthz response: HTTP/1.1 503 Service Unavailable"
    );
    assert_eq!(check_http_response("").unwrap_err(), "empty response from /healthz");
    assert_eq!(
        health_request("localhost"),
        "GET /healthz HTTP/1.1\r\nHost: localhost\r\nConnection: close\r\n\r\n"
    );
    assert!(check_structural("/vault/.okf", true).is_ok());
    assert_eq!(
        check_structural("/vault/.okf", false).unwrap_err(),
        "vault '.okf' directory not found at '/vault/.okf'"
    );
}
