use okf_mcp::compiler::prompts::WikiPageRef;
use okf_mcp::compiler::synthesize::{next_batch, BatchError, JobKind, NextBatch, StoredJobKind};
use okf_mcp::ingest::frontmatter::RawFile;
use okf_mcp::manifest::model::Manifest;
use okf_mcp::validator::frontmatter::{
    parse_wiki_page, split_frontmatter, PageFile, SourceRef, WikiFrontmatter,
};

fn text_field(value: &serde_yaml::Value, key: &str) -> Option<String> {
    value.get(key).and_then(|v| v.as_str()).map(|s| s.to_string())
}

fn frontmatter_of(yaml: &str) -> Result<WikiFrontmatter, String> {
    let value = serde_yaml::from_str::<serde_yaml::Value>(yaml).map_err(|e| e.to_string())?;
    if !value.is_mapping() {
        return Err("not a mapping".to_string());
    }
    let page_type = text_field(&value, "type").ok_or("missing field `type`".to_string())?;
    let title = text_field(&value, "title").ok_or("missing field `title`".to_string())?;
    let mut sources = Vec::new();
    if let Some(list) = value.get("sources").and_then(|v| v.as_sequence()) {
        for item in list {
            sources.push(SourceRef {
                resource: text_field(item, "resource").ok_or("missing field `resource`".to_string())?,
                id: text_field(item, "id"),
                title: text_field(item, "title"),
            });
        }
    }
    let mut tags = Vec::new();
    if let Some(list) = value.get("tags").and_then(|v| v.as_sequence()) {
        for item in list {
            tags.push(item.as_str().unwrap_or_default().to_string());
        }
    }
    Ok(WikiFrontmatter {
        okf_version: text_field(&value, "okf_version"),
        page_type,
        id: text_field(&value, "id"),
        title,
        description: text_field(&value, "description"),
        sources,
        tags,
        timestamp: text_field(&value, "timestamp"),
    })
}

fn page(path: &str, content: &str) -> PageFile {
    let frontmatter = match split_frontmatter(content) {
        Ok((yaml, _)) => frontmatter_of(&yaml),
        Err(_) => Err(String::new()),
    };
    PageFile {
        path: path.to_string(),
        content: content.to_string(),
        parsed: parse_wiki_page(content, frontmatter),
    }
}

fn raw(raw_id: &str, content: &str) -> RawFile {
    RawFile {
        path: format!("raw/{raw_id}.md"),
        is_file: true,
        content: Ok(content.to_string()),
    }
}

fn concept(slug: &str, sources: &[&str], body_extra: &str) -> PageFile {
    let sources_yaml = if sources.is_empty() {
        String::new()
    } else {
        let entries: String = sources
            .iter()
            .map(|s| format!("  - resource: \"{s}\"\n"))
            .collect();
        format!("sources:\n{entries}")
    };
    let content = format!(
        "---\ntype: concept\ntitle: \"{slug}\"\n{sources_yaml}---\n\n# {slug}\n\n{body_extra}\n"
    );
    page(&format!("wiki/concepts/{slug}.md"), &content)
}

fn batch(
    manifest: &Manifest,
    pages: &Vec<PageFile>,
    files: &Vec<RawFile>,
    size: usize,
) -> Result<NextBatch, BatchError> {
    let search = |_: &str| -> Result<Vec<WikiPageRef>, String> { Ok(Vec::new()) };
    next_batch("/vault", manifest, pages, files, size, true, &search, 1, 5000)
}

#[test]
fn returns_compile_jobs_for_pending_raw_sources_first() {
    let files = vec![raw("raw_aaa", "Some raw content.")];
    let mut manifest = Manifest::default();
    manifest.record_ingest("uri-a", "sha256:aaa", "raw_aaa", "t0");
    let batch = batch(&manifest, &Vec::new(), &files, 10).unwrap();
    assert_eq!(batch.phase, "compile");
    assert_eq!(batch.jobs.len(), 1);
    assert_eq!(batch.jobs[0].0.kind, JobKind::Compile);
    assert_eq!(batch.jobs[0].0.kind.as_str(), "compile");
    assert_eq!(JobKind::Fix.as_str(), "fix");
    assert!(batch.jobs[0].0.prompt.contains("Some raw content."));
    assert_eq!(batch.remaining_estimate, 0);
    assert_eq!(batch.jobs[0].1.vault_root, "/vault");
    assert_eq!(batch.jobs[0].1.created_at, 5000);
    match &batch.jobs[0].1.kind {
        StoredJobKind::Compile { uri } => assert_eq!(uri, "uri-a"),
        _ => panic!("expected a Compile job"),
    }
}

#[test]
fn batch_size_caps_how_many_compile_jobs_come_back_at_once() {
    let mut manifest = Manifest::default();
    let mut files = Vec::new();
    for i in 0..5 {
        let raw_id = format!("raw_{i}");
        files.push(raw(&raw_id, "content"));
        manifest.record_ingest(&format!("uri-{i}"), &format!("sha256:{i}"), &raw_id, "t0");
    }
    let two = batch(&manifest, &Vec::new(), &files, 2).unwrap();
    assert_eq!(two.jobs.len(), 2);
    assert_eq!(two.remaining_estimate, 3);
    let none = batch(&manifest, &Vec::new(), &files, 0).unwrap();
    assert_eq!(none.jobs.len(), 1);
}

#[test]
fn transitions_to_fix_phase_once_nothing_is_pending_to_compile() {
    let files = vec![raw("raw_aaa", "content")];
    let pages = vec![concept("a", &["/raw/raw_aaa.md"], "See [[missing]].")];
    let batch = batch(&Manifest::default(), &pages, &files, 10).unwrap();
    assert_eq!(batch.phase, "fix");
    assert_eq!(batch.jobs.len(), 1);
    assert_eq!(batch.jobs[0].0.kind, JobKind::Fix);
    match &batch.jobs[0].1.kind {
        StoredJobKind::Fix { slug } => assert_eq!(slug, "missing"),
        _ => panic!("expected a Fix job"),
    }
}

#[test]
fn a_broken_link_with_no_cited_source_context_is_skipped_not_a_job() {
    let pages = vec![concept("a", &[], "See [[missing]].")];
    let batch = batch(&Manifest::default(), &pages, &Vec::new(), 10).unwrap();
    assert_eq!(batch.phase, "fix");
    assert!(batch.jobs.is_empty());
    assert_eq!(batch.skipped.len(), 1);
    assert_eq!(batch.skipped[0].slug, "missing");
    assert_eq!(batch.skipped[0].reason, "no_source_context");
}

#[test]
fn reports_done_once_nothing_is_pending_or_broken() {
    let batch = batch(&Manifest::default(), &Vec::new(), &Vec::new(), 10).unwrap();
    assert_eq!(batch.phase, "done");
    assert!(batch.jobs.is_empty());
}

#[test]
fn each_job_gets_a_distinct_id_from_the_supplied_generator() {
    let mut manifest = Manifest::default();
    let mut files = Vec::new();
    for i in 0..3 {
        let raw_id = format!("raw_{i}");
        files.push(raw(&raw_id, "content"));
        manifest.record_ingest(&format!("uri-{i}"), &format!("sha256:{i}"), &raw_id, "t0");
    }
    let batch = batch(&manifest, &Vec::new(), &files, 10).unwrap();
    let ids: Vec<&str> = batch.jobs.iter().map(|(j, _)| j.job_id.as_str()).collect();
    assert_eq!(ids, vec!["job-1", "job-2", "job-3"]);
}

#[test]
fn job_numbers_begin_at_zero_again_after_the_last() {
    let mut manifest = Manifest::default();
    let mut files = Vec::new();
    for i in 0..2 {
        let raw_id = format!("raw_{i}");
        files.push(raw(&raw_id, "content"));
        manifest.record_ingest(&format!("uri-{i}"), &format!("sha256:{i}"), &raw_id, "t0");
    }
    let search = |_: &str| -> Result<Vec<WikiPageRef>, String> { Ok(Vec::new()) };
    let batch =
        next_batch("/vault", &manifest, &Vec::new(), &files, 10, true, &search, u64::MAX, 0)
            .unwrap();
    assert_eq!(batch.jobs[0].0.job_id, format!("job-{}", u64::MAX));
    assert_eq!(batch.jobs[1].0.job_id, "job-0");
}

#[test]
fn a_pending_source_without_a_body_fails_the_batch() {
    let mut manifest = Manifest::default();
    manifest.record_ingest("uri-a", "sha256:aaa", "raw_aaa", "t0");
    assert!(matches!(
        batch(&manifest, &Vec::new(), &Vec::new(), 10),
        Err(BatchError::Prompt(_))
    ));
}

#[test]
fn a_page_that_cannot_be_read_fails_the_batch_once_nothing_is_pending() {
    let pages = vec![page("wiki/concepts/broken.md", "no frontmatter")];
    assert!(matches!(
        batch(&Manifest::default(), &pages, &Vec::new(), 10),
        Err(BatchError::Lint(_))
    ));
}

#[test]
fn the_first_source_without_a_prompt_is_the_one_that_is_named() {
    let files = vec![raw("raw_a", "content")];
    let mut manifest = Manifest::default();
    manifest.record_ingest("uri-a", "sha256:a", "raw_a", "t0");
    manifest.record_ingest("uri-b", "sha256:b", "raw_b", "t0");
    manifest.record_ingest("uri-c", "sha256:c", "raw_c", "t0");
    match batch(&manifest, &Vec::new(), &files, 10) {
        Err(BatchError::Prompt(error)) => {
            assert!(error.message().contains("raw_b"), "{}", error.message())
        }
        _ => panic!("expected an error"),
    }
    assert!(batch(&manifest, &Vec::new(), &files, 1).is_ok());
}
