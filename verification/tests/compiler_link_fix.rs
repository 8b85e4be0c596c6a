use okf_mcp::compiler::link_fix::{
    group_broken_links_by_slug, raw_ids_cited_by, summary_line, LinkFixOutcome, LinkFixReport,
    LinkFixRun, LinkFixStatus, LinkFixStep,
};
use okf_mcp::ingest::frontmatter::RawFile;
use okf_mcp::manifest::model::Manifest;
use okf_mcp::validator::frontmatter::{
    parse_wiki_page, split_frontmatter, PageFile, SourceRef, WikiFrontmatter,
};
use okf_mcp::validator::rules::{lint_bundle, LintReport};

fn text_field(value: &serde_yaml::Value, key: &str) -> Option<String> {
    value.get(key).and_then(|v| v.as_str()).map(|s| s.to_string())
}

fn frontmatter_of(yaml: &str) -> Result<WikiFrontmatter, String> {
    let value = serde_yaml::from_str::<serde_yaml::Value>(yaml).map_err(|e| e.to_string())?;
    if !value.is_mapping() {
        return Err("not a mapping".to_string());
    }
    let page_type = text_field(&value, "type").ok_or("missing field `type`".to_string())?;
    let title = text_field(&value, "title").ok_or("missing field `title`".to_string())?;
    let mut sources = Vec::new();
    if let Some(list) = value.get("sources").and_then(|v| v.as_sequence()) {
        for item in list {
            sources.push(SourceRef {
                resource: text_field(item, "resource").ok_or("missing field `resource`".to_string())?,
                id: text_field(item, "id"),
                title: text_field(item, "title"),
            });
        }
    }
    let mut tags = Vec::new();
    if let Some(list) = value.get("tags").and_then(|v| v.as_sequence()) {
        for item in list {
            tags.push(item.as_str().unwrap_or_default().to_string());
        }
    }
    Ok(WikiFrontmatter {
        okf_version: text_field(&value, "okf_version"),
        page_type,
        id: text_field(&value, "id"),
        title,
        description: text_field(&value, "description"),
        sources,
        tags,
        timestamp: text_field(&value, "timestamp"),
    })
}

fn page(path: &str, content: &str) -> PageFile {
    let frontmatter = match split_frontmatter(content) {
        Ok((yaml, _)) => frontmatter_of(&yaml),
        Err(_) => Err(String::new()),
    };
    PageFile {
        path: path.to_string(),
        content: content.to_string(),
        parsed: parse_wiki_page(content, frontmatter),
    }
}

fn concept(slug: &str, sources: &[&str], body_extra: &str) -> PageFile {
    let sources_yaml = if sources.is_empty() {
        String::new()
    } else {
        let entries: String = sources
            .iter()
            .map(|s| format!("  - resource: \"{s}\"\n"))
            .collect();
        format!("sources:\n{entries}")
    };
    let content = format!(
        "---\nokf_version: \"0.2\"\ntype: concept\nid: concept_{slug}\ntitle: \"{slug}\"\n{sources_yaml}---\n\n# {slug}\n\n{body_extra}\n"
    );
    page(&format!("wiki/concepts/{slug}.md"), &content)
}

#[test]
fn raw_ids_cited_by_collects_and_dedups_across_pages() {
    let a = page(
        "wiki/concepts/a.md",
        "---\nokf_version: \"0.2\"\ntype: concept\nid: concept_a\ntitle: \"a\"\nsources:\n  - resource: \"/raw/raw_aaa.md\"\n---\n\n# a\n",
    );
    let b = page(
        "wiki/concepts/b.md",
        "---\nokf_version: \"0.2\"\ntype: concept\nid: concept_b\ntitle: \"b\"\nsources:\n  - resource: \"/raw/raw_aaa.md\"\n  - resource: \"/raw/raw_bbb.md\"\n---\n\n# b\n",
    );
    let ids = raw_ids_cited_by(&vec![a, b]);
    assert_eq!(ids.len(), 2);
    assert!(ids.contains(&"raw_aaa".to_string()));
    assert!(ids.contains(&"raw_bbb".to_string()));
}

#[test]
fn a_slug_with_no_broken_links_produces_an_empty_report() {
    let pages = vec![concept("a", &[], "")];
    let lint = lint_bundle(&pages, &Manifest::default(), &Vec::new()).unwrap();
    let mut run = LinkFixRun::new(&lint);
    assert!(matches!(
        run.step(&pages, &Manifest::default(), &Vec::new()),
        LinkFixStep::Done
    ));
    assert!(run.report.outcomes.is_empty());
}

#[test]
fn a_broken_link_with_no_cited_raw_sources_is_skipped_without_calling_the_llm() {
    let pages = vec![concept("a", &[], "See [[missing]].")];
    let lint = lint_bundle(&pages, &Manifest::default(), &Vec::new()).unwrap();
    let mut run = LinkFixRun::new(&lint);
    match run.step(&pages, &Manifest::default(), &Vec::new()) {
        LinkFixStep::Skipped { started, finished } => {
            assert_eq!(started, "[1/1] synthesizing [[missing]]...");
            assert_eq!(finished, "  failed: no raw-source context available — skipped");
        }
        _ => panic!("expected a skip"),
    }
    assert!(matches!(
        run.step(&pages, &Manifest::default(), &Vec::new()),
        LinkFixStep::Done
    ));
    assert_eq!(run.report.outcomes.len(), 1);
    assert_eq!(run.report.outcomes[0].slug, "missing");
    assert_eq!(run.report.outcomes[0].status, LinkFixStatus::SkippedNoSourceContext);
}

#[test]
fn a_broken_link_with_a_cited_source_is_asked_for_and_its_result_recorded() {
    let files = vec![RawFile {
        path: "raw/raw_aaa.md".to_string(),
        is_file: true,
        content: Ok("source text".to_string()),
    }];
    let pages = vec![concept("a", &["/raw/raw_aaa.md"], "See [[one]] and [[two]].")];
    let lint = lint_bundle(&pages, &Manifest::default(), &files).unwrap();
    let mut run = LinkFixRun::new(&lint);
    match run.step(&pages, &Manifest::default(), &files) {
        LinkFixStep::Ask { started, prompt } => {
            assert_eq!(started, "[1/2] synthesizing [[one]]...");
            assert!(prompt.contains("wiki/concepts/one.md"));
            assert!(prompt.contains("source text"));
            assert!(prompt.contains("Path: wiki/concepts/a.md"));
        }
        _ => panic!("expected a question"),
    }
    assert_eq!(run.finish(Ok(vec!["/vault/wiki/concepts/one.md".to_string()])), "  done");
    assert!(matches!(
        run.step(&pages, &Manifest::default(), &files),
        LinkFixStep::Ask { .. }
    ));
    assert_eq!(run.finish(Err("boom".to_string())), "  failed: boom");
    assert!(matches!(
        run.step(&pages, &Manifest::default(), &files),
        LinkFixStep::Done
    ));
    assert_eq!(run.report.synthesized_slugs(), vec!["one"]);
    assert_eq!(run.report.touched_paths, vec!["/vault/wiki/concepts/one.md"]);
    assert_eq!(
        summary_line(&run.report),
        "Synthesized 1 concept page(s) via LLM: [[one]]\nFailed to synthesize [[two]]: boom"
    );
}

#[test]
fn missing_pages_are_listed_once_by_name() {
    let lint = LintReport {
        broken_links: vec![
            ("wiki/concepts/a.md".to_string(), "zebra".to_string()),
            ("wiki/concepts/a.md".to_string(), "apple".to_string()),
            ("wiki/concepts/b.md".to_string(), "zebra".to_string()),
        ],
        ..LintReport::default()
    };
    let missing = group_broken_links_by_slug(&lint);
    assert_eq!(missing.len(), 2);
    assert_eq!(missing[0].slug, "apple");
    assert_eq!(missing[0].referencing, vec!["wiki/concepts/a.md"]);
    assert_eq!(missing[1].slug, "zebra");
    assert_eq!(missing[1].referencing, vec!["wiki/concepts/a.md", "wiki/concepts/b.md"]);
}

#[test]
fn summary_line_reports_no_broken_links_when_the_report_is_empty() {
    assert_eq!(summary_line(&LinkFixReport::default()), "No broken links to synthesize.");
}

#[test]
fn summary_line_lists_synthesized_and_skipped_slugs() {
    let report = LinkFixReport {
        outcomes: vec![
            LinkFixOutcome { slug: "a".to_string(), status: LinkFixStatus::Synthesized },
            LinkFixOutcome {
                slug: "b".to_string(),
                status: LinkFixStatus::SkippedNoSourceContext,
            },
        ],
        touched_paths: vec![],
    };
    let text = summary_line(&report);
    assert!(text.contains("Synthesized 1 concept page(s)"));
    assert!(text.contains("[[a]]"));
    assert!(text.contains("Skipped 1"));
    assert!(text.contains("[[b]]"));
}
