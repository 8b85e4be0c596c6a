use okf_mcp::ingest::frontmatter::RawFile;
use okf_mcp::manifest::model::Manifest;
use okf_mcp::validator::fix::{fix_bundle, propose_fix, summary_line, FixOutcome, FixReport};
use okf_mcp::validator::frontmatter::{
    parse_wiki_page, split_frontmatter, PageError, PageFile, ParsedPage, SourceRef, WikiFrontmatter,
};
use okf_mcp::validator::report::to_text;
use okf_mcp::validator::rules::{lint_bundle, LintReport};
use okf_mcp::validator::wikilink::{extract_wikilinks, WikiLink};

fn text_field(value: &serde_yaml::Value, key: &str) -> Option<String> {
    value.get(key).and_then(|v| v.as_str()).map(|s| s.to_string())
}

fn frontmatter_of(yaml: &str) -> Result<WikiFrontmatter, String> {
    let value = serde_yaml::from_str::<serde_yaml::Value>(yaml).map_err(|e| e.to_string())?;
    if !value.is_mapping() {
        return Err("not a mapping".to_string());
    }
    let page_type = text_field(&value, "type").ok_or("missing field `type`".to_string())?;
    let title = text_field(&value, "title").ok_or("missing field `title`".to_string())?;
    let mut sources = Vec::new();
    if let Some(list) = value.get("sources").and_then(|v| v.as_sequence()) {
        for item in list {
            sources.push(SourceRef {
                resource: text_field(item, "resource").ok_or("missing field `resource`".to_string())?,
                id: text_field(item, "id"),
                title: text_field(item, "title"),
            });
        }
    }
    let mut tags = Vec::new();
    if let Some(list) = value.get("tags").and_then(|v| v.as_sequence()) {
        for item in list {
            tags.push(item.as_str().unwrap_or_default().to_string());
        }
    }
    Ok(WikiFrontmatter {
        okf_version: text_field(&value, "okf_version"),
        page_type,
        id: text_field(&value, "id"),
        title,
        description: text_field(&value, "description"),
        sources,
        tags,
        timestamp: text_field(&value, "timestamp"),
    })
}

fn page(path: &str, content: &str) -> PageFile {
    let frontmatter = match split_frontmatter(content) {
        Ok((yaml, _)) => frontmatter_of(&yaml),
        Err(_) => Err(String::new()),
    };
    PageFile {
        path: path.to_string(),
        content: content.to_string(),
        parsed: parse_wiki_page(content, frontmatter),
    }
}

fn parse(content: &str) -> Result<ParsedPage, PageError> {
    page("wiki/concepts/x.md", content).parsed
}

fn concept(slug: &str, sources: &[&str], body_extra: &str) -> PageFile {
    let sources_yaml = if sources.is_empty() {
        String::new()
    } else {
        let entries: String =
            sources.iter().map(|s| format!("  - resource: \"{s}\"\n")).collect();
        format!("sources:\n{entries}")
    };
    page(
        &format!("wiki/concepts/{slug}.md"),
        &format!(
            "---\nokf_version: \"0.2\"\ntype: concept\nid: concept_{slug}\ntitle: \"{slug}\"\n{sources_yaml}---\n\n# {slug}\n\n{body_extra}\n"
        ),
    )
}

fn raw(path: &str) -> RawFile {
    RawFile { path: path.to_string(), is_file: true, content: Ok("content".to_string()) }
}

fn lint(pages: &Vec<PageFile>) -> LintReport {
    lint_bundle(pages, &Manifest::default(), &Vec::new()).unwrap()
}

fn fix(pages: Vec<PageFile>, files: &Vec<RawFile>) -> FixOutcome {
    let rereads = pages
        .iter()
        .map(|p| propose_fix(p).and_then(|text| parse(&text).ok()))
        .collect();
    let concepts = pages.len();
    fix_bundle(pages, concepts, rereads, &Manifest::default(), files)
}

#[test]
fn extracts_a_single_local_link() {
    let links = extract_wikilinks("Relates to [[api-gateway]] for routing.");
    assert_eq!(links, vec![WikiLink::Local("api-gateway".to_string())]);
}

#[test]
fn extracts_multiple_links_in_one_document() {
    let links = extract_wikilinks("[[a]] and [[b]] and [[c]]");
    assert_eq!(
        links,
        vec![
            WikiLink::Local("a".to_string()),
            WikiLink::Local("b".to_string()),
            WikiLink::Local("c".to_string()),
        ]
    );
}

#[test]
fn extracts_a_cross_vault_link() {
    let links = extract_wikilinks("See [[personal::journal-entry]].");
    assert_eq!(
        links,
        vec![WikiLink::CrossVault {
            vault: "personal".to_string(),
            concept: "journal-entry".to_string(),
        }]
    );
}

#[test]
fn ignores_an_unterminated_link() {
    assert_eq!(extract_wikilinks("dangling [[open bracket"), Vec::new());
}

#[test]
fn ignores_an_empty_link() {
    assert_eq!(extract_wikilinks("[[]]"), Vec::new());
}

#[test]
fn a_document_with_no_links_yields_nothing() {
    assert_eq!(extract_wikilinks("just plain text"), Vec::new());
}

#[test]
fn parses_a_well_formed_concept_page() {
    let lines = [
        "---",
        "okf_version: \"0.2\"",
        "type: concept",
        "id: concept_microservices",
        "title: \"Microservices Architecture\"",
        "description: \"A short summary.\"",
        "sources:",
        "  - resource: \"/raw/raw_a1f94d.md\"",
        "    id: \"raw_a1f94d\"",
        "    title: \"Original doc\"",
        "tags: [architecture, backend]",
        "timestamp: \"2026-07-30T18:52:00Z\"",
        "---",
        "",
        "# Microservices Architecture",
        "",
        "Relates to [[api-gateway]].",
        "",
    ];
    let parsed = parse(&lines.join("\n")).unwrap();
    assert_eq!(parsed.frontmatter.id.as_deref(), Some("concept_microservices"));
    assert_eq!(parsed.frontmatter.sources.len(), 1);
    assert_eq!(parsed.frontmatter.sources[0].resource, "/raw/raw_a1f94d.md");
    assert!(parsed.body.contains("[[api-gateway]]"));
}

#[test]
fn errors_when_the_opening_delimiter_is_missing() {
    assert_eq!(parse("no frontmatter here").unwrap_err(), PageError::MissingOpening);
}

#[test]
fn errors_when_the_closing_delimiter_is_missing() {
    assert_eq!(
        parse("---\nokf_version: \"0.2\"\n").unwrap_err(),
        PageError::MissingClosing
    );
}

#[test]
fn errors_on_malformed_yaml() {
    assert!(matches!(
        parse("---\n[not: valid: yaml:\n---\nbody"),
        Err(PageError::InvalidYaml { .. })
    ));
}

#[test]
fn a_clean_report_renders_a_single_ok_line() {
    assert_eq!(to_text(&LintReport::default()), "OK: no lint issues found.");
}

#[test]
fn a_report_with_errors_renders_failed_and_lists_them() {
    let report = LintReport {
        broken_links: vec![("wiki/concepts/a.md".to_string(), "missing".to_string())],
        ..Default::default()
    };
    let text = to_text(&report);
    assert!(text.contains("Broken links (1)"));
    assert!(text.contains("[[missing]]"));
    assert!(text.contains("FAILED"));
}

#[test]
fn a_report_with_only_warnings_still_reports_ok() {
    let report = LintReport {
        orphan_pages: vec!["wiki/concepts/lonely.md".to_string()],
        ..Default::default()
    };
    let text = to_text(&report);
    assert!(text.contains("Orphan pages (1, warning)"));
    assert!(text.contains("OK: no blocking issues"));
}

#[test]
fn pending_compiles_renders_first_and_does_not_force_a_failed_verdict() {
    let report = LintReport {
        pending_compiles: vec!["https://example.com/a".to_string()],
        ..Default::default()
    };
    let text = to_text(&report);
    assert!(text.contains("Pending compile (1 source(s)"));
    assert!(text.contains("https://example.com/a"));
    assert!(text.contains("OK: no blocking issues"));
    assert!(
        text.find("Pending compile").unwrap() < text.find("OK:").unwrap(),
        "pending compile should render before the final verdict line"
    );
}

#[test]
fn pending_compiles_renders_before_broken_links_when_both_are_present() {
    let report = LintReport {
        pending_compiles: vec!["https://example.com/a".to_string()],
        broken_links: vec![("wiki/concepts/a.md".to_string(), "missing".to_string())],
        ..Default::default()
    };
    let text = to_text(&report);
    assert!(text.find("Pending compile").unwrap() < text.find("Broken links").unwrap());
}

#[test]
fn an_empty_vault_lints_clean() {
    let report = lint(&Vec::new());
    assert!(!report.has_errors());
    assert!(report.orphan_pages.is_empty());
}

#[test]
fn detects_a_dangling_link() {
    let report = lint(&vec![concept("a", &[], "See [[nonexistent]].")]);
    assert!(report.has_errors());
    assert_eq!(report.broken_links.len(), 1);
    assert_eq!(report.broken_links[0].1, "nonexistent");
}

#[test]
fn a_link_to_an_existing_concept_is_not_broken() {
    let report = lint(&vec![concept("a", &[], "See [[b]]."), concept("b", &[], "")]);
    assert!(report.broken_links.is_empty());
}

#[test]
fn detects_a_missing_provenance_source() {
    let report = lint(&vec![concept("a", &["/raw/raw_missing.md"], "")]);
    assert!(report.has_errors());
    assert_eq!(report.missing_sources.len(), 1);
    assert_eq!(report.missing_sources[0].1, "/raw/raw_missing.md");
}

#[test]
fn a_source_that_exists_on_disk_passes_provenance_audit() {
    let report = lint_bundle(
        &vec![concept("a", &["/raw/raw_ok.md"], "")],
        &Manifest::default(),
        &vec![raw("raw/raw_ok.md")],
    )
    .unwrap();
    assert!(report.missing_sources.is_empty());
}

#[test]
fn detects_an_orphan_page() {
    let report = lint(&vec![
        concept("linked", &[], ""),
        concept("lonely", &[], ""),
        concept("linker", &[], "See [[linked]]."),
    ]);
    assert_eq!(
        report.orphan_pages,
        vec!["wiki/concepts/linker.md".to_string(), "wiki/concepts/lonely.md".to_string()]
    );
    assert!(!report.orphan_pages.contains(&"wiki/concepts/linked.md".to_string()));
    assert!(!report.has_errors());
}

#[test]
fn flags_cross_vault_links_without_treating_them_as_broken() {
    let report = lint(&vec![concept("a", &[], "See [[personal::journal-entry]].")]);
    assert!(report.broken_links.is_empty());
    assert_eq!(report.cross_vault_links.len(), 1);
    assert_eq!(report.cross_vault_links[0].1, "personal::journal-entry");
}

#[test]
fn malformed_frontmatter_surfaces_as_an_error_not_a_silent_skip() {
    let pages = vec![page("wiki/concepts/broken.md", "no frontmatter at all")];
    let error = lint_bundle(&pages, &Manifest::default(), &Vec::new()).unwrap_err();
    assert_eq!(error.path, "wiki/concepts/broken.md");
    assert!(error.message().contains("wiki/concepts/broken.md"));
}

#[test]
fn sources_that_are_not_compiled_are_pending_in_order() {
    let mut manifest = Manifest::default();
    manifest.record_ingest("b", "sha256:2", "raw_2", "t0");
    manifest.record_ingest("a", "sha256:1", "raw_1", "t0");
    manifest.record_ingest("c", "sha256:3", "raw_3", "t0");
    manifest.mark_compiled("c");
    let report = lint_bundle(&Vec::new(), &manifest, &Vec::new()).unwrap();
    assert_eq!(report.pending_compiles, vec!["a", "b"]);
    assert!(!report.has_errors());
}

#[test]
fn a_tid_typo_alone_no_longer_needs_fixing_since_id_is_optional() {
    let original = "---\ntype: concept\ntid: concept_bad\ntitle: \"bad\"\n---\n\n# bad\n";
    let outcome =
        fix(vec![page("wiki/concepts/bad.md", original), concept("a", &[], "")], &Vec::new());
    assert!(outcome.report.fixed_frontmatter_typos.is_empty());
    assert!(!outcome.lint.unwrap().has_errors());
    assert_eq!(outcome.pages[0].content, original);
    assert_eq!(outcome.changed, vec![false, false]);
}

#[test]
fn a_page_with_a_genuinely_unparseable_id_line_is_left_untouched() {
    let outcome =
        fix(vec![page("wiki/concepts/bad.md", "---\ntid: concept_bad\n")], &Vec::new());
    assert!(outcome.lint.is_err());
    assert!(outcome.pages[0].content.contains("tid:"));
}

#[test]
fn a_resource_missing_the_dot_md_extension_already_resolves_so_theres_nothing_to_fix() {
    let outcome =
        fix(vec![concept("a", &["/raw/raw_aaa"], "")], &vec![raw("raw/raw_aaa.md")]);
    assert!(outcome.report.is_empty());
    assert!(outcome.lint.unwrap().missing_sources.is_empty());
    assert!(outcome.pages[0].content.contains("resource: \"/raw/raw_aaa\""));
}

#[test]
fn leaves_a_genuinely_missing_raw_file_alone() {
    let outcome = fix(vec![concept("a", &["/raw/raw_missing"], "")], &Vec::new());
    assert!(outcome.report.is_empty());
    assert_eq!(outcome.lint.unwrap().missing_sources.len(), 1);
}

#[test]
fn is_idempotent_when_nothing_is_fixable() {
    let outcome = fix(vec![concept("a", &[], "")], &Vec::new());
    assert!(outcome.report.is_empty());
    assert!(!outcome.lint.unwrap().has_errors());
    let again = fix(outcome.pages, &Vec::new());
    assert!(again.report.is_empty());
}

#[test]
fn a_page_that_reads_once_its_id_line_is_renamed_is_repaired() {
    let bad = PageFile {
        path: "wiki/concepts/bad.md".to_string(),
        content: "---\ntype: concept\ntid: concept_bad\ntitle: bad\n---\n\n# bad\n".to_string(),
        parsed: Err(PageError::InvalidYaml { reason: "missing field `id`".to_string() }),
    };
    let outcome = fix(vec![bad], &Vec::new());
    assert_eq!(outcome.report.fixed_frontmatter_typos, vec!["wiki/concepts/bad.md"]);
    assert_eq!(outcome.changed, vec![true]);
    assert_eq!(
        outcome.pages[0].content,
        "---\ntype: concept\nid: concept_bad\ntitle: bad\n---\n\n# bad\n"
    );
    assert!(outcome.lint.is_ok());
    assert_eq!(
        summary_line(&outcome.report),
        "Fixed 1 frontmatter typo(s) (tid: -> id:):\n  wiki/concepts/bad.md"
    );
    assert_eq!(summary_line(&FixReport::default()), "No auto-fixable issues found.");
}

#[test]
fn links_keep_their_text_and_stay_on_one_line() {
    assert_eq!(
        extract_wikilinks("[[a|Alias]] [[b\nc]] [[d]]"),
        vec![WikiLink::Local("a|Alias".to_string()), WikiLink::Local("d".to_string())]
    );
}

#[test]
fn what_stands_between_the_delimiters_is_read_back() {
    let (yaml, body) = split_frontmatter("---\ntitle: x\ntags: []\n---\n\n# X\n---\n").unwrap();
    assert_eq!(yaml, "title: x\ntags: []");
    assert_eq!(body, "\n# X\n---\n");
}

#[test]
fn a_pages_own_link_does_not_keep_it_from_being_an_orphan() {
    let alone = lint(&vec![concept("a", &[], "[[a]]")]);
    assert_eq!(alone.orphan_pages, vec!["wiki/concepts/a.md".to_string()]);
    assert!(alone.broken_links.is_empty());
    let both = lint(&vec![concept("a", &[], "[[a]]"), concept("b", &[], "[[a]]")]);
    assert_eq!(both.orphan_pages, vec!["wiki/concepts/b.md".to_string()]);
}

#[test]
fn only_the_line_itself_is_renamed() {
    let text = "---\nstid: a\ntid: a\n---\ntid: a\n";
    let proposed = propose_fix(&page("wiki/concepts/x.md", text)).unwrap();
    assert_eq!(proposed, "---\nstid: a\nid: a\n---\ntid: a\n");
    let first = "---\ntid: a\ntid: b\n---\n";
    let proposed = propose_fix(&page("wiki/concepts/x.md", first)).unwrap();
    assert_eq!(proposed, "---\nid: a\ntid: b\n---\n");
    let has_one = "---\nid: a\ntid: b\n---\n";
    assert!(propose_fix(&page("wiki/concepts/x.md", has_one)).is_none());
    let inside = "---\nnote: tid: b\n---\n";
    assert!(propose_fix(&page("wiki/concepts/x.md", inside)).is_none());
}

#[test]
fn a_second_repair_changes_nothing() {
    let broken = "---\ntype: concept\ntitle: \"x\"\nid: [\n---\n";
    let fixable = "---\ntype: concept\ntitle: \"y\"\n---\n\n[[a]] [[nowhere]]\n";
    let unread = page("wiki/concepts/y.md", fixable);
    let failing = PageFile {
        path: "wiki/concepts/z.md".to_string(),
        content: "---\ntype: concept\ntid: z\ntitle: \"z\"\n---\n\n[[a]]\n".to_string(),
        parsed: Err(PageError::InvalidYaml { reason: "unknown field `tid`".to_string() }),
    };
    let first = fix(vec![concept("a", &[], ""), unread, failing], &Vec::new());
    assert_eq!(first.report.fixed_frontmatter_typos, vec!["wiki/concepts/z.md".to_string()]);
    assert_eq!(first.changed, vec![false, false, true]);
    let contents: Vec<String> = first.pages.iter().map(|p| p.content.clone()).collect();
    let found = format!("{:?}", first.lint);
    let second = fix(first.pages, &Vec::new());
    assert!(second.report.is_empty());
    assert_eq!(second.changed, vec![false, false, false]);
    let again: Vec<String> = second.pages.iter().map(|p| p.content.clone()).collect();
    assert_eq!(contents, again);
    assert_eq!(found, format!("{:?}", second.lint));
    let stuck = fix(vec![page("wiki/concepts/x.md", broken)], &Vec::new());
    assert!(stuck.lint.is_err());
    assert!(stuck.report.is_empty());
}
