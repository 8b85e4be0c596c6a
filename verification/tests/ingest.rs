use docx_rs::{
    read_docx, DocumentChild, Docx, Paragraph, ParagraphChild, Run, RunChild, Table, TableCell,
    TableCellContent, TableChild, TableRow, TableRowChild,
};
use okf_mcp::ingest::frontmatter::{
    basename_of, blob_file_name, derive_slug, hash_content, is_url, raw_document, raw_id_for, raw_id_from_filename,
    raw_id_from_resource, resolve_raw_path, slugify, write_raw_blob, RawFile, RawFrontmatter,
    RawWrite, MAX_SLUG_LEN,
};
use okf_mcp::ingest::local::{
    extract_docx_text, local_format, Block, Cell, CellContent, Inline, LocalFormat, Row, RunPiece,
};
use okf_mcp::ingest::pipeline::{
    delete_source, normalize_local_uri, normalize_local_uri_best_effort, process_ingest,
    DeleteOutcome, IngestPlan,
};
use okf_mcp::ingest::web::{clean_scrape, scraped_page};
use okf_mcp::manifest::model::{IngestOutcome, Manifest};
use okf_mcp::search::query::raw_title_and_body;

fn raw(path: &str, content: &str) -> RawFile {
    RawFile { path: path.to_string(), is_file: true, content: Ok(content.to_string()) }
}

fn created(
    raw_id: &str,
    source: &str,
    tags: &[&str],
    content: &str,
) -> (String, RawFrontmatter) {
    let tags: Vec<String> = tags.iter().map(|t| t.to_string()).collect();
    match write_raw_blob(None, raw_id, source, &tags, "sha256:aaa", "t0", content).unwrap() {
        RawWrite::Create { path, frontmatter } => (path, frontmatter),
        RawWrite::Reuse { path } => panic!("reused {path}"),
    }
}

#[test]
fn hash_content_is_deterministic_and_sha256_prefixed() {
    let a = hash_content("hello");
    let b = hash_content("hello");
    assert_eq!(a, b);
    assert!(a.starts_with("sha256:"));
    assert_ne!(a, hash_content("goodbye"));
    assert_eq!(
        a,
        "sha256:2cf24dba5fb0a30e26e83b2ac5b9e29e1b161e5c1fa7425e73043362938b9824"
    );
}

#[test]
fn raw_id_for_takes_the_first_ten_hex_chars_after_the_prefix() {
    let hash = "sha256:abcdef0123456789";
    assert_eq!(raw_id_for(hash), "raw_abcdef0123");
}

#[test]
fn is_url_recognizes_http_and_https_only() {
    assert!(is_url("https://example.com"));
    assert!(is_url("http://example.com"));
    assert!(!is_url("file:///docs/a.md"));
    assert!(!is_url("/local/path.md"));
}

#[test]
fn write_raw_blob_writes_frontmatter_and_content_under_raw() {
    let (path, frontmatter) = created(
        "raw_aaa",
        "https://example.com/docs",
        &["architecture"],
        "# Hello\n\nBody text.",
    );
    assert!(path.starts_with("raw/"));
    assert_eq!(frontmatter.okf_version, "0.2");
    assert_eq!(frontmatter.blob_type, "raw_source");
    assert_eq!(frontmatter.id, "raw_aaa");
    assert_eq!(frontmatter.source_url.as_deref(), Some("https://example.com/docs"));
    assert_eq!(frontmatter.checksum, "sha256:aaa");
    assert_eq!(frontmatter.ingested_at, "t0");
    assert_eq!(frontmatter.tags, vec!["architecture"]);
    let contents = raw_document("id: raw_aaa\n", "# Hello\n\nBody text.");
    assert!(contents.starts_with("---\n"));
    assert!(contents.ends_with("# Hello\n\nBody text."));
    assert_eq!(contents, "---\nid: raw_aaa\n---\n\n# Hello\n\nBody text.");
}

#[test]
fn write_raw_blob_writes_multiple_tags_as_a_list() {
    let (_, frontmatter) = created(
        "raw_ccc",
        "https://example.com/docs",
        &["github", "repository", "mcpify"],
        "content",
    );
    assert_eq!(frontmatter.tags, vec!["github", "repository", "mcpify"]);
}

#[test]
fn write_raw_blob_omits_tags_entirely_when_none_given() {
    let (_, frontmatter) = created("raw_ddd", "https://example.com/docs", &[], "content");
    assert!(frontmatter.tags.is_empty());
}

#[test]
fn raw_id_from_resource_extracts_the_bare_pre_slug_shape() {
    assert_eq!(
        raw_id_from_resource("/raw/raw_a1f448945f.md"),
        Some("raw_a1f448945f".to_string())
    );
}

#[test]
fn raw_id_from_resource_extracts_the_slugged_post_slug_shape() {
    assert_eq!(
        raw_id_from_resource("/raw/raw_a1f448945f--my-cool-title.md"),
        Some("raw_a1f448945f".to_string())
    );
}

#[test]
fn raw_id_from_resource_tolerates_a_missing_extension() {
    assert_eq!(raw_id_from_resource("/raw/raw_aaa"), Some("raw_aaa".to_string()));
}

#[test]
fn raw_id_from_resource_tolerates_a_leading_dot_slash_and_no_slash_at_all() {
    assert_eq!(raw_id_from_resource("./raw/raw_aaa.md"), Some("raw_aaa".to_string()));
    assert_eq!(raw_id_from_resource("raw_aaa.md"), Some("raw_aaa".to_string()));
}

#[test]
fn raw_id_from_resource_never_panics_on_malformed_input_it_just_extracts_a_basename() {
    assert_eq!(raw_id_from_resource(""), None);
    assert_eq!(raw_id_from_resource("/"), None);
    assert_eq!(raw_id_from_resource("/../../../etc/passwd"), Some("passwd".to_string()));
    assert_eq!(basename_of("a/b.md"), "b.md");
}

#[test]
fn raw_id_from_filename_matches_raw_id_from_resource_on_the_same_shapes() {
    assert_eq!(raw_id_from_filename("raw_aaa.md"), Some("raw_aaa".to_string()));
    assert_eq!(
        raw_id_from_filename("/vault/raw/raw_aaa--slug.md"),
        Some("raw_aaa".to_string())
    );
}

#[test]
fn resolve_raw_path_finds_a_bare_shaped_file_via_directory_scan_fallback() {
    let files = vec![raw("raw/raw_aaa.md", "content")];
    assert_eq!(
        resolve_raw_path("/vault", &Manifest::default(), &files, "raw_aaa").unwrap(),
        "/vault/raw/raw_aaa.md"
    );
}

#[test]
fn resolve_raw_path_prefers_the_manifests_recorded_raw_path() {
    let files = vec![raw("raw/raw_aaa--old.md", "x"), raw("raw/raw_aaa.md", "content")];
    let mut manifest = Manifest::default();
    manifest.record_ingest("uri", "sha256:aaa", "raw_aaa", "t0");
    manifest.record_raw_path("uri", "raw_aaa", "raw/raw_aaa.md".to_string());
    assert_eq!(
        resolve_raw_path("/vault", &manifest, &files, "raw_aaa").unwrap(),
        "/vault/raw/raw_aaa.md"
    );
}

#[test]
fn resolve_raw_path_errors_when_the_raw_id_is_not_found_anywhere() {
    let missing =
        resolve_raw_path("/vault", &Manifest::default(), &Vec::new(), "raw_nonexistent");
    assert_eq!(missing.unwrap_err(), "no raw file found for 'raw_nonexistent' under '/vault'");
}

#[test]
fn write_raw_blob_populates_source_url_for_local_file_uris_too() {
    let (_, frontmatter) = created("raw_bbb", "file:///local/legacy.md", &[], "content");
    assert_eq!(frontmatter.source_url.as_deref(), Some("file:///local/legacy.md"));
}

#[test]
fn slugify_lowercases_and_collapses_non_alnum_runs_to_a_single_dash() {
    assert_eq!(slugify("Hello, World!  Foo_Bar"), Some("hello-world-foo-bar".to_string()));
}

#[test]
fn slugify_returns_none_for_empty_input() {
    assert_eq!(slugify(""), None);
}

#[test]
fn slugify_returns_none_when_nothing_ascii_alphanumeric_survives() {
    assert_eq!(slugify("日本語のタイトル"), None);
    assert_eq!(slugify("!!!???..."), None);
}

#[test]
fn slugify_caps_length_and_trims_a_trailing_dash_exposed_by_truncation() {
    let long_title = "word ".repeat(30);
    let slug = slugify(&long_title).unwrap();
    assert!(slug.len() <= MAX_SLUG_LEN);
    assert!(!slug.ends_with('-'));
}

#[test]
fn slugify_collapses_an_embedded_double_dash_rather_than_preserving_it() {
    let slug = slugify("My -- Title").unwrap();
    assert_eq!(slug, "my-title");
    assert!(!slug.contains("--"));
}

#[test]
fn derive_slug_prefers_the_raw_bodys_h1() {
    let slug = derive_slug("https://example.com/whatever", "# My Cool Doc\n\nBody text.");
    assert_eq!(slug, Some("my-cool-doc".to_string()));
}

#[test]
fn derive_slug_falls_back_to_the_local_file_stem_when_there_is_no_h1() {
    let slug = derive_slug("file:///home/user/docs/legacy-auth.md", "no heading here");
    assert_eq!(slug, Some("legacy-auth".to_string()));
}

#[test]
fn derive_slug_falls_back_to_the_urls_last_path_segment_ignoring_query_and_fragment() {
    let slug = derive_slug(
        "https://example.com/docs/page?utm_source=foo&other=bar#section-2",
        "no heading here",
    );
    assert_eq!(slug, Some("page".to_string()));
}

#[test]
fn derive_slug_ignores_a_trailing_slashs_empty_segment_and_uses_the_prior_one() {
    let slug = derive_slug("https://example.com/docs/page/", "no heading here");
    assert_eq!(slug, Some("page".to_string()));
}

#[test]
fn derive_slug_falls_back_to_the_urls_host_when_the_path_has_no_slug_worthy_segment() {
    let slug = derive_slug("https://example.com/", "no heading here");
    assert_eq!(slug, Some("example-com".to_string()));
}

#[test]
fn derive_slug_is_none_when_every_candidate_comes_up_empty() {
    let slug = derive_slug("opaque-source-with-no-scheme", "# 日本語のタイトル\n\nBody");
    assert_eq!(slug, None);
}

#[test]
fn write_raw_blob_writes_the_slugged_filename_shape() {
    let (path, _) =
        created("raw_slug1", "https://example.com/docs", &[], "# My Cool Doc\n\nBody.");
    assert_eq!(path, "raw/raw_slug1--my-cool-doc.md");
}

#[test]
fn write_raw_blob_falls_back_to_the_bare_shape_when_no_slug_survives() {
    let (path, _) = created(
        "raw_bare1",
        "opaque-source-with-no-scheme",
        &[],
        "# 日本語のタイトル\n\nBody.",
    );
    assert_eq!(path, "raw/raw_bare1.md");
}

#[test]
fn write_raw_blob_reuses_the_existing_file_for_a_second_source_with_the_same_raw_id() {
    let (first_path, _) =
        created("raw_dedup1", "https://example.com/first", &[], "# First Title\n\nSame content.");
    let second = write_raw_blob(
        Some(first_path.clone()),
        "raw_dedup1",
        "https://example.com/second",
        &Vec::new(),
        "sha256:dedup1",
        "t1",
        "# A Different Title Entirely\n\nSame content.",
    )
    .unwrap();
    assert!(matches!(second, RawWrite::Reuse { path } if path == first_path));
}

#[test]
fn md_and_txt_files_pass_through_unchanged() {
    assert_eq!(local_format("docs/doc.md").unwrap(), LocalFormat::Text);
    assert_eq!(local_format("doc.txt").unwrap(), LocalFormat::Text);
    assert_eq!(local_format("doc.pdf").unwrap(), LocalFormat::Pdf);
    assert_eq!(local_format("doc.docx").unwrap(), LocalFormat::Docx);
}

#[test]
fn an_unsupported_extension_is_a_clear_error() {
    assert!(local_format("doc.xyz").unwrap_err().contains("unsupported local file type"));
    assert!(local_format("doc").is_err());
}

fn run(text: &str) -> Inline {
    Inline::Run(vec![RunPiece::Text(text.to_string())])
}

fn cell(text: &str) -> Cell {
    Cell { contents: vec![CellContent::Paragraph(vec![run(text)])] }
}

fn inlines(children: &[ParagraphChild]) -> Vec<Inline> {
    children
        .iter()
        .map(|child| match child {
            ParagraphChild::Run(run) => Inline::Run(
                run.children
                    .iter()
                    .map(|piece| match piece {
                        RunChild::Text(text) => RunPiece::Text(text.text.clone()),
                        _ => RunPiece::Other,
                    })
                    .collect(),
            ),
            ParagraphChild::Hyperlink(link) => Inline::Hyperlink(inlines(&link.children)),
            _ => Inline::Other,
        })
        .collect()
}

fn cell_of(child: &TableRowChild) -> Cell {
    let TableRowChild::TableCell(cell) = child;
    Cell {
        contents: cell
            .children
            .iter()
            .map(|content| match content {
                TableCellContent::Paragraph(p) => CellContent::Paragraph(inlines(&p.children)),
                _ => CellContent::Other,
            })
            .collect(),
    }
}

fn row_of(child: &TableChild) -> Row {
    let TableChild::TableRow(row) = child;
    Row { cells: row.cells.iter().map(cell_of).collect() }
}

fn block_of(child: &DocumentChild) -> Block {
    match child {
        DocumentChild::Paragraph(p) => Block::Paragraph(inlines(&p.children)),
        DocumentChild::Table(table) => Block::Table(table.rows.iter().map(row_of).collect()),
        _ => Block::Other,
    }
}

#[test]
fn docx_text_extraction_walks_paragraphs_runs_and_tables() {
    let docx = Docx::new()
        .add_paragraph(Paragraph::new().add_run(Run::new().add_text("Hello world")))
        .add_table(Table::new(vec![TableRow::new(vec![
            TableCell::new().add_paragraph(Paragraph::new().add_run(Run::new().add_text("A1"))),
            TableCell::new().add_paragraph(Paragraph::new().add_run(Run::new().add_text("B1"))),
        ])]));
    let mut buffer = std::io::Cursor::new(Vec::new());
    docx.build().pack(&mut buffer).unwrap();
    let parsed = read_docx(&buffer.into_inner()).unwrap();
    let blocks: Vec<Block> = parsed.document.children.iter().map(block_of).collect();
    let text = extract_docx_text(&blocks);
    assert!(text.contains("Hello world"));
    assert!(text.contains("A1"));
    assert!(text.contains("B1"));
}

#[test]
fn cells_are_joined_by_bars_and_blocks_by_empty_lines() {
    let blocks = vec![
        Block::Paragraph(vec![run("Hello world")]),
        Block::Paragraph(Vec::new()),
        Block::Table(vec![Row { cells: vec![cell("A1"), cell("B1")] }]),
    ];
    assert_eq!(extract_docx_text(&blocks), "Hello world\n\nA1 | B1");
}

#[test]
fn text_within_links_is_kept_and_the_rest_is_not() {
    let blocks = vec![
        Block::Paragraph(vec![
            run("See "),
            Inline::Hyperlink(vec![run("this"), Inline::Other]),
            Inline::Run(vec![RunPiece::Other]),
        ]),
        Block::Other,
    ];
    assert!(extract_docx_text(&blocks).contains("See this"));
}

fn take_in(manifest: Manifest, files: &Vec<RawFile>, content: &str, at: &str) -> IngestPlan {
    process_ingest(
        manifest,
        files,
        "file:///vault/source.md",
        content,
        &vec!["architecture".to_string()],
        at,
    )
    .unwrap()
}

fn on_disk(plan: &IngestPlan, content: &str) -> RawFile {
    match plan.write.as_ref().unwrap() {
        RawWrite::Create { path, .. } => raw(path, &raw_document("id: x\n", content)),
        RawWrite::Reuse { path } => panic!("reused {path}"),
    }
}

#[test]
fn ingesting_a_local_file_writes_a_raw_blob_and_updates_the_manifest() {
    let plan = take_in(Manifest::default(), &Vec::new(), "# Hello", "t0");
    assert!(matches!(plan.outcome, IngestOutcome::New { .. }));
    let file = on_disk(&plan, "# Hello");
    assert!(file.content.as_ref().unwrap().contains("# Hello"));
    let raw_id = plan.manifest.get_active_raw_id("file:///vault/source.md").unwrap();
    assert_eq!(raw_id, raw_id_for(&hash_content("# Hello")));
    assert_eq!(plan.manifest.raw_path_for(raw_id), Some(file.path.as_str()));
}

#[test]
fn reingesting_unchanged_local_content_is_a_no_op_and_writes_nothing_new() {
    let first = take_in(Manifest::default(), &Vec::new(), "unchanged", "t0");
    assert!(matches!(first.outcome, IngestOutcome::New { .. }));
    let files = vec![on_disk(&first, "unchanged")];
    let second = take_in(first.manifest, &files, "unchanged", "t1");
    assert_eq!(second.outcome, IngestOutcome::NoOp);
    assert!(second.write.is_none());
}

#[test]
fn reingesting_changed_local_content_supersedes_the_previous_raw_blob() {
    let first = take_in(Manifest::default(), &Vec::new(), "version one", "t0");
    let mut files = vec![on_disk(&first, "version one")];
    let second = take_in(first.manifest, &files, "version two", "t1");
    assert!(matches!(second.outcome, IngestOutcome::Superseded { .. }));
    files.push(on_disk(&second, "version two"));
    assert!(files[1].content.as_ref().unwrap().contains("version two"));
    assert_ne!(files[0].path, files[1].path);
}

#[test]
fn ingesting_a_missing_local_file_is_a_clear_error() {
    let gone = normalize_local_uri("/does/not/exist.md", Err("No such file".to_string()));
    assert!(gone.unwrap_err().contains("/does/not/exist.md"));
    assert_eq!(
        normalize_local_uri("a.md", Ok("/home/x/a.md".to_string())).unwrap(),
        "file:///home/x/a.md"
    );
    assert_eq!(
        normalize_local_uri_best_effort("a.md", None, "/home/x"),
        "file:///home/x/a.md"
    );
}

#[test]
fn delete_soft_tombstones_without_removing_the_raw_blob() {
    let plan = take_in(Manifest::default(), &Vec::new(), "content", "t0");
    let files = vec![on_disk(&plan, "content")];
    let mut manifest = plan.manifest;
    let deleted = delete_source(
        &mut manifest,
        &files,
        "file:///vault/source.md",
        false,
        "no longer needed",
        "t1",
    )
    .unwrap();
    assert!(matches!(deleted.outcome, DeleteOutcome::Tombstoned));
    assert!(deleted.remove.is_empty());
    assert_eq!(manifest.get_active_raw_id("file:///vault/source.md"), None);
}

#[test]
fn delete_purge_removes_the_raw_blob_and_the_manifest_entry() {
    let plan = take_in(Manifest::default(), &Vec::new(), "content", "t0");
    let files = vec![on_disk(&plan, "content")];
    let mut manifest = plan.manifest;
    let deleted = delete_source(
        &mut manifest,
        &files,
        "file:///vault/source.md",
        true,
        "gdpr request",
        "t1",
    )
    .unwrap();
    assert!(matches!(deleted.outcome, DeleteOutcome::Purged { .. }));
    assert_eq!(deleted.remove, vec![files[0].path.clone()]);
    assert!(manifest.entry("file:///vault/source.md").is_none());
}

#[test]
fn deleting_a_uri_that_was_never_ingested_is_an_error() {
    let mut manifest = Manifest::default();
    let uri = "https://example.com/never-ingested";
    assert!(delete_source(&mut manifest, &Vec::new(), uri, false, "n/a", "t0").is_err());
    assert!(delete_source(&mut manifest, &Vec::new(), uri, true, "n/a", "t0").is_err());
}

#[test]
fn extracts_markdown_from_a_successful_scrape_response() {
    let body = r##"{"success":true,"data":{"markdown":"# Title\n\nBody"}}"##;
    assert_eq!(clean_scrape("https://example.com", body).unwrap(), "# Title\n\nBody");
}

#[test]
fn errors_when_the_response_has_no_markdown_field() {
    let error = clean_scrape("https://example.com", r#"{ "success": false }"#).unwrap_err();
    assert_eq!(
        error,
        r#"Firecrawl scrape response for 'https://example.com' had no data.markdown field: {"success":false}"#
    );
    assert_eq!(
        clean_scrape("https://example.com", "not json").unwrap_err(),
        "Firecrawl scrape response for 'https://example.com' had no data.markdown field: null"
    );
    assert!(scraped_page("https://example.com", Some("text".to_string()), None).is_ok());
}

#[test]
fn what_was_taken_in_is_what_is_read_back() {
    let document =
        raw_document("id: raw_a\nsource_url: https://x\n", "# Title\n\n---\n\nBody");
    let (title, body) = raw_title_and_body(&document);
    assert_eq!(title, "Title");
    assert_eq!(body, "\n# Title\n\n---\n\nBody");
}

#[test]
fn a_blob_is_known_by_its_name() {
    for slug in [None, Some("my-cool-doc".to_string())] {
        let name = blob_file_name("raw_0123456789", &slug);
        assert_eq!(raw_id_from_filename(&name).as_deref(), Some("raw_0123456789"));
    }
}
