use okf_mcp::ingest::frontmatter::RawFile;
use okf_mcp::manifest::model::Manifest;
use okf_mcp::search::index::{is_searchable, text_documents};
use okf_mcp::search::query::{
    best_tagged, collect_documents, document_title, fetch_limit, hybrid_search, reindex,
    search_results, SearchResult, TaggedResult,
};
use okf_mcp::search::rrf::rrf_merge;
use okf_mcp::search::vectors::{
    best_hits, chunk_by_heading, find_hit, needs_reembedding, sections_of, VectorHit,
};
use okf_mcp::validator::frontmatter::{
    parse_wiki_page, split_frontmatter, PageFile, SourceRef, WikiFrontmatter,
};

fn text_field(value: &serde_yaml::Value, key: &str) -> Option<String> {
    value.get(key).and_then(|v| v.as_str()).map(|s| s.to_string())
}

fn frontmatter_of(yaml: &str) -> Result<WikiFrontmatter, String> {
    let value = serde_yaml::from_str::<serde_yaml::Value>(yaml).map_err(|e| e.to_string())?;
    if !value.is_mapping() {
        return Err("not a mapping".to_string());
    }
    let page_type = text_field(&value, "type").ok_or("missing field `type`".to_string())?;
    let title = text_field(&value, "title").ok_or("missing field `title`".to_string())?;
    let mut sources = Vec::new();
    if let Some(list) = value.get("sources").and_then(|v| v.as_sequence()) {
        for item in list {
            sources.push(SourceRef {
                resource: text_field(item, "resource").ok_or("missing field `resource`".to_string())?,
                id: text_field(item, "id"),
                title: text_field(item, "title"),
            });
        }
    }
    let mut tags = Vec::new();
    if let Some(list) = value.get("tags").and_then(|v| v.as_sequence()) {
        for item in list {
            tags.push(item.as_str().unwrap_or_default().to_string());
        }
    }
    Ok(WikiFrontmatter {
        okf_version: text_field(&value, "okf_version"),
        page_type,
        id: text_field(&value, "id"),
        title,
        description: text_field(&value, "description"),
        sources,
        tags,
        timestamp: text_field(&value, "timestamp"),
    })
}

fn page(path: &str, content: &str) -> PageFile {
    let frontmatter = match split_frontmatter(content) {
        Ok((yaml, _)) => frontmatter_of(&yaml),
        Err(_) => Err(String::new()),
    };
    PageFile {
        path: path.to_string(),
        content: content.to_string(),
        parsed: parse_wiki_page(content, frontmatter),
    }
}

fn wiki_page(slug: &str, title: &str, body: &str) -> PageFile {
    page(
        &format!("wiki/concepts/{slug}.md"),
        &format!(
            "---\nokf_version: \"0.2\"\ntype: concept\nid: concept_{slug}\ntitle: \"{title}\"\n---\n\n{body}\n"
        ),
    )
}

fn merge(bm25: &[&str], vector: &[&str], k: f64) -> Vec<(String, f64)> {
    let texts = |list: &[&str]| -> Vec<String> { list.iter().map(|s| s.to_string()).collect() };
    let score = |ranks: &Vec<usize>| -> u64 {
        let mut sum = 0.0f64;
        for rank in ranks {
            sum += 1.0 / (k + *rank as f64);
        }
        sum.to_bits()
    };
    rrf_merge(&texts(bm25), &texts(vector), &score)
        .into_iter()
        .map(|(item, bits)| (item, f64::from_bits(bits)))
        .collect()
}

#[test]
fn an_item_ranked_first_in_both_lists_wins() {
    let merged = merge(&["a", "b"], &["a", "c"], 60.0);
    assert_eq!(merged[0].0, "a");
}

#[test]
fn every_item_from_both_lists_appears_exactly_once() {
    let merged = merge(&["a", "b"], &["c", "b"], 60.0);
    let items: Vec<String> = merged.iter().map(|(item, _)| item.clone()).collect();
    assert_eq!(items.len(), 3);
    assert!(items.contains(&"a".to_string()));
    assert!(items.contains(&"b".to_string()));
    assert!(items.contains(&"c".to_string()));
}

#[test]
fn an_item_present_in_only_one_list_still_scores_above_zero() {
    let merged = merge(&["only-here"], &[], 60.0);
    assert_eq!(merged[0].0, "only-here");
    assert!(merged[0].1 > 0.0);
}

#[test]
fn matches_the_textbook_reciprocal_rank_fusion_formula() {
    let merged = merge(&["a"], &["a"], 60.0);
    let expected = 1.0 / 61.0 + 1.0 / 61.0;
    assert!((merged[0].1 - expected).abs() < 1e-9);
}

#[test]
fn ties_break_deterministically_by_natural_ordering() {
    let merged = merge(&["z"], &["a"], 60.0);
    assert_eq!(merged[0].0, "a");
    assert_eq!(merged[1].0, "z");
}

#[test]
fn chunk_by_heading_splits_on_h2_and_keeps_leading_content_as_its_own_chunk() {
    let body = "Intro text.\n\n## First\nBody one.\n\n## Second\nBody two.\n";
    let chunks = chunk_by_heading(body);
    assert_eq!(chunks.len(), 3);
    assert_eq!(chunks[0].0, None);
    assert!(chunks[0].1.contains("Intro text."));
    assert_eq!(chunks[1].0.as_deref(), Some("First"));
    assert!(chunks[1].1.contains("Body one."));
    assert_eq!(chunks[2].0.as_deref(), Some("Second"));
}

#[test]
fn chunk_by_heading_with_no_headings_yields_one_whole_file_chunk() {
    let chunks = chunk_by_heading("Just a short paragraph, no headings.");
    assert_eq!(chunks.len(), 1);
    assert_eq!(chunks[0].0, None);
}

#[test]
fn needs_reembedding_is_true_for_a_never_seen_path() {
    assert!(needs_reembedding(None, "sha256:aaa"));
}

#[test]
fn needs_reembedding_is_false_once_the_hash_matches_the_stored_one() {
    assert!(!needs_reembedding(Some("sha256:aaa"), "sha256:aaa"));
    assert!(needs_reembedding(Some("sha256:aaa"), "sha256:bbb"));
}

#[test]
fn sections_are_named_after_their_place() {
    let sections = sections_of("wiki/concepts/a.md", "Intro.\n\n## First\nBody one.\n");
    assert_eq!(sections.len(), 2);
    assert_ne!(sections[0].section_key, sections[1].section_key);
    assert_eq!(sections[1].heading.as_deref(), Some("First"));
    assert!(sections[1].text.contains("Body one."));
}

fn hit(path: &str, section: &str, distance: f64) -> VectorHit {
    VectorHit {
        path: path.to_string(),
        section_key: section.to_string(),
        heading: None,
        snippet: format!("{section} snippet"),
        distance_bits: distance.to_bits(),
    }
}

#[test]
fn the_nearest_section_stands_for_its_document() {
    let hits = vec![hit("a", "a1", 0.9), hit("b", "b1", 0.5), hit("a", "a2", 0.1)];
    let best = best_hits(&hits);
    assert_eq!(best.len(), 2);
    assert_eq!(best[0].section_key, "a2");
    assert_eq!(best[1].section_key, "b1");
    assert_eq!(find_hit(&best, "b").unwrap().snippet, "b1 snippet");
    assert!(find_hit(&best, "c").is_none());
}

#[test]
fn reindex_without_embeddings_only_touches_the_text_index() {
    let pages = vec![wiki_page("a", "Alpha", "Content about alpha.")];
    let documents = collect_documents(&Manifest::default(), &Vec::new(), &pages).unwrap();
    let (report, tasks) = reindex(&documents, false, &vec![None]);
    assert_eq!(report.text_documents_indexed, 1);
    assert_eq!(report.vectors_embedded, 0);
    assert!(tasks.is_empty());
}

#[test]
fn reindex_with_embeddings_skips_unchanged_documents_on_a_second_run() {
    let pages = vec![wiki_page("a", "Alpha", "Content about alpha.")];
    let documents = collect_documents(&Manifest::default(), &Vec::new(), &pages).unwrap();
    let (first, tasks) = reindex(&documents, true, &vec![None]);
    assert_eq!(first.vectors_embedded, 1);
    assert_eq!(first.vectors_skipped_unchanged, 0);
    assert!(tasks[0].embed);
    let stored = vec![Some(tasks[0].content_hash.clone())];
    let (second, _) = reindex(&documents, true, &stored);
    assert_eq!(second.vectors_embedded, 0);
    assert_eq!(second.vectors_skipped_unchanged, 1);
}

fn rank_score(ranks: &Vec<usize>) -> u64 {
    ranks.iter().fold(0.0f64, |sum, rank| sum + 1.0 / (60.0 + *rank as f64)).to_bits()
}

fn title_at(path: &str) -> Option<String> {
    match path {
        "wiki/concepts/resiliency.md" => document_title(
            path,
            Some("---\n---\n"),
            Some("Resiliency Patterns".to_string()),
        ),
        _ => None,
    }
}

#[test]
fn hybrid_search_finds_a_keyword_match_via_bm25_alone() {
    let by_words = vec!["wiki/concepts/resiliency.md".to_string()];
    let results = hybrid_search(&by_words, &Vec::new(), &rank_score, &title_at, 5);
    assert!(!results.is_empty());
    assert_eq!(results[0].path, "wiki/concepts/resiliency.md");
    assert_eq!(results[0].title, "Resiliency Patterns");
    assert_eq!(results[0].snippet, "");
    assert_eq!(f64::from_bits(results[0].score_bits), 1.0 / 61.0);
    assert!(is_searchable("rate limiting"));
}

#[test]
fn hybrid_search_over_an_empty_vault_returns_no_results_without_erroring() {
    assert!(hybrid_search(&Vec::new(), &Vec::new(), &rank_score, &title_at, 5).is_empty());
}

#[test]
fn a_page_that_is_near_in_meaning_is_found_without_its_words() {
    let hits = vec![
        hit("wiki/concepts/colors.md", "colors#0", 1.3),
        hit("wiki/concepts/resiliency.md", "resiliency#0", 0.9),
        hit("wiki/concepts/resiliency.md", "resiliency#1", 0.4),
    ];
    let results = hybrid_search(&Vec::new(), &hits, &rank_score, &title_at, 5);
    assert_eq!(results.len(), 2);
    assert_eq!(results[0].path, "wiki/concepts/resiliency.md");
    assert_eq!(results[0].snippet, "resiliency#1 snippet");
    assert_eq!(hybrid_search(&Vec::new(), &hits, &rank_score, &title_at, 1).len(), 1);
}

#[test]
fn results_carry_what_was_found_for_their_paths() {
    let merged = vec![("a".to_string(), 2), ("b".to_string(), 1)];
    let titles = vec![Some("A".to_string()), None];
    let results = search_results(&merged, &titles, &vec![hit("b", "b#0", 0.1)], 5);
    assert_eq!((results[0].title.as_str(), results[0].snippet.as_str()), ("A", ""));
    assert_eq!((results[1].title.as_str(), results[1].snippet.as_str()), ("", "b#0 snippet"));
}

#[test]
fn an_empty_query_returns_no_hits_instead_of_matching_everything() {
    assert!(!is_searchable(""));
    assert!(!is_searchable("   "));
}

#[test]
fn only_active_snapshots_and_pages_are_searched() {
    let mut manifest = Manifest::default();
    manifest.record_ingest("u", "sha256:1", "raw_old", "t0");
    manifest.record_ingest("u", "sha256:2", "raw_new", "t1");
    let file = |path: &str| RawFile {
        path: path.to_string(),
        is_file: true,
        content: Ok("---\nsource_url: https://u\n---\n\n# Raw Title\n\nraw body\n".to_string()),
    };
    let files = vec![file("raw/raw_old.md"), file("raw/raw_new--title.md")];
    let pages = vec![wiki_page("a", "Alpha", "alpha")];
    let documents = collect_documents(&manifest, &files, &pages).unwrap();
    let rows = text_documents(&documents);
    assert_eq!(rows.len(), 2);
    assert!(rows.iter().any(|d| d.path == "raw/raw_new--title.md" && d.title == "Raw Title"));
    assert!(rows.iter().any(|d| d.path == "wiki/concepts/a.md" && d.title == "Alpha"));
    assert!(!rows.iter().any(|d| d.path.contains("raw_old")));
}

#[test]
fn limits_leave_room_for_merging() {
    assert!(fetch_limit(5) >= 5);
    assert_eq!(fetch_limit(usize::MAX), usize::MAX);
    let result = |path: &str, score: f64| TaggedResult {
        vault: "v".to_string(),
        result: SearchResult {
            path: path.to_string(),
            title: String::new(),
            snippet: String::new(),
            score_bits: score.to_bits(),
        },
    };
    let best = best_tagged(vec![result("low", 0.1), result("high", 0.9), result("mid", 0.5)], 2);
    let paths: Vec<&str> = best.iter().map(|t| t.result.path.as_str()).collect();
    assert_eq!(paths, vec!["high", "mid"]);
}

#[test]
fn the_two_rankings_may_be_exchanged() {
    let words = ["a", "b", "c", "d"];
    let meanings = ["c", "e", "a"];
    assert_eq!(merge(&words, &meanings, 60.0), merge(&meanings, &words, 60.0));
    assert_eq!(merge(&["b"], &["a"], 60.0), merge(&["a"], &["b"], 60.0));
}

#[test]
fn an_active_source_that_cannot_be_read_ends_the_collection() {
    let mut manifest = Manifest::default();
    manifest.record_ingest("uri", "sha256:a", "raw_a", "t0");
    let files = vec![
        RawFile {
            path: "raw/raw_gone.md".to_string(),
            is_file: true,
            content: Err("not this one".to_string()),
        },
        RawFile {
            path: "raw/raw_a.md".to_string(),
            is_file: true,
            content: Err("Permission denied (os error 13)".to_string()),
        },
    ];
    assert_eq!(
        collect_documents(&manifest, &files, &Vec::new()).unwrap_err(),
        "Permission denied (os error 13)"
    );
}
