use okf_mcp::compiler::prompts::{
    build_compile_user_prompt, build_link_fix_user_prompt, RawBlob, WikiPageRef,
    COMPILER_SYSTEM_PROMPT,
};
use okf_mcp::compiler::token_estimate::{
    estimate_prompt_tokens, estimate_tokens, trim_related_pages,
    truncate_raw_blobs_to_shared_budget, truncate_to_budget, DEFAULT_PROMPT_TOKEN_BUDGET,
};

fn blob(id: &str, content: &str) -> RawBlob {
    RawBlob { id: id.to_string(), content: content.to_string() }
}

#[test]
fn the_prompt_always_includes_the_active_source() {
    let prompt = build_compile_user_prompt(&blob("raw_aaa", "content"), None, &Vec::new());
    assert!(prompt.contains("ACTIVE RAW SOURCE"));
    assert!(prompt.contains("raw_aaa"));
    assert!(!prompt.contains("SUPERSEDED"));
    assert!(!prompt.contains("EXISTING WIKI CONTEXT"));
}

#[test]
fn the_prompt_includes_the_superseded_section_only_when_given_one() {
    let prompt = build_compile_user_prompt(
        &blob("raw_bbb", "new"),
        Some(&blob("raw_aaa", "old")),
        &Vec::new(),
    );
    assert!(prompt.contains("SUPERSEDED PREVIOUS SOURCE"));
    assert!(prompt.contains("raw_aaa"));
    assert!(prompt.contains("raw_bbb"));
}

#[test]
fn the_prompt_lists_every_related_wiki_page() {
    let prompt = build_compile_user_prompt(
        &blob("raw_aaa", "content"),
        None,
        &vec![
            WikiPageRef {
                path: "wiki/concepts/a.md".to_string(),
                content: "A content".to_string(),
            },
            WikiPageRef {
                path: "wiki/concepts/b.md".to_string(),
                content: "B content".to_string(),
            },
        ],
    );
    assert!(prompt.contains("EXISTING WIKI CONTEXT"));
    assert!(prompt.contains("wiki/concepts/a.md"));
    assert!(prompt.contains("wiki/concepts/b.md"));
}

#[test]
fn the_system_prompt_declares_the_json_only_output_contract() {
    assert!(COMPILER_SYSTEM_PROMPT.contains("CREATE_OR_UPDATE"));
    assert!(COMPILER_SYSTEM_PROMPT.contains("DELETE"));
    assert!(
        COMPILER_SYSTEM_PROMPT.contains("[[slug]]")
            || COMPILER_SYSTEM_PROMPT.contains("[[other-slug]]")
    );
}

#[test]
fn the_system_prompt_routes_entities_and_concepts_to_separate_folders() {
    assert!(COMPILER_SYSTEM_PROMPT.contains("wiki/entities/"));
    assert!(COMPILER_SYSTEM_PROMPT.contains("wiki/concepts/"));
    assert!(COMPILER_SYSTEM_PROMPT.contains("Entities vs. Concepts"));
}

#[test]
fn the_system_prompt_declares_an_open_type_vocabulary_not_a_fixed_concept_value() {
    assert!(COMPILER_SYSTEM_PROMPT.contains("Open Type Vocabulary"));
    assert!(COMPILER_SYSTEM_PROMPT.contains("NOT a fixed enum"));
    assert!(!COMPILER_SYSTEM_PROMPT.contains("type: concept"));
    assert!(COMPILER_SYSTEM_PROMPT.contains("Do NOT include an `okf_version:` or `id:` field"));
}

#[test]
fn the_link_fix_prompt_names_the_missing_slug_and_both_candidate_paths() {
    let prompt = build_link_fix_user_prompt("missing-concept", &Vec::new(), &Vec::new());
    assert!(prompt.contains("[[missing-concept]]"));
    assert!(prompt.contains("wiki/concepts/missing-concept.md"));
    assert!(prompt.contains("wiki/entities/missing-concept.md"));
}

#[test]
fn the_link_fix_prompt_includes_referencing_pages_and_cited_raw_sources() {
    let prompt = build_link_fix_user_prompt(
        "missing-concept",
        &vec![WikiPageRef {
            path: "wiki/concepts/a.md".to_string(),
            content: "See [[missing-concept]].".to_string(),
        }],
        &vec![blob("raw_aaa", "source content")],
    );
    assert!(prompt.contains("PAGES THAT LINK TO IT"));
    assert!(prompt.contains("wiki/concepts/a.md"));
    assert!(prompt.contains("RAW SOURCES CITED BY THOSE PAGES"));
    assert!(prompt.contains("raw_aaa"));
}

#[test]
fn estimate_tokens_is_in_the_right_ballpark_for_known_length_ascii() {
    let text = "a".repeat(400);
    assert_eq!(estimate_tokens(&text), 100);
    assert_eq!(estimate_tokens("abc"), 1);
    assert_eq!(estimate_tokens(""), 0);
    let text = "x".repeat(1000);
    assert_eq!(estimate_tokens(&text), 250);
}

#[test]
fn estimate_prompt_tokens_sums_all_three_sections() {
    let active = blob("raw_a", &"a".repeat(400));
    let superseded = blob("raw_b", &"b".repeat(800));
    let related = vec![
        WikiPageRef { path: "wiki/concepts/x.md".to_string(), content: "c".repeat(40) },
        WikiPageRef { path: "wiki/concepts/y.md".to_string(), content: "d".repeat(40) },
    ];
    assert_eq!(estimate_prompt_tokens(&active, None, &Vec::new()), 100);
    assert_eq!(estimate_prompt_tokens(&active, Some(&superseded), &Vec::new()), 300);
    assert_eq!(estimate_prompt_tokens(&active, Some(&superseded), &related), 320);
}

fn page_with_chars(path: &str, n: usize) -> WikiPageRef {
    WikiPageRef { path: path.to_string(), content: "z".repeat(n) }
}

#[test]
fn trim_related_pages_reduces_count_when_over_budget() {
    let active = blob("raw_a", &"a".repeat(40));
    let related = vec![
        page_with_chars("wiki/concepts/1.md", 400),
        page_with_chars("wiki/concepts/2.md", 400),
        page_with_chars("wiki/concepts/3.md", 400),
    ];
    let trimmed = trim_related_pages(related, &active, None, 120);
    assert_eq!(trimmed.len(), 1);
    assert_eq!(trimmed[0].path, "wiki/concepts/1.md");
}

#[test]
fn trim_related_pages_leaves_untouched_when_under_budget() {
    let active = blob("raw_a", &"a".repeat(40));
    let related = vec![
        page_with_chars("wiki/concepts/1.md", 40),
        page_with_chars("wiki/concepts/2.md", 40),
    ];
    let trimmed = trim_related_pages(related, &active, None, DEFAULT_PROMPT_TOKEN_BUDGET);
    assert_eq!(trimmed.len(), 2);
}

#[test]
fn truncate_to_budget_shortens_oversized_content_with_marker() {
    let content = "x".repeat(1000);
    let result = truncate_to_budget(&content, 100);
    assert!(result.len() < content.len());
    assert!(result.contains("[... truncated"));
    assert!(result.contains("chars over budget ...]"));
    assert!(result.contains("truncated 600 chars over budget"));
}

#[test]
fn truncate_to_budget_leaves_short_content_untouched() {
    let content = "short content";
    let result = truncate_to_budget(content, DEFAULT_PROMPT_TOKEN_BUDGET);
    assert_eq!(result, content);
    assert!(!result.contains("truncated"));
}

#[test]
fn truncate_to_budget_always_includes_marker_when_it_truncates() {
    let content = "y".repeat(50);
    let result = truncate_to_budget(&content, 1);
    assert!(result.contains("[... truncated"));
}

#[test]
fn truncate_raw_blobs_to_shared_budget_truncates_when_only_jointly_over_budget() {
    const BUDGET: usize = 10_000;
    let active = blob("raw_active", &"a".repeat(32_000));
    let superseded = blob("raw_superseded", &"b".repeat(32_000));
    let (active_out, superseded_out) =
        truncate_raw_blobs_to_shared_budget(active, Some(superseded), BUDGET);
    let superseded_out = superseded_out.unwrap();
    let combined = estimate_tokens(&active_out.content) + estimate_tokens(&superseded_out.content);
    assert!(combined <= BUDGET + 50);
    assert!(
        active_out.content.contains("[... truncated")
            && superseded_out.content.contains("[... truncated")
    );
}

#[test]
fn truncate_raw_blobs_to_shared_budget_leaves_both_untouched_when_jointly_under_budget() {
    let active_content = "a".repeat(40);
    let superseded_content = "b".repeat(40);
    let (active_out, superseded_out) = truncate_raw_blobs_to_shared_budget(
        blob("raw_active", &active_content),
        Some(blob("raw_superseded", &superseded_content)),
        DEFAULT_PROMPT_TOKEN_BUDGET,
    );
    assert_eq!(active_out.content, active_content);
    assert_eq!(superseded_out.unwrap().content, superseded_content);
}

#[test]
fn truncate_raw_blobs_to_shared_budget_gives_the_smaller_blob_only_what_it_needs() {
    let active_content = "a".repeat(40);
    let (active_out, superseded_out) = truncate_raw_blobs_to_shared_budget(
        blob("raw_active", &active_content),
        Some(blob("raw_superseded", &"b".repeat(4000))),
        100,
    );
    assert_eq!(active_out.content, active_content);
    let superseded_out = superseded_out.unwrap();
    assert!(superseded_out.content.contains("[... truncated"));
    assert!(estimate_tokens(&superseded_out.content) > 50);
}

#[test]
fn truncate_raw_blobs_to_shared_budget_with_no_superseded_behaves_like_truncate_to_budget() {
    let content = "a".repeat(1000);
    let (active_out, superseded_out) =
        truncate_raw_blobs_to_shared_budget(blob("raw_active", &content), None, 100);
    assert!(superseded_out.is_none());
    assert_eq!(active_out.content, truncate_to_budget(&content, 100));
}
