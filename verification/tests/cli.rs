use okf_mcp::cli::compile::{commit_line, confirmed, Finish, FinishAction, NOT_COMMITTED};
use okf_mcp::cli::config::{credential_accounts, provider_key_variables};
use okf_mcp::cli::credentials::{
    account_for_provider, accounts_to_clear, build_clear_summary, credential_status_lines,
};
use okf_mcp::cli::messages::{delete_line, ingest_line, model_lines, reindex_line, result_lines};
use okf_mcp::compiler::driver::{CompileReport, SourceOutcome};
use okf_mcp::compiler::link_fix::{LinkFixOutcome, LinkFixReport, LinkFixStatus};
use okf_mcp::ingest::pipeline::DeleteOutcome;
use okf_mcp::manifest::model::IngestOutcome;
use okf_mcp::search::query::ReindexReport;
use okf_mcp::storage::git::CommitOutcome;
use okf_mcp::validator::fix::FixReport;
use okf_mcp::validator::rules::LintReport;

fn texts(list: &[&str]) -> Vec<String> {
    list.iter().map(|s| s.to_string()).collect()
}

fn report(error: Option<&str>) -> CompileReport {
    CompileReport {
        sources: vec![SourceOutcome {
            uri: "https://example.com/a".to_string(),
            raw_id: "raw_aaa".to_string(),
            error: error.map(|e| e.to_string()),
        }],
        touched_paths: Vec::new(),
        lint_report: Default::default(),
    }
}

fn broken() -> LintReport {
    LintReport {
        broken_links: vec![("wiki/concepts/a.md".to_string(), "missing".to_string())],
        ..Default::default()
    }
}

#[test]
fn credential_status_lines_reports_saved_and_not_saved() {
    let accounts = texts(&["firecrawl", "llm-anthropic"]);
    let lines =
        credential_status_lines(&accounts, &|account: &str| Ok(account == "firecrawl")).unwrap();
    assert_eq!(
        lines,
        vec!["firecrawl: saved".to_string(), "llm-anthropic: not saved".to_string()]
    );
}

#[test]
fn credential_status_lines_propagates_an_existence_check_error() {
    let accounts = texts(&["firecrawl"]);
    let result = credential_status_lines(&accounts, &|_: &str| -> Result<bool, String> {
        Err("keychain unavailable".to_string())
    });
    assert!(result.is_err());
}

#[test]
fn account_for_provider_special_cases_firecrawl() {
    assert_eq!(account_for_provider("firecrawl"), "firecrawl");
    assert_eq!(account_for_provider("anthropic"), "llm-anthropic");
}

#[test]
fn accounts_to_clear_targets_one_account_for_provider() {
    let known = texts(&["firecrawl", "llm-anthropic"]);
    let accounts = accounts_to_clear(&known, Some("anthropic"), false).unwrap();
    assert_eq!(accounts, vec!["llm-anthropic".to_string()]);
}

#[test]
fn accounts_to_clear_special_cases_firecrawl_as_a_provider_name() {
    let known = texts(&["firecrawl"]);
    let accounts = accounts_to_clear(&known, Some("firecrawl"), false).unwrap();
    assert_eq!(accounts, vec!["firecrawl".to_string()]);
}

#[test]
fn accounts_to_clear_accepts_a_provider_not_in_the_known_set() {
    let known = texts(&["firecrawl"]);
    let accounts = accounts_to_clear(&known, Some("zz-removed-custom"), false).unwrap();
    assert_eq!(accounts, vec!["llm-zz-removed-custom".to_string()]);
}

#[test]
fn accounts_to_clear_targets_everything_known_for_all() {
    let known = texts(&["firecrawl", "llm-anthropic"]);
    let accounts = accounts_to_clear(&known, None, true).unwrap();
    assert_eq!(accounts, known);
}

#[test]
fn accounts_to_clear_rejects_both_provider_and_all() {
    let known = texts(&["firecrawl"]);
    assert!(accounts_to_clear(&known, Some("anthropic"), true).is_err());
}

#[test]
fn accounts_to_clear_rejects_neither_provider_nor_all() {
    let known = texts(&["firecrawl"]);
    assert!(accounts_to_clear(&known, None, false).is_err());
}

#[test]
fn build_clear_summary_lists_each_account_and_counts_them_in_the_message() {
    let accounts = texts(&["firecrawl", "llm-anthropic"]);
    let (lines, message) = build_clear_summary(&accounts);
    assert_eq!(lines, vec!["  firecrawl".to_string(), "  llm-anthropic".to_string()]);
    assert_eq!(message, "Clear 2 credential(s)? This cannot be undone.");
}

#[test]
fn confirm_clear_short_circuits_to_true_when_yes_is_passed() {
    assert_eq!(confirmed(true, false, None), Some(true));
    assert_eq!(confirmed(true, true, None), Some(true));
}

#[test]
fn confirm_clear_short_circuits_to_false_when_not_interactive() {
    assert_eq!(confirmed(false, false, None), Some(false));
    assert_eq!(confirmed(false, true, None), None);
    assert_eq!(confirmed(false, true, Some(true)), Some(true));
}

#[test]
fn every_provider_that_needs_a_key_has_an_account() {
    let accounts = credential_accounts();
    assert_eq!(accounts[0], "firecrawl");
    assert!(accounts.contains(&"llm-anthropic".to_string()));
    assert!(accounts.contains(&"llm-custom".to_string()));
    assert!(!accounts.contains(&"llm-ollama".to_string()));
    assert!(!accounts.contains(&"llm-foundry-local".to_string()));
    assert_eq!(accounts.len(), provider_key_variables().len() + 1);
    assert!(provider_key_variables().contains(&"ANTHROPIC_API_KEY"));
}

#[test]
fn a_failed_source_skips_the_bundle_and_the_commit() {
    let finish = Finish::new(report(Some("LLM call failed")), "okf-mcp compile", false, false);
    let step = finish.begin();
    assert_eq!(step.lines[0], "Compiled 0 source(s), 1 failed.");
    assert_eq!(step.lines[1], "  https://example.com/a failed: LLM call failed");
    match step.action {
        FinishAction::Fail { detail, error } => {
            assert_eq!(detail, "1 source(s) failed, lint errors: false");
            assert_eq!(error, "compile finished with errors");
        }
        other => panic!("unexpected {other:?}"),
    }
}

#[test]
fn lint_errors_skip_the_bundle_and_the_commit_even_with_no_failed_sources() {
    let mut unclean = report(None);
    unclean.lint_report = broken();
    let step = Finish::new(unclean, "okf-mcp compile", false, false).begin();
    assert!(matches!(step.action, FinishAction::Fail { .. }));
}

#[test]
fn a_clean_report_writes_the_bundle_and_commits() {
    let mut finish = Finish::new(report(None), "okf-mcp compile", false, false);
    match finish.begin().action {
        FinishAction::WriteBundle { detail } => {
            assert_eq!(detail, "1 source(s) compiled, 0 path(s) fixed");
        }
        other => panic!("unexpected {other:?}"),
    }
    match finish.bundled("/vault", true, true, false).action {
        FinishAction::Commit { paths, message } => {
            assert_eq!(message, "okf-mcp compile: 1 source(s) compiled");
            assert_eq!(
                paths,
                vec!["okf.json", "wiki/index.md", "wiki/log.md", "wiki/schema.md"]
            );
        }
        other => panic!("unexpected {other:?}"),
    }
}

#[test]
fn fix_true_with_nothing_fixable_behaves_like_fix_false() {
    let mut finish = Finish::new(report(None), "okf-mcp compile", true, false);
    assert!(matches!(finish.begin().action, FinishAction::FixMechanically));
    let step = finish.mechanically_fixed(&FixReport::default(), LintReport::default());
    assert!(matches!(step.action, FinishAction::WriteBundle { .. }));
    assert!(matches!(
        finish.bundled("/vault", true, true, false).action,
        FinishAction::Commit { .. }
    ));
}

#[test]
fn pages_that_a_model_filled_in_are_committed_once_a_person_agrees() {
    let mut unclean = report(None);
    unclean.touched_paths = vec!["/vault/wiki/concepts/a.md".to_string()];
    let mut finish = Finish::new(unclean, "okf-mcp compile", true, false);
    let step = finish.mechanically_fixed(&FixReport::default(), broken());
    assert!(matches!(step.action, FinishAction::FixLinks));
    let fixed = LinkFixReport {
        outcomes: vec![LinkFixOutcome {
            slug: "missing".to_string(),
            status: LinkFixStatus::Synthesized,
        }],
        touched_paths: vec!["/vault/wiki/concepts/missing.md".to_string()],
    };
    let step = finish.links_fixed("/vault", &fixed, LintReport::default());
    assert!(matches!(step.action, FinishAction::WriteBundle { .. }));
    match finish.bundled("/vault", false, true, true).action {
        FinishAction::Ask { message } => {
            assert!(message.contains("synthesized 1 new concept page(s)"));
            assert!(message.contains("missing"));
        }
        other => panic!("unexpected {other:?}"),
    }
    let no = finish.answered(false);
    assert_eq!(no.lines, vec![NOT_COMMITTED.to_string()]);
    assert!(matches!(no.action, FinishAction::End));
    match finish.answered(true).action {
        FinishAction::Commit { paths, .. } => assert_eq!(
            paths,
            vec![
                "okf.json",
                "wiki/concepts/a.md",
                "wiki/concepts/missing.md",
                "wiki/index.md",
                "wiki/schema.md",
            ]
        ),
        other => panic!("unexpected {other:?}"),
    }
}

#[test]
fn a_commit_is_reported_in_a_line() {
    let done = |committed| CommitOutcome { committed, stdout: " 1 file changed\n".to_string() };
    assert_eq!(commit_line(&Ok(done(true))), "Committed changes.");
    assert_eq!(commit_line(&Ok(done(false))), "Nothing to commit.");
    assert_eq!(commit_line(&Err("no git".to_string())), "git commit skipped: no git");
}

#[test]
fn what_was_done_is_said() {
    assert_eq!(
        ingest_line("u", &IngestOutcome::NoOp, ""),
        "No changes: 'u' already ingested with this content."
    );
    assert!(ingest_line("u", &IngestOutcome::New { raw_id: "raw_a".to_string() }, "raw/a.md")
        .starts_with("Ingested 'u' -> raw_a"));
    assert!(ingest_line(
        "u",
        &IngestOutcome::Superseded {
            raw_id: "raw_b".to_string(),
            previous_raw_id: "raw_a".to_string()
        },
        "raw/b.md"
    )
    .contains("raw_b"));
    assert_eq!(
        delete_line("u", &DeleteOutcome::Tombstoned),
        "Tombstoned 'u' (raw blob kept on disk)."
    );
    assert_eq!(
        delete_line("u", &DeleteOutcome::Purged { removed_raw_ids: texts(&["raw_a", "raw_b"]) }),
        "Purged 'u' (2 raw blob(s) removed)."
    );
    assert_eq!(
        reindex_line(&ReindexReport {
            text_documents_indexed: 3,
            vectors_embedded: 2,
            vectors_skipped_unchanged: 1,
        }),
        "Indexed 3 document(s). 2 embedded, 1 unchanged (skipped)."
    );
    assert_eq!(
        result_lines("0.0328", Some("work"), "wiki/concepts/a.md", "A", "text"),
        vec!["0.0328  [work] wiki/concepts/a.md  — A", "        text"]
    );
    assert_eq!(result_lines("0.0328", None, "a.md", "A", ""), vec!["0.0328  a.md  — A"]);
    assert_eq!(
        model_lines("ollama", &Vec::new()),
        vec!["no models reported for provider 'ollama'"]
    );
    assert_eq!(model_lines("ollama", &texts(&["m"])), vec!["m"]);
}

#[test]
fn the_first_account_that_cannot_be_looked_up_ends_the_listing() {
    let accounts = texts(&["a", "b", "c"]);
    let result = credential_status_lines(&accounts, &|account: &str| -> Result<bool, String> {
        if account == "a" {
            Ok(true)
        } else {
            Err(format!("no access to {account}"))
        }
    });
    assert_eq!(result.unwrap_err(), "no access to b");
}
