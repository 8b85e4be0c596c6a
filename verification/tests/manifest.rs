use okf_mcp::manifest::model::{IngestOutcome, Manifest, SourceEntry, SourceStatus, TombstoneError};

fn entry<'a>(manifest: &'a Manifest, uri: &str) -> &'a SourceEntry {
    manifest.entry(uri).unwrap()
}

#[test]
fn first_ingest_of_a_uri_is_new_and_active() {
    let mut manifest = Manifest::default();
    let outcome = manifest.record_ingest("https://example.com/a", "sha256:aaa", "raw_aaa", "t0");
    assert_eq!(outcome, IngestOutcome::New { raw_id: "raw_aaa".to_string() });
    assert_eq!(manifest.get_active_raw_id("https://example.com/a"), Some("raw_aaa"));
}

#[test]
fn reingesting_the_same_hash_is_a_no_op() {
    let mut manifest = Manifest::default();
    manifest.record_ingest("uri", "sha256:aaa", "raw_aaa", "t0");
    let outcome = manifest.record_ingest("uri", "sha256:aaa", "raw_should_not_be_used", "t1");
    assert_eq!(outcome, IngestOutcome::NoOp);
    assert_eq!(entry(&manifest, "uri").history.len(), 1);
}

#[test]
fn reingesting_a_different_hash_supersedes_the_old_active_version() {
    let mut manifest = Manifest::default();
    manifest.record_ingest("uri", "sha256:aaa", "raw_aaa", "t0");
    let outcome = manifest.record_ingest("uri", "sha256:bbb", "raw_bbb", "t1");
    assert_eq!(
        outcome,
        IngestOutcome::Superseded {
            raw_id: "raw_bbb".to_string(),
            previous_raw_id: "raw_aaa".to_string(),
        }
    );
    assert_eq!(manifest.get_active_raw_id("uri"), Some("raw_bbb"));
    let history = &entry(&manifest, "uri").history;
    assert_eq!(history.len(), 2);
    assert_eq!(
        history[0].status,
        SourceStatus::Superseded { by_raw_id: "raw_bbb".to_string() }
    );
    assert_eq!(history[1].status, SourceStatus::Active);
}

#[test]
fn tombstone_clears_active_hash_and_records_the_reason() {
    let mut manifest = Manifest::default();
    manifest.record_ingest("uri", "sha256:aaa", "raw_aaa", "t0");
    manifest.tombstone("uri", "deprecated", "t1").unwrap();
    assert_eq!(manifest.get_active_raw_id("uri"), None);
    assert_eq!(entry(&manifest, "uri").active_hash, None);
    assert_eq!(
        entry(&manifest, "uri").history[0].status,
        SourceStatus::Tombstoned {
            reason: "deprecated".to_string(),
            tombstoned_at: "t1".to_string(),
        }
    );
}

#[test]
fn tombstoning_an_unknown_uri_is_an_error() {
    let mut manifest = Manifest::default();
    assert!(manifest.tombstone("nope", "reason", "t0").is_err());
    assert_eq!(
        manifest.tombstone("nope", "reason", "t0").unwrap_err(),
        TombstoneError::UnknownSource
    );
}

#[test]
fn tombstoning_a_uri_with_no_active_version_is_an_error() {
    let mut manifest = Manifest::default();
    manifest.record_ingest("uri", "sha256:aaa", "raw_aaa", "t0");
    manifest.tombstone("uri", "first", "t1").unwrap();
    assert_eq!(
        manifest.tombstone("uri", "second", "t2").unwrap_err(),
        TombstoneError::NoActiveVersion
    );
}

#[test]
fn purge_removes_the_entire_entry_and_returns_it() {
    let mut manifest = Manifest::default();
    manifest.record_ingest("uri", "sha256:aaa", "raw_aaa", "t0");
    let removed = manifest.purge("uri").unwrap();
    assert_eq!(removed.history.len(), 1);
    assert!(manifest.entry("uri").is_none());
    assert!(manifest.purge("uri").is_none());
}

#[test]
fn active_entries_only_yields_currently_active_versions() {
    let mut manifest = Manifest::default();
    manifest.record_ingest("a", "sha256:1", "raw_1", "t0");
    manifest.record_ingest("b", "sha256:2", "raw_2", "t0");
    manifest.tombstone("b", "gone", "t1").unwrap();
    let active = manifest.active_entries();
    assert_eq!(active.len(), 1);
    assert_eq!(active[0].0, "a");
    assert_eq!(active[0].1.raw_id, "raw_1");
}

#[test]
fn mark_compiled_sets_compiled_hash_to_the_current_active_hash() {
    let mut manifest = Manifest::default();
    manifest.record_ingest("uri", "sha256:aaa", "raw_aaa", "t0");
    manifest.mark_compiled("uri");
    assert_eq!(entry(&manifest, "uri").compiled_hash.as_deref(), Some("sha256:aaa"));
}

#[test]
fn mark_compiled_on_an_unknown_uri_is_a_no_op() {
    let mut manifest = Manifest::default();
    manifest.mark_compiled("nope");
    assert!(manifest.entry("nope").is_none());
}

#[test]
fn is_compiled_at_current_hash_is_false_until_marked() {
    let mut manifest = Manifest::default();
    manifest.record_ingest("uri", "sha256:aaa", "raw_aaa", "t0");
    assert!(!manifest.is_compiled_at_current_hash("uri"));
    manifest.mark_compiled("uri");
    assert!(manifest.is_compiled_at_current_hash("uri"));
}

#[test]
fn is_compiled_at_current_hash_is_false_for_an_unknown_uri() {
    let manifest = Manifest::default();
    assert!(!manifest.is_compiled_at_current_hash("nope"));
}

#[test]
fn re_ingesting_after_a_compile_invalidates_the_compiled_flag() {
    let mut manifest = Manifest::default();
    manifest.record_ingest("uri", "sha256:aaa", "raw_aaa", "t0");
    manifest.mark_compiled("uri");
    assert!(manifest.is_compiled_at_current_hash("uri"));
    manifest.record_ingest("uri", "sha256:bbb", "raw_bbb", "t1");
    assert!(!manifest.is_compiled_at_current_hash("uri"));
    assert_eq!(entry(&manifest, "uri").compiled_hash.as_deref(), Some("sha256:aaa"));
}

#[test]
fn a_source_can_come_back_after_it_was_deleted() {
    let mut manifest = Manifest::default();
    manifest.record_ingest("uri", "sha256:aaa", "raw_aaa", "t0");
    manifest.tombstone("uri", "gone", "t1").unwrap();
    assert_eq!(
        manifest.record_ingest("uri", "sha256:aaa", "raw_again", "t2"),
        IngestOutcome::Superseded {
            raw_id: "raw_again".to_string(),
            previous_raw_id: "raw_aaa".to_string(),
        }
    );
    let history = &entry(&manifest, "uri").history;
    assert_eq!(history.len(), 2);
    assert!(matches!(history[0].status, SourceStatus::Tombstoned { .. }));
    assert_eq!(manifest.get_active_raw_id("uri"), Some("raw_again"));
}

#[test]
fn records_that_were_read_keep_their_entries() {
    let mut manifest = Manifest::default();
    manifest.record_ingest("b", "sha256:2", "raw_2", "t0");
    manifest.record_ingest("a", "sha256:1", "raw_1", "t0");
    manifest.record_raw_path("a", "raw_1", "raw/raw_1--one.md".to_string());
    let again = Manifest::from_records(manifest.sources.clone());
    assert_eq!(again.sources.len(), 2);
    assert_eq!(again.get_active_raw_id("b"), Some("raw_2"));
    assert_eq!(again.raw_path_for("raw_1"), Some("raw/raw_1--one.md"));
    assert_eq!(again.raw_path_for("raw_2"), None);
}

#[test]
fn mark_compiled_on_a_tombstoned_source_is_a_no_op() {
    let mut manifest = Manifest::default();
    manifest.record_ingest("uri", "sha256:aaa", "raw_aaa", "t0");
    manifest.mark_compiled("uri");
    manifest.tombstone("uri", "gone", "t1").unwrap();
    manifest.mark_compiled("uri");
    assert_eq!(entry(&manifest, "uri").compiled_hash.as_deref(), Some("sha256:aaa"));
    assert_eq!(entry(&manifest, "uri").active_hash, None);
    assert!(!manifest.is_compiled_at_current_hash("uri"));
}
