//! What the commands say of what they did.

use vstd::prelude::*;

use crate::ingest::pipeline::DeleteOutcome;
use crate::manifest::model::{IngestOutcome, OutcomeView};
use crate::search::query::ReindexReport;
use crate::text::{copy_texts, decimal, decimal_text, has_prefix, has_suffix, views};
use crate::validator::report::counted;

verus! {

/// What is said of a source that was taken in. `raw_path` is where its blob stands, unless
/// nothing was written.
pub open spec fn ingest_text(
    uri: Seq<char>,
    outcome: OutcomeView,
    raw_path: Seq<char>,
) -> Seq<char> {
    match outcome {
        OutcomeView::NoOp => "No changes: '"@ + uri + "' already ingested with this content."@,
        OutcomeView::New { raw_id } => "Ingested '"@ + uri + "' -> "@ + raw_id + " ("@ + raw_path
            + ")"@,
        OutcomeView::Superseded { raw_id, previous_raw_id } => "Updated '"@ + uri + "' -> "@
            + raw_id + " (superseded "@ + previous_raw_id + ") ("@ + raw_path + ")"@,
    }
}

/// What is said of a source that was taken in.
pub fn ingest_line(uri: &str, outcome: &IngestOutcome, raw_path: &str) -> (r: String)
    ensures
        r@ == ingest_text(uri@, outcome@, raw_path@),
{
    match outcome {
        IngestOutcome::NoOp => {
            let mut s = "No changes: '".to_string();
            s.append(uri);
            s.append("' already ingested with this content.");
            s
        },
        IngestOutcome::New { raw_id } => {
            let mut s = "Ingested '".to_string();
            s.append(uri);
            s.append("' -> ");
            s.append(raw_id.as_str());
            s.append(" (");
            s.append(raw_path);
            s.append(")");
            s
        },
        IngestOutcome::Superseded { raw_id, previous_raw_id } => {
            let mut s = "Updated '".to_string();
            s.append(uri);
            s.append("' -> ");
            s.append(raw_id.as_str());
            s.append(" (superseded ");
            s.append(previous_raw_id.as_str());
            s.append(") (");
            s.append(raw_path);
            s.append(")");
            s
        },
    }
}

/// What is said of a source that was taken out.
pub fn delete_line(source: &str, outcome: &DeleteOutcome) -> (r: String)
    ensures
        r@ == (match outcome {
            DeleteOutcome::Tombstoned => "Tombstoned '"@ + source@
                + "' (raw blob kept on disk)."@,
            DeleteOutcome::Purged { removed_raw_ids } => "Purged '"@ + source@ + "' ("@ + decimal(
                removed_raw_ids@.len(),
            ) + " raw blob(s) removed)."@,
        }),
{
    match outcome {
        DeleteOutcome::Tombstoned => {
            let mut s = "Tombstoned '".to_string();
            s.append(source);
            s.append("' (raw blob kept on disk).");
            s
        },
        DeleteOutcome::Purged { removed_raw_ids } => {
            let mut s = "Purged '".to_string();
            s.append(source);
            s.append("' (");
            let n = decimal_text(removed_raw_ids.len() as u64);
            s.append(n.as_str());
            s.append(" raw blob(s) removed).");
            s
        },
    }
}

/// What is said of an index that was built.
pub fn reindex_line(report: &ReindexReport) -> (r: String)
    ensures
        r@ == "Indexed "@ + decimal(report.text_documents_indexed as nat) + " document(s). "@
            + decimal(report.vectors_embedded as nat) + " embedded, "@ + decimal(
            report.vectors_skipped_unchanged as nat,
        ) + " unchanged (skipped)."@,
{
    let mut s = counted("Indexed ", report.text_documents_indexed, " document(s). ");
    let embedded = decimal_text(report.vectors_embedded as u64);
    s.append(embedded.as_str());
    s.append(" embedded, ");
    let skipped = decimal_text(report.vectors_skipped_unchanged as u64);
    s.append(skipped.as_str());
    s.append(" unchanged (skipped).");
    s
}

/// The lines for a search result: its score, written with four decimals, the vault it is
/// in, where several are searched, its path and its title; and below that what was found.
pub fn result_lines(
    score: &str,
    vault: Option<&str>,
    path: &str,
    title: &str,
    snippet: &str,
) -> (r: Vec<String>)
    ensures
        ({
            let place = match vault {
                Some(name) => "["@ + name@ + "] "@ + path@,
                None => path@,
            };
            let first = score@ + "  "@ + place + "  — "@ + title@;
            views(r@) == (if snippet@.len() == 0 {
                seq![first]
            } else {
                seq![first, "        "@ + snippet@]
            })
        }),
{
    let mut s = score.to_string();
    s.append("  ");
    let ghost head = s@;
    match vault {
        Some(name) => {
            s.append("[");
            s.append(name);
            s.append("] ");
            s.append(path);
            assert(s@ =~= head + ("["@ + name@ + "] "@ + path@));
        },
        None => {
            s.append(path);
        },
    }
    s.append("  — ");
    s.append(title);
    let ghost first = s@;
    let mut out: Vec<String> = Vec::new();
    out.push(s);
    assert(views(out@) =~= seq![first]);
    if !snippet.is_empty() {
        let mut t = "        ".to_string();
        t.append(snippet);
        let ghost second = t@;
        out.push(t);
        assert(views(out@) =~= seq![first, second]);
    }
    out
}

/// What is said of a provider whose models are listed: each, or that there are none.
pub fn model_lines(provider: &str, models: &Vec<String>) -> (r: Vec<String>)
    ensures
        if models@.len() == 0 {
            views(r@) == seq!["no models reported for provider '"@ + provider@ + "'"@]
        } else {
            r@ == models@
        },
{
    if models.len() == 0 {
        let mut s = "no models reported for provider '".to_string();
        s.append(provider);
        s.append("'");
        let ghost what = s@;
        let mut out: Vec<String> = Vec::new();
        out.push(s);
        assert(views(out@) =~= seq![what]);
        return out;
    }
    copy_texts(models)
}

/// Whoever takes in a source is told what became of it: that nothing changed, under which id
/// and where it was kept, and which snapshot it replaced, if it replaced one.
pub proof fn law_an_ingest_is_told_by_what_it_made(
    uri: Seq<char>,
    raw_id: Seq<char>,
    previous_raw_id: Seq<char>,
    raw_path: Seq<char>,
)
    ensures
        has_prefix(ingest_text(uri, OutcomeView::NoOp, raw_path), "No changes: '"@ + uri),
        has_prefix(
            ingest_text(uri, OutcomeView::New { raw_id }, raw_path),
            "Ingested '"@ + uri + "' -> "@ + raw_id,
        ),
        has_suffix(ingest_text(uri, OutcomeView::New { raw_id }, raw_path), raw_path + ")"@),
        has_prefix(
            ingest_text(uri, OutcomeView::Superseded { raw_id, previous_raw_id }, raw_path),
            "Updated '"@ + uri + "' -> "@ + raw_id + " (superseded "@ + previous_raw_id,
        ),
        has_suffix(
            ingest_text(uri, OutcomeView::Superseded { raw_id, previous_raw_id }, raw_path),
            raw_path + ")"@,
        ),
{
    let none = ingest_text(uri, OutcomeView::NoOp, raw_path);
    let first = "No changes: '"@ + uri;
    assert(none.subrange(0, first.len() as int) =~= first);
    let made = ingest_text(uri, OutcomeView::New { raw_id }, raw_path);
    let second = "Ingested '"@ + uri + "' -> "@ + raw_id;
    let last = raw_path + ")"@;
    assert(made.subrange(0, second.len() as int) =~= second);
    assert(made.subrange(made.len() - last.len(), made.len() as int) =~= last);
    let updated = ingest_text(uri, OutcomeView::Superseded { raw_id, previous_raw_id }, raw_path);
    let third = "Updated '"@ + uri + "' -> "@ + raw_id + " (superseded "@ + previous_raw_id;
    assert(updated.subrange(0, third.len() as int) =~= third);
    assert(updated.subrange(updated.len() - last.len(), updated.len() as int) =~= last);
}

} // verus!
