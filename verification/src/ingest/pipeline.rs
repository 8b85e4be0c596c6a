//! Taking a source into a vault, and out of it.

use vstd::prelude::*;

use crate::ingest::frontmatter::{
    content_hash, hash_content, hex, is_raw_write, law_raw_id_of_content, lemma_hex, raw_id_for,
    raw_path, find_raw_path, sha256_digest, write_raw_blob, RawFile, RawWrite,
};
use crate::manifest::model::{
    active_index, empty_entry, ingest_outcome, ingested, law_new_snapshot_says_what_was_ingested,
    tombstoned, with_raw_path, EntryView, IngestOutcome, Manifest, TombstoneError, VersionView,
};
use crate::order::{gathered, law_gathered_values_are_those_that_are_made};
use crate::search::query::raw_body;
use crate::paths::{join_path, path_from};
use crate::text::{find_from, has_part, lemma_part, lemma_part_of_itself, views};
use crate::validator::frontmatter::{closing_line, law_frontmatter_is_read_back, opening_line};
use crate::vault::vault_resolver::SandboxError;
use vstd::utf8::encode_utf8;

verus! {

/// What became of a source that was taken in.
#[derive(Debug)]
pub struct IngestReport {
    pub source_uri: String,
    pub outcome: IngestOutcome,
    /// Where the raw blob stands, unless nothing was written.
    pub raw_path: Option<String>,
}

// ---------------------------------------------------------------------------
// What a source is called by
// ---------------------------------------------------------------------------

/// What a file is called by. `canonical` is its full path, or why that is not to be had;
/// two ways to write the path of one file lead to the same name.
pub fn normalize_local_uri(path: &str, canonical: Result<String, String>) -> (r: Result<
    String,
    String,
>)
    ensures
        match canonical {
            Ok(full) => r is Ok && r->Ok_0@ == "file://"@ + full@,
            Err(e) => r is Err && r->Err_0@ == "cannot read '"@ + path@ + "': "@ + e@,
        },
{
    match canonical {
        Ok(full) => {
            let mut s = "file://".to_string();
            s.append(full.as_str());
            Ok(s)
        },
        Err(e) => {
            let mut s = "cannot read '".to_string();
            s.append(path);
            s.append("': ");
            s.append(e.as_str());
            Err(s)
        },
    }
}

/// What a file is called by, also once it is gone: then by its path from the current
/// directory.
pub fn normalize_local_uri_best_effort(
    path: &str,
    canonical: Option<String>,
    current_dir: &str,
) -> (r: String)
    ensures
        r@ == "file://"@ + (match canonical {
            Some(full) => full@,
            None => path_from(current_dir@, path@),
        }),
{
    let mut s = "file://".to_string();
    match canonical {
        Some(full) => {
            s.append(full.as_str());
        },
        None => {
            let full = join_path(current_dir, path);
            s.append(full.as_str());
        },
    }
    s
}

// ---------------------------------------------------------------------------
// In
// ---------------------------------------------------------------------------

/// The raw id of content.
pub open spec fn content_raw_id(content: Seq<char>) -> Seq<char> {
    "raw_"@ + hex(sha256_digest(encode_utf8(content))).take(10)
}

/// What the manifest knows of a source.
pub open spec fn known_entry(manifest: Map<Seq<char>, EntryView>, uri: Seq<char>) -> EntryView {
    if manifest.contains_key(uri) {
        manifest[uri]
    } else {
        empty_entry()
    }
}

/// Where a blob stands once it is on disk.
pub open spec fn written_path(write: RawWrite) -> Seq<char> {
    match write {
        RawWrite::Reuse { path } => path@,
        RawWrite::Create { path, frontmatter } => path@,
    }
}

/// What has to be done to take a source in.
#[derive(Debug)]
pub struct IngestPlan {
    /// The manifest to save.
    pub manifest: Manifest,
    pub outcome: IngestOutcome,
    /// How the blob comes to be on disk, if it has to.
    pub write: Option<RawWrite>,
}

/// Whether `r` is what has to be done to take `content` in under `uri`.
pub open spec fn is_ingest(
    manifest: Manifest,
    files: Seq<RawFile>,
    uri: Seq<char>,
    content: Seq<char>,
    tags: Seq<String>,
    at: Seq<char>,
    r: Result<IngestPlan, SandboxError>,
) -> bool {
    let hash = content_hash(content);
    let raw_id = content_raw_id(content);
    let entry = known_entry(manifest@, uri);
    let after = ingested(entry, hash, raw_id, at);
    let outcome = ingest_outcome(entry, hash, raw_id);
    match r {
        Err(e) => outcome !is NoOp && is_raw_write(
            raw_path(manifest, files, raw_id),
            raw_id,
            uri,
            tags,
            hash,
            at,
            content,
            Err(e),
        ),
        Ok(plan) => {
            &&& plan.manifest.wf()
            &&& plan.outcome@ == outcome
            &&& match plan.write {
                None => outcome is NoOp && plan.manifest@ == manifest@.insert(uri, after),
                Some(write) => {
                    &&& outcome !is NoOp
                    &&& is_raw_write(
                        raw_path(manifest, files, raw_id),
                        raw_id,
                        uri,
                        tags,
                        hash,
                        at,
                        content,
                        Ok(write),
                    )
                    &&& plan.manifest@ == manifest@.insert(
                        uri,
                        EntryView {
                            history: with_raw_path(after.history, raw_id, written_path(write)),
                            ..after
                        },
                    )
                },
            }
        },
    }
}

/// What has to be done to take `content` in under `uri`, at the time `at`. Content that
/// is active already is not written again. `files` is what stands on disk.
pub fn process_ingest(
    manifest: Manifest,
    files: &Vec<RawFile>,
    uri: &str,
    content: &str,
    tags: &Vec<String>,
    at: &str,
) -> (r: Result<IngestPlan, SandboxError>)
    requires
        manifest.wf(),
    ensures
        is_ingest(manifest, files@, uri@, content@, tags@, at@, r),
{
    let ghost before = manifest;
    let mut manifest = manifest;
    let hash = hash_content(content);
    proof {
        let digest = sha256_digest(encode_utf8(content@));
        lemma_hex(digest);
        reveal_strlit("sha256:");
        law_raw_id_of_content(content@, digest);
    }
    let raw_id = raw_id_for(hash.as_str());
    assert(raw_id@ == content_raw_id(content@));
    let existing = find_raw_path(&manifest, files, raw_id.as_str());
    let outcome = manifest.record_ingest(uri, hash.as_str(), raw_id.as_str(), at);
    let no_op: bool = match &outcome {
        IngestOutcome::NoOp => true,
        _ => false,
    };
    if no_op {
        return Ok(IngestPlan { manifest, outcome, write: None });
    }
    let write: RawWrite = match write_raw_blob(
        existing,
        raw_id.as_str(),
        uri,
        tags,
        hash.as_str(),
        at,
        content,
    ) {
        Err(e) => {
            return Err(e);
        },
        Ok(write) => write,
    };
    let path: String = match &write {
        RawWrite::Reuse { path } => path.clone(),
        RawWrite::Create { path, frontmatter } => path.clone(),
    };
    let ghost middle = manifest@;
    manifest.record_raw_path(uri, raw_id.as_str(), path);
    proof {
        let after = ingested(known_entry(before@, uri@), hash@, raw_id@, at@);
        assert(middle == before@.insert(uri@, after));
        assert(manifest@ =~= before@.insert(
            uri@,
            EntryView {
                history: with_raw_path(after.history, raw_id@, written_path(write)),
                ..after
            },
        ));
    }
    Ok(IngestPlan { manifest, outcome, write: Some(write) })
}

/// What was taken in is what is read back: the body of the document that a blob is
/// written as is an empty line and the content, if the YAML in front of it ends in a
/// line break and has no line that closes it.
pub proof fn law_ingested_content_is_read_back(lines: Seq<char>, content: Seq<char>)
    requires
        find_from(lines + closing_line(), closing_line(), 0) == Some(lines.len() as int),
    ensures
        raw_body("---\n"@ + (lines + "\n"@) + "---\n\n"@ + content) == "\n"@ + content,
{
    reveal_strlit("---\n");
    reveal_strlit("---\n\n");
    reveal_strlit("\n");
    let document = "---\n"@ + (lines + "\n"@) + "---\n\n"@ + content;
    law_frontmatter_is_read_back(lines, "\n"@ + content);
    assert(document =~= opening_line() + lines + closing_line() + ("\n"@ + content));
}

// ---------------------------------------------------------------------------
// Out
// ---------------------------------------------------------------------------

#[derive(Debug)]
pub enum DeleteOutcome {
    /// The active snapshot is marked; the raw blobs stay on disk.
    Tombstoned,
    /// The entry and every raw blob of it are gone.
    Purged { removed_raw_ids: Vec<String> },
}

/// What has to be done to take a source out.
#[derive(Debug)]
pub struct DeletePlan {
    pub outcome: DeleteOutcome,
    /// The files to remove, as far as they are still there.
    pub remove: Vec<String>,
}

/// The raw ids of snapshots.
pub open spec fn raw_ids(history: Seq<VersionView>) -> Seq<Seq<char>> {
    history.map_values(|v: VersionView| v.raw_id)
}

/// Where the blobs of snapshots stand, those that are found.
pub open spec fn blob_paths(
    manifest: Manifest,
    files: Seq<RawFile>,
    history: Seq<VersionView>,
) -> Seq<Seq<char>> {
    gathered(history, |v: VersionView| raw_path(manifest, files, v.raw_id))
}

/// What is said of a source that was never taken in.
pub open spec fn unknown_source(uri: Seq<char>) -> Seq<char> {
    "no ingested source found for '"@ + uri + "'"@
}

/// Takes the source `uri` out of the manifest: marks its active snapshot, or with
/// `purge` drops the whole entry and all of its blobs. A failure changes nothing.
pub fn delete_source(
    manifest: &mut Manifest,
    files: &Vec<RawFile>,
    uri: &str,
    purge: bool,
    reason: &str,
    now: &str,
) -> (r: Result<DeletePlan, String>)
    requires
        old(manifest).wf(),
    ensures
        final(manifest).wf(),
        r is Err ==> final(manifest)@ == old(manifest)@,
        if purge {
            if old(manifest)@.contains_key(uri@) {
                let history = old(manifest)@[uri@].history;
                &&& r is Ok
                &&& final(manifest)@ == old(manifest)@.remove(uri@)
                &&& r->Ok_0.outcome is Purged
                &&& views(r->Ok_0.outcome->removed_raw_ids@) == raw_ids(history)
                &&& views(r->Ok_0.remove@) == blob_paths(*old(manifest), files@, history)
            } else {
                &&& r is Err
                &&& r->Err_0@ == unknown_source(uri@)
            }
        } else {
            if !old(manifest)@.contains_key(uri@) {
                &&& r is Err
                &&& r->Err_0@ == unknown_source(uri@)
            } else if active_index(old(manifest)@[uri@].history) is None {
                &&& r is Err
                &&& r->Err_0@ == "'"@ + uri@ + "' has no active version to tombstone"@
            } else {
                &&& r is Ok
                &&& r->Ok_0.outcome is Tombstoned
                &&& r->Ok_0.remove@.len() == 0
                &&& final(manifest)@ == old(manifest)@.insert(
                    uri@,
                    tombstoned(old(manifest)@[uri@], reason@, now@),
                )
            }
        },
{
    if !purge {
        return match manifest.tombstone(uri, reason, now) {
            Ok(_) => Ok(DeletePlan { outcome: DeleteOutcome::Tombstoned, remove: Vec::new() }),
            Err(e) => Err(e.message(uri)),
        };
    }
    let ghost before = *manifest;
    let mut remove: Vec<String> = Vec::new();
    let mut ids: Vec<String> = Vec::new();
    match manifest.entry(uri) {
        None => {
            return Err(TombstoneError::UnknownSource.message(uri));
        },
        Some(entry) => {
            let ghost history = views(entry.history@);
            let ghost f = |v: VersionView| raw_path(before, files@, v.raw_id);
            let mut i: usize = 0;
            proof {
                assert(history.take(0) =~= seq![]);
                assert(views(remove@) =~= seq![]);
                assert(views(ids@) =~= raw_ids(history.take(0)));
            }
            while i < entry.history.len()
                invariant
                    i <= entry.history@.len(),
                    *manifest == before,
                    history == views(entry.history@),
                    f == (|v: VersionView| raw_path(before, files@, v.raw_id)),
                    views(remove@) == gathered(history.take(i as int), f),
                    views(ids@) == raw_ids(history.take(i as int)),
                decreases entry.history@.len() - i,
            {
                let ghost had = remove@;
                let ghost known = ids@;
                proof {
                    let next = history.take(i + 1);
                    assert(next.drop_last() =~= history.take(i as int));
                    assert(next.last() == entry.history@[i as int]@);
                    assert(raw_ids(next) =~= raw_ids(history.take(i as int)).push(
                        entry.history@[i as int].raw_id@,
                    ));
                }
                match find_raw_path(manifest, files, entry.history[i].raw_id.as_str()) {
                    Some(path) => {
                        let ghost what = path@;
                        remove.push(path);
                        assert(views(remove@) =~= views(had).push(what));
                    },
                    None => {},
                }
                ids.push(entry.history[i].raw_id.clone());
                assert(views(ids@) =~= views(known).push(entry.history@[i as int].raw_id@));
                i += 1;
            }
            assert(history.take(history.len() as int) =~= history);
        },
    }
    let _ = manifest.purge(uri);
    Ok(DeletePlan { outcome: DeleteOutcome::Purged { removed_raw_ids: ids }, remove })
}

/// A purge removes the blobs of all snapshots that are found, and names the raw ids of all.
pub proof fn law_a_purge_takes_every_snapshot(
    manifest: Manifest,
    files: Seq<RawFile>,
    history: Seq<VersionView>,
    path: Seq<char>,
    i: int,
)
    ensures
        blob_paths(manifest, files, history).contains(path) <==> exists|k: int|
            0 <= k < history.len() && raw_path(manifest, files, (#[trigger] history[k]).raw_id)
                == Some(path),
        raw_ids(history).len() == history.len(),
        0 <= i < history.len() ==> raw_ids(history)[i] == history[i].raw_id,
{
    let f = |v: VersionView| raw_path(manifest, files, v.raw_id);
    law_gathered_values_are_those_that_are_made(history, f, path);
    if blob_paths(manifest, files, history).contains(path) {
        let k = choose|k: int| 0 <= k < history.len() && f(#[trigger] history[k]) == Some(path);
        assert(raw_path(manifest, files, history[k].raw_id) == Some(path));
    }
    if exists|k: int|
        0 <= k < history.len() && raw_path(manifest, files, (#[trigger] history[k]).raw_id)
            == Some(path) {
        let k = choose|k: int|
            0 <= k < history.len() && raw_path(manifest, files, (#[trigger] history[k]).raw_id)
                == Some(path);
        assert(f(history[k]) == Some(path));
    }
}

/// After a source was taken in, its content is the active one, under its hash and its raw
/// id, and no other source has changed. A blob is written exactly if that content was not
/// active before, and the manifest says where it stands.
pub proof fn law_what_is_taken_in_is_active(
    manifest: Manifest,
    files: Seq<RawFile>,
    uri: Seq<char>,
    content: Seq<char>,
    tags: Seq<String>,
    at: Seq<char>,
    plan: IngestPlan,
    other: Seq<char>,
)
    requires
        is_ingest(manifest, files, uri, content, tags, at, Ok(plan)),
    ensures
        plan.manifest@.contains_key(uri),
        plan.manifest@[uri].active_hash == Some(content_hash(content)),
        plan.write is None <==> manifest@.contains_key(uri) && manifest@[uri].active_hash == Some(
            content_hash(content),
        ),
        plan.write is Some ==> {
            let last = plan.manifest@[uri].history.last();
            &&& plan.manifest@[uri].history.len() > 0
            &&& last.hash == content_hash(content)
            &&& last.raw_id == "raw_"@ + hex(sha256_digest(encode_utf8(content))).take(10)
            &&& last.ingested_at == at
            &&& last.raw_path == Some(written_path(plan.write->0))
        },
        plan.write is None ==> plan.manifest@[uri] == manifest@[uri],
        other != uri ==> (plan.manifest@.contains_key(other) <==> manifest@.contains_key(other))
            && (manifest@.contains_key(other) ==> plan.manifest@[other] == manifest@[other]),
{
    let entry = known_entry(manifest@, uri);
    let hash = content_hash(content);
    if entry.active_hash != Some(hash) {
        law_new_snapshot_says_what_was_ingested(entry, hash, content_raw_id(content), at);
        let after = ingested(entry, hash, content_raw_id(content), at);
        if plan.write is Some {
            let marked = with_raw_path(
                after.history,
                content_raw_id(content),
                written_path(plan.write->0),
            );
            assert(marked.last() == marked[marked.len() - 1]);
            assert(after.history.last() == after.history[after.history.len() - 1]);
        }
    }
}

/// A source that was never taken in is told by what it was asked for.
pub proof fn law_an_unknown_source_is_told_by_its_name(uri: Seq<char>)
    ensures
        has_part(unknown_source(uri), uri),
{
    lemma_part_of_itself(uri);
    lemma_part("no ingested source found for '"@, uri, "'"@, uri);
}

} // verus!
