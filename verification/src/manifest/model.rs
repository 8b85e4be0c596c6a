//! The manifest of a vault: the content-addressed record of what was ingested. Raw
//! blobs are never changed or removed by an update: an update or a deletion is a
//! change of state here, from active to superseded or tombstoned. Sources are
//! found by the URI or path they were ingested from.

use vstd::prelude::*;

use crate::text::{copy_opt, opt_text_eq, opt_view, text_eq, views};

verus! {

/// What has become of one snapshot of a source.
#[derive(Debug, Clone, PartialEq, Eq)]
pub enum SourceStatus {
    Active,
    Superseded { by_raw_id: String },
    Tombstoned { reason: String, tombstoned_at: String },
}

pub enum StatusView {
    Active,
    Superseded { by_raw_id: Seq<char> },
    Tombstoned { reason: Seq<char>, tombstoned_at: Seq<char> },
}

impl View for SourceStatus {
    type V = StatusView;

    open spec fn view(&self) -> StatusView {
        match self {
            SourceStatus::Active => StatusView::Active,
            SourceStatus::Superseded { by_raw_id } => StatusView::Superseded {
                by_raw_id: by_raw_id@,
            },
            SourceStatus::Tombstoned { reason, tombstoned_at } => StatusView::Tombstoned {
                reason: reason@,
                tombstoned_at: tombstoned_at@,
            },
        }
    }
}

/// One snapshot of a source.
#[derive(Debug, Clone)]
pub struct SourceVersion {
    pub raw_id: String,
    pub hash: String,
    pub ingested_at: String,
    pub status: SourceStatus,
    /// The vault-relative path of the snapshot's raw blob. A snapshot that was
    /// recorded before paths were has none.
    pub raw_path: Option<String>,
}

#[verifier::ext_equal]
pub struct VersionView {
    pub raw_id: Seq<char>,
    pub hash: Seq<char>,
    pub ingested_at: Seq<char>,
    pub status: StatusView,
    pub raw_path: Option<Seq<char>>,
}

impl View for SourceVersion {
    type V = VersionView;

    open spec fn view(&self) -> VersionView {
        VersionView {
            raw_id: self.raw_id@,
            hash: self.hash@,
            ingested_at: self.ingested_at@,
            status: self.status@,
            raw_path: opt_view(self.raw_path),
        }
    }
}

/// Everything known of one source.
#[derive(Debug, Clone)]
pub struct SourceEntry {
    /// The hash of the active snapshot, if one is active.
    pub active_hash: Option<String>,
    /// The value of `active_hash` at which the source last compiled without
    /// error. A re-ingest changes `active_hash` and so undoes the mark by
    /// itself.
    pub compiled_hash: Option<String>,
    pub history: Vec<SourceVersion>,
}

#[verifier::ext_equal]
pub struct EntryView {
    pub active_hash: Option<Seq<char>>,
    pub compiled_hash: Option<Seq<char>>,
    pub history: Seq<VersionView>,
}

impl View for SourceEntry {
    type V = EntryView;

    open spec fn view(&self) -> EntryView {
        EntryView {
            active_hash: opt_view(self.active_hash),
            compiled_hash: opt_view(self.compiled_hash),
            history: views(self.history@),
        }
    }
}

/// A source and the URI or path it was ingested from.
#[derive(Debug, Clone)]
pub struct SourceRecord {
    pub uri: String,
    pub entry: SourceEntry,
}

/// Every ingested source, each under its own URI.
#[derive(Debug, Clone)]
pub struct Manifest {
    pub sources: Vec<SourceRecord>,
}

/// What `record_ingest` did, which tells the caller whether a raw blob has to be
/// written.
#[derive(Debug, Clone, PartialEq, Eq)]
pub enum IngestOutcome {
    /// The content is that of the active snapshot.
    NoOp,
    /// Nothing was ever ingested from the source before.
    New { raw_id: String },
    /// A new snapshot took the place of the active one, or of the last one if none was
    /// active.
    Superseded { raw_id: String, previous_raw_id: String },
}

pub enum OutcomeView {
    NoOp,
    New { raw_id: Seq<char> },
    Superseded { raw_id: Seq<char>, previous_raw_id: Seq<char> },
}

impl View for IngestOutcome {
    type V = OutcomeView;

    open spec fn view(&self) -> OutcomeView {
        match self {
            IngestOutcome::NoOp => OutcomeView::NoOp,
            IngestOutcome::New { raw_id } => OutcomeView::New { raw_id: raw_id@ },
            IngestOutcome::Superseded { raw_id, previous_raw_id } => OutcomeView::Superseded {
                raw_id: raw_id@,
                previous_raw_id: previous_raw_id@,
            },
        }
    }
}

/// Why a source could not be tombstoned.
#[derive(Debug, Clone, PartialEq, Eq)]
pub enum TombstoneError {
    /// Nothing was ever ingested from the URI.
    UnknownSource,
    /// No snapshot of the source is active.
    NoActiveVersion,
}

impl TombstoneError {
    /// The message for a person.
    pub fn message(&self, uri: &str) -> (r: String)
        ensures
            r@ == match self {
                TombstoneError::UnknownSource => "no ingested source found for '"@ + uri@ + "'"@,
                TombstoneError::NoActiveVersion => "'"@ + uri@
                    + "' has no active version to tombstone"@,
            },
    {
        match self {
            TombstoneError::UnknownSource => {
                let mut s = "no ingested source found for '".to_string();
                s.append(uri);
                s.append("'");
                s
            },
            TombstoneError::NoActiveVersion => {
                let mut s = "'".to_string();
                s.append(uri);
                s.append("' has no active version to tombstone");
                s
            },
        }
    }
}

// ---------------------------------------------------------------------------
// What the operations mean
// ---------------------------------------------------------------------------

/// The first snapshot that is active.
pub open spec fn active_index(history: Seq<VersionView>) -> Option<int>
    decreases history.len(),
{
    if history.len() == 0 {
        None
    } else {
        match active_index(history.drop_last()) {
            Some(i) => Some(i),
            None => if history.last().status is Active {
                Some(history.len() - 1)
            } else {
                None
            },
        }
    }
}

/// What is known of a source before anything is ingested from it.
pub open spec fn empty_entry() -> EntryView {
    EntryView { active_hash: None, compiled_hash: None, history: seq![] }
}

/// `history` with the status of snapshot `i` replaced.
pub open spec fn with_status(
    history: Seq<VersionView>,
    i: int,
    status: StatusView,
) -> Seq<VersionView> {
    history.update(i, VersionView { status, ..history[i] })
}

/// `entry` once content with this hash was ingested: unchanged if the content is
/// the active one, else the active snapshot is superseded and a new active one
/// stands at the end of the history.
pub open spec fn ingested(
    entry: EntryView,
    hash: Seq<char>,
    raw_id: Seq<char>,
    at: Seq<char>,
) -> EntryView {
    if entry.active_hash == Some(hash) {
        entry
    } else {
        let before = match active_index(entry.history) {
            Some(i) => with_status(entry.history, i, StatusView::Superseded { by_raw_id: raw_id }),
            None => entry.history,
        };
        EntryView {
            active_hash: Some(hash),
            history: before.push(
                VersionView {
                    raw_id,
                    hash,
                    ingested_at: at,
                    status: StatusView::Active,
                    raw_path: None,
                },
            ),
            ..entry
        }
    }
}

/// What an ingest into `entry` reports.
pub open spec fn ingest_outcome(
    entry: EntryView,
    hash: Seq<char>,
    raw_id: Seq<char>,
) -> OutcomeView {
    if entry.active_hash == Some(hash) {
        OutcomeView::NoOp
    } else {
        match active_index(entry.history) {
            Some(i) => OutcomeView::Superseded { raw_id, previous_raw_id: entry.history[i].raw_id },
            None => if entry.history.len() > 0 {
                OutcomeView::Superseded { raw_id, previous_raw_id: entry.history.last().raw_id }
            } else {
                OutcomeView::New { raw_id }
            },
        }
    }
}

/// `entry` once its active snapshot was tombstoned.
pub open spec fn tombstoned(entry: EntryView, reason: Seq<char>, at: Seq<char>) -> EntryView {
    match active_index(entry.history) {
        Some(i) => EntryView {
            active_hash: None,
            history: with_status(
                entry.history,
                i,
                StatusView::Tombstoned { reason, tombstoned_at: at },
            ),
            ..entry
        },
        None => entry,
    }
}

/// Whether an entry is compiled at the hash that is active now.
pub open spec fn compiled_now(entry: EntryView) -> bool {
    entry.compiled_hash is Some && entry.compiled_hash == entry.active_hash
}

/// `entry` once what is active of it was compiled: unchanged if nothing is active.
pub open spec fn marked_compiled(entry: EntryView) -> EntryView {
    if entry.active_hash is Some {
        EntryView { compiled_hash: entry.active_hash, ..entry }
    } else {
        entry
    }
}

/// `history` with a path recorded for every snapshot with this raw id.
pub open spec fn with_raw_path(
    history: Seq<VersionView>,
    raw_id: Seq<char>,
    path: Seq<char>,
) -> Seq<VersionView> {
    history.map_values(
        |v: VersionView|
            if v.raw_id == raw_id {
                VersionView { raw_path: Some(path), ..v }
            } else {
                v
            },
    )
}

/// Whether `entry` is one that ingests and tombstones lead to: at most one
/// snapshot is active, and `active_hash` is that snapshot's.
pub open spec fn coherent(entry: EntryView) -> bool {
    &&& forall|i: int, j: int|
        #![trigger entry.history[i], entry.history[j]]
        0 <= i < entry.history.len() && 0 <= j < entry.history.len() && entry.history[i].status
            is Active && entry.history[j].status is Active ==> i == j
    &&& match active_index(entry.history) {
        Some(i) => entry.active_hash == Some(entry.history[i].hash),
        None => entry.active_hash is None,
    }
}

proof fn lemma_active_index(history: Seq<VersionView>)
    ensures
        match active_index(history) {
            Some(i) => 0 <= i < history.len() && history[i].status is Active && (forall|j: int|
                0 <= j < i ==> !((#[trigger] history[j]).status is Active)),
            None => forall|j: int|
                0 <= j < history.len() ==> !((#[trigger] history[j]).status is Active),
        },
    decreases history.len(),
{
    if history.len() > 0 {
        let rest = history.drop_last();
        lemma_active_index(rest);
        assert forall|j: int| 0 <= j < rest.len() implies history[j] == rest[j] by {}
        match active_index(rest) {
            Some(i) => {
                assert(history[i] == rest[i]);
            },
            None => {
                assert forall|j: int| 0 <= j < rest.len() implies !((
                #[trigger] history[j]).status is Active) by {
                    assert(history[j] == rest[j]);
                }
            },
        }
    }
}

proof fn lemma_active_index_is(history: Seq<VersionView>, i: int)
    requires
        0 <= i < history.len(),
        history[i].status is Active,
        forall|j: int| 0 <= j < i ==> !((#[trigger] history[j]).status is Active),
    ensures
        active_index(history) == Some(i),
{
    lemma_active_index(history);
}

proof fn lemma_no_active_index(history: Seq<VersionView>)
    requires
        forall|j: int| 0 <= j < history.len() ==> !((#[trigger] history[j]).status is Active),
    ensures
        active_index(history) is None,
{
    lemma_active_index(history);
}

fn is_active(status: &SourceStatus) -> (r: bool)
    ensures
        r == (status@ is Active),
{
    match status {
        SourceStatus::Active => true,
        _ => false,
    }
}

/// The first snapshot that is active.
pub fn find_active(history: &Vec<SourceVersion>) -> (r: Option<usize>)
    ensures
        match r {
            Some(i) => i < history@.len() && active_index(views(history@)) == Some(i as int),
            None => active_index(views(history@)) is None,
        },
{
    let mut i: usize = 0;
    while i < history.len()
        invariant
            i <= history@.len(),
            forall|j: int| 0 <= j < i ==> !((#[trigger] views(history@)[j]).status is Active),
        decreases history@.len() - i,
    {
        if is_active(&history[i].status) {
            proof {
                assert(views(history@)[i as int].status is Active);
                lemma_active_index_is(views(history@), i as int);
            }
            return Some(i);
        }
        i += 1;
    }
    proof {
        lemma_no_active_index(views(history@));
    }
    None
}

impl SourceEntry {
    /// An entry from which nothing was ingested yet.
    pub fn new() -> (r: SourceEntry)
        ensures
            r@ == empty_entry(),
    {
        let r = SourceEntry { active_hash: None, compiled_hash: None, history: Vec::new() };
        assert(r@.history =~= seq![]);
        r
    }
}

impl Manifest {
    /// Whether no URI stands in the manifest twice.
    pub open spec fn wf(&self) -> bool {
        forall|i: int, j: int|
            #![trigger self.sources@[i], self.sources@[j]]
            0 <= i < self.sources@.len() && 0 <= j < self.sources@.len() && self.sources@[i].uri@
                == self.sources@[j].uri@ ==> i == j
    }

    /// Whether `uri` stands at position `i`.
    pub open spec fn stands_at(&self, uri: Seq<char>, i: int) -> bool {
        0 <= i < self.sources@.len() && self.sources@[i].uri@ == uri
    }
}

impl View for Manifest {
    type V = Map<Seq<char>, EntryView>;

    open spec fn view(&self) -> Map<Seq<char>, EntryView> {
        Map::new(
            |uri: Seq<char>| exists|i: int| #[trigger] self.stands_at(uri, i),
            |uri: Seq<char>|
                self.sources@[choose|i: int| #[trigger] self.stands_at(uri, i)].entry@,
        )
    }
}

impl Default for Manifest {
    fn default() -> (r: Manifest)
        ensures
            r.wf(),
            r@ == Map::<Seq<char>, EntryView>::empty(),
    {
        let r = Manifest { sources: Vec::new() };
        assert(r@ =~= Map::<Seq<char>, EntryView>::empty());
        r
    }
}

impl Manifest {
    proof fn lemma_at(&self, i: int)
        requires
            self.wf(),
            0 <= i < self.sources@.len(),
        ensures
            self@.contains_key(self.sources@[i].uri@),
            self@[self.sources@[i].uri@] == self.sources@[i].entry@,
    {
        let uri = self.sources@[i].uri@;
        assert(self.stands_at(uri, i));
        let c = choose|k: int| #[trigger] self.stands_at(uri, k);
        assert(self.stands_at(uri, c));
        assert(self.sources@[c].uri@ == self.sources@[i].uri@);
    }

    /// Where the source with this URI stands.
    fn find(&self, uri: &str) -> (r: Option<usize>)
        requires
            self.wf(),
        ensures
            match r {
                Some(i) => i < self.sources@.len() && self.sources@[i as int].uri@ == uri@
                    && self@.contains_key(uri@) && self@[uri@] == self.sources@[i as int].entry@,
                None => !self@.contains_key(uri@),
            },
    {
        let mut i: usize = 0;
        while i < self.sources.len()
            invariant
                self.wf(),
                i <= self.sources@.len(),
                forall|j: int| 0 <= j < i ==> (#[trigger] self.sources@[j]).uri@ != uri@,
            decreases self.sources@.len() - i,
        {
            if text_eq(self.sources[i].uri.as_str(), uri) {
                proof {
                    self.lemma_at(i as int);
                }
                return Some(i);
            }
            i += 1;
        }
        proof {
            assert forall|j: int| !self.stands_at(uri@, j) by {}
        }
        None
    }

    /// What is known of the source with this URI.
    pub fn entry(&self, uri: &str) -> (r: Option<&SourceEntry>)
        requires
            self.wf(),
        ensures
            match r {
                Some(e) => self@.contains_key(uri@) && e@ == self@[uri@],
                None => !self@.contains_key(uri@),
            },
    {
        match self.find(uri) {
            Some(i) => Some(&self.sources[i].entry),
            None => None,
        }
    }

    proof fn lemma_changed(before: Manifest, after: Manifest, i: int)
        requires
            before.wf(),
            0 <= i < before.sources@.len(),
            after.sources@.len() == before.sources@.len(),
            forall|j: int|
                0 <= j < before.sources@.len() ==> (#[trigger] after.sources@[j]).uri@
                    == before.sources@[j].uri@,
            forall|j: int|
                0 <= j < before.sources@.len() && j != i ==> (#[trigger] after.sources@[j])
                    == before.sources@[j],
        ensures
            after.wf(),
            before@.contains_key(before.sources@[i].uri@),
            before@[before.sources@[i].uri@] == before.sources@[i].entry@,
            after@ == before@.insert(before.sources@[i].uri@, after.sources@[i].entry@),
    {
        let uri = before.sources@[i].uri@;
        let goal = before@.insert(uri, after.sources@[i].entry@);
        before.lemma_at(i);
        assert forall|u: Seq<char>| #[trigger] after@.contains_key(u) <==> goal.contains_key(u) by {
            if after@.contains_key(u) {
                let c = choose|k: int| #[trigger] after.stands_at(u, k);
                assert(before.stands_at(u, c));
            }
            if before@.contains_key(u) {
                let c = choose|k: int| #[trigger] before.stands_at(u, k);
                assert(after.stands_at(u, c));
            }
        }
        assert forall|u: Seq<char>| #[trigger] after@.contains_key(u) implies after@[u]
            == goal[u] by {
            let c = choose|k: int| #[trigger] after.stands_at(u, k);
            after.lemma_at(c);
            before.lemma_at(c);
            if u == uri {
                assert(before.sources@[c].uri@ == before.sources@[i].uri@);
            }
        }
        assert(after@ =~= goal);
    }

    proof fn lemma_pushed(before: Manifest, after: Manifest, last: SourceRecord)
        requires
            before.wf(),
            !before@.contains_key(last.uri@),
            after.sources@ == before.sources@.push(last),
        ensures
            after.wf(),
            after@ == before@.insert(last.uri@, last.entry@),
    {
        let n = before.sources@.len() as int;
        let goal = before@.insert(last.uri@, last.entry@);
        assert forall|j: int| 0 <= j < n implies (#[trigger] before.sources@[j]).uri@
            != last.uri@ by {
            if before.sources@[j].uri@ == last.uri@ {
                assert(before.stands_at(last.uri@, j));
            }
        }
        assert(forall|j: int| 0 <= j < n ==> #[trigger] after.sources@[j] == before.sources@[j]);
        assert(after.wf());
        assert forall|u: Seq<char>| #[trigger] after@.contains_key(u) <==> goal.contains_key(u) by {
            if after@.contains_key(u) {
                let c = choose|k: int| #[trigger] after.stands_at(u, k);
                if c < n {
                    assert(before.stands_at(u, c));
                }
            }
            if before@.contains_key(u) {
                let c = choose|k: int| #[trigger] before.stands_at(u, k);
                assert(after.stands_at(u, c));
            }
            if u == last.uri@ {
                assert(after.stands_at(u, n));
            }
        }
        assert forall|u: Seq<char>| #[trigger] after@.contains_key(u) implies after@[u]
            == goal[u] by {
            let c = choose|k: int| #[trigger] after.stands_at(u, k);
            after.lemma_at(c);
            if c < n {
                before.lemma_at(c);
            }
        }
        assert(after@ =~= goal);
    }

    proof fn lemma_removed(before: Manifest, after: Manifest, i: int)
        requires
            before.wf(),
            0 <= i < before.sources@.len(),
            after.sources@ == before.sources@.remove(i),
        ensures
            after.wf(),
            after@ == before@.remove(before.sources@[i].uri@),
    {
        let uri = before.sources@[i].uri@;
        let goal = before@.remove(uri);
        assert forall|j: int| 0 <= j < after.sources@.len() implies #[trigger] after.sources@[j]
            == before.sources@[if j < i {
            j
        } else {
            j + 1
        }] by {}
        assert(after.wf());
        assert forall|u: Seq<char>| #[trigger] after@.contains_key(u) <==> goal.contains_key(u) by {
            if after@.contains_key(u) {
                let c = choose|k: int| #[trigger] after.stands_at(u, k);
                let d = if c < i {
                    c
                } else {
                    c + 1
                };
                assert(after.sources@[c] == before.sources@[d]);
                assert(before.stands_at(u, d));
                if u == uri {
                    assert(before.sources@[d].uri@ == before.sources@[i].uri@);
                }
            }
            if goal.contains_key(u) {
                let d = choose|k: int| #[trigger] before.stands_at(u, k);
                let c = if d < i {
                    d
                } else {
                    d - 1
                };
                assert(after.sources@[c] == before.sources@[d]);
                assert(after.stands_at(u, c));
            }
        }
        assert forall|u: Seq<char>| #[trigger] after@.contains_key(u) implies after@[u]
            == goal[u] by {
            let c = choose|k: int| #[trigger] after.stands_at(u, k);
            let d = if c < i {
                c
            } else {
                c + 1
            };
            assert(after.sources@[c] == before.sources@[d]);
            after.lemma_at(c);
            before.lemma_at(d);
        }
        assert(after@ =~= goal);
    }

    /// Puts `entry` under `uri`, in place of what stood there.
    pub fn put(&mut self, uri: &str, entry: SourceEntry)
        requires
            old(self).wf(),
        ensures
            final(self).wf(),
            final(self)@ == old(self)@.insert(uri@, entry@),
    {
        let ghost before = *self;
        match self.find(uri) {
            Some(i) => {
                self.sources[i].entry = entry;
                proof {
                    Self::lemma_changed(before, *self, i as int);
                }
            },
            None => {
                let record = SourceRecord { uri: uri.to_string(), entry };
                let ghost last = record;
                self.sources.push(record);
                proof {
                    Self::lemma_pushed(before, *self, last);
                }
            },
        }
    }

    /// The raw id of the active snapshot of `uri`.
    pub fn get_active_raw_id(&self, uri: &str) -> (r: Option<&str>)
        requires
            self.wf(),
        ensures
            match r {
                Some(id) => self@.contains_key(uri@) && (match active_index(self@[uri@].history) {
                    Some(i) => id@ == self@[uri@].history[i].raw_id,
                    None => false,
                }),
                None => self@.contains_key(uri@) ==> active_index(self@[uri@].history) is None,
            },
    {
        match self.find(uri) {
            Some(i) => match find_active(&self.sources[i].entry.history) {
                Some(j) => Some(self.sources[i].entry.history[j].raw_id.as_str()),
                None => None,
            },
            None => None,
        }
    }

    /// Records that content with this hash was ingested from `uri`. Where the
    /// content is that of the active snapshot nothing changes; else the active
    /// snapshot becomes superseded and a new active one is appended. No other
    /// part of the history is touched.
    pub fn record_ingest(
        &mut self,
        uri: &str,
        hash: &str,
        raw_id: &str,
        ingested_at: &str,
    ) -> (r: IngestOutcome)
        requires
            old(self).wf(),
        ensures
            final(self).wf(),
            ({
                let entry = if old(self)@.contains_key(uri@) {
                    old(self)@[uri@]
                } else {
                    empty_entry()
                };
                &&& r@ == ingest_outcome(entry, hash@, raw_id@)
                &&& final(self)@ == old(self)@.insert(
                    uri@,
                    ingested(entry, hash@, raw_id@, ingested_at@),
                )
            }),
    {
        let ghost before = *self;
        match self.find(uri) {
            Some(i) => {
                let r = ingest_into(&mut self.sources[i].entry, hash, raw_id, ingested_at);
                proof {
                    Self::lemma_changed(before, *self, i as int);
                }
                r
            },
            None => {
                let mut entry = SourceEntry::new();
                let r = ingest_into(&mut entry, hash, raw_id, ingested_at);
                let record = SourceRecord { uri: uri.to_string(), entry };
                let ghost last = record;
                self.sources.push(record);
                proof {
                    Self::lemma_pushed(before, *self, last);
                }
                r
            },
        }
    }

    /// Soft delete: the active snapshot of `uri` becomes tombstoned and no hash
    /// is active any more. The history stays, and so does the raw blob.
    pub fn tombstone(&mut self, uri: &str, reason: &str, at: &str) -> (r: Result<
        (),
        TombstoneError,
    >)
        requires
            old(self).wf(),
        ensures
            final(self).wf(),
            match r {
                Ok(_) => old(self)@.contains_key(uri@) && active_index(old(self)@[uri@].history)
                    is Some && final(self)@ == old(self)@.insert(
                    uri@,
                    tombstoned(old(self)@[uri@], reason@, at@),
                ),
                Err(TombstoneError::UnknownSource) => !old(self)@.contains_key(uri@) && final(self)@ == old(self)@,
                Err(TombstoneError::NoActiveVersion) => old(self)@.contains_key(uri@)
                    && active_index(old(self)@[uri@].history) is None && final(self)@ == old(self)@,
            },
    {
        let ghost before = *self;
        let i: usize = match self.find(uri) {
            Some(i) => i,
            None => {
                return Err(TombstoneError::UnknownSource);
            },
        };
        let j: usize = match find_active(&self.sources[i].entry.history) {
            Some(j) => j,
            None => {
                return Err(TombstoneError::NoActiveVersion);
            },
        };
        let ghost old_history = self.sources@[i as int].entry.history@;
        self.sources[i].entry.history[j].status = SourceStatus::Tombstoned {
            reason: reason.to_string(),
            tombstoned_at: at.to_string(),
        };
        self.sources[i].entry.active_hash = None;
        proof {
            let e = self.sources@[i as int].entry;
            assert(e@.history =~= with_status(
                views(old_history),
                j as int,
                StatusView::Tombstoned { reason: reason@, tombstoned_at: at@ },
            ));
            Self::lemma_changed(before, *self, i as int);
        }
        Ok(())
    }

    /// Hard delete: takes out everything known of `uri` and hands it back, so
    /// that the caller knows which raw blobs to unlink.
    pub fn purge(&mut self, uri: &str) -> (r: Option<SourceEntry>)
        requires
            old(self).wf(),
        ensures
            final(self).wf(),
            final(self)@ == old(self)@.remove(uri@),
            match r {
                Some(entry) => old(self)@.contains_key(uri@) && entry@ == old(self)@[uri@],
                None => !old(self)@.contains_key(uri@),
            },
    {
        let ghost before = *self;
        match self.find(uri) {
            Some(i) => {
                let record = self.sources.remove(i);
                proof {
                    Self::lemma_removed(before, *self, i as int);
                }
                Some(record.entry)
            },
            None => {
                assert(before@.remove(uri@) =~= before@);
                None
            },
        }
    }

    /// Marks what is active of `uri` as compiled. Called only once every
    /// operation of its compile was applied. Where nothing of it is active, nothing
    /// changes.
    pub fn mark_compiled(&mut self, uri: &str)
        requires
            old(self).wf(),
        ensures
            final(self).wf(),
            final(self)@ == (if old(self)@.contains_key(uri@) && old(self)@[uri@].active_hash
                is Some {
                old(self)@.insert(uri@, marked_compiled(old(self)@[uri@]))
            } else {
                old(self)@
            }),
    {
        let ghost before = *self;
        match self.find(uri) {
            Some(i) => {
                if self.sources[i].entry.active_hash.is_some() {
                    let hash = copy_opt(&self.sources[i].entry.active_hash);
                    self.sources[i].entry.compiled_hash = hash;
                    proof {
                        Self::lemma_changed(before, *self, i as int);
                    }
                }
            },
            None => {},
        }
    }

    /// Whether `uri` is compiled at the hash that is active now.
    pub fn is_compiled_at_current_hash(&self, uri: &str) -> (r: bool)
        requires
            self.wf(),
        ensures
            r == (self@.contains_key(uri@) && compiled_now(self@[uri@])),
    {
        match self.find(uri) {
            Some(i) => {
                let entry = &self.sources[i].entry;
                entry.compiled_hash.is_some() && opt_text_eq(
                    &entry.compiled_hash,
                    &entry.active_hash,
                )
            },
            None => false,
        }
    }

    /// Remembers where the raw blob of a snapshot of `uri` stands.
    pub fn record_raw_path(&mut self, uri: &str, raw_id: &str, path: String)
        requires
            old(self).wf(),
        ensures
            final(self).wf(),
            final(self)@ == (if old(self)@.contains_key(uri@) {
                old(self)@.insert(
                    uri@,
                    EntryView {
                        history: with_raw_path(old(self)@[uri@].history, raw_id@, path@),
                        ..old(self)@[uri@]
                    },
                )
            } else {
                old(self)@
            }),
    {
        let ghost before = *self;
        match self.find(uri) {
            Some(i) => {
                set_raw_path(&mut self.sources[i].entry, raw_id, &path);
                proof {
                    Self::lemma_changed(before, *self, i as int);
                }
            },
            None => {},
        }
    }
}

/// The active snapshots of the sources in `listing`, each with its URI.
pub open spec fn active_of(listing: Seq<(Seq<char>, EntryView)>) -> Seq<(Seq<char>, VersionView)>
    decreases listing.len(),
{
    if listing.len() == 0 {
        seq![]
    } else {
        let rest = active_of(listing.drop_last());
        let (uri, entry) = listing.last();
        match active_index(entry.history) {
            Some(i) => rest.push((uri, entry.history[i])),
            None => rest,
        }
    }
}

/// The first path in `history` that is recorded for `raw_id`.
pub open spec fn path_in(history: Seq<VersionView>, raw_id: Seq<char>) -> Option<Seq<char>>
    decreases history.len(),
{
    if history.len() == 0 {
        None
    } else {
        match path_in(history.drop_last(), raw_id) {
            Some(path) => Some(path),
            None => if history.last().raw_id == raw_id {
                history.last().raw_path
            } else {
                None
            },
        }
    }
}

/// The first path in `listing` that is recorded for `raw_id`.
pub open spec fn path_among(listing: Seq<(Seq<char>, EntryView)>, raw_id: Seq<char>) -> Option<
    Seq<char>,
>
    decreases listing.len(),
{
    if listing.len() == 0 {
        None
    } else {
        match path_among(listing.drop_last(), raw_id) {
            Some(path) => Some(path),
            None => path_in(listing.last().1.history, raw_id),
        }
    }
}

impl Manifest {
    /// The sources in the order in which they are kept.
    pub open spec fn listing(&self) -> Seq<(Seq<char>, EntryView)> {
        self.sources@.map_values(|r: SourceRecord| (r.uri@, r.entry@))
    }

    /// A manifest of these sources. Where a URI comes twice, the last one stands.
    pub fn from_records(records: Vec<SourceRecord>) -> (r: Manifest)
        ensures
            r.wf(),
            forall|uri: Seq<char>| #[trigger]
                r@.contains_key(uri) <==> exists|i: int|
                    0 <= i < records@.len() && (#[trigger] records@[i]).uri@ == uri,
            forall|i: int|
                0 <= i < records@.len() && (forall|j: int|
                    i < j < records@.len() ==> (#[trigger] records@[j]).uri@
                        != records@[i].uri@) ==> r@[(#[trigger] records@[i]).uri@]
                    == records@[i].entry@,
    {
        let ghost all = records@;
        let mut r = Manifest { sources: Vec::new() };
        for record in it: records
            invariant
                it.seq() == all,
                r.wf(),
                forall|uri: Seq<char>| #[trigger]
                    r@.contains_key(uri) <==> exists|i: int|
                        0 <= i < it.index() && (#[trigger] all[i]).uri@ == uri,
                forall|i: int|
                    0 <= i < it.index() && (forall|j: int|
                        i < j < it.index() ==> (#[trigger] all[j]).uri@ != all[i].uri@)
                        ==> r@[(#[trigger] all[i]).uri@] == all[i].entry@,
        {
            let ghost before = r@;
            let ghost k = it.index();
            let ghost uri = record.uri@;
            r.put(record.uri.as_str(), record.entry);
            proof {
                assert(all[k].uri@ == uri);
                assert forall|u: Seq<char>| #[trigger] r@.contains_key(u) implies exists|i: int|
                    0 <= i < k + 1 && (#[trigger] all[i]).uri@ == u by {
                    if u == uri {
                        assert(all[k].uri@ == u);
                    } else {
                        assert(before.contains_key(u));
                        let i = choose|i: int| 0 <= i < k && (#[trigger] all[i]).uri@ == u;
                        assert(all[i].uri@ == u);
                    }
                }
                assert forall|i: int|
                    0 <= i < k + 1 && (forall|j: int|
                        i < j < k + 1 ==> (#[trigger] all[j]).uri@ != all[i].uri@) implies r@[(
                #[trigger] all[i]).uri@] == all[i].entry@ by {
                    if i < k {
                        assert(all[k].uri@ != all[i].uri@);
                        assert(before[all[i].uri@] == all[i].entry@);
                    }
                }
            }
        }
        r
    }

    /// Every source that has an active snapshot, with that snapshot: what a
    /// compile or a reindex reads.
    pub fn active_entries(&self) -> (r: Vec<(&str, &SourceVersion)>)
        ensures
            r@.map_values(|p: (&str, &SourceVersion)| (p.0@, p.1@)) == active_of(self.listing()),
    {
        let mut out: Vec<(&str, &SourceVersion)> = Vec::new();
        let ghost seen = |p: (&str, &SourceVersion)| (p.0@, p.1@);
        let mut i: usize = 0;
        while i < self.sources.len()
            invariant
                i <= self.sources@.len(),
                seen == (|p: (&str, &SourceVersion)| (p.0@, p.1@)),
                out@.map_values(seen) == active_of(self.listing().take(i as int)),
            decreases self.sources@.len() - i,
        {
            let ghost before = out@;
            proof {
                let now = self.listing().take(i + 1);
                assert(now.drop_last() =~= self.listing().take(i as int));
                assert(now.last() == (
                    self.sources@[i as int].uri@,
                    self.sources@[i as int].entry@,
                ));
            }
            let record = &self.sources[i];
            match find_active(&record.entry.history) {
                Some(j) => {
                    let version = &record.entry.history[j];
                    out.push((record.uri.as_str(), version));
                    proof {
                        assert(out@.map_values(seen) =~= before.map_values(seen).push(
                            (record.uri@, version@),
                        ));
                    }
                },
                None => {},
            }
            i += 1;
        }
        assert(self.listing().take(self.sources@.len() as int) =~= self.listing());
        out
    }

    /// The path that is recorded for the raw blob `raw_id`.
    pub fn raw_path_for(&self, raw_id: &str) -> (r: Option<&str>)
        ensures
            (match r {
                Some(path) => Some(path@),
                None => None,
            }) == path_among(self.listing(), raw_id@),
    {
        let mut i: usize = 0;
        while i < self.sources.len()
            invariant
                i <= self.sources@.len(),
                path_among(self.listing().take(i as int), raw_id@) is None,
            decreases self.sources@.len() - i,
        {
            let history = &self.sources[i].entry.history;
            proof {
                let now = self.listing().take(i + 1);
                assert(now.drop_last() =~= self.listing().take(i as int));
                assert(now.last().1.history == views(history@));
            }
            let mut j: usize = 0;
            while j < history.len()
                invariant
                    i < self.sources@.len(),
                    *history == self.sources@[i as int].entry.history,
                    path_among(self.listing().take(i as int), raw_id@) is None,
                    j <= history@.len(),
                    path_in(views(history@).take(j as int), raw_id@) is None,
                decreases history@.len() - j,
            {
                proof {
                    let now = views(history@).take(j + 1);
                    assert(now.drop_last() =~= views(history@).take(j as int));
                    assert(now.last() == history@[j as int]@);
                }
                if text_eq(history[j].raw_id.as_str(), raw_id) {
                    match &history[j].raw_path {
                        Some(path) => {
                            proof {
                                lemma_path_in_front(views(history@), j + 1, raw_id@);
                                let now = self.listing().take(i + 1);
                                assert(now.drop_last() =~= self.listing().take(i as int));
                                assert(now.last().1.history == views(history@));
                                lemma_path_among_front(self.listing(), i + 1, raw_id@);
                            }
                            return Some(path.as_str());
                        },
                        None => {},
                    }
                }
                j += 1;
            }
            assert(views(history@).take(history@.len() as int) =~= views(history@));
            i += 1;
        }
        assert(self.listing().take(self.sources@.len() as int) =~= self.listing());
        None
    }
}

proof fn lemma_path_in_front(history: Seq<VersionView>, k: int, raw_id: Seq<char>)
    requires
        0 <= k <= history.len(),
        path_in(history.take(k), raw_id) is Some,
    ensures
        path_in(history, raw_id) == path_in(history.take(k), raw_id),
    decreases history.len(),
{
    if k < history.len() {
        assert(history.drop_last().take(k) =~= history.take(k));
        lemma_path_in_front(history.drop_last(), k, raw_id);
    } else {
        assert(history.take(k) =~= history);
    }
}

proof fn lemma_path_among_front(listing: Seq<(Seq<char>, EntryView)>, k: int, raw_id: Seq<char>)
    requires
        0 <= k <= listing.len(),
        path_among(listing.take(k), raw_id) is Some,
    ensures
        path_among(listing, raw_id) == path_among(listing.take(k), raw_id),
    decreases listing.len(),
{
    if k < listing.len() {
        assert(listing.drop_last().take(k) =~= listing.take(k));
        lemma_path_among_front(listing.drop_last(), k, raw_id);
    } else {
        assert(listing.take(k) =~= listing);
    }
}

fn ingest_into(entry: &mut SourceEntry, hash: &str, raw_id: &str, ingested_at: &str) -> (r:
    IngestOutcome)
    ensures
        r@ == ingest_outcome(old(entry)@, hash@, raw_id@),
        final(entry)@ == ingested(old(entry)@, hash@, raw_id@, ingested_at@),
{
    let ghost before = *entry;
    let same: bool = match &entry.active_hash {
        Some(h) => text_eq(h.as_str(), hash),
        None => false,
    };
    if same {
        return IngestOutcome::NoOp;
    }
    let found = find_active(&entry.history);
    let previous: Option<String> = match found {
        Some(j) => {
            entry.history[j].status = SourceStatus::Superseded { by_raw_id: raw_id.to_string() };
            proof {
                assert(views(entry.history@) =~= with_status(
                    views(before.history@),
                    j as int,
                    StatusView::Superseded { by_raw_id: raw_id@ },
                ));
            }
            Some(entry.history[j].raw_id.clone())
        },
        None => if entry.history.len() > 0 {
            let last: usize = entry.history.len() - 1;
            Some(entry.history[last].raw_id.clone())
        } else {
            None
        },
    };
    let ghost middle = entry.history@;
    let version = SourceVersion {
        raw_id: raw_id.to_string(),
        hash: hash.to_string(),
        ingested_at: ingested_at.to_string(),
        status: SourceStatus::Active,
        raw_path: None,
    };
    let ghost what = version@;
    entry.history.push(version);
    entry.active_hash = Some(hash.to_string());
    proof {
        assert(views(entry.history@) =~= views(middle).push(what));
        assert(entry@ =~= ingested(before@, hash@, raw_id@, ingested_at@));
    }
    match previous {
        Some(previous_raw_id) => IngestOutcome::Superseded {
            raw_id: raw_id.to_string(),
            previous_raw_id,
        },
        None => IngestOutcome::New { raw_id: raw_id.to_string() },
    }
}

fn set_raw_path(entry: &mut SourceEntry, raw_id: &str, path: &String)
    ensures
        final(entry)@ == (EntryView {
            history: with_raw_path(old(entry)@.history, raw_id@, path@),
            ..old(entry)@
        }),
{
    let ghost before = *entry;
    let n: usize = entry.history.len();
    let mut j: usize = 0;
    while j < n
        invariant
            j <= n == entry.history@.len(),
            n == before.history@.len(),
            entry.active_hash == before.active_hash,
            entry.compiled_hash == before.compiled_hash,
            forall|k: int|
                0 <= k < j ==> (#[trigger] entry.history@[k])@ == with_raw_path(
                    before@.history,
                    raw_id@,
                    path@,
                )[k],
            forall|k: int| j <= k < n ==> #[trigger] entry.history@[k] == before.history@[k],
        decreases n - j,
    {
        if text_eq(entry.history[j].raw_id.as_str(), raw_id) {
            entry.history[j].raw_path = Some(path.clone());
        }
        j += 1;
    }
    proof {
        assert(views(entry.history@) =~= with_raw_path(before@.history, raw_id@, path@));
    }
}

// ---------------------------------------------------------------------------
// Laws
// ---------------------------------------------------------------------------

/// Ingesting the same content again changes nothing and reports so.
pub proof fn law_reingest_of_the_same_content_changes_nothing(
    entry: EntryView,
    hash: Seq<char>,
    raw_id: Seq<char>,
    at: Seq<char>,
    later: Seq<char>,
)
    ensures
        ({
            let once = ingested(entry, hash, raw_id, at);
            ingested(once, hash, raw_id, later) == once && ingest_outcome(once, hash, raw_id)
                is NoOp
        }),
{
}

/// An ingest keeps the whole history: it appends at most one snapshot, and of
/// those that were there it changes nothing but the status of the active one.
pub proof fn law_ingest_only_appends(
    entry: EntryView,
    hash: Seq<char>,
    raw_id: Seq<char>,
    at: Seq<char>,
)
    ensures
        ({
            let after = ingested(entry, hash, raw_id, at);
            &&& entry.history.len() <= after.history.len() <= entry.history.len() + 1
            &&& after.compiled_hash == entry.compiled_hash
            &&& forall|i: int|
                0 <= i < entry.history.len() ==> {
                    let was = entry.history[i];
                    let is = #[trigger] after.history[i];
                    is == VersionView { status: is.status, ..was } && (is.status == was.status || (
                    was.status is Active && is.status == StatusView::Superseded {
                        by_raw_id: raw_id,
                    }))
                }
        }),
{
    lemma_active_index(entry.history);
}

/// Nothing ingested is coherent, and ingesting, tombstoning and marking keep it
/// so: at most one snapshot is ever active and the active hash is its hash.
pub proof fn law_entries_stay_coherent(
    entry: EntryView,
    hash: Seq<char>,
    raw_id: Seq<char>,
    reason: Seq<char>,
    at: Seq<char>,
)
    requires
        coherent(entry),
    ensures
        coherent(empty_entry()),
        coherent(ingested(entry, hash, raw_id, at)),
        coherent(tombstoned(entry, reason, at)),
        coherent(marked_compiled(entry)),
{
    lemma_active_index(entry.history);
    assert(coherent(ingested(entry, hash, raw_id, at))) by {
        let after = ingested(entry, hash, raw_id, at);
        if entry.active_hash != Some(hash) {
            let n = entry.history.len() as int;
            assert forall|j: int| 0 <= j < n implies !((#[trigger] after.history[j]).status
                is Active) by {
                if entry.history[j].status is Active {
                    match active_index(entry.history) {
                        Some(i) => {
                            assert(entry.history[i].status is Active);
                        },
                        None => {},
                    }
                }
            }
            lemma_active_index_is(after.history, n);
        }
    }
    assert(coherent(tombstoned(entry, reason, at))) by {
        let after = tombstoned(entry, reason, at);
        if active_index(entry.history) is Some {
            let i = active_index(entry.history)->0;
            assert forall|j: int| 0 <= j < after.history.len() implies !((
            #[trigger] after.history[j]).status is Active) by {
                if j != i && entry.history[j].status is Active {
                    assert(entry.history[i].status is Active);
                }
            }
            lemma_no_active_index(after.history);
        }
    }
}

/// After an ingest of new content its snapshot, and no other, is the active one.
pub proof fn law_ingested_content_is_active(
    entry: EntryView,
    hash: Seq<char>,
    raw_id: Seq<char>,
    at: Seq<char>,
)
    requires
        coherent(entry),
        entry.active_hash != Some(hash),
    ensures
        ({
            let after = ingested(entry, hash, raw_id, at);
            &&& active_index(after.history) == Some(after.history.len() - 1)
            &&& after.history.last().raw_id == raw_id
            &&& after.history.last().hash == hash
        }),
{
    law_entries_stay_coherent(entry, hash, raw_id, seq![], at);
    let after = ingested(entry, hash, raw_id, at);
    lemma_active_index(after.history);
    let n = after.history.len() - 1;
    assert(after.history[n].status is Active);
    let i = active_index(after.history)->0;
    assert(after.history[i].status is Active);
}

/// A tombstoned source has no active snapshot, and every snapshot it had is still
/// there.
pub proof fn law_tombstoned_is_inactive(entry: EntryView, reason: Seq<char>, at: Seq<char>)
    requires
        coherent(entry),
    ensures
        active_index(tombstoned(entry, reason, at).history) is None,
        tombstoned(entry, reason, at).active_hash is None,
        tombstoned(entry, reason, at).history.len() == entry.history.len(),
        forall|i: int|
            0 <= i < entry.history.len() ==> (#[trigger] tombstoned(
                entry,
                reason,
                at,
            ).history[i]).raw_id == entry.history[i].raw_id,
{
    lemma_active_index(entry.history);
    let after = tombstoned(entry, reason, at);
    if active_index(entry.history) is Some {
        let i = active_index(entry.history)->0;
        assert forall|j: int| 0 <= j < after.history.len() implies !((
        #[trigger] after.history[j]).status is Active) by {
            if j != i && entry.history[j].status is Active {
                assert(entry.history[i].status is Active);
            }
        }
        lemma_no_active_index(after.history);
    }
}

/// A source marked as compiled counts as compiled as long as something of it is
/// active, and an ingest of other content undoes that.
pub proof fn law_reingest_undoes_the_compiled_mark(
    entry: EntryView,
    hash: Seq<char>,
    raw_id: Seq<char>,
    at: Seq<char>,
)
    requires
        entry.active_hash != Some(hash),
    ensures
        ({
            let marked = marked_compiled(entry);
            &&& compiled_now(marked) == entry.active_hash is Some
            &&& entry.active_hash is Some ==> !compiled_now(ingested(marked, hash, raw_id, at))
        }),
{
}

/// An ingest is reported as the first one exactly if nothing was ingested before. A
/// tombstoned source keeps its history, so what comes back after it is no first one.
pub proof fn law_new_means_never_ingested(
    entry: EntryView,
    hash: Seq<char>,
    raw_id: Seq<char>,
    reason: Seq<char>,
    at: Seq<char>,
)
    requires
        coherent(entry),
    ensures
        ingest_outcome(entry, hash, raw_id) is New <==> entry.history.len() == 0,
        entry.history.len() > 0 ==> !(ingest_outcome(tombstoned(entry, reason, at), hash, raw_id)
            is New),
{
    lemma_active_index(entry.history);
    lemma_active_index(tombstoned(entry, reason, at).history);
}

/// Marking a source of which nothing is active changes nothing, so what it was last
/// compiled at outlives a tombstone.
pub proof fn law_marking_an_inactive_source_changes_nothing(
    entry: EntryView,
    reason: Seq<char>,
    at: Seq<char>,
)
    requires
        coherent(entry),
    ensures
        ({
            let gone = tombstoned(entry, reason, at);
            marked_compiled(gone) == gone && gone.compiled_hash == entry.compiled_hash
        }),
{
    law_tombstoned_is_inactive(entry, reason, at);
}

/// Every source of a manifest is listed with its entry, and under no URI is anything
/// listed twice.
pub proof fn lemma_listed(manifest: Manifest, row: (Seq<char>, EntryView))
    requires
        manifest.wf(),
    ensures
        manifest.listing().contains(row) <==> manifest@.contains_key(row.0) && manifest@[row.0]
            == row.1,
        forall|i: int, j: int|
            #![trigger manifest.listing()[i], manifest.listing()[j]]
            0 <= i < manifest.listing().len() && 0 <= j < manifest.listing().len() && i != j
                ==> manifest.listing()[i].0 != manifest.listing()[j].0,
{
    let listing = manifest.listing();
    if listing.contains(row) {
        let i = choose|i: int| 0 <= i < listing.len() && listing[i] == row;
        assert(manifest.stands_at(row.0, i));
        let j = choose|j: int| #[trigger] manifest.stands_at(row.0, j);
        assert(manifest.sources@[i].uri@ == manifest.sources@[j].uri@);
    }
    if manifest@.contains_key(row.0) && manifest@[row.0] == row.1 {
        let j = choose|j: int| #[trigger] manifest.stands_at(row.0, j);
        assert(listing[j] == row);
    }
    assert forall|i: int, j: int|
        #![trigger listing[i], listing[j]]
        0 <= i < listing.len() && 0 <= j < listing.len() && i != j implies listing[i].0
        != listing[j].0 by {
        assert(manifest.sources@[i].uri@ != manifest.sources@[j].uri@);
    }
}

/// Whether `version` is the first active snapshot in `history`.
pub open spec fn is_first_active(history: Seq<VersionView>, version: VersionView) -> bool {
    exists|i: int|
        0 <= i < history.len() && #[trigger] history[i] == version && history[i].status is Active
            && forall|j: int| 0 <= j < i ==> !((#[trigger] history[j]).status is Active)
}

pub proof fn lemma_first_active(history: Seq<VersionView>, version: VersionView)
    ensures
        is_first_active(history, version) <==> active_index(history) is Some
            && history[active_index(history)->0] == version,
{
    lemma_active_index(history);
    if is_first_active(history, version) {
        let i = choose|i: int|
            0 <= i < history.len() && #[trigger] history[i] == version && history[i].status
                is Active && forall|j: int|
                0 <= j < i ==> !((#[trigger] history[j]).status is Active);
        lemma_active_index_is(history, i);
    }
    if active_index(history) is Some {
        let k = active_index(history)->0;
        assert(history[k].status is Active);
    }
}

proof fn lemma_active_of(
    listing: Seq<(Seq<char>, EntryView)>,
    uri: Seq<char>,
    version: VersionView,
)
    ensures
        active_of(listing).contains((uri, version)) <==> exists|k: int|
            0 <= k < listing.len() && (#[trigger] listing[k]).0 == uri && is_first_active(
                listing[k].1.history,
                version,
            ),
        forall|i: int|
            0 <= i < active_of(listing).len() ==> exists|k: int|
                0 <= k < listing.len() && (#[trigger] listing[k]).0 == (#[trigger] active_of(
                    listing,
                )[i]).0,
        (forall|i: int, j: int|
            #![trigger listing[i], listing[j]]
            0 <= i < j < listing.len() ==> listing[i].0 != listing[j].0) ==> forall|i: int, j: int|
            #![trigger active_of(listing)[i], active_of(listing)[j]]
            0 <= i < j < active_of(listing).len() ==> active_of(listing)[i].0 != active_of(
                listing,
            )[j].0,
    decreases listing.len(),
{
    if listing.len() > 0 {
        let front = listing.drop_last();
        let rest = active_of(front);
        let all = active_of(listing);
        let n = listing.len() - 1;
        lemma_active_of(front, uri, version);
        lemma_first_active(listing[n].1.history, version);
        if rest.contains((uri, version)) {
            let m = choose|m: int| 0 <= m < rest.len() && rest[m] == (uri, version);
            assert(all[m] == (uri, version));
            let k = choose|k: int|
                0 <= k < front.len() && (#[trigger] front[k]).0 == uri && is_first_active(
                    front[k].1.history,
                    version,
                );
            assert(listing[k] == front[k]);
        }
        if listing[n].0 == uri && is_first_active(listing[n].1.history, version) {
            assert(all[rest.len() as int] == (uri, version));
        }
        if all.contains((uri, version)) && !rest.contains((uri, version)) {
            let m = choose|m: int| 0 <= m < all.len() && all[m] == (uri, version);
            if m < rest.len() {
                assert(rest[m] == (uri, version));
            }
        }
        if exists|k: int|
            0 <= k < listing.len() && (#[trigger] listing[k]).0 == uri && is_first_active(
                listing[k].1.history,
                version,
            ) {
            let k = choose|k: int|
                0 <= k < listing.len() && (#[trigger] listing[k]).0 == uri && is_first_active(
                    listing[k].1.history,
                    version,
                );
            if k < n {
                assert(front[k] == listing[k]);
            }
        }
        assert forall|i: int| 0 <= i < all.len() implies exists|k: int|
            0 <= k < listing.len() && (#[trigger] listing[k]).0 == (#[trigger] all[i]).0 by {
            if i < rest.len() {
                assert(all[i] == rest[i]);
                let k = choose|k: int|
                    0 <= k < front.len() && (#[trigger] front[k]).0 == rest[i].0;
                assert(listing[k] == front[k]);
            } else {
                assert(listing[n].0 == all[i].0);
            }
        }
        if forall|i: int, j: int|
            #![trigger listing[i], listing[j]]
            0 <= i < j < listing.len() ==> listing[i].0 != listing[j].0 {
            assert forall|i: int, j: int|
                #![trigger front[i], front[j]]
                0 <= i < j < front.len() implies front[i].0 != front[j].0 by {
                assert(listing[i].0 != listing[j].0);
            }
            assert forall|i: int, j: int|
                #![trigger all[i], all[j]]
                0 <= i < j < all.len() implies all[i].0 != all[j].0 by {
                assert(all[i] == rest[i]);
                if j < rest.len() {
                    assert(all[j] == rest[j]);
                } else {
                    let k = choose|k: int|
                        0 <= k < front.len() && (#[trigger] front[k]).0 == rest[i].0;
                    assert(listing[k] == front[k]);
                    assert(listing[k].0 != listing[n].0);
                }
            }
        }
    }
}

/// A snapshot is among the active ones exactly if it is the first active one in the
/// history of its source; no source has two among them.
pub proof fn law_active_entries_are_the_active_snapshots(
    manifest: Manifest,
    uri: Seq<char>,
    version: VersionView,
)
    requires
        manifest.wf(),
    ensures
        active_of(manifest.listing()).contains((uri, version)) <==> manifest@.contains_key(uri)
            && is_first_active(manifest@[uri].history, version),
        forall|i: int, j: int|
            #![trigger active_of(manifest.listing())[i], active_of(manifest.listing())[j]]
            0 <= i < j < active_of(manifest.listing()).len() ==> active_of(manifest.listing())[i].0
                != active_of(manifest.listing())[j].0,
{
    let listing = manifest.listing();
    lemma_active_of(listing, uri, version);
    if manifest@.contains_key(uri) {
        lemma_listed(manifest, (uri, manifest@[uri]));
        if is_first_active(manifest@[uri].history, version) {
            let k = choose|k: int| 0 <= k < listing.len() && listing[k] == (uri, manifest@[uri]);
            assert(listing[k].0 == uri);
        }
    }
    if exists|k: int|
        0 <= k < listing.len() && (#[trigger] listing[k]).0 == uri && is_first_active(
            listing[k].1.history,
            version,
        ) {
        let k = choose|k: int|
            0 <= k < listing.len() && (#[trigger] listing[k]).0 == uri && is_first_active(
                listing[k].1.history,
                version,
            );
        assert(listing.contains(listing[k]));
        lemma_listed(manifest, listing[k]);
    }
    lemma_listed(manifest, (uri, empty_entry()));
}

/// The snapshot that an ingest of other content appends says what was ingested and when,
/// and where its blob stands is not known yet.
pub proof fn law_new_snapshot_says_what_was_ingested(
    entry: EntryView,
    hash: Seq<char>,
    raw_id: Seq<char>,
    at: Seq<char>,
)
    requires
        entry.active_hash != Some(hash),
    ensures
        ({
            let after = ingested(entry, hash, raw_id, at);
            &&& after.history.len() == entry.history.len() + 1
            &&& after.history.last().raw_id == raw_id
            &&& after.history.last().hash == hash
            &&& after.history.last().ingested_at == at
            &&& after.history.last().status is Active
            &&& after.history.last().raw_path is None
            &&& after.active_hash == Some(hash)
        }),
{
    lemma_active_index(entry.history);
}

/// A tombstone marks the active snapshot, with the reason and the time, and no other.
pub proof fn law_tombstone_says_why_and_when(
    entry: EntryView,
    reason: Seq<char>,
    at: Seq<char>,
    i: int,
)
    requires
        coherent(entry),
        0 <= i < entry.history.len(),
    ensures
        ({
            let was = entry.history[i];
            let is = tombstoned(entry, reason, at).history[i];
            is == (if was.status is Active {
                VersionView {
                    status: StatusView::Tombstoned { reason, tombstoned_at: at },
                    ..was
                }
            } else {
                was
            })
        }),
        tombstoned(entry, reason, at).compiled_hash == entry.compiled_hash,
{
    lemma_active_index(entry.history);
}

proof fn lemma_path_in(history: Seq<VersionView>, raw_id: Seq<char>)
    ensures
        match path_in(history, raw_id) {
            Some(path) => exists|i: int|
                0 <= i < history.len() && (#[trigger] history[i]).raw_id == raw_id
                    && history[i].raw_path == Some(path),
            None => forall|i: int|
                0 <= i < history.len() && (#[trigger] history[i]).raw_id == raw_id
                    ==> history[i].raw_path is None,
        },
    decreases history.len(),
{
    if history.len() > 0 {
        let front = history.drop_last();
        lemma_path_in(front, raw_id);
        if path_in(front, raw_id) is Some {
            let path = path_in(front, raw_id)->0;
            let i = choose|i: int|
                0 <= i < front.len() && (#[trigger] front[i]).raw_id == raw_id
                    && front[i].raw_path == Some(path);
            assert(history[i] == front[i]);
        } else {
            assert forall|i: int|
                0 <= i < history.len() - 1 && (
                #[trigger] history[i]).raw_id == raw_id implies history[i].raw_path is None by {
                assert(front[i] == history[i]);
            }
            assert(history[history.len() - 1] == history.last());
        }
    }
}

/// A path is found for a raw id exactly if some snapshot with that raw id has one, and it
/// is the path of such a snapshot.
pub proof fn law_recorded_paths_are_found(
    listing: Seq<(Seq<char>, EntryView)>,
    raw_id: Seq<char>,
)
    ensures
        match path_among(listing, raw_id) {
            Some(path) => exists|k: int, i: int|
                #![trigger listing[k].1.history[i]]
                0 <= k < listing.len() && 0 <= i < listing[k].1.history.len()
                    && listing[k].1.history[i].raw_id == raw_id
                    && listing[k].1.history[i].raw_path == Some(path),
            None => forall|k: int, i: int|
                #![trigger listing[k].1.history[i]]
                0 <= k < listing.len() && 0 <= i < listing[k].1.history.len()
                    && listing[k].1.history[i].raw_id == raw_id
                    ==> listing[k].1.history[i].raw_path is None,
        },
    decreases listing.len(),
{
    if listing.len() > 0 {
        let front = listing.drop_last();
        let n = listing.len() - 1;
        law_recorded_paths_are_found(front, raw_id);
        lemma_path_in(listing[n].1.history, raw_id);
        if path_among(front, raw_id) is Some {
            let path = path_among(front, raw_id)->0;
            let (k, i) = choose|k: int, i: int|
                #![trigger front[k].1.history[i]]
                0 <= k < front.len() && 0 <= i < front[k].1.history.len()
                    && front[k].1.history[i].raw_id == raw_id && front[k].1.history[i].raw_path
                    == Some(path);
            assert(listing[k].1.history[i] == front[k].1.history[i]);
        } else {
            assert forall|k: int, i: int|
                #![trigger listing[k].1.history[i]]
                0 <= k < n && 0 <= i < listing[k].1.history.len()
                    && listing[k].1.history[i].raw_id == raw_id implies listing[k].1.history[i].raw_path
                is None by {
                assert(front[k].1.history[i] == listing[k].1.history[i]);
            }
            if path_in(listing[n].1.history, raw_id) is Some {
                let path = path_in(listing[n].1.history, raw_id)->0;
                let h = listing[n].1.history;
                let i = choose|i: int|
                    0 <= i < h.len() && (#[trigger] h[i]).raw_id == raw_id && h[i].raw_path == Some(
                        path,
                    );
                assert(listing[n].1.history[i].raw_path == Some(path));
            }
        }
    }
}

/// Noting where a blob stands changes that of every snapshot with its raw id, and nothing
/// else.
pub proof fn law_noting_a_path_changes_nothing_else(
    history: Seq<VersionView>,
    raw_id: Seq<char>,
    path: Seq<char>,
    i: int,
)
    requires
        0 <= i < history.len(),
    ensures
        with_raw_path(history, raw_id, path).len() == history.len(),
        history[i].raw_id != raw_id ==> with_raw_path(history, raw_id, path)[i] == history[i],
        history[i].raw_id == raw_id ==> with_raw_path(history, raw_id, path)[i] == (VersionView {
            raw_path: Some(path),
            ..history[i]
        }),
{
}

/// An ingest says what it did: nothing, exactly if the content is active already; and else
/// which snapshot it replaced, the active one, or the last one where none is active.
pub proof fn law_an_ingest_says_which_snapshot_it_replaced(
    entry: EntryView,
    hash: Seq<char>,
    raw_id: Seq<char>,
    version: VersionView,
)
    ensures
        ingest_outcome(entry, hash, raw_id) is NoOp <==> entry.active_hash == Some(hash),
        entry.active_hash != Some(hash) && is_first_active(entry.history, version)
            ==> ingest_outcome(entry, hash, raw_id) == (OutcomeView::Superseded {
            raw_id,
            previous_raw_id: version.raw_id,
        }),
        entry.active_hash != Some(hash) && entry.history.len() > 0 && !(exists|v: VersionView|
            is_first_active(entry.history, v)) ==> ingest_outcome(entry, hash, raw_id) == (
        OutcomeView::Superseded { raw_id, previous_raw_id: entry.history.last().raw_id }),
{
    lemma_first_active(entry.history, version);
    lemma_active_index(entry.history);
    if active_index(entry.history) is Some {
        let v = entry.history[active_index(entry.history)->0];
        lemma_first_active(entry.history, v);
        assert(is_first_active(entry.history, v));
    }
}

/// An ingest of other content marks the snapshot that was active as replaced by the new one
/// and leaves every other snapshot as it is.
pub proof fn law_an_ingest_marks_what_it_replaced(
    entry: EntryView,
    hash: Seq<char>,
    raw_id: Seq<char>,
    at: Seq<char>,
    i: int,
)
    requires
        coherent(entry),
        entry.active_hash != Some(hash),
        0 <= i < entry.history.len(),
    ensures
        ingested(entry, hash, raw_id, at).history[i] == (if entry.history[i].status is Active {
            VersionView {
                status: StatusView::Superseded { by_raw_id: raw_id },
                ..entry.history[i]
            }
        } else {
            entry.history[i]
        }),
{
    lemma_active_index(entry.history);
}

} // verus!
