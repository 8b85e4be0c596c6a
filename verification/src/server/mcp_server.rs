//! The tools that clients call: what their arguments mean, the jobs that a client holds,
//! and what a tool answers.

use vstd::prelude::*;

use crate::order::{
    gathered, law_gathered_values_are_those_that_are_made, law_gathering_goes_value_by_value,
};
use crate::compiler::driver::{failures, CompileOptions, CompileReport};
use crate::compiler::link_fix::LinkFixStatus;
use crate::compiler::operations::CompileOperation;
use crate::compiler::synthesize::{StoredJob, StoredJobKind, SynthesizeJob};
use crate::table::{as_map, distinct, law_a_value_is_found_under_its_name, with_row, Table};
use crate::text::{has_text, join, joined, opt_view, text_eq, views};
use crate::validator::frontmatter::{PageFile, PageModel};
use crate::validator::rules::LintReport;
use crate::vault::vault_resolver::{sandbox_steps, sandboxed};
use crate::paths::{file_stem, path_under};

verus! {

// ---------------------------------------------------------------------------
// Arguments
// ---------------------------------------------------------------------------

#[derive(Debug)]
pub struct IngestArgs {
    /// A URL to fetch, or the path of a file to read.
    pub source: String,
    pub tags: Vec<String>,
    /// The name or the path of a vault.
    pub vault: Option<String>,
}

#[derive(Debug)]
pub struct CompileArgs {
    /// Whether only sources that are due are compiled; so unless said otherwise.
    pub diff: Option<bool>,
    pub model: Option<String>,
    /// The bits of a number in single precision.
    pub temperature_bits: Option<u32>,
    pub base_url_override: Option<String>,
    /// Whether findings of the check are repaired afterwards.
    pub fix: Option<bool>,
    pub concurrency: Option<usize>,
    pub vault: Option<String>,
}

#[derive(Debug)]
pub struct RebuildArgs {
    /// Whether every active source is compiled, not only those that are due.
    pub force: Option<bool>,
    pub model: Option<String>,
    /// The bits of a number in single precision.
    pub temperature_bits: Option<u32>,
    pub base_url_override: Option<String>,
    /// Whether findings of the check are repaired afterwards.
    pub fix: Option<bool>,
    pub concurrency: Option<usize>,
    pub vault: Option<String>,
}

#[derive(Debug)]
pub struct SynthesizeNextArgs {
    pub batch_size: usize,
    /// Whether only sources that are due are handed out; so unless said otherwise.
    pub diff: Option<bool>,
    pub vault: Option<String>,
}

#[derive(Debug)]
pub struct SynthesizeSubmitResult {
    /// The id of a job that was handed out.
    pub job_id: String,
    pub operations: Vec<CompileOperation>,
}

#[derive(Debug)]
pub struct SynthesizeSubmitArgs {
    pub results: Vec<SynthesizeSubmitResult>,
}

#[derive(Debug)]
pub struct ModelsArgs {
    pub provider: String,
    pub vault: Option<String>,
}

#[derive(Debug)]
pub struct LintArgs {
    /// Whether pages that nothing links to count too.
    pub strict: Option<bool>,
    /// Whether what can be repaired without a model is repaired first.
    pub fix: Option<bool>,
    pub vault: Option<String>,
}

#[derive(Debug)]
pub struct ReindexArgs {
    /// Whether the vectors are computed too.
    pub embeddings: Option<bool>,
    pub vault: Option<String>,
}

#[derive(Debug)]
pub struct SearchArgs {
    pub query: String,
    pub limit: usize,
    pub vault: Option<String>,
}

#[derive(Debug)]
pub struct DeleteArgs {
    pub source: String,
    /// Whether the raw blobs are removed for good.
    pub purge: Option<bool>,
    pub vault: Option<String>,
}

#[derive(Debug)]
pub struct ReadIndexArgs {
    pub vault: Option<String>,
}

#[derive(Debug)]
pub struct ReadConceptArgs {
    /// A page's slug, its legacy id, or its path in the vault.
    pub id_or_path: String,
    pub vault: Option<String>,
}

#[derive(Debug)]
pub struct ListVaultsArgs {}

/// How many jobs a client is handed at once, unless it says otherwise.
pub fn default_synthesize_batch_size() -> (r: usize)
    ensures
        r == 10,
{
    10
}

/// How many results a search gives, unless the client says otherwise.
pub fn default_search_limit() -> (r: usize)
    ensures
        r == 5,
{
    5
}

fn flag(value: Option<bool>, otherwise: bool) -> (r: bool)
    ensures
        r == (match value {
            Some(b) => b,
            None => otherwise,
        }),
{
    match value {
        Some(b) => b,
        None => otherwise,
    }
}

impl SynthesizeNextArgs {
    /// How many jobs are handed out at most: at least one and no more than fifty.
    pub fn effective_batch_size(&self) -> (r: usize)
        ensures
            r == (if self.batch_size < 1 {
                1
            } else if self.batch_size > 50 {
                50
            } else {
                self.batch_size
            }),
    {
        if self.batch_size < 1 {
            1
        } else if self.batch_size > 50 {
            50
        } else {
            self.batch_size
        }
    }

    /// Whether only sources that are due are handed out.
    pub fn diff_only(&self) -> (r: bool)
        ensures
            r == (self.diff != Some(false)),
    {
        flag(self.diff, true)
    }
}

impl CompileArgs {
    /// Whether only sources that are due are compiled.
    pub fn diff_only(&self) -> (r: bool)
        ensures
            r == (self.diff != Some(false)),
    {
        flag(self.diff, true)
    }
}

impl RebuildArgs {
    /// Whether only sources that are due are compiled.
    pub fn diff_only(&self) -> (r: bool)
        ensures
            r == (self.force != Some(true)),
    {
        !flag(self.force, false)
    }
}

/// Options from the vault with those that a call names put over them. How many sources
/// are compiled at once is never taken from the vault.
pub fn apply_arg_overrides(
    options: CompileOptions,
    temperature_bits: Option<u32>,
    base_url_override: Option<String>,
    concurrency: Option<usize>,
) -> (r: CompileOptions)
    ensures
        r.temperature_bits == (if temperature_bits is Some {
            temperature_bits
        } else {
            options.temperature_bits
        }),
        r.base_url_override == (if base_url_override is Some {
            base_url_override
        } else {
            options.base_url_override
        }),
        r.concurrency == (match concurrency {
            Some(n) => n,
            None => 1,
        }),
        r.api_key_env_override == options.api_key_env_override,
        r.max_tokens == options.max_tokens,
{
    let mut options = options;
    if temperature_bits.is_some() {
        options.temperature_bits = temperature_bits;
    }
    if base_url_override.is_some() {
        options.base_url_override = base_url_override;
    }
    options.concurrency = match concurrency {
        Some(n) => n,
        None => 1,
    };
    options
}

// ---------------------------------------------------------------------------
// The jobs that a client holds
// ---------------------------------------------------------------------------

/// After how many milliseconds a job that was not handed in is dropped.
pub const SYNTHESIZE_JOB_TTL: u64 = 1_800_000;

/// How many jobs are kept at most when old ones are dropped.
pub const SYNTHESIZE_JOB_CAP: usize = 500;

/// Whether a job is still to be kept at the time `now`.
pub open spec fn is_fresh(job: StoredJob, now: u64) -> bool {
    now < job.created_at || now - job.created_at < SYNTHESIZE_JOB_TTL
}

/// The jobs that are still to be kept at the time `now`.
pub open spec fn fresh(rows: Seq<(Seq<char>, StoredJob)>, now: u64) -> Seq<(Seq<char>, StoredJob)>
    decreases rows.len(),
{
    if rows.len() == 0 {
        seq![]
    } else {
        let rest = fresh(rows.drop_last(), now);
        if is_fresh(rows.last().1, now) {
            rest.push(rows.last())
        } else {
            rest
        }
    }
}

/// The place of the oldest job, the first of them if there are several.
pub open spec fn oldest(rows: Seq<(Seq<char>, StoredJob)>) -> int
    decreases rows.len(),
{
    if rows.len() <= 1 {
        0
    } else {
        let best = oldest(rows.drop_last());
        if rows.last().1.created_at < rows[best].1.created_at {
            rows.len() - 1
        } else {
            best
        }
    }
}

/// `rows` without the oldest, one after the other, until they are few enough.
pub open spec fn capped(rows: Seq<(Seq<char>, StoredJob)>) -> Seq<(Seq<char>, StoredJob)>
    decreases rows.len(),
    via capped_decreases
{
    if rows.len() <= SYNTHESIZE_JOB_CAP {
        rows
    } else {
        capped(rows.remove(oldest(rows)))
    }
}

#[via_fn]
proof fn capped_decreases(rows: Seq<(Seq<char>, StoredJob)>) {
    if rows.len() > SYNTHESIZE_JOB_CAP {
        lemma_oldest(rows);
    }
}

proof fn lemma_oldest(rows: Seq<(Seq<char>, StoredJob)>)
    requires
        rows.len() > 0,
    ensures
        0 <= oldest(rows) < rows.len(),
        forall|i: int|
            0 <= i < rows.len() ==> rows[oldest(rows)].1.created_at <= (
            #[trigger] rows[i]).1.created_at,
    decreases rows.len(),
{
    if rows.len() > 1 {
        lemma_oldest(rows.drop_last());
        assert forall|i: int| 0 <= i < rows.len() implies rows[oldest(rows)].1.created_at <= (
        #[trigger] rows[i]).1.created_at by {
            if i < rows.len() - 1 {
                assert(rows.drop_last()[i] == rows[i]);
            }
        }
    }
}

proof fn lemma_capped(rows: Seq<(Seq<char>, StoredJob)>)
    ensures
        capped(rows).len() == (if rows.len() <= SYNTHESIZE_JOB_CAP {
            rows.len()
        } else {
            SYNTHESIZE_JOB_CAP as nat
        }),
        forall|k: int|
            0 <= k < capped(rows).len() ==> rows.contains(#[trigger] capped(rows)[k]),
        forall|i: int, k: int|
            0 <= i < rows.len() && !capped(rows).contains(#[trigger] rows[i]) && 0 <= k < capped(
                rows,
            ).len() ==> rows[i].1.created_at <= (#[trigger] capped(rows)[k]).1.created_at,
    decreases rows.len(),
{
    if rows.len() <= SYNTHESIZE_JOB_CAP {
        assert forall|i: int| 0 <= i < rows.len() implies rows.contains(#[trigger] rows[i]) by {}
    } else {
        lemma_oldest(rows);
        let o = oldest(rows);
        let rest = rows.remove(o);
        lemma_capped(rest);
        let all = capped(rows);
        assert(all == capped(rest));
        assert forall|x: (Seq<char>, StoredJob)| rest.contains(x) implies #[trigger] rows.contains(
            x,
        ) by {
            let k = choose|k: int| 0 <= k < rest.len() && rest[k] == x;
            if k < o {
                assert(rows[k] == x);
            } else {
                assert(rows[k + 1] == x);
            }
        }
        assert forall|k: int| 0 <= k < all.len() implies rows.contains(#[trigger] all[k]) by {
            assert(rest.contains(all[k]));
        }
        assert forall|i: int, k: int|
            0 <= i < rows.len() && !all.contains(#[trigger] rows[i]) && 0 <= k
                < all.len() implies rows[i].1.created_at <= (#[trigger] all[k]).1.created_at by {
            if i == o {
                assert(rows.contains(all[k]));
            } else if i < o {
                assert(rest[i] == rows[i]);
            } else {
                assert(rest[i - 1] == rows[i]);
            }
        }
    }
}

/// Dropping old jobs leaves no more than may be kept. Those that are dropped for their
/// number are as old as any that stay, or older.
pub proof fn law_eviction_keeps_the_newest(rows: Seq<(Seq<char>, StoredJob)>, now: u64)
    ensures
        ({
            let kept = capped(fresh(rows, now));
            &&& kept.len() <= SYNTHESIZE_JOB_CAP
            &&& forall|k: int| 0 <= k < kept.len() ==> is_fresh((#[trigger] kept[k]).1, now)
            &&& forall|i: int, k: int|
                0 <= i < fresh(rows, now).len() && !kept.contains(#[trigger] fresh(rows, now)[i])
                    && 0 <= k < kept.len() ==> fresh(rows, now)[i].1.created_at <= (
                #[trigger] kept[k]).1.created_at
        }),
{
    lemma_capped(fresh(rows, now));
    lemma_fresh(rows, now);
    let kept = capped(fresh(rows, now));
    assert forall|k: int| 0 <= k < kept.len() implies is_fresh((#[trigger] kept[k]).1, now) by {
        assert(fresh(rows, now).contains(kept[k]));
        let j = choose|j: int| 0 <= j < fresh(rows, now).len() && fresh(rows, now)[j] == kept[k];
        assert(is_fresh(fresh(rows, now)[j].1, now));
    }
}

proof fn lemma_fresh(rows: Seq<(Seq<char>, StoredJob)>, now: u64)
    ensures
        fresh(rows, now).len() <= rows.len(),
        forall|k: int|
            0 <= k < fresh(rows, now).len() ==> is_fresh((#[trigger] fresh(rows, now)[k]).1, now),
    decreases rows.len(),
{
    if rows.len() > 0 {
        lemma_fresh(rows.drop_last(), now);
        assert forall|k: int| 0 <= k < fresh(rows, now).len() implies is_fresh(
            (#[trigger] fresh(rows, now)[k]).1,
            now,
        ) by {
            let rest = fresh(rows.drop_last(), now);
            if k < rest.len() {
                assert(fresh(rows, now)[k] == rest[k]);
            }
        }
    }
}

fn find_oldest(jobs: &Table<StoredJob>) -> (r: usize)
    requires
        jobs.listing().len() > 0,
    ensures
        r == oldest(jobs.listing()),
        r < jobs.listing().len(),
{
    let ghost rows = jobs.listing();
    let n: usize = jobs.len();
    let mut best: usize = 0;
    let mut i: usize = 1;
    assert(rows.take(1).len() == 1);
    while i < n
        invariant
            rows == jobs.listing(),
            n == rows.len(),
            1 <= i <= n,
            best < i,
            best == oldest(rows.take(i as int)),
        decreases n - i,
    {
        proof {
            let now = rows.take(i + 1);
            assert(now.drop_last() =~= rows.take(i as int));
            assert(now.last() == rows[i as int]);
            assert(now[best as int] == rows[best as int]);
        }
        if jobs.value_at(i).created_at < jobs.value_at(best).created_at {
            best = i;
        }
        i += 1;
    }
    assert(rows.take(n as int) =~= rows);
    best
}

/// Drops the jobs that were not handed in for too long and, while there are too many,
/// the oldest.
pub fn evict_stale_and_excess_synthesize_jobs(jobs: &mut Table<StoredJob>, now: u64)
    ensures
        final(jobs).listing() == capped(fresh(old(jobs).listing(), now)),
{
    let ghost all = jobs.listing();
    let mut seen: usize = 0;
    let mut at: usize = 0;
    let n: usize = jobs.len();
    assert(all.take(0) =~= seq![]);
    assert(fresh(all.take(0), now) + all.skip(0) =~= all);
    while seen < n
        invariant
            n == all.len(),
            seen <= n,
            at <= seen,
            at == fresh(all.take(seen as int), now).len(),
            jobs.listing() == fresh(all.take(seen as int), now) + all.skip(seen as int),
        decreases n - seen,
    {
        let ghost before = fresh(all.take(seen as int), now);
        proof {
            let next = all.take(seen + 1);
            assert(next.drop_last() =~= all.take(seen as int));
            assert(next.last() == all[seen as int]);
            assert(jobs.listing()[at as int] == all[seen as int]);
        }
        let created: u64 = jobs.value_at(at).created_at;
        if now < created || now - created < SYNTHESIZE_JOB_TTL {
            proof {
                assert(before.push(all[seen as int]) + all.skip(seen + 1) =~= before + all.skip(
                    seen as int,
                ));
            }
            at += 1;
        } else {
            jobs.remove_at(at);
            proof {
                assert((before + all.skip(seen as int)).remove(at as int) =~= before + all.skip(
                    seen + 1,
                ));
            }
        }
        seen += 1;
    }
    proof {
        assert(all.take(n as int) =~= all);
        assert(fresh(all, now) + all.skip(n as int) =~= fresh(all, now));
    }
    while jobs.len() > SYNTHESIZE_JOB_CAP
        invariant
            capped(jobs.listing()) == capped(fresh(all, now)),
        decreases jobs.listing().len(),
    {
        let i = find_oldest(jobs);
        jobs.remove_at(i);
    }
}

/// What a client is working on.
#[derive(Debug)]
pub struct SynthesizeSession {
    pub jobs: Table<StoredJob>,
    /// The number of the next job.
    pub next_job: u64,
}

/// `rows` with the jobs of a batch put in.
pub open spec fn with_jobs(
    rows: Seq<(Seq<char>, StoredJob)>,
    batch: Seq<(SynthesizeJob, StoredJob)>,
) -> Seq<(Seq<char>, StoredJob)>
    decreases batch.len(),
{
    if batch.len() == 0 {
        rows
    } else {
        with_row(
            with_jobs(rows, batch.drop_last()),
            batch.last().0.job_id@,
            batch.last().1,
        )
    }
}

/// What is answered for one result that was handed in.
#[derive(Debug)]
pub enum SubmitStatus {
    Applied { touched_paths: Vec<String> },
    Error { error: String },
}

/// What is said of a job that is not there.
pub const UNKNOWN_JOB: &'static str = "job not found or expired";

/// What is done for a job whose result is handed in.
#[derive(Debug)]
pub struct PendingJob {
    pub vault_root: String,
    /// The source that is marked as compiled once the result is applied.
    pub compiles: Option<String>,
}

impl SynthesizeSession {
    /// A session without jobs.
    pub fn new() -> (r: SynthesizeSession)
        ensures
            r.jobs.listing().len() == 0,
            r.next_job == 1,
    {
        SynthesizeSession { jobs: Table::new(), next_job: 1 }
    }

    /// Takes note of the jobs that a client was handed; old jobs are dropped first.
    pub fn hand_out(&mut self, batch: Vec<(SynthesizeJob, StoredJob)>, now: u64)
        ensures
            final(self).jobs.listing() == with_jobs(
                capped(fresh(old(self).jobs.listing(), now)),
                batch@,
            ),
            final(self).next_job as int == (old(self).next_job + batch@.len())
                % 0x1_0000_0000_0000_0000,
    {
        evict_stale_and_excess_synthesize_jobs(&mut self.jobs, now);
        let ghost base = self.jobs.listing();
        let ghost all = batch@;
        let ghost first = self.next_job;
        assert(all.take(0) =~= seq![]);
        proof {
            vstd::arithmetic::div_mod::lemma_small_mod(first as nat, 0x1_0000_0000_0000_0000nat);
        }
        for item in it: batch
            invariant
                it.seq() == all,
                self.jobs.listing() == with_jobs(base, all.take(it.index())),
                self.next_job as int == (first + it.index()) % 0x1_0000_0000_0000_0000,
        {
            proof {
                let next = all.take(it.index() + 1);
                assert(next.drop_last() =~= all.take(it.index()));
                assert(next.last() == item);
                crate::compiler::synthesize::lemma_next_number(
                    first,
                    it.index() as nat,
                    self.next_job,
                );
            }
            self.jobs.insert(item.0.job_id.as_str(), item.1);
            self.next_job = self.next_job.wrapping_add(1);
        }
        assert(all.take(all.len() as int) =~= all);
    }

    /// The job whose result is handed in, unless it is not there any more; old jobs are
    /// dropped first. The job stays until its result is applied.
    pub fn look_up(&mut self, job_id: &str, now: u64) -> (r: Option<PendingJob>)
        ensures
            final(self).next_job == old(self).next_job,
            final(self).jobs.listing() == capped(fresh(old(self).jobs.listing(), now)),
            match r {
                Some(pending) => {
                    &&& final(self).jobs@.contains_key(job_id@)
                    &&& pending.vault_root@ == final(self).jobs@[job_id@].vault_root@
                    &&& opt_view(pending.compiles) == (match final(self).jobs@[job_id@].kind {
                        StoredJobKind::Compile { uri } => Some(uri@),
                        StoredJobKind::Fix { slug } => None,
                    })
                },
                None => !final(self).jobs@.contains_key(job_id@),
            },
    {
        evict_stale_and_excess_synthesize_jobs(&mut self.jobs, now);
        match self.jobs.get(job_id) {
            None => None,
            Some(job) => {
                let compiles: Option<String> = match &job.kind {
                    StoredJobKind::Compile { uri } => Some(uri.clone()),
                    StoredJobKind::Fix { slug } => None,
                };
                Some(PendingJob { vault_root: job.vault_root.clone(), compiles })
            },
        }
    }

    /// Takes note of what became of a result that was handed in: the paths that were
    /// touched, or why it could not be applied. A job whose result could not be applied
    /// is kept, so that the client can hand in a better one. `reindex` collects the
    /// vaults whose index has to be written again, each once.
    pub fn finish(
        &mut self,
        job_id: &str,
        vault_root: &str,
        outcome: Result<Vec<String>, String>,
        reindex: &mut Vec<String>,
    ) -> (r: SubmitStatus)
        ensures
            final(self).next_job == old(self).next_job,
            match outcome {
                Ok(paths) => {
                    &&& r == (SubmitStatus::Applied { touched_paths: paths })
                    &&& final(self).jobs@ == old(self).jobs@.remove(job_id@)
                    &&& views(final(reindex)@) == (if views(old(reindex)@).contains(vault_root@) {
                        views(old(reindex)@)
                    } else {
                        views(old(reindex)@).push(vault_root@)
                    })
                },
                Err(e) => {
                    &&& r == (SubmitStatus::Error { error: e })
                    &&& final(self).jobs == old(self).jobs
                    &&& *final(reindex) == *old(reindex)
                },
            },
    {
        match outcome {
            Ok(touched_paths) => {
                self.jobs.remove(job_id);
                if !has_text(reindex, vault_root) {
                    let ghost before = reindex@;
                    let root = vault_root.to_string();
                    reindex.push(root);
                    assert(views(reindex@) =~= views(before).push(vault_root@));
                }
                SubmitStatus::Applied { touched_paths }
            },
            Err(error) => SubmitStatus::Error { error },
        }
    }
}

/// What is answered for a job that is not there.
pub fn unknown_job() -> (r: SubmitStatus)
    ensures
        r is Error,
        r->error@ == UNKNOWN_JOB@,
{
    SubmitStatus::Error { error: UNKNOWN_JOB.to_string() }
}

// ---------------------------------------------------------------------------
// Pages
// ---------------------------------------------------------------------------

/// The first page, from position `from` on, with this slug.
pub open spec fn page_with_slug(pages: Seq<PageModel>, slug: Seq<char>, from: int) -> Option<
    Seq<char>,
>
    decreases pages.len() - from,
{
    if from < 0 || from >= pages.len() {
        None
    } else if pages[from].slug() == slug {
        Some(pages[from].path)
    } else {
        page_with_slug(pages, slug, from + 1)
    }
}

/// Whether a page declares this id, or the id that stands for this slug.
pub open spec fn declares(page: PageModel, id: Seq<char>) -> bool {
    match page.parsed {
        Ok(p) => p.frontmatter.id == Some(id) || p.frontmatter.id == Some("concept_"@ + id),
        Err(_) => false,
    }
}

/// The first page, from position `from` on, that declares this id.
pub open spec fn page_with_id(pages: Seq<PageModel>, id: Seq<char>, from: int) -> Option<Seq<char>>
    decreases pages.len() - from,
{
    if from < 0 || from >= pages.len() {
        None
    } else if declares(pages[from], id) {
        Some(pages[from].path)
    } else {
        page_with_id(pages, id, from + 1)
    }
}

/// The path of the page that is meant by a slug or a legacy id.
pub open spec fn named_page(pages: Seq<PageModel>, name: Seq<char>) -> Option<Seq<char>> {
    match page_with_slug(pages, name, 0) {
        Some(path) => Some(path),
        None => page_with_id(pages, name, 0),
    }
}

fn find_by_slug(pages: &Vec<PageFile>, slug: &str) -> (r: Option<String>)
    ensures
        opt_view(r) == page_with_slug(views(pages@), slug@, 0),
{
    let mut i: usize = 0;
    while i < pages.len()
        invariant
            i <= pages@.len(),
            page_with_slug(views(pages@), slug@, 0) == page_with_slug(
                views(pages@),
                slug@,
                i as int,
            ),
        decreases pages@.len() - i,
    {
        assert(views(pages@)[i as int] == pages@[i as int]@);
        let own = pages[i].slug();
        if text_eq(own.as_str(), slug) {
            return Some(pages[i].path.clone());
        }
        i += 1;
    }
    None
}

fn find_by_id(pages: &Vec<PageFile>, id: &str) -> (r: Option<String>)
    ensures
        opt_view(r) == page_with_id(views(pages@), id@, 0),
{
    let mut prefixed = "concept_".to_string();
    prefixed.append(id);
    let mut i: usize = 0;
    while i < pages.len()
        invariant
            i <= pages@.len(),
            prefixed@ == "concept_"@ + id@,
            page_with_id(views(pages@), id@, 0) == page_with_id(views(pages@), id@, i as int),
        decreases pages@.len() - i,
    {
        assert(views(pages@)[i as int] == pages@[i as int]@);
        let found: bool = match &pages[i].parsed {
            Ok(p) => match &p.frontmatter.id {
                Some(own) => text_eq(own.as_str(), id) || text_eq(own.as_str(), prefixed.as_str()),
                None => false,
            },
            Err(_) => false,
        };
        if found {
            return Some(pages[i].path.clone());
        }
        i += 1;
    }
    None
}

/// The vault-relative path of the page that `id_or_path` means: the file at that path in
/// the vault at `root`, else the page with that slug, else the page that declares it as
/// its id. `is_file` says whether there is a file at a path.
pub fn find_concept_path<F: Fn(&str) -> bool>(
    root: &str,
    id_or_path: &str,
    pages: &Vec<PageFile>,
    is_file: &F,
) -> (r: Result<String, String>)
    requires
        forall|p: &str| call_requires(*is_file, (p,)),
    ensures
        ({
            let otherwise = match named_page(views(pages@), id_or_path@) {
                Some(path) => r is Ok && r->Ok_0@ == path,
                None => r is Err && r->Err_0@ == "no wiki concept found for '"@ + id_or_path@
                    + "'"@,
            };
            match sandboxed(id_or_path@) {
                Err(_) => otherwise,
                Ok(at) => exists|p: &str, there: bool|
                    p@ == path_under(root@, at) && #[trigger] call_ensures(*is_file, (p,), there)
                        && if there {
                        r is Ok && r->Ok_0@ == joined(at, "/"@)
                    } else {
                        otherwise
                    },
            }
        }),
{
    match sandbox_steps(id_or_path) {
        Ok(at) => {
            let full = crate::vault::vault_resolver::under(root, &at);
            let there: bool = is_file(full.as_str());
            if there {
                return Ok(join(&at, "/"));
            }
        },
        Err(_) => {},
    }
    match find_by_slug(pages, id_or_path) {
        Some(path) => Ok(path),
        None => match find_by_id(pages, id_or_path) {
            Some(path) => Ok(path),
            None => {
                let mut s = "no wiki concept found for '".to_string();
                s.append(id_or_path);
                s.append("'");
                Err(s)
            },
        },
    }
}

// ---------------------------------------------------------------------------
// Answers
// ---------------------------------------------------------------------------

/// Whether a check counts as passed; if `strict`, only without pages that nothing links
/// to.
pub fn is_clean(report: &LintReport, strict: bool) -> (r: bool)
    ensures
        r == (!report.failed() && (!strict || report.orphan_pages@.len() == 0)),
{
    !report.has_errors() && (!strict || report.orphan_pages.len() == 0)
}

/// The numbers that a compile run is answered with.
#[derive(Debug)]
pub struct CompileSummary {
    pub sources_processed: usize,
    pub sources_failed: usize,
    pub clean: bool,
    pub broken_links: usize,
    pub missing_sources: usize,
    pub orphan_pages: usize,
}

/// The numbers that a compile run is answered with.
pub fn compile_summary(report: &CompileReport) -> (r: CompileSummary)
    ensures
        r.sources_failed == failures(views(report.sources@)),
        r.sources_processed == report.sources@.len() - r.sources_failed,
        r.clean == !report.lint_report.failed(),
        r.broken_links == report.lint_report.broken_links@.len(),
        r.missing_sources == report.lint_report.missing_sources@.len(),
        r.orphan_pages == report.lint_report.orphan_pages@.len(),
{
    CompileSummary {
        sources_processed: report.sources_processed(),
        sources_failed: report.sources_failed(),
        clean: !report.lint_report.has_errors(),
        broken_links: report.lint_report.broken_links.len(),
        missing_sources: report.lint_report.missing_sources.len(),
        orphan_pages: report.lint_report.orphan_pages.len(),
    }
}

/// What is answered for a page that was not there.
pub fn link_fix_status_text(status: &LinkFixStatus) -> (r: String)
    ensures
        r@ == (match status {
            LinkFixStatus::Synthesized => "synthesized"@,
            LinkFixStatus::SkippedNoSourceContext => "skipped_no_source_context"@,
            LinkFixStatus::Failed(e) => "failed: "@ + e@,
        }),
{
    match status {
        LinkFixStatus::Synthesized => "synthesized".to_string(),
        LinkFixStatus::SkippedNoSourceContext => "skipped_no_source_context".to_string(),
        LinkFixStatus::Failed(e) => {
            let mut s = "failed: ".to_string();
            s.append(e.as_str());
            s
        },
    }
}

/// What is repaired next after a compile run.
#[derive(Debug, Clone, Copy, PartialEq, Eq, Structural)]
pub enum FixStep {
    /// What can be repaired without a model.
    Mechanical,
    /// The pages that links lead to and that are not there.
    Links,
    Nothing,
}

/// What is repaired next: nothing, unless it was asked for; then what can be repaired
/// without a model; and then, if the check that follows still finds links that lead
/// nowhere, the pages they lead to. `after_mechanical` is that check, once it was made.
pub fn next_fix(fix: bool, after_mechanical: Option<&LintReport>) -> (r: FixStep)
    ensures
        r == (if !fix {
            FixStep::Nothing
        } else {
            match after_mechanical {
                None => FixStep::Mechanical,
                Some(lint) => if lint.broken_links@.len() > 0 {
                    FixStep::Links
                } else {
                    FixStep::Nothing
                },
            }
        }),
{
    if !fix {
        return FixStep::Nothing;
    }
    match after_mechanical {
        None => FixStep::Mechanical,
        Some(lint) => if lint.broken_links.len() > 0 {
            FixStep::Links
        } else {
            FixStep::Nothing
        },
    }
}

// ---------------------------------------------------------------------------
// Laws
// ---------------------------------------------------------------------------

proof fn lemma_fresh_rows(rows: Seq<(Seq<char>, StoredJob)>, now: u64)
    ensures
        fresh(rows, now) == gathered(
            rows,
            |row: (Seq<char>, StoredJob)|
                if is_fresh(row.1, now) {
                    Some(row)
                } else {
                    None
                },
        ),
    decreases rows.len(),
{
    if rows.len() > 0 {
        lemma_fresh_rows(rows.drop_last(), now);
    }
}

/// A job is dropped for its age exactly if it was handed out half an hour ago or earlier;
/// the others stay in their order, and none of them is dropped as long as there are not more
/// than may be kept.
pub proof fn law_jobs_stay_for_half_an_hour(
    rows: Seq<(Seq<char>, StoredJob)>,
    more: Seq<(Seq<char>, StoredJob)>,
    row: (Seq<char>, StoredJob),
    now: u64,
)
    ensures
        fresh(rows, now).contains(row) <==> rows.contains(row) && now < row.1.created_at
            + 30 * 60 * 1000,
        fresh(rows + more, now) == fresh(rows, now) + fresh(more, now),
        rows.len() <= 500 ==> capped(fresh(rows, now)) == fresh(rows, now),
{
    let f = |row: (Seq<char>, StoredJob)|
        if is_fresh(row.1, now) {
            Some(row)
        } else {
            None
        };
    lemma_fresh_rows(rows, now);
    lemma_fresh_rows(more, now);
    lemma_fresh_rows(rows + more, now);
    law_gathering_goes_value_by_value(rows, more, row, f);
    law_gathered_values_are_those_that_are_made(rows, f, row);
    lemma_fresh(rows, now);
    if fresh(rows, now).contains(row) {
        let i = choose|i: int| 0 <= i < rows.len() && f(#[trigger] rows[i]) == Some(row);
        assert(rows[i] == row);
    }
    if rows.contains(row) && is_fresh(row.1, now) {
        let i = choose|i: int| 0 <= i < rows.len() && rows[i] == row;
        assert(f(rows[i]) == Some(row));
    }
}

/// Every job that is handed out is there afterwards under its id, and no job under another
/// id changes.
pub proof fn law_jobs_that_are_handed_out_are_kept(
    rows: Seq<(Seq<char>, StoredJob)>,
    batch: Seq<(SynthesizeJob, StoredJob)>,
    i: int,
    id: Seq<char>,
)
    requires
        distinct(rows),
        forall|a: int, b: int|
            #![trigger batch[a], batch[b]]
            0 <= a < b < batch.len() ==> batch[a].0.job_id@ != batch[b].0.job_id@,
    ensures
        distinct(with_jobs(rows, batch)),
        0 <= i < batch.len() ==> as_map(with_jobs(rows, batch)).contains_key(batch[i].0.job_id@)
            && as_map(with_jobs(rows, batch))[batch[i].0.job_id@] == batch[i].1,
        (forall|a: int| 0 <= a < batch.len() ==> (#[trigger] batch[a]).0.job_id@ != id) ==> (
        as_map(with_jobs(rows, batch)).contains_key(id) <==> as_map(rows).contains_key(id)) && (
        as_map(rows).contains_key(id) ==> as_map(with_jobs(rows, batch))[id] == as_map(rows)[id]),
    decreases batch.len(),
{
    if batch.len() > 0 {
        let front = batch.drop_last();
        let last = batch.last();
        assert forall|a: int, b: int|
            #![trigger front[a], front[b]]
            0 <= a < b < front.len() implies front[a].0.job_id@ != front[b].0.job_id@ by {
            assert(batch[a].0.job_id@ != batch[b].0.job_id@);
        }
        law_jobs_that_are_handed_out_are_kept(rows, front, i, id);
        law_a_value_is_found_under_its_name(with_jobs(rows, front), last.0.job_id@, last.1);
        if 0 <= i < front.len() {
            assert(front[i] == batch[i]);
            assert(batch[i].0.job_id@ != batch[batch.len() - 1].0.job_id@);
        }
        if forall|a: int| 0 <= a < batch.len() ==> (#[trigger] batch[a]).0.job_id@ != id {
            assert(batch[batch.len() - 1].0.job_id@ != id);
            assert forall|a: int| 0 <= a < front.len() implies (
            #[trigger] front[a]).0.job_id@ != id by {
                assert(batch[a].0.job_id@ != id);
            }
        }
    }
}

proof fn lemma_page_with_slug(pages: Seq<PageModel>, slug: Seq<char>, from: int)
    requires
        0 <= from,
    ensures
        match page_with_slug(pages, slug, from) {
            Some(path) => exists|i: int|
                from <= i < pages.len() && (#[trigger] pages[i]).path == path && file_stem(
                    pages[i].path,
                ) == slug && forall|j: int|
                    from <= j < i ==> file_stem((#[trigger] pages[j]).path) != slug,
            None => forall|j: int|
                from <= j < pages.len() ==> file_stem((#[trigger] pages[j]).path) != slug,
        },
    decreases pages.len() - from,
{
    if from < pages.len() {
        if pages[from].slug() == slug {
            assert(pages[from].path == page_with_slug(pages, slug, from)->0);
        } else {
            lemma_page_with_slug(pages, slug, from + 1);
            if page_with_slug(pages, slug, from) is Some {
                let path = page_with_slug(pages, slug, from)->0;
                let i = choose|i: int|
                    from + 1 <= i < pages.len() && (#[trigger] pages[i]).path == path && file_stem(
                        pages[i].path,
                    ) == slug && forall|j: int|
                        from + 1 <= j < i ==> file_stem((#[trigger] pages[j]).path) != slug;
                assert(pages[i].path == path);
            }
        }
    }
}

proof fn lemma_page_with_id(pages: Seq<PageModel>, id: Seq<char>, from: int)
    requires
        0 <= from,
    ensures
        match page_with_id(pages, id, from) {
            Some(path) => exists|i: int|
                from <= i < pages.len() && (#[trigger] pages[i]).path == path && declares(
                    pages[i],
                    id,
                ) && forall|j: int| from <= j < i ==> !declares(#[trigger] pages[j], id),
            None => forall|j: int| from <= j < pages.len() ==> !declares(#[trigger] pages[j], id),
        },
    decreases pages.len() - from,
{
    if from < pages.len() {
        if declares(pages[from], id) {
            assert(pages[from].path == page_with_id(pages, id, from)->0);
        } else {
            lemma_page_with_id(pages, id, from + 1);
            if page_with_id(pages, id, from) is Some {
                let path = page_with_id(pages, id, from)->0;
                let i = choose|i: int|
                    from + 1 <= i < pages.len() && (#[trigger] pages[i]).path == path && declares(
                        pages[i],
                        id,
                    ) && forall|j: int| from + 1 <= j < i ==> !declares(#[trigger] pages[j], id);
                assert(pages[i].path == path);
            }
        }
    }
}

/// A name means the first page whose file goes by it; where no file does, the first page
/// that can be read and declares it as its id, with or without `concept_` in front; and
/// otherwise nothing.
pub proof fn law_a_name_means_a_file_name_and_then_an_id(pages: Seq<PageModel>, name: Seq<char>)
    ensures
        named_page(pages, name) is Some <==> exists|i: int|
            0 <= i < pages.len() && (file_stem((#[trigger] pages[i]).path) == name || (
            pages[i].parsed is Ok && (pages[i].parsed->Ok_0.frontmatter.id == Some(name)
                || pages[i].parsed->Ok_0.frontmatter.id == Some("concept_"@ + name)))),
        (exists|i: int| 0 <= i < pages.len() && file_stem((#[trigger] pages[i]).path) == name)
            ==> exists|i: int|
            0 <= i < pages.len() && file_stem((#[trigger] pages[i]).path) == name && named_page(
                pages,
                name,
            ) == Some(pages[i].path) && forall|j: int|
                0 <= j < i ==> file_stem((#[trigger] pages[j]).path) != name,
{
    lemma_page_with_slug(pages, name, 0);
    lemma_page_with_id(pages, name, 0);
    if page_with_slug(pages, name, 0) is Some {
        let path = page_with_slug(pages, name, 0)->0;
        let i = choose|i: int|
            0 <= i < pages.len() && (#[trigger] pages[i]).path == path && file_stem(pages[i].path)
                == name && forall|j: int|
                0 <= j < i ==> file_stem((#[trigger] pages[j]).path) != name;
        assert(file_stem(pages[i].path) == name);
    } else if page_with_id(pages, name, 0) is Some {
        let path = page_with_id(pages, name, 0)->0;
        let i = choose|i: int|
            0 <= i < pages.len() && (#[trigger] pages[i]).path == path && declares(pages[i], name);
        assert(pages[i].parsed is Ok);
    } else {
        assert forall|i: int| 0 <= i < pages.len() implies !(file_stem((#[trigger] pages[i]).path)
            == name || (pages[i].parsed is Ok && (pages[i].parsed->Ok_0.frontmatter.id == Some(
            name,
        ) || pages[i].parsed->Ok_0.frontmatter.id == Some("concept_"@ + name)))) by {
            assert(!declares(pages[i], name));
        }
    }
}

} // verus!
