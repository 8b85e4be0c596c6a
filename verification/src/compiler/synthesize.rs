//! Work for a client that has a model of its own: it is handed the same prompts that a
//! model would be asked, and hands back what its model made of them.

use vstd::prelude::*;

use crate::compiler::driver::{
    is_prompt_for, previous_raw_id, prompt_for_source, select_sources, selected,
    superseded_raw_id, PromptError,
};
use crate::compiler::link_fix::{
    group_broken_links_by_slug, link_fix_job, missing_pages, pages_at, synthesis_prompt,
    MissingPage, MissingView,
};
use crate::compiler::prompts::WikiPageRef;
use crate::ingest::frontmatter::RawFile;
use crate::manifest::model::Manifest;
use crate::order::{gathered, law_gathered_values_are_those_that_are_made};
use crate::text::{decimal, decimal_text, lemma_decimal_injective, views};
use crate::validator::frontmatter::{PageFile, PageModel};
use crate::validator::rules::{is_lint_of, lint_bundle, LintError, LintReport};

verus! {

#[derive(Debug, Clone, Copy, PartialEq, Eq, Structural)]
pub enum JobKind {
    Compile,
    Fix,
}

impl JobKind {
    pub fn as_str(self) -> (r: &'static str)
        ensures
            r@ == (match self {
                JobKind::Compile => "compile"@,
                JobKind::Fix => "fix"@,
            }),
    {
        match self {
            JobKind::Compile => "compile",
            JobKind::Fix => "fix",
        }
    }
}

/// A piece of work that a client is handed.
#[derive(Debug)]
pub struct SynthesizeJob {
    pub job_id: String,
    pub kind: JobKind,
    /// What a model would be asked.
    pub prompt: String,
}

/// What a job is about.
#[derive(Debug)]
pub enum StoredJobKind {
    Compile { uri: String },
    Fix { slug: String },
}

/// What is kept of a job until its result is handed in.
#[derive(Debug)]
pub struct StoredJob {
    pub vault_root: String,
    pub kind: StoredJobKind,
    /// When the job was handed out, in milliseconds.
    pub created_at: u64,
}

/// A page that no job is made for.
#[derive(Debug)]
pub struct SkippedFix {
    pub slug: String,
    pub reason: &'static str,
}

/// The work that a client is handed at once.
#[derive(Debug)]
pub struct NextBatch {
    /// `compile` while sources are pending, `fix` when none are but links lead nowhere,
    /// `done` when neither is so.
    pub phase: &'static str,
    pub jobs: Vec<(SynthesizeJob, StoredJob)>,
    pub skipped: Vec<SkippedFix>,
    /// How much work of this phase is left after the batch.
    pub remaining_estimate: usize,
}

/// Why there is no batch.
#[derive(Debug)]
pub enum BatchError {
    Prompt(PromptError),
    Lint(LintError),
}

/// The number that stands in the id of the `i`th job, counting from `first` and
/// beginning at zero again after the last number.
pub open spec fn job_number(first: u64, i: nat) -> nat {
    (first as nat + i) % 0x1_0000_0000_0000_0000
}

/// The id of the `i`th job.
pub open spec fn job_id(first: u64, i: nat) -> Seq<char> {
    "job-"@ + decimal(job_number(first, i))
}

/// How many of `available` go into a batch. A batch holds at least one.
pub open spec fn batch_len(available: nat, batch_size: nat) -> nat {
    let size = if batch_size < 1 {
        1
    } else {
        batch_size
    };
    if available < size {
        available
    } else {
        size
    }
}

fn batch_take(available: usize, batch_size: usize) -> (r: usize)
    ensures
        r == batch_len(available as nat, batch_size as nat),
        r <= available,
{
    let size: usize = if batch_size < 1 {
        1
    } else {
        batch_size
    };
    if available < size {
        available
    } else {
        size
    }
}

fn make_job_id(number: u64) -> (r: String)
    ensures
        r@ == "job-"@ + decimal(number as nat),
{
    let mut s = "job-".to_string();
    let digits = decimal_text(number);
    s.append(digits.as_str());
    s
}

/// Counting on by one.
pub proof fn lemma_next_number(first: u64, i: nat, at: u64)
    requires
        at == job_number(first, i),
    ensures
        at.wrapping_add(1) == job_number(first, i + 1),
{
    let m: int = 0x1_0000_0000_0000_0000;
    let x = first as int + i;
    vstd::arithmetic::div_mod::lemma_add_mod_noop(x, 1, m);
    vstd::arithmetic::div_mod::lemma_small_mod(1, m as nat);
    if at == u64::MAX {
        assert((at + 1) % m == 0) by (nonlinear_arith)
            requires
                at == u64::MAX,
                m == 0x1_0000_0000_0000_0000,
        ;
    } else {
        vstd::arithmetic::div_mod::lemma_small_mod((at + 1) as nat, m as nat);
    }
}

// ---------------------------------------------------------------------------
// Sources to compile
// ---------------------------------------------------------------------------

/// Whether `job` is that of the source at position `i` of the batch.
pub open spec fn is_compile_job<F: Fn(&str) -> Result<Vec<WikiPageRef>, String>>(
    job: (SynthesizeJob, StoredJob),
    source: (Seq<char>, Seq<char>),
    manifest: Manifest,
    files: Seq<RawFile>,
    search: F,
    id: Seq<char>,
    root: Seq<char>,
    now: u64,
) -> bool {
    &&& job.0.job_id@ == id
    &&& job.0.kind is Compile
    &&& is_prompt_for(
        root,
        manifest,
        files,
        source.1,
        previous_raw_id(manifest@, source.0),
        search,
        Ok(job.0.prompt@),
    )
    &&& job.1.vault_root@ == root
    &&& job.1.kind is Compile
    &&& job.1.kind->uri@ == source.0
    &&& job.1.created_at == now
}

/// Whether a prompt may be made for a source.
pub open spec fn has_prompt<F: Fn(&str) -> Result<Vec<WikiPageRef>, String>>(
    root: Seq<char>,
    manifest: Manifest,
    files: Seq<RawFile>,
    source: (Seq<char>, Seq<char>),
    search: F,
) -> bool {
    exists|prompt: Seq<char>| #[trigger]
        is_prompt_for(
            root,
            manifest,
            files,
            source.1,
            previous_raw_id(manifest@, source.0),
            search,
            Ok(prompt),
        )
}

/// The jobs for the first `take` of `sources`, or why the first that cannot be prepared
/// cannot.
fn compile_jobs<F: Fn(&str) -> Result<Vec<WikiPageRef>, String>>(
    sources: &Vec<(String, String)>,
    take: usize,
    manifest: &Manifest,
    files: &Vec<RawFile>,
    search: &F,
    first_job: u64,
    root: &str,
    now: u64,
) -> (r: Result<Vec<(SynthesizeJob, StoredJob)>, PromptError>)
    requires
        manifest.wf(),
        take <= sources@.len(),
        forall|q: &str| call_requires(*search, (q,)),
    ensures
        match r {
            Ok(jobs) => {
                &&& jobs@.len() == take
                &&& forall|i: int|
                    0 <= i < take ==> is_compile_job(
                        #[trigger] jobs@[i],
                        views(sources@)[i],
                        *manifest,
                        files@,
                        *search,
                        job_id(first_job, i as nat),
                        root@,
                        now,
                    )
            },
            Err(e) => exists|i: int|
                {
                    &&& 0 <= i < take
                    &&& is_prompt_for(
                        root@,
                        *manifest,
                        files@,
                        (#[trigger] views(sources@)[i]).1,
                        previous_raw_id(manifest@, views(sources@)[i].0),
                        *search,
                        Err(e),
                    )
                    &&& forall|j: int|
                        0 <= j < i ==> has_prompt(
                            root@,
                            *manifest,
                            files@,
                            #[trigger] views(sources@)[j],
                            *search,
                        )
                },
        },
{
    let mut jobs: Vec<(SynthesizeJob, StoredJob)> = Vec::new();
    let mut number: u64 = first_job;
    let mut i: usize = 0;
    proof {
        vstd::arithmetic::div_mod::lemma_small_mod(first_job as nat, 0x1_0000_0000_0000_0000nat);
    }
    while i < take
        invariant
            manifest.wf(),
            i <= take <= sources@.len(),
            forall|q: &str| call_requires(*search, (q,)),
            number == job_number(first_job, i as nat),
            jobs@.len() == i,
            forall|k: int|
                0 <= k < i ==> is_compile_job(
                    #[trigger] jobs@[k],
                    views(sources@)[k],
                    *manifest,
                    files@,
                    *search,
                    job_id(first_job, k as nat),
                    root@,
                    now,
                ),
        decreases take - i,
    {
        let ghost source = views(sources@)[i as int];
        assert(source == sources@[i as int]@);
        let superseded = superseded_raw_id(manifest, sources[i].0.as_str());
        let superseded_id: Option<&str> = match &superseded {
            Some(id) => Some(id.as_str()),
            None => None,
        };
        match prompt_for_source(
            root,
            manifest,
            files,
            sources[i].1.as_str(),
            superseded_id,
            search,
        ) {
            Err(e) => {
                proof {
                    assert forall|j: int| 0 <= j < i implies has_prompt(
                        root@,
                        *manifest,
                        files@,
                        #[trigger] views(sources@)[j],
                        *search,
                    ) by {
                        assert(is_prompt_for(
                            root@,
                            *manifest,
                            files@,
                            views(sources@)[j].1,
                            previous_raw_id(manifest@, views(sources@)[j].0),
                            *search,
                            Ok(jobs@[j].0.prompt@),
                        ));
                    }
                }
                return Err(e);
            },
            Ok(prompt) => {
                let job = SynthesizeJob {
                    job_id: make_job_id(number),
                    kind: JobKind::Compile,
                    prompt,
                };
                let stored = StoredJob {
                    vault_root: root.to_string(),
                    kind: StoredJobKind::Compile { uri: sources[i].0.clone() },
                    created_at: now,
                };
                jobs.push((job, stored));
            },
        }
        proof {
            lemma_next_number(first_job, i as nat, number);
        }
        number = number.wrapping_add(1);
        i += 1;
    }
    Ok(jobs)
}

// ---------------------------------------------------------------------------
// Pages to fill in
// ---------------------------------------------------------------------------

/// A job to fill in a page, before it has an id.
pub struct FixJobView {
    pub slug: Seq<char>,
    pub prompt: Seq<char>,
}

/// The jobs for the pages that are not there: those for which there is a source to go
/// by.
pub open spec fn fix_jobs(
    missing: Seq<MissingView>,
    pages: Seq<PageModel>,
    manifest: Manifest,
    files: Seq<RawFile>,
) -> Seq<FixJobView>
    decreases missing.len(),
{
    if missing.len() == 0 {
        seq![]
    } else {
        let rest = fix_jobs(missing.drop_last(), pages, manifest, files);
        let page = missing.last();
        match synthesis_prompt(page.slug, pages_at(pages, page.referencing), manifest, files) {
            Some(prompt) => rest.push(FixJobView { slug: page.slug, prompt }),
            None => rest,
        }
    }
}

/// The pages that are not there and for which there is no source to go by.
pub open spec fn without_source(
    missing: Seq<MissingView>,
    pages: Seq<PageModel>,
    manifest: Manifest,
    files: Seq<RawFile>,
) -> Seq<Seq<char>>
    decreases missing.len(),
{
    if missing.len() == 0 {
        seq![]
    } else {
        let rest = without_source(missing.drop_last(), pages, manifest, files);
        let page = missing.last();
        if synthesis_prompt(page.slug, pages_at(pages, page.referencing), manifest, files) is None {
            rest.push(page.slug)
        } else {
            rest
        }
    }
}

/// Whether `job` is the one that `fix` describes.
pub open spec fn is_fix_job(
    job: (SynthesizeJob, StoredJob),
    fix: FixJobView,
    id: Seq<char>,
    root: Seq<char>,
    now: u64,
) -> bool {
    &&& job.0.job_id@ == id
    &&& job.0.kind is Fix
    &&& job.0.prompt@ == fix.prompt
    &&& job.1.vault_root@ == root
    &&& job.1.kind is Fix
    &&& job.1.kind->slug@ == fix.slug
    &&& job.1.created_at == now
}

/// Whether `jobs` and `skipped` are what becomes of the pages `missing`.
pub open spec fn is_fix_batch(
    jobs: Seq<(SynthesizeJob, StoredJob)>,
    skipped: Seq<SkippedFix>,
    missing: Seq<MissingView>,
    pages: Seq<PageModel>,
    manifest: Manifest,
    files: Seq<RawFile>,
    first_job: u64,
    root: Seq<char>,
    now: u64,
) -> bool {
    let fixes = fix_jobs(missing, pages, manifest, files);
    let left_out = without_source(missing, pages, manifest, files);
    &&& jobs.len() == fixes.len()
    &&& forall|i: int|
        0 <= i < jobs.len() ==> is_fix_job(
            #[trigger] jobs[i],
            fixes[i],
            job_id(first_job, i as nat),
            root,
            now,
        )
    &&& skipped.len() == left_out.len()
    &&& forall|i: int|
        0 <= i < skipped.len() ==> (#[trigger] skipped[i]).slug@ == left_out[i]
            && skipped[i].reason@ == "no_source_context"@
}

fn fix_batch(
    missing: &Vec<MissingPage>,
    take: usize,
    pages: &Vec<PageFile>,
    manifest: &Manifest,
    files: &Vec<RawFile>,
    first_job: u64,
    root: &str,
    now: u64,
) -> (r: (Vec<(SynthesizeJob, StoredJob)>, Vec<SkippedFix>))
    requires
        take <= missing@.len(),
    ensures
        is_fix_batch(
            r.0@,
            r.1@,
            views(missing@).take(take as int),
            views(pages@),
            *manifest,
            files@,
            first_job,
            root@,
            now,
        ),
{
    let mut jobs: Vec<(SynthesizeJob, StoredJob)> = Vec::new();
    let mut skipped: Vec<SkippedFix> = Vec::new();
    let mut number: u64 = first_job;
    let mut i: usize = 0;
    proof {
        vstd::arithmetic::div_mod::lemma_small_mod(first_job as nat, 0x1_0000_0000_0000_0000nat);
        assert(views(missing@).take(0) =~= seq![]);
    }
    while i < take
        invariant
            i <= take <= missing@.len(),
            number == job_number(first_job, jobs@.len()),
            is_fix_batch(
                jobs@,
                skipped@,
                views(missing@).take(i as int),
                views(pages@),
                *manifest,
                files@,
                first_job,
                root@,
                now,
            ),
        decreases take - i,
    {
        proof {
            let next = views(missing@).take(i + 1);
            assert(next.drop_last() =~= views(missing@).take(i as int));
            assert(next.last() == missing@[i as int]@);
        }
        match link_fix_job(&missing[i], pages, manifest, files) {
            None => {
                skipped.push(
                    SkippedFix { slug: missing[i].slug.clone(), reason: "no_source_context" },
                );
            },
            Some(prompt) => {
                let job = SynthesizeJob {
                    job_id: make_job_id(number),
                    kind: JobKind::Fix,
                    prompt,
                };
                let stored = StoredJob {
                    vault_root: root.to_string(),
                    kind: StoredJobKind::Fix { slug: missing[i].slug.clone() },
                    created_at: now,
                };
                proof {
                    lemma_next_number(first_job, jobs@.len(), number);
                }
                jobs.push((job, stored));
                number = number.wrapping_add(1);
            },
        }
        i += 1;
    }
    (jobs, skipped)
}

// ---------------------------------------------------------------------------
// A batch
// ---------------------------------------------------------------------------

/// Whether `batch` hands out compile jobs for the first of `sources`.
pub open spec fn is_compile_batch<F: Fn(&str) -> Result<Vec<WikiPageRef>, String>>(
    batch: NextBatch,
    sources: Seq<(Seq<char>, Seq<char>)>,
    batch_size: nat,
    manifest: Manifest,
    files: Seq<RawFile>,
    search: F,
    first_job: u64,
    root: Seq<char>,
    now: u64,
) -> bool {
    let take = batch_len(sources.len(), batch_size);
    &&& batch.phase@ == "compile"@
    &&& batch.jobs@.len() == take
    &&& forall|i: int|
        0 <= i < take ==> is_compile_job(
            #[trigger] batch.jobs@[i],
            sources[i],
            manifest,
            files,
            search,
            job_id(first_job, i as nat),
            root,
            now,
        )
    &&& batch.skipped@.len() == 0
    &&& batch.remaining_estimate == sources.len() - take
}

/// Whether `batch` hands out jobs for the pages that `lint` finds missing, or says that
/// there is nothing left to do.
pub open spec fn is_repair_batch(
    batch: NextBatch,
    lint: LintReport,
    batch_size: nat,
    pages: Seq<PageModel>,
    manifest: Manifest,
    files: Seq<RawFile>,
    first_job: u64,
    root: Seq<char>,
    now: u64,
) -> bool {
    let missing = missing_pages(views(lint.broken_links@));
    let take = batch_len(missing.len(), batch_size);
    if missing.len() == 0 {
        &&& batch.phase@ == "done"@
        &&& batch.jobs@.len() == 0
        &&& batch.skipped@.len() == 0
        &&& batch.remaining_estimate == 0
    } else {
        &&& batch.phase@ == "fix"@
        &&& is_fix_batch(
            batch.jobs@,
            batch.skipped@,
            missing.take(take as int),
            pages,
            manifest,
            files,
            first_job,
            root,
            now,
        )
        &&& batch.remaining_estimate == missing.len() - take
    }
}

/// The work that a client is handed next: up to `batch_size` pending sources (all
/// active ones, unless `diff_only`), and once none are left, up to `batch_size` pages
/// that links lead to and that are not there. `search` gives the pages that are related
/// to a text. Job ids are counted from `first_job` on.
pub fn next_batch<F: Fn(&str) -> Result<Vec<WikiPageRef>, String>>(
    root: &str,
    manifest: &Manifest,
    pages: &Vec<PageFile>,
    files: &Vec<RawFile>,
    batch_size: usize,
    diff_only: bool,
    search: &F,
    first_job: u64,
    now: u64,
) -> (r: Result<NextBatch, BatchError>)
    requires
        manifest.wf(),
        forall|q: &str| call_requires(*search, (q,)),
    ensures
        ({
            let sources = selected(*manifest, views(pages@), diff_only);
            if sources.len() > 0 {
                match r {
                    Ok(batch) => is_compile_batch(
                        batch,
                        sources,
                        batch_size as nat,
                        *manifest,
                        files@,
                        *search,
                        first_job,
                        root@,
                        now,
                    ),
                    Err(e) => e is Prompt && exists|i: int|
                        {
                            &&& 0 <= i < batch_len(sources.len(), batch_size as nat)
                            &&& is_prompt_for(
                                root@,
                                *manifest,
                                files@,
                                (#[trigger] sources[i]).1,
                                previous_raw_id(manifest@, sources[i].0),
                                *search,
                                Err(e->Prompt_0),
                            )
                            &&& forall|j: int|
                                0 <= j < i ==> has_prompt(
                                    root@,
                                    *manifest,
                                    files@,
                                    #[trigger] sources[j],
                                    *search,
                                )
                        },
                }
            } else {
                match r {
                    Ok(batch) => exists|lint: LintReport|
                        {
                            &&& #[trigger] is_lint_of(
                                views(pages@),
                                *manifest,
                                files@,
                                Ok::<LintReport, LintError>(lint),
                            )
                            &&& is_repair_batch(
                                batch,
                                lint,
                                batch_size as nat,
                                views(pages@),
                                *manifest,
                                files@,
                                first_job,
                                root@,
                                now,
                            )
                        },
                    Err(e) => e is Lint && is_lint_of(
                        views(pages@),
                        *manifest,
                        files@,
                        Err::<LintReport, LintError>(e->Lint_0),
                    ),
                }
            }
        }),
{
    let sources = select_sources(manifest, pages, diff_only);
    let n: usize = sources.len();
    if n > 0 {
        let take = batch_take(n, batch_size);
        return match compile_jobs(
            &sources,
            take,
            manifest,
            files,
            search,
            first_job,
            root,
            now,
        ) {
            Err(e) => Err(BatchError::Prompt(e)),
            Ok(jobs) => Ok(
                NextBatch {
                    phase: "compile",
                    jobs,
                    skipped: Vec::new(),
                    remaining_estimate: n - take,
                },
            ),
        };
    }
    let lint = match lint_bundle(pages, manifest, files) {
        Err(e) => {
            return Err(BatchError::Lint(e));
        },
        Ok(lint) => lint,
    };
    let missing = group_broken_links_by_slug(&lint);
    let m: usize = missing.len();
    if m == 0 {
        return Ok(
            NextBatch {
                phase: "done",
                jobs: Vec::new(),
                skipped: Vec::new(),
                remaining_estimate: 0,
            },
        );
    }
    let take = batch_take(m, batch_size);
    let (jobs, skipped) = fix_batch(&missing, take, pages, manifest, files, first_job, root, now);
    Ok(NextBatch { phase: "fix", jobs, skipped, remaining_estimate: m - take })
}

/// Two jobs that are handed out have different ids, unless as many were handed out
/// between them as there are numbers.
pub proof fn law_job_ids_differ(first: u64, i: nat, j: nat)
    requires
        i < j < i + 0x1_0000_0000_0000_0000,
    ensures
        job_id(first, i) != job_id(first, j),
{
    let m: int = 0x1_0000_0000_0000_0000;
    let a = job_number(first, i);
    let b = job_number(first, j);
    let x = first as int + i;
    let d = j - i;
    if a == b {
        assert((x + d) % m == x % m);
        vstd::arithmetic::div_mod::lemma_fundamental_div_mod(x, m);
        vstd::arithmetic::div_mod::lemma_fundamental_div_mod(x + d, m);
        let q = (x + d) / m - x / m;
        assert(d == m * q) by (nonlinear_arith)
            requires
                x + d == m * ((x + d) / m) + (x + d) % m,
                x == m * (x / m) + x % m,
                (x + d) % m == x % m,
                q == (x + d) / m - x / m,
        ;
        assert(false) by (nonlinear_arith)
            requires
                d == m * q,
                0 < d < m,
                m > 0,
        ;
    }
    if job_id(first, i) == job_id(first, j) {
        assert(job_id(first, i).skip("job-"@.len() as int) =~= decimal(a));
        assert(job_id(first, j).skip("job-"@.len() as int) =~= decimal(b));
        lemma_decimal_injective(a, b);
    }
}

/// A batch takes from the front as many as it may hold, or all that there are; it holds one
/// at least, if there is one.
pub proof fn law_a_batch_is_full_or_takes_all(available: nat, batch_size: nat)
    ensures
        batch_len(available, batch_size) <= available,
        batch_len(available, batch_size) == available || batch_len(available, batch_size)
            == batch_size || batch_len(available, batch_size) == 1,
        batch_size > 0 ==> batch_len(available, batch_size) <= batch_size,
        batch_size == 0 ==> batch_len(available, batch_size) <= 1,
        batch_len(available, batch_size) < available ==> batch_len(available, batch_size)
            >= batch_size && batch_len(available, batch_size) >= 1,
{
}

proof fn lemma_fix_jobs(
    missing: Seq<MissingView>,
    pages: Seq<PageModel>,
    manifest: Manifest,
    files: Seq<RawFile>,
)
    ensures
        fix_jobs(missing, pages, manifest, files) == gathered(
            missing,
            |m: MissingView|
                match synthesis_prompt(m.slug, pages_at(pages, m.referencing), manifest, files) {
                    Some(prompt) => Some(FixJobView { slug: m.slug, prompt }),
                    None => None,
                },
        ),
        without_source(missing, pages, manifest, files) == gathered(
            missing,
            |m: MissingView|
                match synthesis_prompt(m.slug, pages_at(pages, m.referencing), manifest, files) {
                    Some(prompt) => None,
                    None => Some(m.slug),
                },
        ),
        fix_jobs(missing, pages, manifest, files).len() + without_source(
            missing,
            pages,
            manifest,
            files,
        ).len() == missing.len(),
    decreases missing.len(),
{
    if missing.len() > 0 {
        lemma_fix_jobs(missing.drop_last(), pages, manifest, files);
    }
}

/// Every page that is missing is handed out as a job or is skipped, and none is both: as a
/// job, with the prompt that a model would be asked, if there is a source to go by, and
/// skipped if there is none.
pub proof fn law_every_missing_page_is_a_job_or_is_skipped(
    missing: Seq<MissingView>,
    pages: Seq<PageModel>,
    manifest: Manifest,
    files: Seq<RawFile>,
    job: FixJobView,
    slug: Seq<char>,
)
    ensures
        fix_jobs(missing, pages, manifest, files).contains(job) <==> exists|i: int|
            0 <= i < missing.len() && (#[trigger] missing[i]).slug == job.slug && synthesis_prompt(
                missing[i].slug,
                pages_at(pages, missing[i].referencing),
                manifest,
                files,
            ) == Some(job.prompt),
        without_source(missing, pages, manifest, files).contains(slug) <==> exists|i: int|
            0 <= i < missing.len() && (#[trigger] missing[i]).slug == slug && synthesis_prompt(
                missing[i].slug,
                pages_at(pages, missing[i].referencing),
                manifest,
                files,
            ) is None,
        fix_jobs(missing, pages, manifest, files).len() + without_source(
            missing,
            pages,
            manifest,
            files,
        ).len() == missing.len(),
{
    let f = |m: MissingView|
        match synthesis_prompt(m.slug, pages_at(pages, m.referencing), manifest, files) {
            Some(prompt) => Some(FixJobView { slug: m.slug, prompt }),
            None => None,
        };
    let g = |m: MissingView|
        match synthesis_prompt(m.slug, pages_at(pages, m.referencing), manifest, files) {
            Some(prompt) => None,
            None => Some(m.slug),
        };
    lemma_fix_jobs(missing, pages, manifest, files);
    law_gathered_values_are_those_that_are_made(missing, f, job);
    law_gathered_values_are_those_that_are_made(missing, g, slug);
    if fix_jobs(missing, pages, manifest, files).contains(job) {
        let i = choose|i: int| 0 <= i < missing.len() && f(#[trigger] missing[i]) == Some(job);
        assert(missing[i].slug == job.slug);
    }
    if exists|i: int|
        0 <= i < missing.len() && (#[trigger] missing[i]).slug == job.slug && synthesis_prompt(
            missing[i].slug,
            pages_at(pages, missing[i].referencing),
            manifest,
            files,
        ) == Some(job.prompt) {
        let i = choose|i: int|
            0 <= i < missing.len() && (#[trigger] missing[i]).slug == job.slug && synthesis_prompt(
                missing[i].slug,
                pages_at(pages, missing[i].referencing),
                manifest,
                files,
            ) == Some(job.prompt);
        assert(f(missing[i]) == Some(job));
    }
    if without_source(missing, pages, manifest, files).contains(slug) {
        let i = choose|i: int| 0 <= i < missing.len() && g(#[trigger] missing[i]) == Some(slug);
        assert(missing[i].slug == slug);
    }
    if exists|i: int|
        0 <= i < missing.len() && (#[trigger] missing[i]).slug == slug && synthesis_prompt(
            missing[i].slug,
            pages_at(pages, missing[i].referencing),
            manifest,
            files,
        ) is None {
        let i = choose|i: int|
            0 <= i < missing.len() && (#[trigger] missing[i]).slug == slug && synthesis_prompt(
                missing[i].slug,
                pages_at(pages, missing[i].referencing),
                manifest,
                files,
            ) is None;
        assert(g(missing[i]) == Some(slug));
    }
}

/// What a batch hands out, what it skips and what it leaves make up the pages that links
/// lead to and that are not there.
pub proof fn law_a_repair_batch_accounts_for_every_missing_page(
    batch: NextBatch,
    lint: LintReport,
    batch_size: nat,
    pages: Seq<PageModel>,
    manifest: Manifest,
    files: Seq<RawFile>,
    first_job: u64,
    root: Seq<char>,
    now: u64,
)
    requires
        is_repair_batch(
            batch,
            lint,
            batch_size,
            pages,
            manifest,
            files,
            first_job,
            root,
            now,
        ),
    ensures
        batch.jobs@.len() + batch.skipped@.len() + batch.remaining_estimate == missing_pages(
            views(lint.broken_links@),
        ).len(),
        batch.phase@ == "done"@ <==> missing_pages(views(lint.broken_links@)).len() == 0,
        batch.remaining_estimate > 0 ==> batch.jobs@.len() + batch.skipped@.len() >= batch_size
            && batch.jobs@.len() + batch.skipped@.len() >= 1,
{
    let missing = missing_pages(views(lint.broken_links@));
    let take = batch_len(missing.len(), batch_size);
    lemma_fix_jobs(missing.take(take as int), pages, manifest, files);
    reveal_strlit("done");
    reveal_strlit("fix");
    assert("done"@.len() != "fix"@.len());
}

/// A compile batch is handed out from the front: a job for each of the first sources, with a
/// prompt made of that very source, and what it is for is remembered. Every source is in the
/// batch or still remains, and no two jobs share an identifier.
pub proof fn law_a_compile_batch_takes_sources_from_the_front<
    F: Fn(&str) -> Result<Vec<WikiPageRef>, String>,
>(
    batch: NextBatch,
    sources: Seq<(Seq<char>, Seq<char>)>,
    batch_size: nat,
    manifest: Manifest,
    files: Seq<RawFile>,
    search: F,
    first_job: u64,
    root: Seq<char>,
    now: u64,
    i: int,
    j: int,
)
    requires
        is_compile_batch(batch, sources, batch_size, manifest, files, search, first_job, root, now),
        0 <= i < batch.jobs@.len(),
    ensures
        batch.jobs@.len() + batch.remaining_estimate == sources.len(),
        batch.skipped@.len() == 0,
        batch.jobs@[i].0.kind is Compile,
        batch.jobs@[i].1.kind is Compile,
        batch.jobs@[i].1.kind->uri@ == sources[i].0,
        batch.jobs@[i].1.vault_root@ == root,
        batch.jobs@[i].1.created_at == now,
        is_prompt_for(
            root,
            manifest,
            files,
            sources[i].1,
            previous_raw_id(manifest@, sources[i].0),
            search,
            Ok(batch.jobs@[i].0.prompt@),
        ),
        i < j < batch.jobs@.len() && j < i + 0x1_0000_0000_0000_0000
            ==> batch.jobs@[i].0.job_id@ != batch.jobs@[j].0.job_id@,
{
    assert(is_compile_job(
        batch.jobs@[i],
        sources[i],
        manifest,
        files,
        search,
        job_id(first_job, i as nat),
        root,
        now,
    ));
    if i < j < batch.jobs@.len() && j < i + 0x1_0000_0000_0000_0000 {
        law_job_ids_differ(first_job, i as nat, j as nat);
        assert(is_compile_job(
            batch.jobs@[j],
            sources[j],
            manifest,
            files,
            search,
            job_id(first_job, j as nat),
            root,
            now,
        ));
    }
}

} // verus!
