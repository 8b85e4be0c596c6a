//! A compile run: which sources are due, what a model is told of each, what is
//! recorded of each result, and the index that is written at the end.

use vstd::prelude::*;

use crate::compiler::prompts::{
    build_compile_user_prompt, compile_prompt, BlobView, PageRefView, RawBlob, WikiPageRef,
};
use crate::compiler::provider::{bad_model, model_parts, opt_str, parse_model_spec};
use crate::compiler::token_estimate::{
    estimate_prompt_tokens, fitting, law_kept_pages_are_the_most_that_fit, law_truncation,
    opt_tokens, page_tokens, shares, tokens, trim_related_pages,
    truncate_raw_blobs_to_shared_budget, truncated, DEFAULT_PROMPT_TOKEN_BUDGET,
};
use crate::explorer::graph::{content_at, find_content, lemma_content_at};
use crate::compiler::concurrency::Window;
use crate::compiler::link_fix::{
    cited_ids, is_cited, law_every_source_of_every_page_is_cited, raw_ids_cited_by,
};
use crate::ingest::frontmatter::{
    find_raw_path, no_raw_file, no_raw_file_text, raw_path, RawFile,
};
use crate::manifest::model::{
    active_index, active_of, coherent, compiled_now, find_active, ingested, is_first_active,
    law_active_entries_are_the_active_snapshots, law_ingest_only_appends,
    law_ingested_content_is_active, law_new_snapshot_says_what_was_ingested, lemma_first_active,
    marked_compiled, EntryView, Manifest, VersionView,
};
use crate::order::{
    gathered, insert_at, law_gathered_values_are_those_that_are_made,
    law_gathering_goes_value_by_value, lemma_gathered_in_any_order, lemma_insert_at, lemma_sorted,
    lemma_sorted_in_any_order, list_not_after, sort, sorted, Sortable,
};
use crate::search::query::{raw_body, raw_title_and_body};
use crate::server::output::{finished_line, started_line, ProgressEvent};
use crate::table::Table;
use crate::text::{
    chars_of, copy_opt, decimal, decimal_text, has_part, has_text, lemma_part,
    lemma_part_of_itself, opt_view, text_slice, views,
};
use crate::validator::frontmatter::{PageFile, PageModel};
use crate::validator::rules::LintReport;
use crate::vault::vault_config::OkfVaultConfig;

verus! {

/// How a compile run goes about its work.
#[derive(Debug)]
pub struct CompileOptions {
    /// The bits of a number in single precision.
    pub temperature_bits: Option<u32>,
    pub base_url_override: Option<String>,
    pub api_key_env_override: Option<String>,
    pub max_tokens: Option<u32>,
    /// How many sources are compiled at once.
    pub concurrency: usize,
}

impl Default for CompileOptions {
    fn default() -> (r: CompileOptions)
        ensures
            r.temperature_bits is None,
            r.base_url_override is None,
            r.api_key_env_override is None,
            r.max_tokens is None,
            r.concurrency == 1,
    {
        CompileOptions {
            temperature_bits: None,
            base_url_override: None,
            api_key_env_override: None,
            max_tokens: None,
            concurrency: 1,
        }
    }
}

/// What became of one source.
#[derive(Debug)]
pub struct SourceOutcome {
    pub uri: String,
    pub raw_id: String,
    pub error: Option<String>,
}

pub struct OutcomeRow {
    pub uri: Seq<char>,
    pub raw_id: Seq<char>,
    pub error: Option<Seq<char>>,
}

impl View for SourceOutcome {
    type V = OutcomeRow;

    open spec fn view(&self) -> OutcomeRow {
        OutcomeRow { uri: self.uri@, raw_id: self.raw_id@, error: opt_view(self.error) }
    }
}

/// What a compile run came to.
#[derive(Debug)]
pub struct CompileReport {
    pub sources: Vec<SourceOutcome>,
    /// The paths of the files that were written or removed.
    pub touched_paths: Vec<String>,
    pub lint_report: LintReport,
}

/// How many of `sources` failed.
pub open spec fn failures(sources: Seq<OutcomeRow>) -> nat
    decreases sources.len(),
{
    if sources.len() == 0 {
        0
    } else {
        failures(sources.drop_last()) + (if sources.last().error is Some {
            1nat
        } else {
            0nat
        })
    }
}

fn count_failures(sources: &Vec<SourceOutcome>) -> (r: usize)
    ensures
        r == failures(views(sources@)),
        r <= sources@.len(),
{
    let mut n: usize = 0;
    let mut i: usize = 0;
    assert(views(sources@).take(0) =~= seq![]);
    while i < sources.len()
        invariant
            i <= sources@.len(),
            n <= i,
            n == failures(views(sources@).take(i as int)),
        decreases sources@.len() - i,
    {
        proof {
            let now = views(sources@).take(i + 1);
            assert(now.drop_last() =~= views(sources@).take(i as int));
            assert(now.last() == sources@[i as int]@);
        }
        if sources[i].error.is_some() {
            n += 1;
        }
        i += 1;
    }
    assert(views(sources@).take(sources@.len() as int) =~= views(sources@));
    n
}

impl CompileReport {
    /// How many sources were compiled.
    pub fn sources_processed(&self) -> (r: usize)
        ensures
            r == self.sources@.len() - failures(views(self.sources@)),
    {
        self.sources.len() - count_failures(&self.sources)
    }

    /// How many sources failed.
    pub fn sources_failed(&self) -> (r: usize)
        ensures
            r == failures(views(self.sources@)),
            r <= self.sources@.len(),
    {
        count_failures(&self.sources)
    }
}

// ---------------------------------------------------------------------------
// Settings
// ---------------------------------------------------------------------------

/// The model to compile with: the one that is asked for, else the vault's default.
pub fn resolve_model_spec(default_model: Option<&str>, explicit: Option<&str>) -> (r: Result<
    String,
    String,
>)
    ensures
        match (explicit, default_model) {
            (Some(spec), _) => r is Ok && r->Ok_0@ == spec@,
            (None, Some(spec)) => r is Ok && r->Ok_0@ == spec@,
            (None, None) => r is Err && r->Err_0@
                == "no model specified — pass --model <provider>/<model>, or set [compiler].default_model in .okf/config.toml"@,
        },
{
    match explicit {
        Some(spec) => Ok(spec.to_string()),
        None => match default_model {
            Some(spec) => Ok(spec.to_string()),
            None => Err(
                "no model specified — pass --model <provider>/<model>, or set [compiler].default_model in .okf/config.toml".to_string(),
            ),
        },
    }
}

/// Whether `options` are those of `provider`: its address and the variable for its key
/// from the vault, if that has an entry for it, else its address from `custom` (the
/// addresses of providers that were set up on this machine); and the vault's limit on
/// answers.
pub open spec fn are_provider_options(
    options: CompileOptions,
    config: OkfVaultConfig,
    custom: Map<Seq<char>, String>,
    provider: Seq<char>,
) -> bool {
    let own = if config.providers@.contains_key(provider) {
        Some(config.providers@[provider])
    } else {
        None
    };
    &&& options.temperature_bits is None
    &&& opt_view(options.base_url_override) == (match own {
        Some(p) => opt_view(p.base_url),
        None => if custom.contains_key(provider) {
            Some(custom[provider]@)
        } else {
            None
        },
    })
    &&& opt_view(options.api_key_env_override) == (match own {
        Some(p) => opt_view(p.api_key_env),
        None => None,
    })
    &&& options.max_tokens == Some(config.compiler.max_tokens)
    &&& options.concurrency == 1
}

/// The options for a provider in a vault. `custom` holds the addresses of providers
/// that were set up on this machine; it counts where the vault has no entry for the
/// provider.
pub fn vault_provider_options_for_provider(
    config: &OkfVaultConfig,
    custom: &Table<String>,
    provider: &str,
) -> (r: CompileOptions)
    ensures
        are_provider_options(r, *config, custom@, provider@),
{
    let (base_url_override, key): (Option<String>, Option<String>) = match config.providers.get(
        provider,
    ) {
        Some(p) => (copy_opt(&p.base_url), copy_opt(&p.api_key_env)),
        None => match custom.get(provider) {
            Some(u) => (Some(u.clone()), None),
            None => (None, None),
        },
    };
    CompileOptions {
        temperature_bits: None,
        base_url_override,
        api_key_env_override: key,
        max_tokens: Some(config.compiler.max_tokens),
        concurrency: 1,
    }
}

/// The options for the provider of a model in a vault.
pub fn vault_provider_options(config: &OkfVaultConfig, custom: &Table<String>, model_spec: &str) -> (
    r: Result<CompileOptions, String>)
    ensures
        match model_parts(model_spec@) {
            Some((provider, model)) => r is Ok && are_provider_options(
                r->Ok_0,
                *config,
                custom@,
                provider,
            ),
            None => r is Err && r->Err_0@ == bad_model(model_spec@),
        },
{
    match parse_model_spec(model_spec) {
        Ok((provider, _)) => Ok(
            vault_provider_options_for_provider(config, custom, provider.as_str()),
        ),
        Err(e) => Err(e),
    }
}

// ---------------------------------------------------------------------------
// Which sources are due
// ---------------------------------------------------------------------------

/// The sources of `entries` that are due: neither cited by a page nor compiled at
/// their current content.
pub open spec fn due(
    entries: Seq<(Seq<char>, VersionView)>,
    manifest: Map<Seq<char>, EntryView>,
    pages: Seq<PageModel>,
) -> Seq<(Seq<char>, Seq<char>)>
    decreases entries.len(),
{
    if entries.len() == 0 {
        seq![]
    } else {
        let rest = due(entries.drop_last(), manifest, pages);
        let (uri, version) = entries.last();
        if cited_ids(pages).contains(version.raw_id) || (manifest.contains_key(uri) && compiled_now(
            manifest[uri],
        )) {
            rest
        } else {
            rest.push((uri, version.raw_id))
        }
    }
}

/// The URIs and raw ids of `entries`.
pub open spec fn uri_and_raw_id(entries: Seq<(Seq<char>, VersionView)>) -> Seq<
    (Seq<char>, Seq<char>),
> {
    entries.map_values(|e: (Seq<char>, VersionView)| (e.0, e.1.raw_id))
}

/// The sources that a run works on: every active one, or those of them that are due.
pub open spec fn selected(
    manifest: Manifest,
    pages: Seq<PageModel>,
    diff_only: bool,
) -> Seq<(Seq<char>, Seq<char>)> {
    let entries = active_of(manifest.listing());
    if diff_only {
        due(entries, manifest@, pages)
    } else {
        uri_and_raw_id(entries)
    }
}

/// The sources that a run works on, each with the raw id of its active snapshot. With
/// `diff_only` those are left out that a page cites already, which holds for vaults
/// whose manifest does not know of it, and those that are compiled at their current
/// content.
pub fn select_sources(manifest: &Manifest, pages: &Vec<PageFile>, diff_only: bool) -> (r: Vec<
    (String, String),
>)
    requires
        manifest.wf(),
    ensures
        views(r@) == selected(*manifest, views(pages@), diff_only),
{
    let entries = manifest.active_entries();
    let ghost all = active_of(manifest.listing());
    let cited: Vec<String> = if diff_only {
        raw_ids_cited_by(pages)
    } else {
        Vec::new()
    };
    let mut out: Vec<(String, String)> = Vec::new();
    let mut i: usize = 0;
    proof {
        assert(all.take(0) =~= seq![]);
        assert(views(out@) =~= seq![]);
        assert(views(out@) =~= uri_and_raw_id(all.take(0)));
    }
    while i < entries.len()
        invariant
            manifest.wf(),
            i <= entries@.len(),
            all == active_of(manifest.listing()),
            entries@.len() == all.len(),
            forall|k: int|
                0 <= k < all.len() ==> (#[trigger] entries@[k]).0@ == all[k].0 && entries@[k].1@
                    == all[k].1,
            diff_only ==> views(cited@) == cited_ids(views(pages@)),
            views(out@) == (if diff_only {
                due(all.take(i as int), manifest@, views(pages@))
            } else {
                uri_and_raw_id(all.take(i as int))
            }),
        decreases entries@.len() - i,
    {
        let ghost before = out@;
        proof {
            assert(all.take(i + 1).drop_last() =~= all.take(i as int));
            assert(all.take(i + 1).last() == all[i as int]);
        }
        let (uri, version) = entries[i];
        let keep: bool = !diff_only || (!has_text(&cited, version.raw_id.as_str())
            && !manifest.is_compiled_at_current_hash(uri));
        if keep {
            out.push((uri.to_string(), version.raw_id.clone()));
            proof {
                assert(views(out@) =~= views(before).push((uri@, version.raw_id@)));
            }
        }
        proof {
            assert(uri_and_raw_id(all.take(i + 1)) =~= uri_and_raw_id(all.take(i as int)).push(
                (all[i as int].0, all[i as int].1.raw_id),
            ));
        }
        i += 1;
    }
    assert(all.take(all.len() as int) =~= all);
    out
}

/// The body of the raw blob `raw_id`, where it is found and can be read.
pub open spec fn body_of(manifest: Manifest, files: Seq<RawFile>, raw_id: Seq<char>) -> Option<
    Seq<char>,
> {
    match raw_path(manifest, files, raw_id) {
        None => None,
        Some(path) => match content_at(files, path, 0) {
            Some(Ok(content)) => Some(raw_body(content)),
            _ => None,
        },
    }
}

/// Why the raw blob `raw_id` of the vault at `root` has no body that can be read: it is
/// not found, or what reading it said.
pub open spec fn why_unreadable(
    root: Seq<char>,
    manifest: Manifest,
    files: Seq<RawFile>,
    raw_id: Seq<char>,
) -> Seq<char> {
    match raw_path(manifest, files, raw_id) {
        None => no_raw_file(root, raw_id),
        Some(path) => match content_at(files, path, 0) {
            Some(Err(e)) => e,
            _ => no_raw_file(root, raw_id),
        },
    }
}

/// The body of the raw blob `raw_id`, its frontmatter left out, where it is found and can
/// be read.
pub fn readable_body(manifest: &Manifest, files: &Vec<RawFile>, raw_id: &str) -> (r: Option<String>)
    ensures
        opt_view(r) == body_of(*manifest, files@, raw_id@),
{
    match find_raw_path(manifest, files, raw_id) {
        None => None,
        Some(path) => match find_content(files, path.as_str()) {
            Some(Ok(content)) => {
                let (_, body) = raw_title_and_body(content.as_str());
                Some(body)
            },
            _ => None,
        },
    }
}

/// The body of the raw blob `raw_id` of the vault at `root`, its frontmatter left out, or
/// why there is none: that it is not found, or what reading it said.
pub fn read_raw_body(
    root: &str,
    manifest: &Manifest,
    files: &Vec<RawFile>,
    raw_id: &str,
) -> (r: Result<String, String>)
    ensures
        match body_of(*manifest, files@, raw_id@) {
            Some(body) => r is Ok && r->Ok_0@ == body,
            None => r is Err && r->Err_0@ == why_unreadable(
                root@,
                *manifest,
                files@,
                raw_id@,
            ),
        },
{
    match find_raw_path(manifest, files, raw_id) {
        None => Err(no_raw_file_text(root, raw_id)),
        Some(path) => match find_content(files, path.as_str()) {
            Some(Ok(content)) => {
                let (_, body) = raw_title_and_body(content.as_str());
                Ok(body)
            },
            Some(Err(e)) => Err(e.clone()),
            None => Err(no_raw_file_text(root, raw_id)),
        },
    }
}

/// The raw id of the snapshot right before the active one of a source.
pub open spec fn previous_raw_id(manifest: Map<Seq<char>, EntryView>, uri: Seq<char>) -> Option<
    Seq<char>,
> {
    if manifest.contains_key(uri) {
        match active_index(manifest[uri].history) {
            Some(i) => if i > 0 {
                Some(manifest[uri].history[i - 1].raw_id)
            } else {
                None
            },
            None => None,
        }
    } else {
        None
    }
}

/// The raw id of the snapshot right before the active one of `uri`, which that one
/// replaced. There is none where nothing is active, or the first snapshot is.
pub fn superseded_raw_id(manifest: &Manifest, uri: &str) -> (r: Option<String>)
    requires
        manifest.wf(),
    ensures
        opt_view(r) == previous_raw_id(manifest@, uri@),
{
    match manifest.entry(uri) {
        None => None,
        Some(entry) => {
            match find_active(&entry.history) {
                Some(i) => if i > 0 {
                    assert(entry@.history[i - 1] == entry.history@[i - 1]@);
                    Some(entry.history[i - 1].raw_id.clone())
                } else {
                    None
                },
                None => None,
            }
        },
    }
}

// ---------------------------------------------------------------------------
// What a model is told
// ---------------------------------------------------------------------------

/// How many characters of a source are searched for.
pub const QUERY_CHARS: usize = 500;

/// What related pages are searched with: the front of the source.
pub open spec fn query_of(content: Seq<char>) -> Seq<char> {
    if content.len() <= QUERY_CHARS {
        content
    } else {
        content.take(QUERY_CHARS as int)
    }
}

/// What related pages are searched with.
pub fn related_query(content: &str) -> (r: String)
    ensures
        r@ == query_of(content@),
{
    let cs = chars_of(content);
    let n: usize = if cs.len() <= QUERY_CHARS {
        cs.len()
    } else {
        QUERY_CHARS
    };
    let out = text_slice(&cs, 0, n);
    assert(out@ =~= query_of(content@));
    out
}

/// The prompt for a source, cut to the budget: first the source and the one it
/// replaced share the budget, then the related pages get what is left.
pub open spec fn fitted_prompt(
    active: BlobView,
    superseded: Option<BlobView>,
    related: Seq<PageRefView>,
    budget: nat,
) -> Seq<char> {
    match superseded {
        None => {
            let a = BlobView { id: active.id, content: truncated(active.content, budget) };
            compile_prompt(a, None, fitting(related, tokens(a.content) + 0, budget))
        },
        Some(old_raw) => {
            let (x, y) = shares(tokens(active.content), tokens(old_raw.content), budget);
            let a = BlobView { id: active.id, content: truncated(active.content, x) };
            let b = BlobView { id: old_raw.id, content: truncated(old_raw.content, y) };
            compile_prompt(
                a,
                Some(b),
                fitting(related, tokens(a.content) + tokens(b.content), budget),
            )
        },
    }
}

/// The prompt for a source, cut to the default budget.
pub fn assemble_compile_prompt(
    active: RawBlob,
    superseded: Option<RawBlob>,
    related: Vec<WikiPageRef>,
) -> (r: String)
    ensures
        r@ == fitted_prompt(
            active@,
            opt_view(superseded),
            views(related@),
            DEFAULT_PROMPT_TOKEN_BUDGET as nat,
        ),
{
    let ghost active_view = active@;
    let ghost old_view = opt_view(superseded);
    let (active, superseded) = truncate_raw_blobs_to_shared_budget(
        active,
        superseded,
        DEFAULT_PROMPT_TOKEN_BUDGET,
    );
    let related = trim_related_pages(
        related,
        &active,
        superseded.as_ref(),
        DEFAULT_PROMPT_TOKEN_BUDGET,
    );
    build_compile_user_prompt(&active, superseded.as_ref(), &related)
}

/// Why there is no prompt for a source.
#[derive(Debug)]
pub enum PromptError {
    /// The raw blob is not found, or cannot be read: why.
    UnreadableSource(String),
    /// The search for related pages failed: why.
    Search(String),
}

impl PromptError {
    /// What the error says.
    pub fn message(&self) -> (r: String)
        ensures
            r@ == (match self {
                PromptError::UnreadableSource(e) => e@,
                PromptError::Search(e) => e@,
            }),
    {
        match self {
            PromptError::UnreadableSource(e) => e.clone(),
            PromptError::Search(e) => e.clone(),
        }
    }
}

/// The source that another replaced, if it can be read.
pub open spec fn superseded_blob(
    manifest: Manifest,
    files: Seq<RawFile>,
    superseded: Option<Seq<char>>,
) -> Option<BlobView> {
    match superseded {
        None => None,
        Some(id) => match body_of(manifest, files, id) {
            None => None,
            Some(content) => Some(BlobView { id, content }),
        },
    }
}

/// Whether `found` is what a search for `query` may give.
pub open spec fn may_find<F: Fn(&str) -> Result<Vec<WikiPageRef>, String>>(
    search: F,
    query: Seq<char>,
    found: Result<Vec<WikiPageRef>, String>,
) -> bool {
    exists|q: &str| q@ == query && #[trigger] call_ensures(search, (q,), found)
}

/// Whether `r` is the prompt for the raw blob `raw_id` of the vault at `root`, whatever of
/// what `search` may give it gave.
pub open spec fn is_prompt_for<F: Fn(&str) -> Result<Vec<WikiPageRef>, String>>(
    root: Seq<char>,
    manifest: Manifest,
    files: Seq<RawFile>,
    raw_id: Seq<char>,
    superseded: Option<Seq<char>>,
    search: F,
    r: Result<Seq<char>, PromptError>,
) -> bool {
    match body_of(manifest, files, raw_id) {
        None => r is Err && r->Err_0 is UnreadableSource && r->Err_0->UnreadableSource_0@
            == why_unreadable(root, manifest, files, raw_id),
        Some(content) => exists|found: Result<Vec<WikiPageRef>, String>|
            {
                &&& #[trigger] may_find(search, query_of(content), found)
                &&& match found {
                    Err(e) => r == Err::<Seq<char>, PromptError>(PromptError::Search(e)),
                    Ok(related) => r == Ok::<Seq<char>, PromptError>(
                        fitted_prompt(
                            BlobView { id: raw_id, content },
                            superseded_blob(manifest, files, superseded),
                            views(related@),
                            DEFAULT_PROMPT_TOKEN_BUDGET as nat,
                        ),
                    ),
                }
            },
    }
}

/// What a model is told of the raw blob `raw_id` of the vault at `root`. `search` gives the
/// pages that are related to a text. A source that it replaced is shown too, if it can be read.
pub fn prompt_for_source<F: Fn(&str) -> Result<Vec<WikiPageRef>, String>>(
    root: &str,
    manifest: &Manifest,
    files: &Vec<RawFile>,
    raw_id: &str,
    superseded_id: Option<&str>,
    search: &F,
) -> (r: Result<String, PromptError>)
    requires
        forall|q: &str| call_requires(*search, (q,)),
    ensures
        is_prompt_for(
            root@,
            *manifest,
            files@,
            raw_id@,
            opt_str(superseded_id),
            *search,
            match r {
                Ok(prompt) => Ok(prompt@),
                Err(e) => Err(e),
            },
        ),
{
    let content: String = match read_raw_body(root, manifest, files, raw_id) {
        Ok(content) => content,
        Err(e) => {
            return Err(PromptError::UnreadableSource(e));
        },
    };
    let superseded: Option<RawBlob> = match superseded_id {
        None => None,
        Some(id) => match readable_body(manifest, files, id) {
            None => None,
            Some(content) => Some(RawBlob { id: id.to_string(), content }),
        },
    };
    let query = related_query(content.as_str());
    let found = search(query.as_str());
    assert(may_find(*search, query_of(content@), found));
    match found {
        Err(e) => Err(PromptError::Search(e)),
        Ok(related) => {
            let active = RawBlob { id: raw_id.to_string(), content };
            Ok(assemble_compile_prompt(active, superseded, related))
        },
    }
}

/// What is said of a source whose prompt has to be cut, before it is; nothing of one
/// that fits.
pub fn large_prompt_notice(
    active: &RawBlob,
    superseded: Option<&RawBlob>,
    related: &Vec<WikiPageRef>,
    uri: &str,
    position: usize,
    total: usize,
) -> (r: Option<String>)
    requires
        tokens(active@.content) + opt_tokens(
            match superseded {
                Some(b) => Some(b@),
                None => None,
            },
        ) + page_tokens(views(related@)) <= usize::MAX,
    ensures
        ({
            let estimate = tokens(active@.content) + opt_tokens(
                match superseded {
                    Some(b) => Some(b@),
                    None => None,
                },
            ) + page_tokens(views(related@));
            opt_view(r) == (if estimate > DEFAULT_PROMPT_TOKEN_BUDGET {
                Some(
                    "["@ + decimal(position as nat) + "/"@ + decimal(total as nat) + "] "@ + uri@
                        + ": prompt is large (~"@ + decimal(estimate) + " tokens, budget "@
                        + decimal(DEFAULT_PROMPT_TOKEN_BUDGET as nat)
                        + ") — trimming related pages / truncating body"@,
                )
            } else {
                None
            })
        }),
{
    let estimate: usize = estimate_prompt_tokens(active, superseded, related);
    if estimate <= DEFAULT_PROMPT_TOKEN_BUDGET {
        return None;
    }
    let mut s = "[".to_string();
    let at = decimal_text(position as u64);
    s.append(at.as_str());
    s.append("/");
    let of = decimal_text(total as u64);
    s.append(of.as_str());
    s.append("] ");
    s.append(uri);
    s.append(": prompt is large (~");
    let n = decimal_text(estimate as u64);
    s.append(n.as_str());
    s.append(" tokens, budget ");
    let budget = decimal_text(DEFAULT_PROMPT_TOKEN_BUDGET as u64);
    s.append(budget.as_str());
    s.append(") — trimming related pages / truncating body");
    Some(s)
}

// ---------------------------------------------------------------------------
// What is recorded
// ---------------------------------------------------------------------------

/// What has to be done for a source: `line` is said, then it is compiled.
#[derive(Debug)]
pub struct SourceJob {
    /// Where the source stands in the list.
    pub index: usize,
    pub uri: String,
    pub raw_id: String,
    pub line: String,
}

/// What has to be done for a result: `line` is said, then the manifest is saved if
/// `save` says so.
#[derive(Debug)]
pub struct Recorded {
    pub line: String,
    pub save: bool,
}

/// A compile run in progress. Sources are started from the front of the list, a bounded
/// number at once; each result is recorded, and the manifest is saved, before the next
/// result is looked at.
#[derive(Debug)]
pub struct CompileRun {
    /// The URIs and raw ids of the sources.
    pub sources: Vec<(String, String)>,
    pub window: Window,
    /// Which sources have a result.
    pub reported: Vec<bool>,
    /// Whether the last result still waits for the manifest to be saved.
    pub unsettled: bool,
    pub manifest: Manifest,
    pub outcomes: Vec<SourceOutcome>,
    pub touched_paths: Vec<String>,
    /// Why the manifest could not be saved. Nothing is marked or started after that.
    pub save_error: Option<String>,
}

/// What a run has recorded.
#[verifier::ext_equal]
pub struct RunView {
    pub manifest: Map<Seq<char>, EntryView>,
    pub outcomes: Seq<OutcomeRow>,
    pub touched_paths: Seq<Seq<char>>,
    pub save_error: Option<Seq<char>>,
}

impl View for CompileRun {
    type V = RunView;

    open spec fn view(&self) -> RunView {
        RunView {
            manifest: self.manifest@,
            outcomes: views(self.outcomes@),
            touched_paths: views(self.touched_paths@),
            save_error: opt_view(self.save_error),
        }
    }
}

/// How many of `flags` are set.
pub open spec fn how_many(flags: Seq<bool>) -> nat
    decreases flags.len(),
{
    if flags.len() == 0 {
        0
    } else {
        how_many(flags.drop_last()) + (if flags.last() {
            1nat
        } else {
            0nat
        })
    }
}

proof fn lemma_set_one_more(flags: Seq<bool>, i: int)
    requires
        0 <= i < flags.len(),
        !flags[i],
    ensures
        how_many(flags.update(i, true)) == how_many(flags) + 1,
    decreases flags.len(),
{
    let after = flags.update(i, true);
    if i == flags.len() - 1 {
        assert(after.drop_last() =~= flags.drop_last());
    } else {
        lemma_set_one_more(flags.drop_last(), i);
        assert(after.drop_last() =~= flags.drop_last().update(i, true));
    }
}

proof fn lemma_all_set(flags: Seq<bool>)
    ensures
        how_many(flags) <= flags.len(),
        how_many(flags) == flags.len() ==> forall|i: int| 0 <= i < flags.len() ==> #[trigger]
            flags[i],
    decreases flags.len(),
{
    if flags.len() > 0 {
        lemma_all_set(flags.drop_last());
        if how_many(flags) == flags.len() {
            assert forall|i: int| 0 <= i < flags.len() implies #[trigger] flags[i] by {
                if i < flags.len() - 1 {
                    assert(flags.drop_last()[i]);
                }
            }
        }
    }
}

/// What is said of the work on a source.
pub open spec fn compile_label(uri: Seq<char>) -> Seq<char> {
    "compiling "@ + uri
}

fn compile_label_text(uri: &str) -> (r: String)
    ensures
        r@ == compile_label(uri@),
{
    let mut s = "compiling ".to_string();
    s.append(uri);
    s
}

/// A manifest with what is active of `uri` marked as compiled.
pub open spec fn marked(manifest: Map<Seq<char>, EntryView>, uri: Seq<char>) -> Map<
    Seq<char>,
    EntryView,
> {
    if manifest.contains_key(uri) && manifest[uri].active_hash is Some {
        manifest.insert(uri, marked_compiled(manifest[uri]))
    } else {
        manifest
    }
}

/// What the result of one source says.
pub open spec fn result_view(outcome: Result<Vec<String>, String>) -> Result<
    Seq<Seq<char>>,
    Seq<char>,
> {
    match outcome {
        Ok(paths) => Ok(views(paths@)),
        Err(e) => Err(e@),
    }
}

/// A run after the result of one source: what was touched, or why it failed.
pub open spec fn after_result(
    run: RunView,
    uri: Seq<char>,
    raw_id: Seq<char>,
    outcome: Result<Seq<Seq<char>>, Seq<char>>,
) -> RunView {
    RunView {
        manifest: if outcome is Ok && run.save_error is None {
            marked(run.manifest, uri)
        } else {
            run.manifest
        },
        outcomes: run.outcomes.push(
            OutcomeRow {
                uri,
                raw_id,
                error: match outcome {
                    Ok(_) => None,
                    Err(e) => Some(e),
                },
            },
        ),
        touched_paths: match outcome {
            Ok(paths) => run.touched_paths + paths,
            Err(_) => run.touched_paths,
        },
        save_error: run.save_error,
    }
}

impl CompileRun {
    /// Whether there is an outcome for each source that has a result and for no other,
    /// and nothing more is started once a save has failed.
    pub open spec fn wf(&self) -> bool {
        &&& self.manifest.wf()
        &&& self.window.wf()
        &&& self.window.total == self.sources@.len()
        &&& self.reported@.len() == self.sources@.len()
        &&& forall|i: int| #![auto]
            0 <= i < self.reported@.len() && self.reported@[i] ==> i < self.window.started
        &&& self.outcomes@.len() == how_many(self.reported@)
        &&& self.outcomes@.len() == self.window.finished + (if self.unsettled {
            1int
        } else {
            0
        })
        &&& self.unsettled ==> self.window.in_hand() > 0
        &&& self.save_error is Some ==> !self.window.dispatching
    }

    /// Whether the source at `index` was started and has no result yet.
    pub open spec fn awaits(&self, index: int) -> bool {
        0 <= index < self.window.started && !self.reported@[index]
    }

    /// A run over `sources` that has not begun.
    pub fn new(manifest: Manifest, sources: Vec<(String, String)>, concurrency: usize) -> (r:
        CompileRun)
        requires
            manifest.wf(),
        ensures
            r.wf(),
            r.sources == sources,
            !r.unsettled,
            r.window.started == 0,
            r.window.dispatching,
            r.window.limit == (if concurrency == 0 {
                1
            } else {
                concurrency
            }),
            r@ == (RunView {
                manifest: manifest@,
                outcomes: seq![],
                touched_paths: seq![],
                save_error: None,
            }),
    {
        let total: usize = sources.len();
        let mut reported: Vec<bool> = Vec::new();
        while reported.len() < total
            invariant
                reported@.len() <= total,
                forall|i: int| 0 <= i < reported@.len() ==> !(#[trigger] reported@[i]),
                how_many(reported@) == 0,
            decreases total - reported@.len(),
        {
            let ghost before = reported@;
            reported.push(false);
            assert(reported@.drop_last() =~= before);
        }
        let r = CompileRun {
            window: Window::new(total, concurrency),
            sources,
            reported,
            unsettled: false,
            manifest,
            outcomes: Vec::new(),
            touched_paths: Vec::new(),
            save_error: None,
        };
        assert(r@ =~= (RunView {
            manifest: manifest@,
            outcomes: seq![],
            touched_paths: seq![],
            save_error: None,
        }));
        r
    }

    /// The next source to compile, if one can be started now.
    pub fn start(&mut self) -> (r: Option<SourceJob>)
        requires
            old(self).wf(),
        ensures
            final(self).wf(),
            final(self)@ == old(self)@,
            final(self).sources == old(self).sources,
            final(self).reported == old(self).reported,
            final(self).unsettled == old(self).unsettled,
            if old(self).window.may_start() {
                let i = old(self).window.started;
                &&& r is Some
                &&& r->0.index == i
                &&& r->0.uri@ == old(self).sources@[i as int].0@
                &&& r->0.raw_id@ == old(self).sources@[i as int].1@
                &&& r->0.line@ == started_line(
                    (i + 1) as nat,
                    old(self).sources@.len(),
                    compile_label(old(self).sources@[i as int].0@),
                )
                &&& final(self).window == (Window {
                    started: (i + 1) as usize,
                    ..old(self).window
                })
            } else {
                &&& r is None
                &&& *final(self) == *old(self)
            },
            old(self).save_error is Some ==> r is None,
    {
        let total: usize = self.sources.len();
        match self.window.next() {
            None => None,
            Some(index) => {
                let label = compile_label_text(self.sources[index].0.as_str());
                let line = ProgressEvent::Started { index: index + 1, total, label }.text();
                Some(
                    SourceJob {
                        index,
                        uri: self.sources[index].0.clone(),
                        raw_id: self.sources[index].1.clone(),
                        line,
                    },
                )
            },
        }
    }

    /// Records the result of a source that was started and has none yet, and marks the
    /// source as compiled if all of its operations were applied. Nothing is recorded
    /// for any other source.
    pub fn record(&mut self, index: usize, outcome: Result<Vec<String>, String>) -> (r: Option<
        Recorded,
    >)
        requires
            old(self).wf(),
            !old(self).unsettled,
        ensures
            final(self).wf(),
            final(self).sources == old(self).sources,
            final(self).window == old(self).window,
            if old(self).awaits(index as int) {
                let (uri, raw_id) = old(self).sources@[index as int]@;
                &&& r is Some
                &&& r->0.save == (outcome is Ok && old(self).save_error is None)
                &&& r->0.line@ == finished_line(
                    match outcome {
                        Ok(_) => None,
                        Err(e) => Some(e@),
                    },
                )
                &&& final(self).unsettled
                &&& final(self).reported@ == old(self).reported@.update(index as int, true)
                &&& final(self)@ == after_result(old(self)@, uri, raw_id, result_view(outcome))
            } else {
                &&& r is None
                &&& *final(self) == *old(self)
            },
    {
        if index >= self.window.started || self.reported[index] {
            return None;
        }
        let ghost before = *self;
        let ghost what = result_view(outcome);
        let uri: String = self.sources[index].0.clone();
        let raw_id: String = self.sources[index].1.clone();
        let total: usize = self.sources.len();
        let label = compile_label_text(uri.as_str());
        proof {
            lemma_set_one_more(self.reported@, index as int);
            lemma_room(self.reported@, self.window.started as int, index as int);
        }
        self.reported[index] = true;
        let mut save: bool = false;
        let (error, said): (Option<String>, Option<String>) = match outcome {
            Ok(paths) => {
                if self.save_error.is_none() {
                    self.manifest.mark_compiled(uri.as_str());
                    save = true;
                }
                let mut paths = paths;
                let ghost added = paths@;
                self.touched_paths.append(&mut paths);
                assert(views(self.touched_paths@) =~= views(before.touched_paths@) + views(added));
                (None, None)
            },
            Err(e) => (Some(e.clone()), Some(e)),
        };
        let line = ProgressEvent::Finished { index: index + 1, total, label, error: said }.text();
        let row = SourceOutcome { uri, raw_id, error };
        let ghost last = row@;
        self.outcomes.push(row);
        self.unsettled = true;
        proof {
            assert(views(self.outcomes@) =~= views(before.outcomes@).push(last));
            assert(self@ =~= after_result(
                before@,
                before.sources@[index as int].0@,
                before.sources@[index as int].1@,
                what,
            ));
        }
        Some(Recorded { line, save })
    }

    /// Settles the last result. `save_error` is why the manifest could not be saved, if
    /// it could not; the first such error is kept, and ends the run.
    pub fn settle(&mut self, save_error: Option<String>)
        requires
            old(self).wf(),
            old(self).unsettled,
        ensures
            final(self).wf(),
            !final(self).unsettled,
            final(self).sources == old(self).sources,
            final(self).reported == old(self).reported,
            final(self)@ == (RunView {
                save_error: match old(self)@.save_error {
                    Some(e) => Some(e),
                    None => opt_view(save_error),
                },
                ..old(self)@
            }),
            final(self).window == (Window {
                finished: (old(self).window.finished + 1) as usize,
                dispatching: old(self).window.dispatching && final(self).save_error is None,
                ..old(self).window
            }),
    {
        if self.save_error.is_none() {
            self.save_error = save_error;
        }
        let go_on: bool = self.save_error.is_none();
        self.window.complete(go_on);
        self.unsettled = false;
    }

    /// What the run came to, once nothing is in hand and nothing can be started: the
    /// manifest, the outcomes and the paths that were touched, or why the manifest could
    /// not be saved.
    pub fn into_result(self) -> (r: Result<(Manifest, Vec<SourceOutcome>, Vec<String>), String>)
        requires
            self.wf(),
        ensures
            match self.save_error {
                Some(e) => r == Err::<(Manifest, Vec<SourceOutcome>, Vec<String>), String>(e),
                None => r == Ok::<(Manifest, Vec<SourceOutcome>, Vec<String>), String>(
                    (self.manifest, self.outcomes, self.touched_paths),
                ),
            },
    {
        match self.save_error {
            Some(e) => Err(e),
            None => Ok((self.manifest, self.outcomes, self.touched_paths)),
        }
    }
}

proof fn lemma_front_only(flags: Seq<bool>, bound: int)
    requires
        0 <= bound <= flags.len(),
        forall|i: int| #![auto] 0 <= i < flags.len() && flags[i] ==> i < bound,
    ensures
        how_many(flags) <= bound,
    decreases flags.len(),
{
    if flags.len() > bound {
        assert(!flags[flags.len() - 1]);
        assert(forall|i: int| #![auto]
            0 <= i < flags.drop_last().len() && flags.drop_last()[i] ==> flags[i]);
        lemma_front_only(flags.drop_last(), bound);
    } else {
        lemma_all_set(flags);
    }
}

/// If a flag in front of `bound` is not set, fewer than `bound` are.
proof fn lemma_room(flags: Seq<bool>, bound: int, index: int)
    requires
        0 <= index < bound <= flags.len(),
        forall|i: int| #![auto] 0 <= i < flags.len() && flags[i] ==> i < bound,
        !flags[index],
    ensures
        how_many(flags) < bound,
{
    lemma_set_one_more(flags, index);
    let after = flags.update(index, true);
    assert forall|i: int| #![auto] 0 <= i < after.len() && after[i] implies i < bound by {
        if i != index {
            assert(flags[i]);
        }
    }
    lemma_front_only(after, bound);
}

/// A run that ends without a failed save has recorded every source exactly once.
pub proof fn law_a_finished_run_reports_every_source_once(run: CompileRun)
    requires
        run.wf(),
        !run.unsettled,
        run.window.in_hand() == 0,
        !run.window.may_start(),
        run.window.dispatching,
    ensures
        run.outcomes@.len() == run.sources@.len(),
        forall|i: int| 0 <= i < run.sources@.len() ==> #[trigger] run.reported@[i],
{
    lemma_all_set(run.reported@);
}

/// A result never takes back what was recorded: earlier outcomes and touched paths
/// stay, a failed source leaves the manifest as it is, no other source's entry changes,
/// and once a save has failed the manifest does not change any more.
pub proof fn law_results_only_add(
    run: RunView,
    uri: Seq<char>,
    raw_id: Seq<char>,
    outcome: Result<Seq<Seq<char>>, Seq<char>>,
)
    ensures
        ({
            let after = after_result(run, uri, raw_id, outcome);
            &&& after.outcomes.len() == run.outcomes.len() + 1
            &&& after.outcomes.take(run.outcomes.len() as int) == run.outcomes
            &&& after.touched_paths.take(run.touched_paths.len() as int) == run.touched_paths
            &&& (outcome is Err || run.save_error is Some) ==> after.manifest == run.manifest
            &&& forall|other: Seq<char>|
                other != uri && run.manifest.contains_key(other) ==> #[trigger] after.manifest[other]
                    == run.manifest[other]
        }),
{
    let after = after_result(run, uri, raw_id, outcome);
    assert(after.outcomes.take(run.outcomes.len() as int) =~= run.outcomes);
    assert(after.touched_paths.take(run.touched_paths.len() as int) =~= run.touched_paths);
}

/// A source that was compiled and saved is not due any more.
pub proof fn law_compiled_sources_are_not_due(
    entries: Seq<(Seq<char>, VersionView)>,
    manifest: Map<Seq<char>, EntryView>,
    pages: Seq<PageModel>,
    uri: Seq<char>,
)
    requires
        manifest.contains_key(uri),
        manifest[uri].active_hash is Some,
    ensures
        forall|i: int|
            0 <= i < due(entries, marked(manifest, uri), pages).len() ==> (#[trigger] due(
                entries,
                marked(manifest, uri),
                pages,
            )[i]).0 != uri,
    decreases entries.len(),
{
    if entries.len() > 0 {
        law_compiled_sources_are_not_due(entries.drop_last(), manifest, pages, uri);
        let after = marked(manifest, uri);
        let rest = due(entries.drop_last(), after, pages);
        let all = due(entries, after, pages);
        assert(compiled_now(after[uri]));
        assert forall|i: int| 0 <= i < all.len() implies (#[trigger] all[i]).0 != uri by {
            if i < rest.len() {
                assert(all[i] == rest[i]);
            }
        }
    }
}

proof fn lemma_due(
    entries: Seq<(Seq<char>, VersionView)>,
    manifest: Map<Seq<char>, EntryView>,
    pages: Seq<PageModel>,
    uri: Seq<char>,
    raw_id: Seq<char>,
)
    ensures
        due(entries, manifest, pages).contains((uri, raw_id)) <==> !is_cited(pages, raw_id) && !(
        manifest.contains_key(uri) && manifest[uri].compiled_hash is Some
            && manifest[uri].compiled_hash == manifest[uri].active_hash) && exists|k: int|
            0 <= k < entries.len() && (#[trigger] entries[k]).0 == uri && entries[k].1.raw_id
                == raw_id,
    decreases entries.len(),
{
    law_every_source_of_every_page_is_cited(pages, raw_id);
    if entries.len() > 0 {
        let front = entries.drop_last();
        let rest = due(front, manifest, pages);
        let all = due(entries, manifest, pages);
        lemma_due(front, manifest, pages, uri, raw_id);
        if rest.contains((uri, raw_id)) {
            let m = choose|m: int| 0 <= m < rest.len() && rest[m] == (uri, raw_id);
            assert(all[m] == (uri, raw_id));
            let k = choose|k: int|
                0 <= k < front.len() && (#[trigger] front[k]).0 == uri && front[k].1.raw_id
                    == raw_id;
            assert(entries[k].0 == uri);
        }
        if all.contains((uri, raw_id)) && !rest.contains((uri, raw_id)) {
            let m = choose|m: int| 0 <= m < all.len() && all[m] == (uri, raw_id);
            if m < rest.len() {
                assert(rest[m] == (uri, raw_id));
            }
            assert(entries[entries.len() - 1].0 == uri);
        }
        if exists|k: int|
            0 <= k < entries.len() && (#[trigger] entries[k]).0 == uri && entries[k].1.raw_id
                == raw_id {
            let k = choose|k: int|
                0 <= k < entries.len() && (#[trigger] entries[k]).0 == uri && entries[k].1.raw_id
                    == raw_id;
            if k < front.len() {
                assert(front[k].0 == uri);
            } else if !is_cited(pages, raw_id) && !(manifest.contains_key(uri)
                && manifest[uri].compiled_hash is Some && manifest[uri].compiled_hash
                == manifest[uri].active_hash) {
                assert(all[rest.len() as int] == (uri, raw_id));
            }
        }
    }
}

proof fn lemma_due_once(
    entries: Seq<(Seq<char>, VersionView)>,
    manifest: Map<Seq<char>, EntryView>,
    pages: Seq<PageModel>,
)
    requires
        forall|i: int, j: int|
            #![trigger entries[i], entries[j]]
            0 <= i < j < entries.len() ==> entries[i].0 != entries[j].0,
    ensures
        forall|m: int|
            0 <= m < due(entries, manifest, pages).len() ==> exists|k: int|
                0 <= k < entries.len() && (#[trigger] entries[k]).0 == (#[trigger] due(
                    entries,
                    manifest,
                    pages,
                )[m]).0,
        forall|i: int, j: int|
            #![trigger due(entries, manifest, pages)[i], due(entries, manifest, pages)[j]]
            0 <= i < j < due(entries, manifest, pages).len() ==> due(entries, manifest, pages)[i].0
                != due(entries, manifest, pages)[j].0,
    decreases entries.len(),
{
    if entries.len() > 0 {
        let front = entries.drop_last();
        let rest = due(front, manifest, pages);
        let all = due(entries, manifest, pages);
        assert forall|i: int, j: int|
            #![trigger front[i], front[j]]
            0 <= i < j < front.len() implies front[i].0 != front[j].0 by {
            assert(entries[i].0 != entries[j].0);
        }
        lemma_due_once(front, manifest, pages);
        assert forall|m: int| 0 <= m < all.len() implies exists|k: int|
            0 <= k < entries.len() && (#[trigger] entries[k]).0 == (#[trigger] all[m]).0 by {
            if m < rest.len() {
                assert(all[m] == rest[m]);
                let k = choose|k: int|
                    0 <= k < front.len() && (#[trigger] front[k]).0 == rest[m].0;
                assert(entries[k].0 == all[m].0);
            } else {
                assert(entries[entries.len() - 1].0 == all[m].0);
            }
        }
        assert forall|i: int, j: int|
            #![trigger all[i], all[j]]
            0 <= i < j < all.len() implies all[i].0 != all[j].0 by {
            assert(all[i] == rest[i]);
            if j < rest.len() {
                assert(all[j] == rest[j]);
            } else {
                let k = choose|k: int|
                    0 <= k < front.len() && (#[trigger] front[k]).0 == rest[i].0;
                assert(entries[k].0 != entries[entries.len() - 1].0);
            }
        }
    }
}

/// A run that looks for changes works on a source exactly if the source has an active
/// snapshot, no page names that snapshot, and the content that the source was last compiled
/// at is not the content that is active. Any other run works on every source that has an
/// active snapshot. Either way the snapshot is the first active one, and no source comes
/// twice.
pub proof fn law_a_run_works_on_all_that_is_due(
    manifest: Manifest,
    pages: Seq<PageModel>,
    uri: Seq<char>,
    raw_id: Seq<char>,
)
    requires
        manifest.wf(),
    ensures
        selected(manifest, pages, true).contains((uri, raw_id)) <==> {
            &&& manifest@.contains_key(uri)
            &&& exists|version: VersionView| #[trigger]
                is_first_active(manifest@[uri].history, version) && version.raw_id == raw_id
            &&& !is_cited(pages, raw_id)
            &&& !(manifest@[uri].compiled_hash is Some && manifest@[uri].compiled_hash
                == manifest@[uri].active_hash)
        },
        selected(manifest, pages, false).contains((uri, raw_id)) <==> {
            &&& manifest@.contains_key(uri)
            &&& exists|version: VersionView| #[trigger]
                is_first_active(manifest@[uri].history, version) && version.raw_id == raw_id
        },
        forall|diff_only: bool, i: int, j: int|
            #![trigger selected(manifest, pages, diff_only)[i], selected(manifest, pages, diff_only)[j]]
            0 <= i < j < selected(manifest, pages, diff_only).len() ==> selected(
                manifest,
                pages,
                diff_only,
            )[i].0 != selected(manifest, pages, diff_only)[j].0,
{
    let entries = active_of(manifest.listing());
    let every = selected(manifest, pages, false);
    lemma_due(entries, manifest@, pages, uri, raw_id);
    assert forall|version: VersionView| entries.contains((uri, version)) <==> (
    manifest@.contains_key(uri) && #[trigger] is_first_active(
        manifest@[uri].history,
        version,
    )) by {
        law_active_entries_are_the_active_snapshots(manifest, uri, version);
    }
    if exists|k: int|
        0 <= k < entries.len() && (#[trigger] entries[k]).0 == uri && entries[k].1.raw_id
            == raw_id {
        let k = choose|k: int|
            0 <= k < entries.len() && (#[trigger] entries[k]).0 == uri && entries[k].1.raw_id
                == raw_id;
        assert(entries.contains((uri, entries[k].1)));
        law_active_entries_are_the_active_snapshots(manifest, uri, entries[k].1);
        assert(is_first_active(manifest@[uri].history, entries[k].1));
        assert(every[k] == (uri, raw_id));
    }
    if manifest@.contains_key(uri) && exists|version: VersionView| #[trigger]
        is_first_active(manifest@[uri].history, version) && version.raw_id == raw_id {
        let version = choose|version: VersionView| #[trigger]
            is_first_active(manifest@[uri].history, version) && version.raw_id == raw_id;
        assert(entries.contains((uri, version)));
        let k = choose|k: int| 0 <= k < entries.len() && entries[k] == (uri, version);
        assert(entries[k].0 == uri);
    }
    if every.contains((uri, raw_id)) {
        let k = choose|k: int| 0 <= k < every.len() && every[k] == (uri, raw_id);
        assert(entries[k].0 == uri && entries[k].1.raw_id == raw_id);
    }
    let any = choose|version: VersionView| #[trigger]
        is_first_active(manifest@[uri].history, version);
    law_active_entries_are_the_active_snapshots(manifest, uri, any);
    lemma_due_once(entries, manifest@, pages);
    assert forall|diff_only: bool, i: int, j: int|
        #![trigger selected(manifest, pages, diff_only)[i], selected(manifest, pages, diff_only)[j]]
        0 <= i < j < selected(manifest, pages, diff_only).len() implies selected(
        manifest,
        pages,
        diff_only,
    )[i].0 != selected(manifest, pages, diff_only)[j].0 by {
        if diff_only {
            assert(selected(manifest, pages, diff_only) == due(entries, manifest@, pages));
        } else {
            assert(every[i].0 == entries[i].0);
            assert(every[j].0 == entries[j].0);
        }
    }
}

/// A source that was marked as compiled and of which other content was ingested since is
/// worked on again, unless a page names the new snapshot already.
pub proof fn law_changed_content_is_due_again(
    before: Map<Seq<char>, EntryView>,
    after: Manifest,
    pages: Seq<PageModel>,
    uri: Seq<char>,
    hash: Seq<char>,
    raw_id: Seq<char>,
    at: Seq<char>,
)
    requires
        before.contains_key(uri),
        coherent(before[uri]),
        before[uri].active_hash is Some,
        before[uri].active_hash != Some(hash),
        after.wf(),
        after@ == marked(before, uri).insert(
            uri,
            ingested(marked(before, uri)[uri], hash, raw_id, at),
        ),
        !is_cited(pages, raw_id),
    ensures
        selected(after, pages, true).contains((uri, raw_id)),
{
    let entry = marked(before, uri)[uri];
    let now = after@[uri];
    assert(entry.history == before[uri].history);
    assert(entry.active_hash == before[uri].active_hash);
    law_ingested_content_is_active(entry, hash, raw_id, at);
    law_new_snapshot_says_what_was_ingested(entry, hash, raw_id, at);
    lemma_first_active(now.history, now.history.last());
    assert(is_first_active(now.history, now.history.last()));
    law_a_run_works_on_all_that_is_due(after, pages, uri, raw_id);
}

/// The snapshot that an ingest of other content replaced is the one a model is shown beside
/// the new one: the last that there was. The first ingest replaces none.
pub proof fn law_replaced_snapshot_is_the_last_one(
    manifest: Map<Seq<char>, EntryView>,
    uri: Seq<char>,
    entry: EntryView,
    hash: Seq<char>,
    raw_id: Seq<char>,
    at: Seq<char>,
)
    requires
        coherent(entry),
        entry.active_hash != Some(hash),
    ensures
        previous_raw_id(manifest.insert(uri, ingested(entry, hash, raw_id, at)), uri) == (
        if entry.history.len() == 0 {
            None
        } else {
            Some(entry.history.last().raw_id)
        }),
        !manifest.contains_key(uri) ==> previous_raw_id(manifest, uri) is None,
{
    law_ingested_content_is_active(entry, hash, raw_id, at);
    law_new_snapshot_says_what_was_ingested(entry, hash, raw_id, at);
    let after = ingested(entry, hash, raw_id, at);
    if entry.history.len() > 0 {
        law_ingest_only_appends(entry, hash, raw_id, at);
        assert(after.history[entry.history.len() - 1].raw_id == entry.history.last().raw_id);
    }
}

/// The result of a source is recorded as it came: a row with the source, its snapshot and
/// why it failed, if it did; every path that was touched, in order, if it did not. The
/// content that is active counts as compiled then and only then, as long as the manifest can
/// be saved.
pub proof fn law_a_result_is_recorded_as_it_came(
    run: RunView,
    uri: Seq<char>,
    raw_id: Seq<char>,
    outcome: Result<Seq<Seq<char>>, Seq<char>>,
)
    ensures
        ({
            let after = after_result(run, uri, raw_id, outcome);
            &&& after.outcomes.last().uri == uri
            &&& after.outcomes.last().raw_id == raw_id
            &&& outcome is Ok <==> after.outcomes.last().error is None
            &&& outcome is Err ==> after.outcomes.last().error == Some(outcome->Err_0)
            &&& outcome is Ok ==> after.touched_paths == run.touched_paths + outcome->Ok_0
            &&& outcome is Err ==> after.touched_paths == run.touched_paths
            &&& outcome is Ok && run.save_error is None && run.manifest.contains_key(uri)
                && run.manifest[uri].active_hash is Some ==> after.manifest.contains_key(uri)
                && after.manifest[uri].compiled_hash == run.manifest[uri].active_hash
                && after.manifest[uri].active_hash == run.manifest[uri].active_hash
                && after.manifest[uri].history == run.manifest[uri].history
            &&& after.manifest.dom() == run.manifest.dom()
            &&& after.save_error == run.save_error
        }),
{
    let after = after_result(run, uri, raw_id, outcome);
    assert(after.manifest.dom() =~= run.manifest.dom());
}

/// As many sources failed as there are rows with an error: rows are counted one by one, and
/// there is no failure exactly if there is no error.
pub proof fn law_failures_are_counted_row_by_row(a: Seq<OutcomeRow>, b: Seq<OutcomeRow>)
    ensures
        failures(a + b) == failures(a) + failures(b),
        failures(a) <= a.len(),
        failures(a) == 0 <==> forall|i: int| 0 <= i < a.len() ==> (#[trigger] a[i]).error is None,
        failures(a) == a.len() <==> forall|i: int|
            0 <= i < a.len() ==> (#[trigger] a[i]).error is Some,
    decreases a.len() + b.len(),
{
    if b.len() == 0 {
        assert(a + b =~= a);
    } else {
        law_failures_are_counted_row_by_row(a, b.drop_last());
        assert((a + b).drop_last() =~= a + b.drop_last());
    }
    if a.len() > 0 {
        let front = a.drop_last();
        law_failures_are_counted_row_by_row(front, seq![]);
        assert(a[a.len() - 1] == a.last());
        if forall|i: int| 0 <= i < a.len() ==> (#[trigger] a[i]).error is None {
            assert forall|i: int| 0 <= i < front.len() implies (
            #[trigger] front[i]).error is None by {
                assert(a[i].error is None);
            }
        }
        if forall|i: int| 0 <= i < front.len() ==> (#[trigger] front[i]).error is None {
            assert forall|i: int| 0 <= i < front.len() implies (#[trigger] a[i]).error is None by {
                assert(front[i].error is None);
            }
        }
        if forall|i: int| 0 <= i < a.len() ==> (#[trigger] a[i]).error is Some {
            assert forall|i: int| 0 <= i < front.len() implies (
            #[trigger] front[i]).error is Some by {
                assert(a[i].error is Some);
            }
        }
        if forall|i: int| 0 <= i < front.len() ==> (#[trigger] front[i]).error is Some {
            assert forall|i: int| 0 <= i < front.len() implies (#[trigger] a[i]).error is Some by {
                assert(front[i].error is Some);
            }
        }
    }
}

/// Where the sources and the related pages fit the budget together, a model is shown all of
/// them uncut. Where only the sources fit, they are shown uncut, with as many pages from the
/// front as fit.
pub proof fn law_prompts_that_fit_are_not_cut(
    active: BlobView,
    superseded: Option<BlobView>,
    related: Seq<PageRefView>,
    budget: nat,
)
    ensures
        tokens(active.content) + opt_tokens(superseded) + page_tokens(related) <= budget
            ==> fitted_prompt(active, superseded, related, budget) == compile_prompt(
            active,
            superseded,
            related,
        ),
        tokens(active.content) + opt_tokens(superseded) <= budget ==> exists|k: int|
            #![trigger related.take(k)]
            0 <= k <= related.len() && fitted_prompt(active, superseded, related, budget)
                == compile_prompt(active, superseded, related.take(k)) && tokens(active.content)
                + opt_tokens(superseded) + page_tokens(related.take(k)) <= budget && (k
                == related.len() || tokens(active.content) + opt_tokens(superseded) + page_tokens(
                related.take(k + 1),
            ) > budget),
{
    let base = tokens(active.content) + opt_tokens(superseded);
    if base <= budget {
        law_truncation(active.content, budget);
        law_truncation(active.content, tokens(active.content));
        if superseded is Some {
            law_truncation(superseded->0.content, tokens(superseded->0.content));
        }
        law_kept_pages_are_the_most_that_fit(related, base, budget);
        let kept = fitting(related, base, budget);
        let k = kept.len() as int;
        assert(related.take(k) == kept);
        assert(page_tokens(seq![]) == 0);
        if k == 0 {
            assert(kept =~= seq![]);
        }
        assert(related.take(related.len() as int) =~= related);
        assert(fitted_prompt(active, superseded, related, budget) == compile_prompt(
            active,
            superseded,
            related.take(k),
        ));
    }
}

// ---------------------------------------------------------------------------
// The index
// ---------------------------------------------------------------------------

/// A page as the index lists it.
#[derive(Debug)]
pub struct IndexEntry {
    pub title: String,
    pub path: String,
    pub description: String,
}

pub struct IndexRow {
    pub title: Seq<char>,
    pub path: Seq<char>,
    pub description: Seq<char>,
}

impl View for IndexEntry {
    type V = IndexRow;

    open spec fn view(&self) -> IndexRow {
        IndexRow { title: self.title@, path: self.path@, description: self.description@ }
    }
}

impl Sortable for IndexEntry {
    /// The index is ordered by title, then by path, then by description.
    open spec fn sort_key(v: IndexRow) -> Seq<Seq<char>> {
        seq![v.title, v.path, v.description]
    }

    fn not_after(&self, other: &Self) -> (r: bool) {
        let mut a: Vec<String> = Vec::new();
        a.push(self.title.clone());
        a.push(self.path.clone());
        a.push(self.description.clone());
        let mut b: Vec<String> = Vec::new();
        b.push(other.title.clone());
        b.push(other.path.clone());
        b.push(other.description.clone());
        proof {
            assert(views(a@) =~= Self::sort_key(self@));
            assert(views(b@) =~= Self::sort_key(other@));
        }
        list_not_after(&a, &b)
    }
}

/// How the index lists a page; not at all, if it cannot be read.
pub open spec fn index_row(page: PageModel) -> Option<IndexRow> {
    match page.parsed {
        Ok(p) => Some(
            IndexRow {
                title: p.frontmatter.title,
                path: page.path,
                description: match p.frontmatter.description {
                    Some(d) => d,
                    None => seq![],
                },
            },
        ),
        Err(_) => None,
    }
}

/// What the index lists: every page that can be read.
pub open spec fn index_rows(pages: Seq<PageModel>) -> Seq<IndexRow> {
    gathered(pages, |page: PageModel| index_row(page))
}

/// A line of the index.
pub open spec fn index_line(row: IndexRow) -> Seq<char> {
    if row.description.len() == 0 {
        "- ["@ + row.title + "]("@ + row.path + ")\n"@
    } else {
        "- ["@ + row.title + "]("@ + row.path + ") — "@ + row.description + "\n"@
    }
}

/// The lines of the index.
pub open spec fn index_lines(rows: Seq<IndexRow>) -> Seq<char>
    decreases rows.len(),
{
    if rows.len() == 0 {
        seq![]
    } else {
        index_lines(rows.drop_last()) + index_line(rows.last())
    }
}

/// The text of the index.
pub open spec fn index_text(pages: Seq<PageModel>) -> Seq<char> {
    "# Wiki Index\n\n"@ + index_lines(sorted::<IndexEntry>(index_rows(pages)))
}

/// The text of `wiki/index.md`: every page that can be read, by title. The same pages
/// give the same text, in whatever order they are found.
pub fn regenerate_index(pages: &Vec<PageFile>) -> (r: String)
    ensures
        r@ == index_text(views(pages@)),
{
    let mut entries: Vec<IndexEntry> = Vec::new();
    let mut i: usize = 0;
    assert(views(entries@) =~= seq![]);
    assert(views(pages@).take(0) =~= seq![]);
    while i < pages.len()
        invariant
            i <= pages@.len(),
            views(entries@) == index_rows(views(pages@).take(i as int)),
        decreases pages@.len() - i,
    {
        let ghost before = entries@;
        proof {
            let now = views(pages@).take(i + 1);
            assert(now.drop_last() =~= views(pages@).take(i as int));
            assert(now.last() == pages@[i as int]@);
            assert(index_rows(now) == (match index_row(now.last()) {
                Some(row) => index_rows(now.drop_last()).push(row),
                None => index_rows(now.drop_last()),
            }));
        }
        match &pages[i].parsed {
            Ok(p) => {
                let description: String = match &p.frontmatter.description {
                    Some(d) => d.clone(),
                    None => {
                        let s = String::new();
                        assert(s@ =~= seq![]);
                        s
                    },
                };
                let entry = IndexEntry {
                    title: p.frontmatter.title.clone(),
                    path: pages[i].path.clone(),
                    description,
                };
                let ghost what = entry@;
                entries.push(entry);
                assert(views(entries@) =~= views(before).push(what));
            },
            Err(_) => {},
        }
        i += 1;
    }
    assert(views(pages@).take(pages@.len() as int) =~= views(pages@));
    let entries = sort(entries);
    let mut out = "# Wiki Index\n\n".to_string();
    let ghost head = out@;
    let ghost rows = views(entries@);
    let mut k: usize = 0;
    assert(rows.take(0) =~= seq![]);
    assert(out@ =~= head + index_lines(rows.take(0)));
    while k < entries.len()
        invariant
            rows == views(entries@),
            k <= entries@.len(),
            out@ == head + index_lines(rows.take(k as int)),
        decreases entries@.len() - k,
    {
        proof {
            assert(rows.take(k + 1).drop_last() =~= rows.take(k as int));
            assert(rows.take(k + 1).last() == entries@[k as int]@);
        }
        out.append("- [");
        out.append(entries[k].title.as_str());
        out.append("](");
        out.append(entries[k].path.as_str());
        if entries[k].description.as_str().is_empty() {
            out.append(")\n");
        } else {
            out.append(") — ");
            out.append(entries[k].description.as_str());
            out.append("\n");
        }
        assert(out@ =~= head + index_lines(rows.take(k + 1)));
        k += 1;
    }
    assert(rows.take(rows.len() as int) =~= rows);
    out
}

/// The index does not depend on the order in which the pages are found.
pub proof fn law_index_does_not_depend_on_order(a: Seq<PageModel>, b: Seq<PageModel>)
    requires
        a.to_multiset() == b.to_multiset(),
    ensures
        index_text(a) == index_text(b),
{
    let f = |page: PageModel| index_row(page);
    lemma_gathered_in_any_order(a, b, f);
    let rows = index_rows(a);
    assert forall|x: IndexRow, y: IndexRow|
        #![trigger rows.contains(x), rows.contains(y)]
        rows.contains(x) && rows.contains(y) && IndexEntry::sort_key(x) == IndexEntry::sort_key(
            y,
        ) implies x == y by {
        assert(IndexEntry::sort_key(x)[0] == IndexEntry::sort_key(y)[0]);
        assert(IndexEntry::sort_key(x)[1] == IndexEntry::sort_key(y)[1]);
        assert(IndexEntry::sort_key(x)[2] == IndexEntry::sort_key(y)[2]);
    }
    lemma_sorted_in_any_order::<IndexEntry>(rows, index_rows(b));
}

proof fn lemma_index_lines_insert(rows: Seq<IndexRow>, k: int, row: IndexRow)
    requires
        0 <= k <= rows.len(),
    ensures
        index_lines(rows.insert(k, row)).len() == index_lines(rows).len() + index_line(row).len(),
    decreases rows.len(),
{
    let all = rows.insert(k, row);
    if k == rows.len() {
        assert(all.drop_last() =~= rows);
    } else {
        lemma_index_lines_insert(rows.drop_last(), k, row);
        assert(all.drop_last() =~= rows.drop_last().insert(k, row));
        assert(all.last() == rows.last());
    }
}

proof fn lemma_sorted_index_lines(rows: Seq<IndexRow>)
    ensures
        index_lines(sorted::<IndexEntry>(rows)).len() == index_lines(rows).len(),
    decreases rows.len(),
{
    if rows.len() > 0 {
        let rest = sorted::<IndexEntry>(rows.drop_last());
        lemma_sorted_index_lines(rows.drop_last());
        lemma_sorted::<IndexEntry>(rows.drop_last());
        lemma_insert_at::<IndexEntry>(rest, rows.last());
        lemma_index_lines_insert(rest, insert_at::<IndexEntry>(rest, rows.last()), rows.last());
    }
}

proof fn lemma_index_lines(a: Seq<IndexRow>, b: Seq<IndexRow>)
    ensures
        index_lines(a + b) == index_lines(a) + index_lines(b),
    decreases b.len(),
{
    if b.len() == 0 {
        assert(a + b =~= a);
        assert(index_lines(a) + index_lines(b) =~= index_lines(a));
    } else {
        lemma_index_lines(a, b.drop_last());
        assert((a + b).drop_last() =~= a + b.drop_last());
        assert(index_lines(a + b) =~= index_lines(a) + index_lines(b));
    }
}

proof fn lemma_index_line_is_there(rows: Seq<IndexRow>, i: int)
    requires
        0 <= i < rows.len(),
    ensures
        has_part(index_lines(rows), index_line(rows[i])),
    decreases rows.len(),
{
    let front = index_lines(rows.drop_last());
    let line = index_line(rows.last());
    if i == rows.len() - 1 {
        lemma_part_of_itself(line);
        lemma_part(front, line, seq![], line);
    } else {
        lemma_index_line_is_there(rows.drop_last(), i);
        lemma_part(seq![], front, line, index_line(rows[i]));
    }
}

/// The index lists every page that can be read, by its title, its path and its
/// description, if it has one, and nothing else: a page that cannot be read takes no room,
/// and the lines of two lists of pages take as much room together as apart.
pub proof fn law_index_lists_every_readable_page(
    pages: Seq<PageModel>,
    more: Seq<PageModel>,
    i: int,
)
    requires
        0 <= i < pages.len(),
    ensures
        ({
            let page = pages[i];
            let front = page.parsed->Ok_0.frontmatter;
            page.parsed is Ok ==> has_part(
                index_text(pages),
                if front.description is Some && front.description->0.len() > 0 {
                    "- ["@ + front.title + "]("@ + page.path + ") — "@ + front.description->0
                        + "\n"@
                } else {
                    "- ["@ + front.title + "]("@ + page.path + ")\n"@
                },
            )
        }),
        pages[i].parsed is Err ==> index_text(seq![pages[i]]) == "# Wiki Index\n\n"@,
        pages[i].parsed is Ok ==> index_text(seq![pages[i]]) == "# Wiki Index\n\n"@ + ({
            let front = pages[i].parsed->Ok_0.frontmatter;
            if front.description is Some && front.description->0.len() > 0 {
                "- ["@ + front.title + "]("@ + pages[i].path + ") — "@ + front.description->0
                    + "\n"@
            } else {
                "- ["@ + front.title + "]("@ + pages[i].path + ")\n"@
            }
        }),
        index_text(pages + more).len() + "# Wiki Index\n\n"@.len() == index_text(pages).len()
            + index_text(more).len(),
{
    let f = |page: PageModel| index_row(page);
    let page = pages[i];
    let rows = index_rows(pages);
    let listed = sorted::<IndexEntry>(rows);
    lemma_sorted::<IndexEntry>(rows);
    law_gathering_goes_value_by_value(pages, more, page, f);
    let one = index_rows(seq![page]);
    assert(one.len() <= 1);
    if page.parsed is Ok {
        let row = index_row(page)->0;
        law_gathered_values_are_those_that_are_made(pages, f, row);
        assert(f(pages[i]) == Some(row));
        assert(listed.contains(row));
        let k = choose|k: int| 0 <= k < listed.len() && listed[k] == row;
        lemma_index_line_is_there(listed, k);
        lemma_part("# Wiki Index\n\n"@, index_lines(listed), seq![], index_line(row));
        lemma_sorted::<IndexEntry>(one);
        assert(one == seq![row]);
        assert(one.contains(row)) by {
            assert(one[0] == row);
        }
        assert(sorted::<IndexEntry>(one) =~= seq![row]);
        assert(index_lines(seq![row].drop_last()) =~= seq![]);
        assert(index_lines(seq![row]) =~= index_line(row));
    } else {
        assert(one =~= seq![]);
        lemma_sorted::<IndexEntry>(one);
        assert(sorted::<IndexEntry>(one) =~= seq![]);
        assert(index_text(seq![page]) =~= "# Wiki Index\n\n"@);
    }
    let others = index_rows(more);
    lemma_sorted_index_lines(rows);
    lemma_sorted_index_lines(others);
    lemma_sorted_index_lines(index_rows(pages + more));
    lemma_index_lines(rows, others);
}

/// A source is read where it is found: its body is what follows the frontmatter of the first
/// file at that path. Where there is none, what is said is what reading that file said, or
/// that no file was found, with the name of the source and of the vault.
pub proof fn law_a_source_is_read_where_it_is_found(
    root: Seq<char>,
    manifest: Manifest,
    files: Seq<RawFile>,
    raw_id: Seq<char>,
    i: int,
)
    requires
        0 <= i < files.len(),
        forall|j: int| 0 <= j < i ==> (#[trigger] files[j]).path@ != files[i].path@,
    ensures
        raw_path(manifest, files, raw_id) == Some(files[i].path@) && files[i].content is Ok
            ==> body_of(manifest, files, raw_id) == Some(raw_body(files[i].content->Ok_0@)),
        raw_path(manifest, files, raw_id) == Some(files[i].path@) && files[i].content is Err
            ==> body_of(manifest, files, raw_id) is None && why_unreadable(
            root,
            manifest,
            files,
            raw_id,
        ) == files[i].content->Err_0@,
        raw_path(manifest, files, raw_id) is None ==> body_of(manifest, files, raw_id) is None
            && has_part(why_unreadable(root, manifest, files, raw_id), raw_id) && has_part(
            why_unreadable(root, manifest, files, raw_id),
            root,
        ),
{
    lemma_content_at(files, files[i].path@, 0, i);
    if raw_path(manifest, files, raw_id) is None {
        let said = why_unreadable(root, manifest, files, raw_id);
        let head = "no raw file found for '"@;
        let middle = "' under '"@;
        lemma_part_of_itself(raw_id);
        lemma_part_of_itself(root);
        lemma_part(head, raw_id, middle + root + "'"@, raw_id);
        assert(said =~= head + raw_id + (middle + root + "'"@));
        lemma_part(head + raw_id + middle, root, "'"@, root);
    }
}

/// Related pages are searched for with the whole of a short source and with the front of a
/// long one: five hundred characters of it, as they stand.
pub proof fn law_related_pages_are_searched_with_the_front(front: Seq<char>, rest: Seq<char>)
    requires
        front.len() == 500,
    ensures
        query_of(front + rest) == front,
        rest.len() <= 500 ==> query_of(rest) == rest,
{
    assert((front + rest).take(500) =~= front);
}

/// A source that another replaced is shown under its own name and with its own body, exactly
/// if there is one and it can be read.
pub proof fn law_a_replaced_source_is_shown_if_it_can_be_read(
    manifest: Manifest,
    files: Seq<RawFile>,
    id: Seq<char>,
)
    ensures
        superseded_blob(manifest, files, None) is None,
        superseded_blob(manifest, files, Some(id)) is Some <==> body_of(manifest, files, id) is Some,
        superseded_blob(manifest, files, Some(id)) is Some ==> superseded_blob(
            manifest,
            files,
            Some(id),
        )->0.id == id && superseded_blob(manifest, files, Some(id))->0.content == body_of(
            manifest,
            files,
            id,
        )->0,
{
}

/// A vault's own entry for a provider is all that counts: its address and its variable for
/// the key, or none. An address that was set up on this machine counts only where the vault
/// has no entry, and no other provider's ever does. Answers are as long as the vault allows.
pub proof fn law_a_vault_has_the_last_word_on_a_provider(
    options: CompileOptions,
    config: OkfVaultConfig,
    custom: Map<Seq<char>, String>,
    other: Map<Seq<char>, String>,
    provider: Seq<char>,
)
    requires
        are_provider_options(options, config, custom, provider),
    ensures
        config.providers@.contains_key(provider) ==> opt_view(options.base_url_override)
            == opt_view(config.providers@[provider].base_url) && opt_view(
            options.api_key_env_override,
        ) == opt_view(config.providers@[provider].api_key_env) && are_provider_options(
            options,
            config,
            other,
            provider,
        ),
        !config.providers@.contains_key(provider) ==> options.api_key_env_override is None,
        !config.providers@.contains_key(provider) && custom.contains_key(provider) ==> opt_view(
            options.base_url_override,
        ) == Some(custom[provider]@),
        !config.providers@.contains_key(provider) && !custom.contains_key(provider)
            ==> options.base_url_override is None,
        options.max_tokens == Some(config.compiler.max_tokens),
        options.temperature_bits is None,
{
}

/// A prompt is made for a source that can be read, from its own body, from the source that
/// it replaced, if that can be read, and from what a search for the front of the body found.
/// A source that cannot be read gives the reason, and so does a search that failed.
pub proof fn law_a_prompt_is_made_of_its_source<F: Fn(&str) -> Result<Vec<WikiPageRef>, String>>(
    root: Seq<char>,
    manifest: Manifest,
    files: Seq<RawFile>,
    raw_id: Seq<char>,
    superseded: Option<Seq<char>>,
    search: F,
    r: Result<Seq<char>, PromptError>,
)
    requires
        is_prompt_for(root, manifest, files, raw_id, superseded, search, r),
    ensures
        r is Ok ==> body_of(manifest, files, raw_id) is Some,
        r is Ok ==> exists|query: &str, related: Vec<WikiPageRef>|
            {
                let body = body_of(manifest, files, raw_id)->0;
                let old_raw = superseded_blob(manifest, files, superseded);
                &&& #[trigger] call_ensures(search, (query,), Ok(related))
                &&& query@ == (if body.len() <= 500 {
                    body
                } else {
                    body.take(500)
                })
                &&& r->Ok_0 == fitted_prompt(
                    BlobView { id: raw_id, content: body },
                    old_raw,
                    views(related@),
                    DEFAULT_PROMPT_TOKEN_BUDGET as nat,
                )
                &&& tokens(body) + opt_tokens(old_raw) + page_tokens(views(related@))
                    <= DEFAULT_PROMPT_TOKEN_BUDGET ==> r->Ok_0 == compile_prompt(
                    BlobView { id: raw_id, content: body },
                    old_raw,
                    views(related@),
                )
            },
        body_of(manifest, files, raw_id) is None ==> r is Err && r->Err_0 is UnreadableSource,
        body_of(manifest, files, raw_id) is Some && r is Err ==> r->Err_0 is Search,
{
    if body_of(manifest, files, raw_id) is Some {
        let body = body_of(manifest, files, raw_id)->0;
        let old_raw = superseded_blob(manifest, files, superseded);
        let found = choose|found: Result<Vec<WikiPageRef>, String>|
            {
                &&& #[trigger] may_find(search, query_of(body), found)
                &&& match found {
                    Err(e) => r == Err::<Seq<char>, PromptError>(PromptError::Search(e)),
                    Ok(related) => r == Ok::<Seq<char>, PromptError>(
                        fitted_prompt(
                            BlobView { id: raw_id, content: body },
                            old_raw,
                            views(related@),
                            DEFAULT_PROMPT_TOKEN_BUDGET as nat,
                        ),
                    ),
                }
            };
        let query = choose|q: &str|
            q@ == query_of(body) && #[trigger] call_ensures(search, (q,), found);
        if r is Ok {
            let related = found->Ok_0;
            law_prompts_that_fit_are_not_cut(
                BlobView { id: raw_id, content: body },
                old_raw,
                views(related@),
                DEFAULT_PROMPT_TOKEN_BUDGET as nat,
            );
            assert(call_ensures(search, (query,), Ok(related)));
        }
    }
}

/// A source of up to four hundred thousand characters that replaced no other and has no
/// related pages is shown whole within the default budget.
pub proof fn law_a_source_fits_the_default_budget(active: BlobView)
    requires
        active.content.len() <= 400_000,
    ensures
        fitted_prompt(active, None, seq![], DEFAULT_PROMPT_TOKEN_BUDGET as nat) == compile_prompt(
            active,
            None,
            seq![],
        ),
        tokens(active.content) <= 100_000,
{
    law_prompts_that_fit_are_not_cut(
        active,
        None,
        seq![],
        DEFAULT_PROMPT_TOKEN_BUDGET as nat,
    );
    assert(page_tokens(seq![]) == 0);
}

/// The work on a source is told by the source.
pub proof fn law_work_is_told_by_its_source(uri: Seq<char>)
    ensures
        compile_label(uri) == "compiling "@ + uri,
        has_part(compile_label(uri), uri),
{
    lemma_part_of_itself(uri);
    lemma_part("compiling "@, uri, seq![], uri);
}

} // verus!
