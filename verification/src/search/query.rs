//! What a search indexes, and how its results are told apart.

use vstd::prelude::*;

use crate::ingest::frontmatter::{
    content_hash, filename_identity, hash_content, is_raw_entry, raw_entry, raw_id_from_filename,
    RawFile,
};
use crate::manifest::model::{
    active_of, is_first_active, law_active_entries_are_the_active_snapshots, Manifest, VersionView,
};
use crate::order::{
    gathered, law_gathered_values_are_those_that_are_made, lemma_contained_in_either, lemma_ranked,
    ranked, sort_by_rank, Ranked,
};
use crate::paths::{extension, extension_of, file_name, file_name_of, file_stem, file_stem_of};
use crate::search::rrf::{is_merged, rrf_merge};
use crate::search::vectors::{
    best_among, best_hits, find_hit, hit_for, law_a_hit_is_found_by_its_path,
    law_best_hits_are_the_nearest, law_each_document_is_listed_once, needs_reembedding, HitView,
    VectorHit,
};
use crate::text::{
    has_prefix, has_text, lines, lines_of, opt_view, starts_with, strip_prefix, text_eq, trim,
    trimmed, views,
};
use crate::validator::frontmatter::{
    cut, is_made_of, law_a_document_is_cut_at_its_delimiters, page_of, split_frontmatter, PageFile,
    PageModel, WikiFrontmatter,
};

verus! {

/// A document without its frontmatter, if it has one.
pub open spec fn raw_body(content: Seq<char>) -> Seq<char> {
    match cut(content) {
        Ok((yaml, body)) => body,
        Err(_) => content,
    }
}

/// `# `, which begins a heading of the first level.
pub open spec fn heading_mark() -> Seq<char> {
    seq!['#', ' ']
}

/// What the first line with a heading of the first level says, among the lines
/// from `from` on.
pub open spec fn first_heading(all: Seq<Seq<char>>, from: int) -> Seq<char>
    decreases all.len() - from,
{
    if from < 0 || from >= all.len() {
        seq![]
    } else if has_prefix(all[from], heading_mark()) {
        trim(all[from].skip(2))
    } else {
        first_heading(all, from + 1)
    }
}

/// The title of a document: its first heading of the first level, or nothing.
pub open spec fn raw_title(content: Seq<char>) -> Seq<char> {
    first_heading(lines(raw_body(content)), 0)
}

/// The title and the body of a raw document, its frontmatter left out.
pub fn raw_title_and_body(content: &str) -> (r: (String, String))
    ensures
        r.0@ == raw_title(content@),
        r.1@ == raw_body(content@),
{
    let body: String = match split_frontmatter(content) {
        Ok((_, body)) => body,
        Err(_) => content.to_string(),
    };
    proof {
        reveal_strlit("# ");
        assert("# "@ =~= heading_mark());
    }
    let all = lines_of(body.as_str());
    let mut i: usize = 0;
    while i < all.len()
        invariant
            i <= all@.len(),
            views(all@) == lines(body@),
            body@ == raw_body(content@),
            "# "@ == heading_mark(),
            raw_title(content@) == first_heading(views(all@), i as int),
        decreases all@.len() - i,
    {
        assert(views(all@)[i as int] == all@[i as int]@);
        match strip_prefix(all[i].as_str(), "# ") {
            Some(rest) => {
                let title = trimmed(rest.as_str());
                return (title, body);
            },
            None => {},
        }
        i += 1;
    }
    (String::new(), body)
}

// ---------------------------------------------------------------------------
// What is indexed
// ---------------------------------------------------------------------------

/// A document that can be found.
#[derive(Debug)]
pub struct CollectedDocument {
    pub path: String,
    pub title: String,
    pub body: String,
    /// `raw` or `concept`.
    pub doc_type: &'static str,
}

pub struct DocumentRow {
    pub path: Seq<char>,
    pub title: Seq<char>,
    pub body: Seq<char>,
    pub doc_type: Seq<char>,
}

impl View for CollectedDocument {
    type V = DocumentRow;

    open spec fn view(&self) -> DocumentRow {
        DocumentRow {
            path: self.path@,
            title: self.title@,
            body: self.body@,
            doc_type: self.doc_type@,
        }
    }
}

/// The raw ids of the active snapshots.
pub open spec fn active_ids(manifest: Manifest) -> Seq<Seq<char>> {
    active_of(manifest.listing()).map_values(|e: (Seq<char>, VersionView)| e.1.raw_id)
}

/// Whether a file is the Markdown of an active snapshot.
pub open spec fn is_active_raw(active: Seq<Seq<char>>, file: RawFile) -> bool {
    &&& is_raw_entry(file.path@)
    &&& match file_name(file.path@) {
        Some(name) => extension(name) == Some("md"@),
        None => false,
    }
    &&& match filename_identity(file.path@) {
        Some(id) => active.contains(id),
        None => false,
    }
}

/// What is indexed of a file.
pub open spec fn raw_document_row(active: Seq<Seq<char>>, file: RawFile) -> Option<DocumentRow> {
    if is_active_raw(active, file) && file.content is Ok {
        let content = file.content->Ok_0@;
        Some(
            DocumentRow {
                path: file.path@,
                title: if raw_title(content).len() == 0 {
                    file_stem(file.path@)
                } else {
                    raw_title(content)
                },
                body: raw_body(content),
                doc_type: "raw"@,
            },
        )
    } else {
        None
    }
}

/// Why the first of `files`, from position `from` on, that has to be indexed and cannot
/// be read cannot.
pub open spec fn first_unreadable(active: Seq<Seq<char>>, files: Seq<RawFile>, from: int) -> Option<
    Seq<char>,
>
    decreases files.len() - from,
{
    if from < 0 || from >= files.len() {
        None
    } else if is_active_raw(active, files[from]) && files[from].content is Err {
        Some(files[from].content->Err_0@)
    } else {
        first_unreadable(active, files, from + 1)
    }
}

/// What is indexed of a page; nothing, if it cannot be read.
pub open spec fn page_document_row(page: PageModel) -> Option<DocumentRow> {
    match page.parsed {
        Ok(p) => Some(
            DocumentRow {
                path: page.path,
                title: p.frontmatter.title,
                body: p.body,
                doc_type: "concept"@,
            },
        ),
        Err(_) => None,
    }
}

/// Everything that is indexed: the active snapshots, then the pages.
pub open spec fn document_rows(
    manifest: Manifest,
    files: Seq<RawFile>,
    pages: Seq<PageModel>,
) -> Seq<DocumentRow> {
    let active = active_ids(manifest);
    gathered(files, |f: RawFile| raw_document_row(active, f)) + gathered(
        pages,
        |p: PageModel| page_document_row(p),
    )
}

fn collect_active_ids(manifest: &Manifest) -> (r: Vec<String>)
    requires
        manifest.wf(),
    ensures
        views(r@) == active_ids(*manifest),
{
    let entries = manifest.active_entries();
    let ghost all = active_of(manifest.listing());
    let ghost f = |e: (Seq<char>, VersionView)| e.1.raw_id;
    let mut out: Vec<String> = Vec::new();
    let mut i: usize = 0;
    assert(views(out@) =~= all.take(0).map_values(f));
    while i < entries.len()
        invariant
            i <= entries@.len(),
            entries@.len() == all.len(),
            f == (|e: (Seq<char>, VersionView)| e.1.raw_id),
            forall|k: int|
                0 <= k < all.len() ==> (#[trigger] entries@[k]).0@ == all[k].0 && entries@[k].1@
                    == all[k].1,
            views(out@) == all.take(i as int).map_values(f),
        decreases entries@.len() - i,
    {
        let ghost before = out@;
        let (_, version) = entries[i];
        out.push(version.raw_id.clone());
        proof {
            assert(views(out@) =~= views(before).push(version.raw_id@));
            assert(all.take(i + 1).map_values(f) =~= all.take(i as int).map_values(f).push(
                version.raw_id@,
            ));
        }
        i += 1;
    }
    assert(all.take(all.len() as int) =~= all);
    out
}

fn active_raw(active: &Vec<String>, file: &RawFile) -> (r: bool)
    ensures
        r == is_active_raw(views(active@), *file),
{
    if !raw_entry(file.path.as_str()) {
        return false;
    }
    let markdown: bool = match file_name_of(file.path.as_str()) {
        Some(name) => match extension_of(name.as_str()) {
            Some(ext) => text_eq(ext.as_str(), "md"),
            None => false,
        },
        None => false,
    };
    markdown && match raw_id_from_filename(file.path.as_str()) {
        Some(id) => has_text(active, id.as_str()),
        None => false,
    }
}

/// Everything that is indexed: the active snapshots, then the pages that can be read.
/// Snapshots that are not active any more are left out. If an active snapshot cannot be
/// read, why the first such cannot.
pub fn collect_documents(
    manifest: &Manifest,
    files: &Vec<RawFile>,
    pages: &Vec<PageFile>,
) -> (r: Result<Vec<CollectedDocument>, String>)
    requires
        manifest.wf(),
    ensures
        match first_unreadable(active_ids(*manifest), files@, 0) {
            Some(e) => r is Err && r->Err_0@ == e,
            None => r is Ok && views(r->Ok_0@) == document_rows(
                *manifest,
                files@,
                views(pages@),
            ),
        },
{
    let active = collect_active_ids(manifest);
    let ghost ids = views(active@);
    let ghost f = |f: RawFile| raw_document_row(ids, f);
    let mut out: Vec<CollectedDocument> = Vec::new();
    let mut i: usize = 0;
    assert(files@.take(0) =~= seq![]);
    assert(views(out@) =~= seq![]);
    while i < files.len()
        invariant
            ids == views(active@),
            ids == active_ids(*manifest),
            f == (|f: RawFile| raw_document_row(ids, f)),
            i <= files@.len(),
            first_unreadable(ids, files@, 0) == first_unreadable(ids, files@, i as int),
            views(out@) == gathered(files@.take(i as int), f),
        decreases files@.len() - i,
    {
        let ghost before = out@;
        proof {
            assert(files@.take(i + 1).drop_last() =~= files@.take(i as int));
            assert(files@.take(i + 1).last() == files@[i as int]);
        }
        if active_raw(&active, &files[i]) {
            match &files[i].content {
                Err(e) => {
                    return Err(e.clone());
                },
                Ok(content) => {
                    let (title, body) = raw_title_and_body(content.as_str());
                    let title: String = if title.as_str().is_empty() {
                        file_stem_of(files[i].path.as_str())
                    } else {
                        title
                    };
                    let document = CollectedDocument {
                        path: files[i].path.clone(),
                        title,
                        body,
                        doc_type: "raw",
                    };
                    let ghost what = document@;
                    out.push(document);
                    assert(views(out@) =~= views(before).push(what));
                },
            }
        }
        i += 1;
    }
    assert(files@.take(files@.len() as int) =~= files@);
    let ghost head = views(out@);
    let ghost g = |p: PageModel| page_document_row(p);
    let ghost all = views(pages@);
    let mut k: usize = 0;
    assert(all.take(0) =~= seq![]);
    assert(views(out@) =~= head + gathered(all.take(0), g));
    while k < pages.len()
        invariant
            all == views(pages@),
            g == (|p: PageModel| page_document_row(p)),
            k <= pages@.len(),
            views(out@) == head + gathered(all.take(k as int), g),
        decreases pages@.len() - k,
    {
        let ghost before = out@;
        proof {
            assert(all.take(k + 1).drop_last() =~= all.take(k as int));
            assert(all.take(k + 1).last() == pages@[k as int]@);
        }
        match &pages[k].parsed {
            Ok(p) => {
                let document = CollectedDocument {
                    path: pages[k].path.clone(),
                    title: p.frontmatter.title.clone(),
                    body: p.body.clone(),
                    doc_type: "concept",
                };
                let ghost what = document@;
                out.push(document);
                assert(views(out@) =~= views(before).push(what));
                assert(views(out@) =~= head + gathered(all.take(k + 1), g));
            },
            Err(_) => {},
        }
        k += 1;
    }
    assert(all.take(all.len() as int) =~= all);
    Ok(out)
}

/// What indexing came to.
#[derive(Debug)]
pub struct ReindexReport {
    pub text_documents_indexed: usize,
    pub vectors_embedded: usize,
    pub vectors_skipped_unchanged: usize,
}

/// What is noted of a document, and whether its vectors have to be computed.
#[derive(Debug)]
pub struct VectorTask {
    pub content_hash: String,
    pub embed: bool,
}

/// Whether the body of a document differs from the one with the hash `stored`.
pub open spec fn is_changed(body: Seq<char>, stored: Option<String>) -> bool {
    opt_view(stored) != Some(content_hash(body))
}

/// How many of the first `n` documents have changed.
pub open spec fn changed_count(documents: Seq<DocumentRow>, stored: Seq<Option<String>>, n: nat) -> nat
    decreases n,
{
    if n == 0 {
        0
    } else {
        changed_count(documents, stored, (n - 1) as nat) + (if is_changed(
            documents[n - 1].body,
            stored[n - 1],
        ) {
            1nat
        } else {
            0nat
        })
    }
}

/// What is done to index `documents`: all of them go into the text index; with
/// `embeddings`, vectors are computed for those whose content is not what it was.
/// `stored` holds the hash that is noted of each document, if there is one.
pub fn reindex(
    documents: &Vec<CollectedDocument>,
    embeddings: bool,
    stored: &Vec<Option<String>>,
) -> (r: (ReindexReport, Vec<VectorTask>))
    requires
        stored@.len() == documents@.len(),
    ensures
        r.0.text_documents_indexed == documents@.len(),
        if embeddings {
            &&& r.1@.len() == documents@.len()
            &&& forall|i: int|
                0 <= i < r.1@.len() ==> (#[trigger] r.1@[i]).content_hash@ == content_hash(
                    documents@[i].body@,
                ) && r.1@[i].embed == is_changed(documents@[i].body@, stored@[i])
            &&& r.0.vectors_embedded == changed_count(
                views(documents@),
                stored@,
                documents@.len(),
            )
            &&& r.0.vectors_skipped_unchanged == documents@.len() - r.0.vectors_embedded
        } else {
            &&& r.1@.len() == 0
            &&& r.0.vectors_embedded == 0
            &&& r.0.vectors_skipped_unchanged == 0
        },
{
    let n: usize = documents.len();
    let mut tasks: Vec<VectorTask> = Vec::new();
    let mut embedded: usize = 0;
    let mut skipped: usize = 0;
    if embeddings {
        let mut i: usize = 0;
        while i < n
            invariant
                n == documents@.len(),
                stored@.len() == n,
                i <= n,
                tasks@.len() == i,
                embedded + skipped == i,
                embedded == changed_count(views(documents@), stored@, i as nat),
                forall|k: int|
                    0 <= k < i ==> (#[trigger] tasks@[k]).content_hash@ == content_hash(
                        documents@[k].body@,
                    ) && tasks@[k].embed == is_changed(documents@[k].body@, stored@[k]),
            decreases n - i,
        {
            let content_hash = hash_content(documents[i].body.as_str());
            let known: Option<&str> = match &stored[i] {
                Some(h) => Some(h.as_str()),
                None => None,
            };
            let embed: bool = needs_reembedding(known, content_hash.as_str());
            assert(views(documents@)[i as int] == documents@[i as int]@);
            if embed {
                embedded += 1;
            } else {
                skipped += 1;
            }
            tasks.push(VectorTask { content_hash, embed });
            i += 1;
        }
    }
    (
        ReindexReport {
            text_documents_indexed: n,
            vectors_embedded: embedded,
            vectors_skipped_unchanged: skipped,
        },
        tasks,
    )
}

// ---------------------------------------------------------------------------
// What is found
// ---------------------------------------------------------------------------

/// A document that was found.
#[derive(Debug)]
pub struct SearchResult {
    pub path: String,
    pub title: String,
    pub snippet: String,
    /// The bits of a number in double precision.
    pub score_bits: u64,
}

/// How many results each of the two searches is asked for: twice as many as are wanted.
pub fn fetch_limit(limit: usize) -> (r: usize)
    ensures
        r == (if limit * 2 <= usize::MAX {
            limit * 2
        } else {
            limit as int
        }),
{
    if limit <= usize::MAX / 2 {
        limit * 2
    } else {
        limit
    }
}

/// The title of the document at `path`: the first heading of a raw document, if it has
/// one, and what a page says it is called. `content` is what the document holds, if it
/// can be read.
pub fn document_title(path: &str, content: Option<&str>, page_title: Option<String>) -> (r: Option<
    String,
>)
    ensures
        opt_view(r) == title_of(
            path@,
            match content {
                Some(c) => Some(c@),
                None => None,
            },
            opt_view(page_title),
        ),
{
    match content {
        None => None,
        Some(content) => {
            if starts_with(path, "raw/") {
                let (title, _) = raw_title_and_body(content);
                if title.as_str().is_empty() {
                    None
                } else {
                    Some(title)
                }
            } else {
                page_title
            }
        },
    }
}

/// The title of the document at `path`.
pub open spec fn title_of(
    path: Seq<char>,
    content: Option<Seq<char>>,
    page_title: Option<Seq<char>>,
) -> Option<Seq<char>> {
    match content {
        None => None,
        Some(content) => if has_prefix(path, "raw/"@) {
            if raw_title(content).len() == 0 {
                None
            } else {
                Some(raw_title(content))
            }
        } else {
            page_title
        },
    }
}

/// The results of a search: the first `limit` of `merged`, which holds paths and the
/// bits of their scores, the best first. `titles` holds the title of each, if it has
/// one; the snippet is that of its best section, if one was found by its vector.
pub fn search_results(
    merged: &Vec<(String, u64)>,
    titles: &Vec<Option<String>>,
    best: &Vec<VectorHit>,
    limit: usize,
) -> (r: Vec<SearchResult>)
    requires
        titles@.len() == merged@.len(),
    ensures
        r@.len() == (if merged@.len() < limit {
            merged@.len()
        } else {
            limit as nat
        }),
        forall|i: int|
            0 <= i < r@.len() ==> {
                &&& (#[trigger] r@[i]).path@ == merged@[i].0@
                &&& r@[i].score_bits == merged@[i].1
                &&& r@[i].title@ == (match titles@[i] {
                    Some(t) => t@,
                    None => seq![],
                })
                &&& r@[i].snippet@ == (match hit_for(views(best@), merged@[i].0@, 0) {
                    Some(hit) => hit.snippet,
                    None => seq![],
                })
            },
{
    let n: usize = if merged.len() < limit {
        merged.len()
    } else {
        limit
    };
    let mut out: Vec<SearchResult> = Vec::new();
    while out.len() < n
        invariant
            titles@.len() == merged@.len(),
            n <= merged@.len(),
            out@.len() <= n,
            forall|i: int|
                0 <= i < out@.len() ==> {
                    &&& (#[trigger] out@[i]).path@ == merged@[i].0@
                    &&& out@[i].score_bits == merged@[i].1
                    &&& out@[i].title@ == (match titles@[i] {
                        Some(t) => t@,
                        None => seq![],
                    })
                    &&& out@[i].snippet@ == (match hit_for(views(best@), merged@[i].0@, 0) {
                        Some(hit) => hit.snippet,
                        None => seq![],
                    })
                },
        decreases n - out@.len(),
    {
        let i: usize = out.len();
        let title: String = match &titles[i] {
            Some(t) => t.clone(),
            None => {
                let s = String::new();
                assert(s@ =~= seq![]);
                s
            },
        };
        let snippet: String = match find_hit(best, merged[i].0.as_str()) {
            Some(hit) => hit.snippet.clone(),
            None => {
                let s = String::new();
                assert(s@ =~= seq![]);
                s
            },
        };
        let result = SearchResult {
            path: merged[i].0.clone(),
            title,
            snippet,
            score_bits: merged[i].1,
        };
        out.push(result);
    }
    out
}

/// The paths of sections that were found.
pub open spec fn hit_paths(hits: Seq<HitView>) -> Seq<Seq<char>> {
    hits.map_values(|h: HitView| h.path)
}

/// The nearest section of each document that was found by its vector, the nearest first.
pub open spec fn nearest(hits: Seq<HitView>) -> Seq<HitView> {
    ranked::<VectorHit>(best_among(hits, hits.len()))
}

/// Whether `text` is what `title` gives for the document at `path`, or nothing if it
/// gives none.
pub open spec fn is_title<G: Fn(&str) -> Option<String>>(
    title: G,
    path: Seq<char>,
    text: Seq<char>,
) -> bool {
    exists|p: &str, found: Option<String>|
        p@ == path && #[trigger] call_ensures(title, (p,), found) && text == (match found {
            Some(t) => t@,
            None => seq![],
        })
}

/// Whether `r` are the first `limit` of `merged`, with their titles and the snippets of
/// their nearest sections.
pub open spec fn are_results<G: Fn(&str) -> Option<String>>(
    r: Seq<SearchResult>,
    merged: Seq<(String, u64)>,
    best: Seq<HitView>,
    title: G,
    limit: nat,
) -> bool {
    &&& r.len() == (if merged.len() < limit {
        merged.len()
    } else {
        limit
    })
    &&& forall|i: int|
        0 <= i < r.len() ==> {
            &&& (#[trigger] r[i]).path@ == merged[i].0@
            &&& r[i].score_bits == merged[i].1
            &&& is_title(title, merged[i].0@, r[i].title@)
            &&& r[i].snippet@ == (match hit_for(best, merged[i].0@, 0) {
                Some(hit) => hit.snippet,
                None => seq![],
            })
        }
}

/// The results of a search by words and by meaning. `by_words` are the paths that the
/// words found, the best first, and `hits` the sections that are near in meaning; `score`
/// makes a score of an item's ranks (`rrf_merge`), and `title` finds the title of the
/// document at a path.
pub fn hybrid_search<F: Fn(&Vec<usize>) -> u64, G: Fn(&str) -> Option<String>>(
    by_words: &Vec<String>,
    hits: &Vec<VectorHit>,
    score: &F,
    title: &G,
    limit: usize,
) -> (r: Vec<SearchResult>)
    requires
        forall|ranks: Vec<usize>| call_requires(*score, (&ranks,)),
        forall|p: &str| call_requires(*title, (p,)),
    ensures
        exists|merged: Seq<(String, u64)>|
            #![trigger is_merged(merged, views(by_words@), hit_paths(nearest(views(hits@))), *score)]
            is_merged(merged, views(by_words@), hit_paths(nearest(views(hits@))), *score)
                && are_results(r@, merged, nearest(views(hits@)), *title, limit as nat),
{
    let best = best_hits(hits);
    let ghost paths = hit_paths(nearest(views(hits@)));
    let mut by_meaning: Vec<String> = Vec::new();
    while by_meaning.len() < best.len()
        invariant
            by_meaning@.len() <= best@.len(),
            paths == hit_paths(views(best@)),
            forall|k: int| 0 <= k < by_meaning@.len() ==> (#[trigger] by_meaning@[k])@ == paths[k],
        decreases best@.len() - by_meaning@.len(),
    {
        let k: usize = by_meaning.len();
        assert(views(best@)[k as int] == best@[k as int]@);
        by_meaning.push(best[k].path.clone());
    }
    assert(views(by_meaning@) =~= paths);
    let merged = rrf_merge(by_words, &by_meaning, score);
    let mut titles: Vec<Option<String>> = Vec::new();
    while titles.len() < merged.len()
        invariant
            forall|p: &str| call_requires(*title, (p,)),
            titles@.len() <= merged@.len(),
            forall|k: int|
                0 <= k < titles@.len() && k < limit ==> is_title(
                    *title,
                    merged@[k].0@,
                    match #[trigger] titles@[k] {
                        Some(t) => t@,
                        None => seq![],
                    },
                ),
        decreases merged@.len() - titles@.len(),
    {
        let k: usize = titles.len();
        if k < limit {
            let found = title(merged[k].0.as_str());
            proof {
                assert(is_title(
                    *title,
                    merged@[k as int].0@,
                    match found {
                        Some(t) => t@,
                        None => seq![],
                    },
                ));
            }
            titles.push(found);
        } else {
            titles.push(None);
        }
    }
    let r = search_results(&merged, &titles, &best, limit);
    proof {
        assert forall|i: int| 0 <= i < r@.len() implies is_title(
            *title,
            merged@[i].0@,
            (#[trigger] r@[i]).title@,
        ) by {
            let t = titles@[i];
        }
        assert(is_merged(merged@, views(by_words@), paths, *score));
        assert(are_results(r@, merged@, nearest(views(hits@)), *title, limit as nat));
    }
    r
}

/// A result of a search over several vaults.
#[derive(Debug)]
pub struct TaggedResult {
    pub vault: String,
    pub result: SearchResult,
}

pub struct TaggedRow {
    pub vault: Seq<char>,
    pub path: Seq<char>,
    pub title: Seq<char>,
    pub snippet: Seq<char>,
    pub score_bits: u64,
}

impl View for TaggedResult {
    type V = TaggedRow;

    open spec fn view(&self) -> TaggedRow {
        TaggedRow {
            vault: self.vault@,
            path: self.result.path@,
            title: self.result.title@,
            snippet: self.result.snippet@,
            score_bits: self.result.score_bits,
        }
    }
}

impl Ranked for TaggedResult {
    /// Scores are not negative, and such numbers are ordered as their bits are. The
    /// largest comes first.
    open spec fn rank(v: TaggedRow) -> u64 {
        (u64::MAX - v.score_bits) as u64
    }

    fn rank_of(&self) -> (r: u64) {
        u64::MAX - self.result.score_bits
    }
}

/// The best `limit` results of a search over several vaults, the best first; those that
/// are equally good as they came.
pub fn best_tagged(results: Vec<TaggedResult>, limit: usize) -> (r: Vec<TaggedResult>)
    ensures
        views(r@) == (if results@.len() <= limit {
            ranked::<TaggedResult>(views(results@))
        } else {
            ranked::<TaggedResult>(views(results@)).take(limit as int)
        }),
{
    proof {
        lemma_ranked::<TaggedResult>(views(results@));
    }
    let mut sorted = sort_by_rank(results);
    if sorted.len() > limit {
        let ghost all = sorted@;
        sorted.truncate(limit);
        assert(views(sorted@) =~= views(all).take(limit as int));
    }
    sorted
}

// ---------------------------------------------------------------------------
// Laws
// ---------------------------------------------------------------------------

/// The body of a raw document is all that follows its closing delimiter, or all of it where
/// it has no frontmatter.
pub proof fn law_raw_body_follows_the_frontmatter(
    content: Seq<char>,
    yaml: Seq<char>,
    body: Seq<char>,
)
    ensures
        is_made_of(content, yaml, body) ==> raw_body(content) == body,
        !(exists|y: Seq<char>, b: Seq<char>| is_made_of(content, y, b)) ==> raw_body(content)
            == content,
{
    law_a_document_is_cut_at_its_delimiters(content, yaml, body);
}

proof fn lemma_first_heading(all: Seq<Seq<char>>, from: int, k: int)
    requires
        0 <= from <= k,
        k <= all.len(),
        forall|j: int| from <= j < k ==> !has_prefix(#[trigger] all[j], seq!['#', ' ']),
        k < all.len() ==> has_prefix(all[k], seq!['#', ' ']),
    ensures
        first_heading(all, from) == (if k < all.len() {
            trim(all[k].skip(2))
        } else {
            seq![]
        }),
    decreases k - from,
{
    assert(heading_mark() =~= seq!['#', ' ']);
    if from < k {
        lemma_first_heading(all, from + 1, k);
    }
}

/// The title of a raw document is what its first line that begins with `# ` says behind it,
/// without the white space around it; where no line does, it has none.
pub proof fn law_raw_title_is_the_first_heading(content: Seq<char>, k: int)
    requires
        0 <= k <= lines(raw_body(content)).len(),
        forall|j: int|
            0 <= j < k ==> !has_prefix(#[trigger] lines(raw_body(content))[j], seq!['#', ' ']),
        k < lines(raw_body(content)).len() ==> has_prefix(
            lines(raw_body(content))[k],
            seq!['#', ' '],
        ),
    ensures
        raw_title(content) == (if k < lines(raw_body(content)).len() {
            trim(lines(raw_body(content))[k].skip(2))
        } else {
            seq![]
        }),
{
    lemma_first_heading(lines(raw_body(content)), 0, k);
}

proof fn lemma_page_rows(pages: Seq<PageModel>)
    requires
        forall|i: int, j: int|
            #![trigger pages[i], pages[j]]
            0 <= i < j < pages.len() ==> pages[i].path != pages[j].path,
    ensures
        ({
            let rows = gathered(pages, |p: PageModel| page_document_row(p));
            forall|i: int, j: int|
                #![trigger rows[i], rows[j]]
                0 <= i < j < rows.len() ==> rows[i].path != rows[j].path
        }),
    decreases pages.len(),
{
    let f = |p: PageModel| page_document_row(p);
    if pages.len() > 0 {
        let front = pages.drop_last();
        assert forall|i: int, j: int|
            #![trigger front[i], front[j]]
            0 <= i < j < front.len() implies front[i].path != front[j].path by {
            assert(pages[i].path != pages[j].path);
        }
        lemma_page_rows(front);
        let rest = gathered(front, f);
        let rows = gathered(pages, f);
        assert forall|i: int, j: int|
            #![trigger rows[i], rows[j]]
            0 <= i < j < rows.len() implies rows[i].path != rows[j].path by {
            assert(rows[i] == rest[i]);
            if j < rest.len() {
                assert(rows[j] == rest[j]);
            } else {
                law_gathered_values_are_those_that_are_made(front, f, rest[i]);
                assert(rest.contains(rest[i]));
                let k = choose|k: int| 0 <= k < front.len() && f(#[trigger] front[k]) == Some(rest[i]);
                assert(pages[k].path != pages[pages.len() - 1].path);
            }
        }
    }
}

/// Of every page that can be read there is exactly one document with the page's path. Its
/// body is all of the page that follows the closing delimiter of its frontmatter, and its
/// title is the one that the frontmatter gives.
pub proof fn law_every_readable_page_is_one_document(
    manifest: Manifest,
    files: Seq<RawFile>,
    pages: Seq<PageModel>,
    i: int,
    file: PageFile,
    frontmatter: WikiFrontmatter,
    yaml: Seq<char>,
    body: Seq<char>,
)
    requires
        forall|a: int, b: int|
            #![trigger pages[a], pages[b]]
            0 <= a < b < pages.len() ==> pages[a].path != pages[b].path,
        0 <= i < pages.len(),
        pages[i] == file@,
        !is_raw_entry(file.path@),
        is_made_of(file.content@, yaml, body),
        page_of(file.content@, Ok(frontmatter), file.parsed),
    ensures
        ({
            let documents = document_rows(manifest, files, pages);
            exists|d: int|
                0 <= d < documents.len() && (#[trigger] documents[d]).path == file.path@
                    && documents[d].title == frontmatter.title@ && documents[d].body == body
                    && documents[d].doc_type == "concept"@ && forall|e: int|
                    0 <= e < documents.len() && (#[trigger] documents[e]).path == file.path@ ==> e
                        == d
        }),
{
    let active = active_ids(manifest);
    let g = |f: RawFile| raw_document_row(active, f);
    let f = |p: PageModel| page_document_row(p);
    let first = gathered(files, g);
    let second = gathered(pages, f);
    let documents = document_rows(manifest, files, pages);
    law_a_document_is_cut_at_its_delimiters(file.content@, yaml, body);
    let row = DocumentRow {
        path: file.path@,
        title: frontmatter.title@,
        body,
        doc_type: "concept"@,
    };
    law_gathered_values_are_those_that_are_made(pages, f, row);
    assert(f(pages[i]) == Some(row));
    let k = choose|k: int| 0 <= k < second.len() && second[k] == row;
    let d = first.len() + k;
    lemma_page_rows(pages);
    assert(documents[d] == row);
    assert forall|e: int|
        0 <= e < documents.len() && (#[trigger] documents[e]).path == file.path@ implies e == d by {
        if e < first.len() {
            assert(documents[e] == first[e]);
            law_gathered_values_are_those_that_are_made(files, g, first[e]);
            assert(first.contains(first[e]));
            let m = choose|m: int| 0 <= m < files.len() && g(#[trigger] files[m]) == Some(first[e]);
            assert(is_raw_entry(files[m].path@));
        } else {
            assert(documents[e] == second[e - first.len()]);
        }
    }
}

/// Two pages that can be read and have different bodies give two documents with different
/// bodies.
pub proof fn law_different_pages_give_different_documents(
    manifest: Manifest,
    files: Seq<RawFile>,
    pages: Seq<PageModel>,
    at: (int, int),
    file: (PageFile, PageFile),
    frontmatter: (WikiFrontmatter, WikiFrontmatter),
    yaml: (Seq<char>, Seq<char>),
    body: (Seq<char>, Seq<char>),
)
    requires
        forall|a: int, b: int|
            #![trigger pages[a], pages[b]]
            0 <= a < b < pages.len() ==> pages[a].path != pages[b].path,
        0 <= at.0 < pages.len() && 0 <= at.1 < pages.len(),
        pages[at.0] == file.0@ && pages[at.1] == file.1@,
        !is_raw_entry(file.0.path@) && !is_raw_entry(file.1.path@),
        is_made_of(file.0.content@, yaml.0, body.0),
        is_made_of(file.1.content@, yaml.1, body.1),
        page_of(file.0.content@, Ok(frontmatter.0), file.0.parsed),
        page_of(file.1.content@, Ok(frontmatter.1), file.1.parsed),
        body.0 != body.1,
    ensures
        ({
            let documents = document_rows(manifest, files, pages);
            exists|d: int, e: int|
                0 <= d < documents.len() && 0 <= e < documents.len() && (
                #[trigger] documents[d]).path == file.0.path@ && (#[trigger] documents[e]).path
                    == file.1.path@ && documents[d].body != documents[e].body
        }),
{
    let documents = document_rows(manifest, files, pages);
    law_every_readable_page_is_one_document(
        manifest,
        files,
        pages,
        at.0,
        file.0,
        frontmatter.0,
        yaml.0,
        body.0,
    );
    law_every_readable_page_is_one_document(
        manifest,
        files,
        pages,
        at.1,
        file.1,
        frontmatter.1,
        yaml.1,
        body.1,
    );
    let d = choose|d: int|
        0 <= d < documents.len() && (#[trigger] documents[d]).path == file.0.path@
            && documents[d].body == body.0;
    let e = choose|e: int|
        0 <= e < documents.len() && (#[trigger] documents[e]).path == file.1.path@
            && documents[e].body == body.1;
    assert(documents[d].body != documents[e].body);
}

/// Whether the active snapshot of some source goes by `raw_id`.
pub open spec fn is_active_id(manifest: Manifest, raw_id: Seq<char>) -> bool {
    exists|uri: Seq<char>, version: VersionView|
        manifest@.contains_key(uri) && #[trigger] is_first_active(manifest@[uri].history, version)
            && version.raw_id == raw_id
}

proof fn lemma_active_ids(manifest: Manifest, raw_id: Seq<char>)
    requires
        manifest.wf(),
    ensures
        active_ids(manifest).contains(raw_id) <==> is_active_id(manifest, raw_id),
{
    let entries = active_of(manifest.listing());
    let ids = active_ids(manifest);
    if ids.contains(raw_id) {
        let k = choose|k: int| 0 <= k < ids.len() && ids[k] == raw_id;
        let (uri, version) = entries[k];
        assert(entries.contains((uri, version)));
        law_active_entries_are_the_active_snapshots(manifest, uri, version);
        assert(is_first_active(manifest@[uri].history, version));
    }
    if is_active_id(manifest, raw_id) {
        let (uri, version) = choose|uri: Seq<char>, version: VersionView|
            manifest@.contains_key(uri) && #[trigger] is_first_active(
                manifest@[uri].history,
                version,
            ) && version.raw_id == raw_id;
        law_active_entries_are_the_active_snapshots(manifest, uri, version);
        let k = choose|k: int| 0 <= k < entries.len() && entries[k] == (uri, version);
        assert(ids[k] == raw_id);
    }
}

/// Whether `row` is how a file is indexed: it is a Markdown file under `raw/` that can be
/// read and whose name carries the raw id of an active snapshot, and it goes by its first
/// heading, or by its file name where it has none.
pub open spec fn is_document_of(manifest: Manifest, file: RawFile, row: DocumentRow) -> bool {
    &&& is_raw_entry(file.path@)
    &&& file_name(file.path@) is Some
    &&& extension(file_name(file.path@)->0) == Some("md"@)
    &&& filename_identity(file.path@) is Some
    &&& is_active_id(manifest, filename_identity(file.path@)->0)
    &&& file.content is Ok
    &&& row.path == file.path@
    &&& row.body == raw_body(file.content->Ok_0@)
    &&& row.title == (if raw_title(file.content->Ok_0@).len() > 0 {
        raw_title(file.content->Ok_0@)
    } else {
        file_stem(file.path@)
    })
}

/// The raw documents that are indexed are the files of the active snapshots, and no others.
pub proof fn law_raw_documents_are_the_active_snapshots(
    manifest: Manifest,
    files: Seq<RawFile>,
    pages: Seq<PageModel>,
    row: DocumentRow,
)
    requires
        manifest.wf(),
        row.doc_type == "raw"@,
    ensures
        document_rows(manifest, files, pages).contains(row) <==> exists|i: int|
            0 <= i < files.len() && is_document_of(manifest, #[trigger] files[i], row),
{
    let active = active_ids(manifest);
    let g = |f: RawFile| raw_document_row(active, f);
    let f = |p: PageModel| page_document_row(p);
    law_gathered_values_are_those_that_are_made(files, g, row);
    law_gathered_values_are_those_that_are_made(pages, f, row);
    lemma_contained_in_either(gathered(files, g), gathered(pages, f), row);
    reveal_strlit("raw");
    reveal_strlit("concept");
    if gathered(pages, f).contains(row) {
        let i = choose|i: int| 0 <= i < pages.len() && f(#[trigger] pages[i]) == Some(row);
        assert("raw"@.len() == "concept"@.len());
    }
    if gathered(files, g).contains(row) {
        let i = choose|i: int| 0 <= i < files.len() && g(#[trigger] files[i]) == Some(row);
        lemma_active_ids(manifest, filename_identity(files[i].path@)->0);
        assert(is_document_of(manifest, files[i], row));
    }
    if exists|i: int| 0 <= i < files.len() && is_document_of(manifest, #[trigger] files[i], row) {
        let i = choose|i: int|
            0 <= i < files.len() && is_document_of(manifest, #[trigger] files[i], row);
        lemma_active_ids(manifest, filename_identity(files[i].path@)->0);
        assert(g(files[i]) == Some(row));
    }
}

/// The pages that are indexed are those that can be read, and no others.
pub proof fn law_indexed_pages_are_those_that_can_be_read(
    manifest: Manifest,
    files: Seq<RawFile>,
    pages: Seq<PageModel>,
    row: DocumentRow,
)
    requires
        row.doc_type == "concept"@,
    ensures
        document_rows(manifest, files, pages).contains(row) <==> exists|i: int|
            0 <= i < pages.len() && (#[trigger] pages[i]).parsed is Ok && row.path == pages[i].path
                && row.title == pages[i].parsed->Ok_0.frontmatter.title && row.body
                == pages[i].parsed->Ok_0.body,
{
    let active = active_ids(manifest);
    let g = |f: RawFile| raw_document_row(active, f);
    let f = |p: PageModel| page_document_row(p);
    law_gathered_values_are_those_that_are_made(files, g, row);
    law_gathered_values_are_those_that_are_made(pages, f, row);
    lemma_contained_in_either(gathered(files, g), gathered(pages, f), row);
    reveal_strlit("raw");
    reveal_strlit("concept");
    if gathered(files, g).contains(row) {
        let i = choose|i: int| 0 <= i < files.len() && g(#[trigger] files[i]) == Some(row);
        assert("raw"@.len() == "concept"@.len());
    }
    if gathered(pages, f).contains(row) {
        let i = choose|i: int| 0 <= i < pages.len() && f(#[trigger] pages[i]) == Some(row);
        assert(pages[i].parsed is Ok);
    }
    if exists|i: int|
        0 <= i < pages.len() && (#[trigger] pages[i]).parsed is Ok && row.path == pages[i].path
            && row.title == pages[i].parsed->Ok_0.frontmatter.title && row.body
            == pages[i].parsed->Ok_0.body {
        let i = choose|i: int|
            0 <= i < pages.len() && (#[trigger] pages[i]).parsed is Ok && row.path == pages[i].path
                && row.title == pages[i].parsed->Ok_0.frontmatter.title && row.body
                == pages[i].parsed->Ok_0.body;
        assert(f(pages[i]) == Some(row));
    }
}

/// Documents are collected exactly if every Markdown file of an active snapshot can be read.
pub proof fn law_an_unreadable_snapshot_stops_the_collection(
    manifest: Manifest,
    files: Seq<RawFile>,
    from: int,
)
    requires
        manifest.wf(),
        0 <= from,
    ensures
        first_unreadable(active_ids(manifest), files, from) is None <==> forall|i: int|
            from <= i < files.len() && is_raw_entry((#[trigger] files[i]).path@) && file_name(
                files[i].path@,
            ) is Some && extension(file_name(files[i].path@)->0) == Some("md"@)
                && filename_identity(files[i].path@) is Some && is_active_id(
                manifest,
                filename_identity(files[i].path@)->0,
            ) ==> files[i].content is Ok,
        first_unreadable(active_ids(manifest), files, from) is Some ==> exists|i: int|
            from <= i < files.len() && (#[trigger] files[i]).content is Err && Some(
                files[i].content->Err_0@,
            ) == first_unreadable(active_ids(manifest), files, from),
    decreases files.len() - from,
{
    let active = active_ids(manifest);
    if from < files.len() {
        law_an_unreadable_snapshot_stops_the_collection(manifest, files, from + 1);
        lemma_active_ids(manifest, filename_identity(files[from].path@)->0);
        if is_active_raw(active, files[from]) && files[from].content is Err {
            assert(files[from].content is Err);
        } else {
            assert forall|i: int|
                from <= i < files.len() && is_raw_entry((#[trigger] files[i]).path@) && file_name(
                    files[i].path@,
                ) is Some && extension(file_name(files[i].path@)->0) == Some("md"@)
                    && filename_identity(files[i].path@) is Some && is_active_id(
                    manifest,
                    filename_identity(files[i].path@)->0,
                ) && first_unreadable(active, files, from) is None implies files[i].content
                is Ok by {}
            if first_unreadable(active, files, from) is Some {
                let i = choose|i: int|
                    from + 1 <= i < files.len() && (#[trigger] files[i]).content is Err && Some(
                        files[i].content->Err_0@,
                    ) == first_unreadable(active, files, from + 1);
                assert(files[i].content is Err);
            }
        }
    }
}

/// As many documents count as changed as have a body whose hash is not the stored one.
pub proof fn law_changed_documents_are_counted(
    documents: Seq<DocumentRow>,
    stored: Seq<Option<String>>,
    n: nat,
)
    ensures
        ({
            let changed = Set::new(
                |i: int|
                    0 <= i < n && opt_view(stored[i]) != Some(content_hash(documents[i].body)),
            );
            changed.finite() && changed.len() == changed_count(documents, stored, n)
        }),
    decreases n,
{
    let changed = Set::new(
        |i: int| 0 <= i < n && opt_view(stored[i]) != Some(content_hash(documents[i].body)),
    );
    if n == 0 {
        assert(changed =~= Set::empty());
    } else {
        let m = (n - 1) as nat;
        let before = Set::new(
            |i: int| 0 <= i < m && opt_view(stored[i]) != Some(content_hash(documents[i].body)),
        );
        law_changed_documents_are_counted(documents, stored, m);
        if is_changed(documents[n - 1].body, stored[n - 1]) {
            assert(changed =~= before.insert(n - 1));
        } else {
            assert(changed =~= before);
        }
    }
}

/// The results of a search over several vaults come with the best first, and none that is
/// left out is better than one that is kept.
pub proof fn law_the_best_results_are_kept(results: Seq<TaggedRow>, i: int, j: int)
    requires
        0 <= i < j < results.len(),
    ensures
        ranked::<TaggedResult>(results).len() == results.len(),
        ranked::<TaggedResult>(results).to_multiset() == results.to_multiset(),
        ranked::<TaggedResult>(results)[i].score_bits >= ranked::<TaggedResult>(
            results,
        )[j].score_bits,
{
    lemma_ranked::<TaggedResult>(results);
    let all = ranked::<TaggedResult>(results);
    assert(TaggedResult::rank(all[i]) <= TaggedResult::rank(all[j]));
}

/// A result says which document was found and how well, and shows the nearest section of it,
/// if one was found by its vector. No more results are shown than are asked for, and no
/// fewer, as long as there are any.
pub proof fn law_a_result_shows_the_nearest_section<G: Fn(&str) -> Option<String>>(
    r: Seq<SearchResult>,
    merged: Seq<(String, u64)>,
    best: Seq<HitView>,
    title: G,
    limit: nat,
    i: int,
)
    requires
        are_results(r, merged, best, title, limit),
        0 <= i < r.len(),
    ensures
        r.len() <= limit,
        r.len() <= merged.len(),
        r.len() == limit || r.len() == merged.len(),
        r[i].path@ == merged[i].0@,
        r[i].score_bits == merged[i].1,
        (forall|k: int| 0 <= k < best.len() ==> (#[trigger] best[k]).path != r[i].path@)
            ==> r[i].snippet@.len() == 0,
        forall|k: int|
            0 <= k < best.len() && (#[trigger] best[k]).path == r[i].path@ && (forall|j: int|
                0 <= j < k ==> (#[trigger] best[j]).path != r[i].path@) ==> r[i].snippet@
                == best[k].snippet,
{
    let path = r[i].path@;
    law_a_hit_is_found_by_its_path(best, path, 0);
    if hit_for(best, path, 0) is Some {
        let hit = hit_for(best, path, 0)->0;
        let m = choose|m: int|
            0 <= m < best.len() && #[trigger] best[m] == hit && hit.path == path && forall|j: int|
                0 <= j < m ==> (#[trigger] best[j]).path != path;
        assert forall|k: int|
            0 <= k < best.len() && (#[trigger] best[k]).path == path && (forall|j: int|
                0 <= j < k ==> (#[trigger] best[j]).path != path) implies r[i].snippet@
            == best[k].snippet by {
            assert(best[m].path == path);
            if m < k {
                assert(best[m].path != path);
            }
            if k < m {
                assert(best[k].path != path);
            }
        }
    }
}

/// A raw source is titled by its first heading, if it has one, and a page by its own title;
/// what cannot be read has none.
pub proof fn law_a_result_is_titled_by_its_document(
    path: Seq<char>,
    content: Seq<char>,
    page_title: Option<Seq<char>>,
)
    ensures
        title_of(path, None, page_title) is None,
        !has_prefix(path, "raw/"@) ==> title_of(path, Some(content), page_title) == page_title,
        has_prefix(path, "raw/"@) ==> (title_of(path, Some(content), page_title) is Some
            <==> raw_title(content).len() > 0),
        has_prefix(path, "raw/"@) && raw_title(content).len() > 0 ==> title_of(
            path,
            Some(content),
            page_title,
        )->0 == raw_title(content),
{
}

/// Every document that the words or the meaning of a search found is ranked, once, and no
/// other is. What is nearer in meaning ranks higher among what was found by it.
pub proof fn law_every_document_found_is_ranked<F: Fn(&Vec<usize>) -> u64>(
    merged: Seq<(String, u64)>,
    by_words: Seq<Seq<char>>,
    hits: Seq<HitView>,
    score: F,
    path: Seq<char>,
    i: int,
    j: int,
)
    requires
        is_merged(merged, by_words, hit_paths(nearest(hits)), score),
    ensures
        (exists|k: int| 0 <= k < merged.len() && (#[trigger] merged[k]).0@ == path)
            <==> by_words.contains(path) || exists|k: int|
            0 <= k < hits.len() && (#[trigger] hits[k]).path == path,
        0 <= i < j < nearest(hits).len() ==> nearest(hits)[i].distance_bits <= nearest(
            hits,
        )[j].distance_bits && nearest(hits)[i].path != nearest(hits)[j].path,
{
    let best = nearest(hits);
    let paths = hit_paths(best);
    law_each_document_is_listed_once(hits, i, j);
    lemma_ranked::<VectorHit>(best_among(hits, hits.len()));
    if 0 <= i < j < best.len() {
        assert(VectorHit::rank(best[i]) <= VectorHit::rank(best[j]));
    }
    if exists|k: int| 0 <= k < hits.len() && (#[trigger] hits[k]).path == path {
        law_best_hits_are_the_nearest(hits, path);
        let k = choose|k: int| 0 <= k < best.len() && (#[trigger] best[k]).path == path;
        assert(paths[k] == path);
        assert(paths.contains(path));
    }
    if paths.contains(path) {
        let k = choose|k: int| 0 <= k < paths.len() && paths[k] == path;
        assert(best[k].path == path);
        law_each_document_is_listed_once(hits, k, k + 1);
        assert(hits.contains(best[k]));
        let m = choose|m: int| 0 <= m < hits.len() && hits[m] == best[k];
        assert(hits[m].path == path);
    }
}

} // verus!
