//! Filling in the pages that others link to and that are not there. Each such page is
//! written from the raw sources that the pages linking to it cite, and from nothing
//! else: where they cite none, it is left alone.

use vstd::prelude::*;

use crate::compiler::driver::{body_of, readable_body};
use crate::compiler::prompts::{
    build_link_fix_user_prompt, law_link_fix_prompt_shows_all_that_it_is_given, link_fix_prompt,
    BlobView, PageRefView, RawBlob, WikiPageRef,
};
use crate::ingest::frontmatter::{raw_id_from_resource, raw_identity, RawFile};
use crate::manifest::model::Manifest;
use crate::order::{
    gathered, in_order, law_gathered_values_are_those_that_are_made,
    law_gathering_goes_value_by_value, lemma_sorted, lemma_sorted_no_duplicates, sort, sorted,
};
use crate::server::output::{finished_line, started_line, ProgressEvent};
use crate::text::{
    decimal, decimal_text, has_part, has_text, join, joined, law_joined_parts_are_there, lemma_part,
    lemma_part_of_itself, opt_view, text_eq, views,
};
use crate::validator::frontmatter::{PageFile, PageModel};
use crate::validator::rules::LintReport;

verus! {

// ---------------------------------------------------------------------------
// The sources that pages cite
// ---------------------------------------------------------------------------

/// `known` with the raw ids of `resources` that it does not have.
pub open spec fn with_identities(known: Seq<Seq<char>>, resources: Seq<Seq<char>>) -> Seq<Seq<char>>
    decreases resources.len(),
{
    if resources.len() == 0 {
        known
    } else {
        let rest = with_identities(known, resources.drop_last());
        match raw_identity(resources.last()) {
            Some(id) => if rest.contains(id) {
                rest
            } else {
                rest.push(id)
            },
            None => rest,
        }
    }
}

/// The raw ids that pages cite, each once, in the order in which they are first cited.
pub open spec fn cited_ids(pages: Seq<PageModel>) -> Seq<Seq<char>>
    decreases pages.len(),
{
    if pages.len() == 0 {
        seq![]
    } else {
        with_identities(cited_ids(pages.drop_last()), pages.last().resources())
    }
}

/// Whether a page cites the raw blob `raw_id`.
pub open spec fn cites(page: PageModel, raw_id: Seq<char>) -> bool {
    exists|k: int|
        0 <= k < page.resources().len() && raw_identity(#[trigger] page.resources()[k]) == Some(
            raw_id,
        )
}

proof fn lemma_with_identities(known: Seq<Seq<char>>, resources: Seq<Seq<char>>, id: Seq<char>)
    requires
        known.no_duplicates(),
    ensures
        with_identities(known, resources).no_duplicates(),
        with_identities(known, resources).contains(id) <==> known.contains(id) || exists|k: int|
            0 <= k < resources.len() && raw_identity(#[trigger] resources[k]) == Some(id),
    decreases resources.len(),
{
    if resources.len() > 0 {
        let front = resources.drop_last();
        lemma_with_identities(known, front, id);
        let rest = with_identities(known, front);
        let all = with_identities(known, resources);
        if rest.contains(id) {
            let k = choose|k: int| 0 <= k < rest.len() && rest[k] == id;
            assert(all[k] == id);
            if !known.contains(id) {
                let l = choose|l: int|
                    0 <= l < front.len() && raw_identity(#[trigger] front[l]) == Some(id);
                assert(raw_identity(resources[l]) == Some(id));
            }
        }
        if raw_identity(resources.last()) == Some(id) {
            assert(raw_identity(resources[resources.len() - 1]) == Some(id));
            if !rest.contains(id) {
                assert(all[rest.len() as int] == id);
            }
        }
        if exists|k: int| 0 <= k < resources.len() && raw_identity(#[trigger] resources[k]) == Some(
            id,
        ) {
            let k = choose|k: int|
                0 <= k < resources.len() && raw_identity(#[trigger] resources[k]) == Some(id);
            if k < front.len() {
                assert(raw_identity(front[k]) == Some(id));
            }
        }
        if all.contains(id) && !rest.contains(id) {
            let k = choose|k: int| 0 <= k < all.len() && all[k] == id;
            if k < rest.len() {
                assert(rest[k] == id);
            }
        }
    }
}

/// Whether the `sources:` of some page name the raw blob `raw_id`.
pub open spec fn is_cited(pages: Seq<PageModel>, raw_id: Seq<char>) -> bool {
    exists|i: int, k: int|
        #![trigger pages[i].parsed->Ok_0.frontmatter.sources[k]]
        0 <= i < pages.len() && pages[i].parsed is Ok && 0 <= k
            < pages[i].parsed->Ok_0.frontmatter.sources.len() && raw_identity(
            pages[i].parsed->Ok_0.frontmatter.sources[k].resource,
        ) == Some(raw_id)
}

/// A raw id is among those that pages cite exactly if the `sources:` of some page name it,
/// at whatever place; it is there once.
pub proof fn law_every_source_of_every_page_is_cited(pages: Seq<PageModel>, id: Seq<char>)
    ensures
        cited_ids(pages).no_duplicates(),
        cited_ids(pages).contains(id) <==> is_cited(pages, id),
        cited_ids(pages).len() > 0 <==> exists|other: Seq<char>| is_cited(pages, other),
{
    law_cited_ids_are_those_that_are_cited(pages, id);
    lemma_cited(pages, id);
    if cited_ids(pages).len() > 0 {
        let other = cited_ids(pages)[0];
        law_cited_ids_are_those_that_are_cited(pages, other);
        lemma_cited(pages, other);
        assert(cited_ids(pages).contains(other));
        assert(is_cited(pages, other));
    }
    if exists|other: Seq<char>| is_cited(pages, other) {
        let other = choose|other: Seq<char>| is_cited(pages, other);
        law_cited_ids_are_those_that_are_cited(pages, other);
        lemma_cited(pages, other);
        assert(cited_ids(pages).contains(other));
    }
}

proof fn lemma_cited(pages: Seq<PageModel>, id: Seq<char>)
    ensures
        is_cited(pages, id) <==> exists|i: int|
            0 <= i < pages.len() && #[trigger] cites(pages[i], id),
{
    if is_cited(pages, id) {
        let (i, k) = choose|i: int, k: int|
            #![trigger pages[i].parsed->Ok_0.frontmatter.sources[k]]
            0 <= i < pages.len() && pages[i].parsed is Ok && 0 <= k
                < pages[i].parsed->Ok_0.frontmatter.sources.len() && raw_identity(
                pages[i].parsed->Ok_0.frontmatter.sources[k].resource,
            ) == Some(id);
        assert(raw_identity(pages[i].resources()[k]) == Some(id));
        assert(cites(pages[i], id));
    }
    if exists|i: int| 0 <= i < pages.len() && #[trigger] cites(pages[i], id) {
        let i = choose|i: int| 0 <= i < pages.len() && #[trigger] cites(pages[i], id);
        let k = choose|k: int|
            0 <= k < pages[i].resources().len() && raw_identity(
                #[trigger] pages[i].resources()[k],
            ) == Some(id);
        assert(pages[i].parsed is Ok);
        assert(pages[i].parsed->Ok_0.frontmatter.sources[k].resource == pages[i].resources()[k]);
    }
}

/// The raw ids that pages cite are those that some page cites, each once.
pub proof fn law_cited_ids_are_those_that_are_cited(pages: Seq<PageModel>, id: Seq<char>)
    ensures
        cited_ids(pages).no_duplicates(),
        cited_ids(pages).contains(id) <==> exists|i: int|
            0 <= i < pages.len() && #[trigger] cites(pages[i], id),
    decreases pages.len(),
{
    if pages.len() > 0 {
        let front = pages.drop_last();
        law_cited_ids_are_those_that_are_cited(front, id);
        lemma_with_identities(cited_ids(front), pages.last().resources(), id);
        assert(cites(pages[pages.len() - 1], id) <==> exists|k: int|
            0 <= k < pages.last().resources().len() && raw_identity(
                #[trigger] pages.last().resources()[k],
            ) == Some(id));
        if exists|i: int| 0 <= i < front.len() && #[trigger] cites(front[i], id) {
            let i = choose|i: int| 0 <= i < front.len() && #[trigger] cites(front[i], id);
            assert(cites(pages[i], id));
        }
        if exists|i: int| 0 <= i < pages.len() && #[trigger] cites(pages[i], id) {
            let i = choose|i: int| 0 <= i < pages.len() && #[trigger] cites(pages[i], id);
            if i < front.len() {
                assert(cites(front[i], id));
            }
        }
    }
}

/// The raw ids that pages cite, each once, in the order in which they are first cited.
pub fn raw_ids_cited_by(pages: &Vec<PageFile>) -> (r: Vec<String>)
    ensures
        views(r@) == cited_ids(views(pages@)),
{
    let mut refs: Vec<&PageFile> = Vec::new();
    let mut i: usize = 0;
    while i < pages.len()
        invariant
            i <= pages@.len(),
            views(refs@) == views(pages@).take(i as int),
        decreases pages@.len() - i,
    {
        let ghost before = refs@;
        refs.push(&pages[i]);
        assert(views(refs@) =~= views(before).push(pages@[i as int]@));
        assert(views(pages@).take(i + 1) =~= views(pages@).take(i as int).push(pages@[i as int]@));
        i += 1;
    }
    assert(views(pages@).take(pages@.len() as int) =~= views(pages@));
    ids_cited_by(&refs)
}

fn ids_cited_by(pages: &Vec<&PageFile>) -> (r: Vec<String>)
    ensures
        views(r@) == cited_ids(views(pages@)),
{
    let mut out: Vec<String> = Vec::new();
    let ghost all = views(pages@);
    let mut i: usize = 0;
    assert(all.take(0) =~= seq![]);
    assert(views(out@) =~= seq![]);
    while i < pages.len()
        invariant
            all == views(pages@),
            i <= pages@.len(),
            views(out@) == cited_ids(all.take(i as int)),
        decreases pages@.len() - i,
    {
        let resources = pages[i].resources();
        proof {
            let now = all.take(i + 1);
            assert(now.drop_last() =~= all.take(i as int));
            assert(now.last() == pages@[i as int]@);
            assert(views(resources@).take(0) =~= seq![]);
        }
        let ghost before = views(out@);
        let mut k: usize = 0;
        while k < resources.len()
            invariant
                k <= resources@.len(),
                views(out@) == with_identities(before, views(resources@).take(k as int)),
            decreases resources@.len() - k,
        {
            let ghost had = out@;
            proof {
                let now = views(resources@).take(k + 1);
                assert(now.drop_last() =~= views(resources@).take(k as int));
                assert(now.last() == resources@[k as int]@);
            }
            match raw_id_from_resource(resources[k].as_str()) {
                Some(raw_id) => {
                    if !has_text(&out, raw_id.as_str()) {
                        let ghost what = raw_id@;
                        out.push(raw_id);
                        assert(views(out@) =~= views(had).push(what));
                    }
                },
                None => {},
            }
            k += 1;
        }
        assert(views(resources@).take(resources@.len() as int) =~= views(resources@));
        i += 1;
    }
    assert(all.take(all.len() as int) =~= all);
    out
}

// ---------------------------------------------------------------------------
// What is missing
// ---------------------------------------------------------------------------

/// The names of `links` that lead nowhere, each once, as they come.
pub open spec fn distinct_slugs(links: Seq<(Seq<char>, Seq<char>)>) -> Seq<Seq<char>>
    decreases links.len(),
{
    if links.len() == 0 {
        seq![]
    } else {
        let rest = distinct_slugs(links.drop_last());
        if rest.contains(links.last().1) {
            rest
        } else {
            rest.push(links.last().1)
        }
    }
}

/// The pages with a link to `slug`, as they come.
pub open spec fn pages_linking_to(links: Seq<(Seq<char>, Seq<char>)>, slug: Seq<char>) -> Seq<
    Seq<char>,
>
    decreases links.len(),
{
    if links.len() == 0 {
        seq![]
    } else {
        let rest = pages_linking_to(links.drop_last(), slug);
        if links.last().1 == slug {
            rest.push(links.last().0)
        } else {
            rest
        }
    }
}

/// A page that is not there, and the pages that link to it.
#[derive(Debug)]
pub struct MissingPage {
    pub slug: String,
    pub referencing: Vec<String>,
}

pub struct MissingView {
    pub slug: Seq<char>,
    pub referencing: Seq<Seq<char>>,
}

impl View for MissingPage {
    type V = MissingView;

    open spec fn view(&self) -> MissingView {
        MissingView { slug: self.slug@, referencing: views(self.referencing@) }
    }
}

/// The pages that are not there, by name, each with the pages that link to it.
pub open spec fn missing_pages(links: Seq<(Seq<char>, Seq<char>)>) -> Seq<MissingView> {
    with_referencing(sorted::<String>(distinct_slugs(links)), links)
}

/// Each of `slugs` with the pages that link to it.
pub open spec fn with_referencing(
    slugs: Seq<Seq<char>>,
    links: Seq<(Seq<char>, Seq<char>)>,
) -> Seq<MissingView> {
    slugs.map_values(
        |slug: Seq<char>| MissingView { slug, referencing: pages_linking_to(links, slug) },
    )
}

fn collect_slugs(links: &Vec<(String, String)>) -> (r: Vec<String>)
    ensures
        views(r@) == distinct_slugs(views(links@)),
{
    let mut out: Vec<String> = Vec::new();
    let mut i: usize = 0;
    assert(views(links@).take(0) =~= seq![]);
    assert(views(out@) =~= seq![]);
    while i < links.len()
        invariant
            i <= links@.len(),
            views(out@) == distinct_slugs(views(links@).take(i as int)),
        decreases links@.len() - i,
    {
        let ghost before = out@;
        proof {
            let now = views(links@).take(i + 1);
            assert(now.drop_last() =~= views(links@).take(i as int));
            assert(now.last() == links@[i as int]@);
        }
        if !has_text(&out, links[i].1.as_str()) {
            out.push(links[i].1.clone());
            assert(views(out@) =~= views(before).push(links@[i as int].1@));
        }
        i += 1;
    }
    assert(views(links@).take(links@.len() as int) =~= views(links@));
    out
}

fn collect_referencing(links: &Vec<(String, String)>, slug: &str) -> (r: Vec<String>)
    ensures
        views(r@) == pages_linking_to(views(links@), slug@),
{
    let mut out: Vec<String> = Vec::new();
    let mut i: usize = 0;
    assert(views(links@).take(0) =~= seq![]);
    assert(views(out@) =~= seq![]);
    while i < links.len()
        invariant
            i <= links@.len(),
            views(out@) == pages_linking_to(views(links@).take(i as int), slug@),
        decreases links@.len() - i,
    {
        let ghost before = out@;
        proof {
            let now = views(links@).take(i + 1);
            assert(now.drop_last() =~= views(links@).take(i as int));
            assert(now.last() == links@[i as int]@);
        }
        if text_eq(links[i].1.as_str(), slug) {
            out.push(links[i].0.clone());
            assert(views(out@) =~= views(before).push(links@[i as int].0@));
        }
        i += 1;
    }
    assert(views(links@).take(links@.len() as int) =~= views(links@));
    out
}

/// The pages that the broken links of a report lead to, by name, each with the pages
/// that link to it.
pub fn group_broken_links_by_slug(lint: &LintReport) -> (r: Vec<MissingPage>)
    ensures
        views(r@) == missing_pages(views(lint.broken_links@)),
{
    let ghost links = views(lint.broken_links@);
    let slugs = sort(collect_slugs(&lint.broken_links));
    let ghost names = views(slugs@);
    let mut out: Vec<MissingPage> = Vec::new();
    let mut i: usize = 0;
    assert(views(out@) =~= with_referencing(names.take(0), links));
    while i < slugs.len()
        invariant
            links == views(lint.broken_links@),
            names == views(slugs@),
            i <= slugs@.len(),
            views(out@) == with_referencing(names.take(i as int), links),
        decreases slugs@.len() - i,
    {
        let ghost before = out@;
        let referencing = collect_referencing(&lint.broken_links, slugs[i].as_str());
        let page = MissingPage { slug: slugs[i].clone(), referencing };
        let ghost what = page@;
        out.push(page);
        proof {
            assert(views(out@) =~= views(before).push(what));
            assert(names[i as int] == slugs@[i as int]@);
            assert(with_referencing(names.take(i + 1), links) =~= with_referencing(
                names.take(i as int),
                links,
            ).push(what));
        }
        i += 1;
    }
    assert(names.take(names.len() as int) =~= names);
    out
}

proof fn lemma_distinct_slugs(links: Seq<(Seq<char>, Seq<char>)>, slug: Seq<char>)
    ensures
        distinct_slugs(links).no_duplicates(),
        distinct_slugs(links).contains(slug) <==> exists|i: int|
            0 <= i < links.len() && (#[trigger] links[i]).1 == slug,
    decreases links.len(),
{
    if links.len() > 0 {
        let front = links.drop_last();
        lemma_distinct_slugs(front, slug);
        let rest = distinct_slugs(front);
        let all = distinct_slugs(links);
        if rest.contains(slug) {
            let k = choose|k: int| 0 <= k < rest.len() && rest[k] == slug;
            assert(all[k] == slug);
            let i = choose|i: int| 0 <= i < front.len() && (#[trigger] front[i]).1 == slug;
            assert(links[i].1 == slug);
        }
        if links.last().1 == slug {
            assert(links[links.len() - 1].1 == slug);
            if !rest.contains(slug) {
                assert(all[rest.len() as int] == slug);
            }
        }
        if exists|i: int| 0 <= i < links.len() && (#[trigger] links[i]).1 == slug {
            let i = choose|i: int| 0 <= i < links.len() && (#[trigger] links[i]).1 == slug;
            if i < front.len() {
                assert(front[i].1 == slug);
            }
        }
        if all.contains(slug) && !rest.contains(slug) {
            let k = choose|k: int| 0 <= k < all.len() && all[k] == slug;
            if k < rest.len() {
                assert(rest[k] == slug);
            }
        }
    }
}

/// Every name that a broken link leads to is listed once, and nothing else is.
pub proof fn law_missing_pages_are_listed_once(
    links: Seq<(Seq<char>, Seq<char>)>,
    slug: Seq<char>,
)
    ensures
        ({
            let slugs = sorted::<String>(distinct_slugs(links));
            &&& missing_pages(links).len() == slugs.len()
            &&& forall|i: int| 0 <= i < slugs.len() ==> (#[trigger] missing_pages(links)[i]).slug
                == slugs[i]
            &&& slugs.no_duplicates()
            &&& slugs.contains(slug) <==> exists|i: int|
                0 <= i < links.len() && (#[trigger] links[i]).1 == slug
        }),
{
    lemma_distinct_slugs(links, slug);
    lemma_sorted::<String>(distinct_slugs(links));
    lemma_sorted_no_duplicates::<String>(distinct_slugs(links));
}

// ---------------------------------------------------------------------------
// What a model is told
// ---------------------------------------------------------------------------

/// The first page at `path` among `pages` from position `from` on.
pub open spec fn page_at(pages: Seq<PageModel>, path: Seq<char>, from: int) -> Option<PageModel>
    decreases pages.len() - from,
{
    if from < 0 || from >= pages.len() {
        None
    } else if pages[from].path == path {
        Some(pages[from])
    } else {
        page_at(pages, path, from + 1)
    }
}

/// The pages at `paths`, those that are there.
pub open spec fn pages_at(pages: Seq<PageModel>, paths: Seq<Seq<char>>) -> Seq<PageModel>
    decreases paths.len(),
{
    if paths.len() == 0 {
        seq![]
    } else {
        let rest = pages_at(pages, paths.drop_last());
        match page_at(pages, paths.last(), 0) {
            Some(page) => rest.push(page),
            None => rest,
        }
    }
}

fn find_page<'a>(pages: &'a Vec<PageFile>, path: &str) -> (r: Option<&'a PageFile>)
    ensures
        opt_view(r) == page_at(views(pages@), path@, 0),
{
    let mut i: usize = 0;
    while i < pages.len()
        invariant
            i <= pages@.len(),
            page_at(views(pages@), path@, 0) == page_at(views(pages@), path@, i as int),
        decreases pages@.len() - i,
    {
        assert(views(pages@)[i as int] == pages@[i as int]@);
        if text_eq(pages[i].path.as_str(), path) {
            return Some(&pages[i]);
        }
        i += 1;
    }
    None
}

fn find_pages<'a>(pages: &'a Vec<PageFile>, paths: &Vec<String>) -> (r: Vec<&'a PageFile>)
    ensures
        views(r@) == pages_at(views(pages@), views(paths@)),
{
    let mut out: Vec<&'a PageFile> = Vec::new();
    let mut i: usize = 0;
    assert(views(paths@).take(0) =~= seq![]);
    assert(views(out@) =~= seq![]);
    while i < paths.len()
        invariant
            i <= paths@.len(),
            views(out@) == pages_at(views(pages@), views(paths@).take(i as int)),
        decreases paths@.len() - i,
    {
        let ghost before = out@;
        proof {
            let now = views(paths@).take(i + 1);
            assert(now.drop_last() =~= views(paths@).take(i as int));
            assert(now.last() == paths@[i as int]@);
        }
        match find_page(pages, paths[i].as_str()) {
            Some(page) => {
                out.push(page);
                assert(views(out@) =~= views(before).push(page@));
            },
            None => {},
        }
        i += 1;
    }
    assert(views(paths@).take(paths@.len() as int) =~= views(paths@));
    out
}

/// Pages as a prompt refers to them.
pub open spec fn page_refs(pages: Seq<PageModel>) -> Seq<PageRefView> {
    pages.map_values(|p: PageModel| PageRefView { path: p.path, content: p.content })
}

/// The raw blobs `ids`, those that can be read.
pub open spec fn readable_blobs(
    manifest: Manifest,
    files: Seq<RawFile>,
    ids: Seq<Seq<char>>,
) -> Seq<BlobView>
    decreases ids.len(),
{
    if ids.len() == 0 {
        seq![]
    } else {
        let rest = readable_blobs(manifest, files, ids.drop_last());
        match body_of(manifest, files, ids.last()) {
            Some(content) => rest.push(BlobView { id: ids.last(), content }),
            None => rest,
        }
    }
}

/// What a model is told to write the page `slug`, which `pages` link to; nothing, if
/// they cite no source.
pub open spec fn synthesis_prompt(
    slug: Seq<char>,
    pages: Seq<PageModel>,
    manifest: Manifest,
    files: Seq<RawFile>,
) -> Option<Seq<char>> {
    let ids = cited_ids(pages);
    if ids.len() == 0 {
        None
    } else {
        Some(link_fix_prompt(slug, page_refs(pages), readable_blobs(manifest, files, ids)))
    }
}

fn readable(manifest: &Manifest, files: &Vec<RawFile>, ids: &Vec<String>) -> (r: Vec<RawBlob>)
    ensures
        views(r@) == readable_blobs(*manifest, files@, views(ids@)),
{
    let mut out: Vec<RawBlob> = Vec::new();
    let mut i: usize = 0;
    assert(views(ids@).take(0) =~= seq![]);
    assert(views(out@) =~= seq![]);
    while i < ids.len()
        invariant
            i <= ids@.len(),
            views(out@) == readable_blobs(*manifest, files@, views(ids@).take(i as int)),
        decreases ids@.len() - i,
    {
        let ghost before = out@;
        proof {
            let now = views(ids@).take(i + 1);
            assert(now.drop_last() =~= views(ids@).take(i as int));
            assert(now.last() == ids@[i as int]@);
        }
        match readable_body(manifest, files, ids[i].as_str()) {
            Some(content) => {
                let blob = RawBlob { id: ids[i].clone(), content };
                let ghost what = blob@;
                out.push(blob);
                assert(views(out@) =~= views(before).push(what));
            },
            None => {},
        }
        i += 1;
    }
    assert(views(ids@).take(ids@.len() as int) =~= views(ids@));
    out
}

/// What a model is told to write a page that is not there, out of the pages of the
/// vault that link to it and the raw sources that they cite. Nothing, if they cite
/// none: such a page is left for a person to decide on.
pub fn link_fix_job(
    missing: &MissingPage,
    pages: &Vec<PageFile>,
    manifest: &Manifest,
    files: &Vec<RawFile>,
) -> (r: Option<String>)
    ensures
        opt_view(r) == synthesis_prompt(
            missing@.slug,
            pages_at(views(pages@), missing@.referencing),
            *manifest,
            files@,
        ),
{
    let referencing = find_pages(pages, &missing.referencing);
    let ids = ids_cited_by(&referencing);
    if ids.len() == 0 {
        return None;
    }
    let ghost models = views(referencing@);
    let mut refs: Vec<WikiPageRef> = Vec::new();
    let mut i: usize = 0;
    assert(views(refs@) =~= page_refs(models.take(0)));
    while i < referencing.len()
        invariant
            models == views(referencing@),
            i <= referencing@.len(),
            views(refs@) == page_refs(models.take(i as int)),
        decreases referencing@.len() - i,
    {
        let ghost before = refs@;
        let page = WikiPageRef {
            path: referencing[i].path.clone(),
            content: referencing[i].content.clone(),
        };
        let ghost what = page@;
        refs.push(page);
        proof {
            assert(models[i as int] == referencing@[i as int]@);
            assert(views(refs@) =~= views(before).push(what));
            assert(page_refs(models.take(i + 1)) =~= page_refs(models.take(i as int)).push(what));
        }
        i += 1;
    }
    assert(models.take(models.len() as int) =~= models);
    let blobs = readable(manifest, files, &ids);
    Some(build_link_fix_user_prompt(missing.slug.as_str(), &refs, &blobs))
}

// ---------------------------------------------------------------------------
// A run
// ---------------------------------------------------------------------------

/// What became of a page that was not there.
#[derive(Debug, PartialEq)]
pub enum LinkFixStatus {
    Synthesized,
    /// None of the pages that link to it cites a raw source.
    SkippedNoSourceContext,
    Failed(String),
}

pub enum StatusRow {
    Synthesized,
    SkippedNoSourceContext,
    Failed(Seq<char>),
}

#[derive(Debug)]
pub struct LinkFixOutcome {
    pub slug: String,
    pub status: LinkFixStatus,
}

pub struct FixRow {
    pub slug: Seq<char>,
    pub status: StatusRow,
}

impl View for LinkFixOutcome {
    type V = FixRow;

    open spec fn view(&self) -> FixRow {
        FixRow {
            slug: self.slug@,
            status: match self.status {
                LinkFixStatus::Synthesized => StatusRow::Synthesized,
                LinkFixStatus::SkippedNoSourceContext => StatusRow::SkippedNoSourceContext,
                LinkFixStatus::Failed(e) => StatusRow::Failed(e@),
            },
        }
    }
}

#[derive(Debug)]
pub struct LinkFixReport {
    pub outcomes: Vec<LinkFixOutcome>,
    /// The paths of the files that were written or removed.
    pub touched_paths: Vec<String>,
}

impl Default for LinkFixReport {
    fn default() -> (r: LinkFixReport)
        ensures
            r.outcomes@.len() == 0,
            r.touched_paths@.len() == 0,
    {
        LinkFixReport { outcomes: Vec::new(), touched_paths: Vec::new() }
    }
}

/// The slugs of the outcomes that `keep` speaks of: the written ones, or the skipped
/// ones.
pub open spec fn slugs_of(outcomes: Seq<FixRow>, written: bool) -> Seq<Seq<char>>
    decreases outcomes.len(),
{
    if outcomes.len() == 0 {
        seq![]
    } else {
        let rest = slugs_of(outcomes.drop_last(), written);
        let status = outcomes.last().status;
        if (written && status is Synthesized) || (!written && status is SkippedNoSourceContext) {
            rest.push(outcomes.last().slug)
        } else {
            rest
        }
    }
}

fn collect_outcomes(outcomes: &Vec<LinkFixOutcome>, written: bool) -> (r: Vec<String>)
    ensures
        views(r@) == slugs_of(views(outcomes@), written),
{
    let mut out: Vec<String> = Vec::new();
    let mut i: usize = 0;
    assert(views(outcomes@).take(0) =~= seq![]);
    assert(views(out@) =~= seq![]);
    while i < outcomes.len()
        invariant
            i <= outcomes@.len(),
            views(out@) == slugs_of(views(outcomes@).take(i as int), written),
        decreases outcomes@.len() - i,
    {
        let ghost before = out@;
        proof {
            let now = views(outcomes@).take(i + 1);
            assert(now.drop_last() =~= views(outcomes@).take(i as int));
            assert(now.last() == outcomes@[i as int]@);
        }
        let keep: bool = match &outcomes[i].status {
            LinkFixStatus::Synthesized => written,
            LinkFixStatus::SkippedNoSourceContext => !written,
            LinkFixStatus::Failed(_) => false,
        };
        if keep {
            out.push(outcomes[i].slug.clone());
            assert(views(out@) =~= views(before).push(outcomes@[i as int].slug@));
        }
        i += 1;
    }
    assert(views(outcomes@).take(outcomes@.len() as int) =~= views(outcomes@));
    out
}

impl LinkFixReport {
    /// The names of the pages that were written.
    pub fn synthesized_slugs(&self) -> (r: Vec<String>)
        ensures
            views(r@) == slugs_of(views(self.outcomes@), true),
    {
        collect_outcomes(&self.outcomes, true)
    }
}

/// What is said of the work on a page.
pub open spec fn fix_label(slug: Seq<char>) -> Seq<char> {
    "synthesizing [["@ + slug + "]]"@
}

/// Why a page is skipped.
pub const NO_CONTEXT: &'static str = "no raw-source context available — skipped";

/// What has to be done next in a run.
#[derive(Debug)]
pub enum LinkFixStep {
    /// A model is to be asked. `started` is said before.
    Ask { started: String, prompt: String },
    /// A page was skipped; both lines are said.
    Skipped { started: String, finished: String },
    /// There is nothing left to do.
    Done,
}

/// A run over the pages that are not there.
#[derive(Debug)]
pub struct LinkFixRun {
    pub missing: Vec<MissingPage>,
    /// Whether a model was asked for the first page that has no outcome yet.
    pub asked: bool,
    pub report: LinkFixReport,
}

impl LinkFixRun {
    /// Whether the outcomes are those of the pages from the front on.
    pub open spec fn wf(&self) -> bool {
        &&& self.report.outcomes@.len() <= self.missing@.len()
        &&& self.asked ==> self.report.outcomes@.len() < self.missing@.len()
        &&& forall|i: int|
            0 <= i < self.report.outcomes@.len() ==> (#[trigger] self.report.outcomes@[i]).slug@
                == self.missing@[i].slug@
    }

    /// A run over the pages that the broken links of a report lead to.
    pub fn new(lint: &LintReport) -> (r: LinkFixRun)
        ensures
            r.wf(),
            views(r.missing@) == missing_pages(views(lint.broken_links@)),
            !r.asked,
            r.report.outcomes@.len() == 0,
            r.report.touched_paths@.len() == 0,
    {
        LinkFixRun {
            missing: group_broken_links_by_slug(lint),
            asked: false,
            report: LinkFixReport { outcomes: Vec::new(), touched_paths: Vec::new() },
        }
    }

    /// The next step, given the pages and the raw sources as they are now. A page for
    /// which there is nothing to go by is skipped at once.
    pub fn step(&mut self, pages: &Vec<PageFile>, manifest: &Manifest, files: &Vec<RawFile>) -> (r:
        LinkFixStep)
        requires
            old(self).wf(),
            !old(self).asked,
        ensures
            final(self).wf(),
            final(self).missing == old(self).missing,
            final(self).report.touched_paths == old(self).report.touched_paths,
            ({
                let at = old(self).report.outcomes@.len() as int;
                if at >= old(self).missing@.len() {
                    &&& r is Done
                    &&& *final(self) == *old(self)
                } else {
                    let page = old(self).missing@[at]@;
                    let line = started_line(
                        (at + 1) as nat,
                        old(self).missing@.len(),
                        fix_label(page.slug),
                    );
                    match synthesis_prompt(
                        page.slug,
                        pages_at(views(pages@), page.referencing),
                        *manifest,
                        files@,
                    ) {
                        Some(prompt) => {
                            &&& r is Ask
                            &&& r->prompt@ == prompt
                            &&& r->Ask_started@ == line
                            &&& final(self).asked
                            &&& final(self).report == old(self).report
                        },
                        None => {
                            &&& r is Skipped
                            &&& r->Skipped_started@ == line
                            &&& r->finished@ == finished_line(Some(NO_CONTEXT@))
                            &&& !final(self).asked
                            &&& views(final(self).report.outcomes@) == views(
                                old(self).report.outcomes@,
                            ).push(
                                FixRow {
                                    slug: page.slug,
                                    status: StatusRow::SkippedNoSourceContext,
                                },
                            )
                        },
                    }
                }
            }),
    {
        let at: usize = self.report.outcomes.len();
        let total: usize = self.missing.len();
        if at >= total {
            return LinkFixStep::Done;
        }
        let ghost before = *self;
        let slug: String = self.missing[at].slug.clone();
        let started = ProgressEvent::Started {
            index: at + 1,
            total,
            label: fix_label_text(slug.as_str()),
        }.text();
        match link_fix_job(&self.missing[at], pages, manifest, files) {
            Some(prompt) => {
                self.asked = true;
                LinkFixStep::Ask { started, prompt }
            },
            None => {
                let label = fix_label_text(slug.as_str());
                let finished = ProgressEvent::Finished {
                    index: at + 1,
                    total,
                    label,
                    error: Some(NO_CONTEXT.to_string()),
                }.text();
                let outcome = LinkFixOutcome { slug, status: LinkFixStatus::SkippedNoSourceContext };
                let ghost row = outcome@;
                self.report.outcomes.push(outcome);
                proof {
                    assert(views(self.report.outcomes@) =~= views(before.report.outcomes@).push(
                        row,
                    ));
                }
                LinkFixStep::Skipped { started, finished }
            },
        }
    }

    /// Takes note of what came of the question that was asked: the paths that were
    /// touched, or why it failed. Returns the line that says so. A failure does not
    /// keep the run from going on.
    pub fn finish(&mut self, outcome: Result<Vec<String>, String>) -> (r: String)
        requires
            old(self).wf(),
            old(self).asked,
        ensures
            final(self).wf(),
            !final(self).asked,
            final(self).missing == old(self).missing,
            r@ == finished_line(
                match outcome {
                    Ok(_) => None,
                    Err(e) => Some(e@),
                },
            ),
            views(final(self).report.outcomes@) == views(old(self).report.outcomes@).push(
                FixRow {
                    slug: old(self).missing@[old(self).report.outcomes@.len() as int].slug@,
                    status: match outcome {
                        Ok(_) => StatusRow::Synthesized,
                        Err(e) => StatusRow::Failed(e@),
                    },
                },
            ),
            views(final(self).report.touched_paths@) == (match outcome {
                Ok(paths) => views(old(self).report.touched_paths@) + views(paths@),
                Err(_) => views(old(self).report.touched_paths@),
            }),
    {
        let ghost before = *self;
        let at: usize = self.report.outcomes.len();
        let slug: String = self.missing[at].slug.clone();
        let label = fix_label_text(slug.as_str());
        let total: usize = self.missing.len();
        self.asked = false;
        let (status, error): (LinkFixStatus, Option<String>) = match outcome {
            Ok(paths) => {
                let mut paths = paths;
                let ghost added = paths@;
                self.report.touched_paths.append(&mut paths);
                assert(views(self.report.touched_paths@) =~= views(before.report.touched_paths@)
                    + views(added));
                (LinkFixStatus::Synthesized, None)
            },
            Err(e) => (LinkFixStatus::Failed(e.clone()), Some(e)),
        };
        let outcome = LinkFixOutcome { slug, status };
        let ghost row = outcome@;
        self.report.outcomes.push(outcome);
        proof {
            assert(views(self.report.outcomes@) =~= views(before.report.outcomes@).push(row));
        }
        ProgressEvent::Finished { index: at + 1, total, label, error }.text()
    }
}

fn fix_label_text(slug: &str) -> (r: String)
    ensures
        r@ == fix_label(slug@),
{
    let mut s = "synthesizing [[".to_string();
    s.append(slug);
    s.append("]]");
    s
}

// ---------------------------------------------------------------------------
// What is said of a run
// ---------------------------------------------------------------------------

/// The slugs as links, with commas between them.
pub open spec fn bracketed(slugs: Seq<Seq<char>>) -> Seq<char> {
    joined(slugs.map_values(|slug: Seq<char>| as_link(slug)), ", "@)
}

/// A slug as a link.
pub open spec fn as_link(slug: Seq<char>) -> Seq<char> {
    "[["@ + slug + "]]"@
}

/// A line for each outcome that failed.
pub open spec fn failure_lines(outcomes: Seq<FixRow>) -> Seq<Seq<char>>
    decreases outcomes.len(),
{
    if outcomes.len() == 0 {
        seq![]
    } else {
        let rest = failure_lines(outcomes.drop_last());
        match outcomes.last().status {
            StatusRow::Failed(e) => rest.push(
                "Failed to synthesize [["@ + outcomes.last().slug + "]]: "@ + e,
            ),
            _ => rest,
        }
    }
}

/// What is said of a run.
pub open spec fn fix_summary(outcomes: Seq<FixRow>) -> Seq<char> {
    if outcomes.len() == 0 {
        "No broken links to synthesize."@
    } else {
        let written = slugs_of(outcomes, true);
        let skipped = slugs_of(outcomes, false);
        let first: Seq<Seq<char>> = if written.len() == 0 {
            seq![]
        } else {
            seq!["Synthesized "@ + decimal(written.len()) + " concept page(s) via LLM: "@ + bracketed(
                written,
            )]
        };
        let second: Seq<Seq<char>> = if skipped.len() == 0 {
            seq![]
        } else {
            seq!["Skipped "@ + decimal(skipped.len()) + " (no raw-source context available): "@
                + bracketed(skipped)]
        };
        joined(first + second + failure_lines(outcomes), "\n"@)
    }
}

/// The slugs as links, with commas between them.
pub fn bracketed_text(slugs: &Vec<String>) -> (r: String)
    ensures
        r@ == bracketed(views(slugs@)),
{
    let ghost names = views(slugs@);
    let ghost f = |slug: Seq<char>| as_link(slug);
    let mut out: Vec<String> = Vec::new();
    let mut i: usize = 0;
    assert(views(out@) =~= names.take(0).map_values(f));
    while i < slugs.len()
        invariant
            names == views(slugs@),
            f == (|slug: Seq<char>| as_link(slug)),
            i <= slugs@.len(),
            views(out@) == names.take(i as int).map_values(f),
        decreases slugs@.len() - i,
    {
        let ghost before = out@;
        let mut s = "[[".to_string();
        s.append(slugs[i].as_str());
        s.append("]]");
        let ghost what = s@;
        out.push(s);
        proof {
            assert(names[i as int] == slugs@[i as int]@);
            assert(views(out@) =~= views(before).push(what));
            assert(names.take(i + 1).map_values(f) =~= names.take(i as int).map_values(f).push(
                what,
            ));
        }
        i += 1;
    }
    assert(names.take(names.len() as int) =~= names);
    join(&out, ", ")
}

/// What is said of a run: the pages that were written, those that were skipped, and
/// each failure.
pub fn summary_line(report: &LinkFixReport) -> (r: String)
    ensures
        r@ == fix_summary(views(report.outcomes@)),
{
    let ghost rows = views(report.outcomes@);
    if report.outcomes.len() == 0 {
        return "No broken links to synthesize.".to_string();
    }
    let mut out: Vec<String> = Vec::new();
    assert(views(out@) =~= seq![]);
    let ghost mut head: Seq<Seq<char>> = seq![];
    let written = report.synthesized_slugs();
    if written.len() > 0 {
        let mut s = "Synthesized ".to_string();
        let n = decimal_text(written.len() as u64);
        s.append(n.as_str());
        s.append(" concept page(s) via LLM: ");
        let names = bracketed_text(&written);
        s.append(names.as_str());
        proof {
            head = head.push(s@);
        }
        out.push(s);
        assert(views(out@) =~= head);
    }
    let ghost first = head;
    let skipped = collect_outcomes(&report.outcomes, false);
    if skipped.len() > 0 {
        let ghost before = out@;
        let mut s = "Skipped ".to_string();
        let n = decimal_text(skipped.len() as u64);
        s.append(n.as_str());
        s.append(" (no raw-source context available): ");
        let names = bracketed_text(&skipped);
        s.append(names.as_str());
        proof {
            head = head.push(s@);
        }
        let ghost what = s@;
        out.push(s);
        assert(views(out@) =~= views(before).push(what));
    }
    let mut i: usize = 0;
    assert(rows.take(0) =~= seq![]);
    assert(views(out@) =~= head + failure_lines(rows.take(0)));
    while i < report.outcomes.len()
        invariant
            rows == views(report.outcomes@),
            i <= rows.len(),
            views(out@) == head + failure_lines(rows.take(i as int)),
        decreases rows.len() - i,
    {
        let ghost before = out@;
        proof {
            assert(rows.take(i + 1).drop_last() =~= rows.take(i as int));
            assert(rows.take(i + 1).last() == report.outcomes@[i as int]@);
        }
        match &report.outcomes[i].status {
            LinkFixStatus::Failed(e) => {
                let mut s = "Failed to synthesize [[".to_string();
                s.append(report.outcomes[i].slug.as_str());
                s.append("]]: ");
                s.append(e.as_str());
                let ghost what = s@;
                out.push(s);
                assert(views(out@) =~= views(before).push(what));
                assert(views(out@) =~= head + failure_lines(rows.take(i + 1)));
            },
            _ => {},
        }
        i += 1;
    }
    proof {
        assert(rows.take(rows.len() as int) =~= rows);
        let w = slugs_of(rows, true);
        let k = slugs_of(rows, false);
        let a: Seq<Seq<char>> = if w.len() == 0 {
            seq![]
        } else {
            seq!["Synthesized "@ + decimal(w.len()) + " concept page(s) via LLM: "@ + bracketed(w)]
        };
        let b: Seq<Seq<char>> = if k.len() == 0 {
            seq![]
        } else {
            seq!["Skipped "@ + decimal(k.len()) + " (no raw-source context available): "@
                + bracketed(k)]
        };
        assert(first =~= a);
        assert(head =~= a + b);
    }
    join(&out, "\n")
}

/// A page is written only from sources: without one that a page linking to it cites,
/// no model is asked.
pub proof fn law_nothing_is_written_without_a_source(
    slug: Seq<char>,
    pages: Seq<PageModel>,
    manifest: Manifest,
    files: Seq<RawFile>,
)
    ensures
        synthesis_prompt(slug, pages, manifest, files) is Some <==> exists|i: int, id: Seq<char>|
            0 <= i < pages.len() && #[trigger] cites(pages[i], id),
{
    let ids = cited_ids(pages);
    if ids.len() > 0 {
        law_cited_ids_are_those_that_are_cited(pages, ids[0]);
        assert(ids.contains(ids[0]));
    }
    if exists|i: int, id: Seq<char>| 0 <= i < pages.len() && #[trigger] cites(pages[i], id) {
        let (i, id) = choose|i: int, id: Seq<char>|
            0 <= i < pages.len() && #[trigger] cites(pages[i], id);
        law_cited_ids_are_those_that_are_cited(pages, id);
    }
}

proof fn lemma_pages_linking_to(
    links: Seq<(Seq<char>, Seq<char>)>,
    slug: Seq<char>,
    path: Seq<char>,
)
    ensures
        pages_linking_to(links, slug).contains(path) <==> links.contains((path, slug)),
    decreases links.len(),
{
    if links.len() > 0 {
        let front = links.drop_last();
        let rest = pages_linking_to(front, slug);
        let all = pages_linking_to(links, slug);
        lemma_pages_linking_to(front, slug, path);
        if rest.contains(path) {
            let k = choose|k: int| 0 <= k < rest.len() && rest[k] == path;
            assert(all[k] == path);
            let i = choose|i: int| 0 <= i < front.len() && front[i] == (path, slug);
            assert(links[i] == (path, slug));
        }
        if links.last() == (path, slug) {
            assert(all[rest.len() as int] == path);
            assert(links[links.len() - 1] == (path, slug));
        }
        if links.contains((path, slug)) {
            let i = choose|i: int| 0 <= i < links.len() && links[i] == (path, slug);
            if i < front.len() {
                assert(front[i] == (path, slug));
            }
        }
        if all.contains(path) && !rest.contains(path) {
            let k = choose|k: int| 0 <= k < all.len() && all[k] == path;
            if k < rest.len() {
                assert(rest[k] == path);
            }
        }
    }
}

/// There is one missing page for every name that a broken link leads to and for no other,
/// in the order of the names, and it lists exactly the pages that have such a link.
pub proof fn law_missing_pages_list_every_page_that_links_to_them(
    links: Seq<(Seq<char>, Seq<char>)>,
    slug: Seq<char>,
    path: Seq<char>,
    i: int,
)
    ensures
        (exists|k: int| 0 <= k < missing_pages(links).len() && (#[trigger] missing_pages(
            links,
        )[k]).slug == slug) <==> exists|k: int|
            0 <= k < links.len() && (#[trigger] links[k]).1 == slug,
        forall|j: int, k: int|
            #![trigger missing_pages(links)[j], missing_pages(links)[k]]
            0 <= j < k < missing_pages(links).len() ==> missing_pages(links)[j].slug
                != missing_pages(links)[k].slug,
        0 <= i < missing_pages(links).len() ==> (missing_pages(links)[i].referencing.contains(path)
            <==> links.contains((path, missing_pages(links)[i].slug))),
        in_order::<String>(missing_pages(links).map_values(|m: MissingView| m.slug)),
{
    let slugs = sorted::<String>(distinct_slugs(links));
    let all = missing_pages(links);
    law_missing_pages_are_listed_once(links, slug);
    lemma_sorted::<String>(distinct_slugs(links));
    if slugs.contains(slug) {
        let k = choose|k: int| 0 <= k < slugs.len() && slugs[k] == slug;
        assert(all[k].slug == slug);
    }
    if exists|k: int| 0 <= k < all.len() && (#[trigger] all[k]).slug == slug {
        let k = choose|k: int| 0 <= k < all.len() && (#[trigger] all[k]).slug == slug;
        assert(slugs[k] == slug);
    }
    if 0 <= i < all.len() {
        lemma_pages_linking_to(links, all[i].slug, path);
        assert(all[i].referencing == pages_linking_to(links, slugs[i]));
    }
    assert(all.map_values(|m: MissingView| m.slug) =~= slugs);
}

/// Whether `page` is the page that stands at `path`: the first of that path.
pub open spec fn is_page_at(pages: Seq<PageModel>, path: Seq<char>, page: PageModel) -> bool {
    exists|i: int|
        0 <= i < pages.len() && #[trigger] pages[i] == page && pages[i].path == path && forall|
            j: int,
        |
            0 <= j < i ==> (#[trigger] pages[j]).path != path
}

proof fn lemma_page_at(pages: Seq<PageModel>, path: Seq<char>, from: int)
    requires
        0 <= from,
    ensures
        match page_at(pages, path, from) {
            Some(page) => exists|i: int|
                from <= i < pages.len() && #[trigger] pages[i] == page && pages[i].path == path
                    && forall|j: int| from <= j < i ==> (#[trigger] pages[j]).path != path,
            None => forall|j: int| from <= j < pages.len() ==> (#[trigger] pages[j]).path != path,
        },
    decreases pages.len() - from,
{
    if from < pages.len() {
        if pages[from].path == path {
            assert(pages[from] == page_at(pages, path, from)->0);
        } else {
            lemma_page_at(pages, path, from + 1);
            if page_at(pages, path, from + 1) is Some {
                let page = page_at(pages, path, from + 1)->0;
                let i = choose|i: int|
                    from + 1 <= i < pages.len() && #[trigger] pages[i] == page && pages[i].path
                        == path && forall|j: int|
                        from + 1 <= j < i ==> (#[trigger] pages[j]).path != path;
                assert(pages[i] == page);
            }
        }
    }
}

proof fn lemma_is_page_at(pages: Seq<PageModel>, path: Seq<char>, page: PageModel)
    ensures
        is_page_at(pages, path, page) <==> page_at(pages, path, 0) == Some(page),
{
    lemma_page_at(pages, path, 0);
    if is_page_at(pages, path, page) {
        let i = choose|i: int|
            0 <= i < pages.len() && #[trigger] pages[i] == page && pages[i].path == path
                && forall|j: int| 0 <= j < i ==> (#[trigger] pages[j]).path != path;
        let found = page_at(pages, path, 0)->0;
        let k = choose|k: int|
            0 <= k < pages.len() && #[trigger] pages[k] == found && pages[k].path == path
                && forall|j: int| 0 <= j < k ==> (#[trigger] pages[j]).path != path;
        if i < k {
            assert(pages[i].path != path);
        }
        if k < i {
            assert(pages[k].path != path);
        }
    }
}

proof fn lemma_pages_at(pages: Seq<PageModel>, paths: Seq<Seq<char>>, page: PageModel)
    ensures
        pages_at(pages, paths).contains(page) <==> exists|k: int|
            0 <= k < paths.len() && is_page_at(pages, #[trigger] paths[k], page),
    decreases paths.len(),
{
    if paths.len() > 0 {
        let front = paths.drop_last();
        let rest = pages_at(pages, front);
        let all = pages_at(pages, paths);
        let n = paths.len() - 1;
        lemma_pages_at(pages, front, page);
        lemma_is_page_at(pages, paths[n], page);
        if rest.contains(page) {
            let m = choose|m: int| 0 <= m < rest.len() && rest[m] == page;
            assert(all[m] == page);
            let k = choose|k: int|
                0 <= k < front.len() && is_page_at(pages, #[trigger] front[k], page);
            assert(is_page_at(pages, paths[k], page));
        }
        if is_page_at(pages, paths[n], page) {
            assert(all[rest.len() as int] == page);
        }
        if exists|k: int| 0 <= k < paths.len() && is_page_at(pages, #[trigger] paths[k], page) {
            let k = choose|k: int|
                0 <= k < paths.len() && is_page_at(pages, #[trigger] paths[k], page);
            if k < n {
                assert(is_page_at(pages, front[k], page));
            }
        }
        if all.contains(page) && !rest.contains(page) {
            let m = choose|m: int| 0 <= m < all.len() && all[m] == page;
            if m < rest.len() {
                assert(rest[m] == page);
            }
        }
    }
}

proof fn lemma_readable_blobs(
    manifest: Manifest,
    files: Seq<RawFile>,
    ids: Seq<Seq<char>>,
    blob: BlobView,
)
    ensures
        readable_blobs(manifest, files, ids).contains(blob) <==> ids.contains(blob.id) && body_of(
            manifest,
            files,
            blob.id,
        ) == Some(blob.content),
    decreases ids.len(),
{
    if ids.len() > 0 {
        let front = ids.drop_last();
        let rest = readable_blobs(manifest, files, front);
        let all = readable_blobs(manifest, files, ids);
        lemma_readable_blobs(manifest, files, front, blob);
        if rest.contains(blob) {
            let m = choose|m: int| 0 <= m < rest.len() && rest[m] == blob;
            assert(all[m] == blob);
            let k = choose|k: int| 0 <= k < front.len() && front[k] == blob.id;
            assert(ids[k] == blob.id);
        }
        if ids.contains(blob.id) && body_of(manifest, files, blob.id) == Some(blob.content) {
            let k = choose|k: int| 0 <= k < ids.len() && ids[k] == blob.id;
            if k < front.len() {
                assert(front[k] == blob.id);
            } else {
                assert(all[rest.len() as int] == blob);
            }
        }
        if all.contains(blob) && !rest.contains(blob) {
            let m = choose|m: int| 0 <= m < all.len() && all[m] == blob;
            if m < rest.len() {
                assert(rest[m] == blob);
            }
            assert(ids[ids.len() - 1] == blob.id);
        }
    }
}

/// Of a missing page that the pages at `paths` link to: a model is asked to write it
/// exactly if some page of the vault that stands at one of those paths names a raw source.
/// It is shown every such page, and every source that one of them names and that can be
/// read.
pub proof fn law_model_is_asked_with_every_linking_page_and_its_sources(
    slug: Seq<char>,
    pages: Seq<PageModel>,
    paths: Seq<Seq<char>>,
    manifest: Manifest,
    files: Seq<RawFile>,
    k: int,
    page: PageModel,
    raw_id: Seq<char>,
)
    ensures
        ({
            let prompt = synthesis_prompt(slug, pages_at(pages, paths), manifest, files);
            &&& prompt is Some <==> exists|j: int, linking: PageModel, id: Seq<char>|
                #![trigger is_page_at(pages, paths[j], linking), is_cited(seq![linking], id)]
                0 <= j < paths.len() && is_page_at(pages, paths[j], linking) && is_cited(
                    seq![linking],
                    id,
                )
            &&& prompt is Some && 0 <= k < paths.len() && is_page_at(pages, paths[k], page)
                ==> has_part(
                prompt->0,
                "Path: "@ + page.path + "\n```markdown\n"@ + page.content + "\n```\n\n"@,
            )
            &&& 0 <= k < paths.len() && is_page_at(pages, paths[k], page) && is_cited(
                seq![page],
                raw_id,
            ) && body_of(manifest, files, raw_id) is Some ==> prompt is Some && has_part(
                prompt->0,
                "Raw ID: "@ + raw_id + "\nContent:\n```markdown\n"@ + body_of(
                    manifest,
                    files,
                    raw_id,
                )->0 + "\n```\n\n"@,
            )
        }),
{
    let linking = pages_at(pages, paths);
    let ids = cited_ids(linking);
    let prompt = synthesis_prompt(slug, linking, manifest, files);
    let refs = page_refs(linking);
    let blobs = readable_blobs(manifest, files, ids);
    law_every_source_of_every_page_is_cited(linking, raw_id);
    if prompt is Some {
        let id = ids[0];
        law_every_source_of_every_page_is_cited(linking, id);
        assert(ids.contains(id));
        let (i, s) = choose|i: int, s: int|
            #![trigger linking[i].parsed->Ok_0.frontmatter.sources[s]]
            0 <= i < linking.len() && linking[i].parsed is Ok && 0 <= s
                < linking[i].parsed->Ok_0.frontmatter.sources.len() && raw_identity(
                linking[i].parsed->Ok_0.frontmatter.sources[s].resource,
            ) == Some(id);
        let p = linking[i];
        assert(linking.contains(p));
        lemma_pages_at(pages, paths, p);
        let j = choose|j: int| 0 <= j < paths.len() && is_page_at(pages, #[trigger] paths[j], p);
        assert(seq![p][0].parsed->Ok_0.frontmatter.sources[s].resource
            == p.parsed->Ok_0.frontmatter.sources[s].resource);
        assert(is_cited(seq![p], id));
        assert(is_page_at(pages, paths[j], p));
    }
    if exists|j: int, l: PageModel, id: Seq<char>|
        #![trigger is_page_at(pages, paths[j], l), is_cited(seq![l], id)]
        0 <= j < paths.len() && is_page_at(pages, paths[j], l) && is_cited(seq![l], id) {
        let (j, l, id) = choose|j: int, l: PageModel, id: Seq<char>|
            #![trigger is_page_at(pages, paths[j], l), is_cited(seq![l], id)]
            0 <= j < paths.len() && is_page_at(pages, paths[j], l) && is_cited(seq![l], id);
        lemma_cited_by_one(pages, paths, j, l, id);
        law_every_source_of_every_page_is_cited(linking, id);
    }
    if 0 <= k < paths.len() && is_page_at(pages, paths[k], page) {
        lemma_pages_at(pages, paths, page);
        let i = choose|i: int| 0 <= i < linking.len() && linking[i] == page;
        law_link_fix_prompt_shows_all_that_it_is_given(slug, refs, blobs, i);
        assert(refs[i] == (PageRefView { path: page.path, content: page.content }));
        if is_cited(seq![page], raw_id) {
            lemma_cited_by_one(pages, paths, k, page, raw_id);
            assert(ids.contains(raw_id));
            if body_of(manifest, files, raw_id) is Some {
                let blob = BlobView { id: raw_id, content: body_of(manifest, files, raw_id)->0 };
                lemma_readable_blobs(manifest, files, ids, blob);
                let b = choose|b: int| 0 <= b < blobs.len() && blobs[b] == blob;
                law_link_fix_prompt_shows_all_that_it_is_given(slug, refs, blobs, b);
            }
        }
    }
}

proof fn lemma_cited_by_one(
    pages: Seq<PageModel>,
    paths: Seq<Seq<char>>,
    j: int,
    page: PageModel,
    id: Seq<char>,
)
    requires
        0 <= j < paths.len(),
        is_page_at(pages, paths[j], page),
        is_cited(seq![page], id),
    ensures
        is_cited(pages_at(pages, paths), id),
{
    let linking = pages_at(pages, paths);
    lemma_pages_at(pages, paths, page);
    let i = choose|i: int| 0 <= i < linking.len() && linking[i] == page;
    let (z, s) = choose|z: int, s: int|
        #![trigger seq![page][z].parsed->Ok_0.frontmatter.sources[s]]
        0 <= z < seq![page].len() && seq![page][z].parsed is Ok && 0 <= s
            < seq![page][z].parsed->Ok_0.frontmatter.sources.len() && raw_identity(
            seq![page][z].parsed->Ok_0.frontmatter.sources[s].resource,
        ) == Some(id);
    assert(seq![page][z] == page);
    assert(raw_identity(linking[i].parsed->Ok_0.frontmatter.sources[s].resource) == Some(id));
}

proof fn lemma_outcomes(outcomes: Seq<FixRow>)
    ensures
        slugs_of(outcomes, true) == gathered(
            outcomes,
            |row: FixRow|
                if row.status is Synthesized {
                    Some(row.slug)
                } else {
                    None
                },
        ),
        slugs_of(outcomes, false) == gathered(
            outcomes,
            |row: FixRow|
                if row.status is SkippedNoSourceContext {
                    Some(row.slug)
                } else {
                    None
                },
        ),
        failure_lines(outcomes) == gathered(
            outcomes,
            |row: FixRow|
                match row.status {
                    StatusRow::Failed(e) => Some(
                        "Failed to synthesize [["@ + row.slug + "]]: "@ + e,
                    ),
                    _ => None,
                },
        ),
        slugs_of(outcomes, true).len() + slugs_of(outcomes, false).len() + failure_lines(
            outcomes,
        ).len() == outcomes.len(),
    decreases outcomes.len(),
{
    if outcomes.len() > 0 {
        lemma_outcomes(outcomes.drop_last());
    }
}

/// Every outcome of a run counts once, as written, skipped or failed, and the summary names
/// it: a page that was written or skipped as a link, one that failed with the reason.
pub proof fn law_a_summary_names_every_outcome(outcomes: Seq<FixRow>, i: int)
    requires
        0 <= i < outcomes.len(),
    ensures
        slugs_of(outcomes, true).len() + slugs_of(outcomes, false).len() + failure_lines(
            outcomes,
        ).len() == outcomes.len(),
        outcomes[i].status is Synthesized ==> slugs_of(outcomes, true).contains(outcomes[i].slug)
            && has_part(fix_summary(outcomes), "[["@ + outcomes[i].slug + "]]"@),
        outcomes[i].status is SkippedNoSourceContext ==> slugs_of(outcomes, false).contains(
            outcomes[i].slug,
        ) && has_part(fix_summary(outcomes), "[["@ + outcomes[i].slug + "]]"@),
        outcomes[i].status is Failed ==> has_part(
            fix_summary(outcomes),
            "Failed to synthesize [["@ + outcomes[i].slug + "]]: "@ + outcomes[i].status->Failed_0,
        ),
{
    let row = outcomes[i];
    let f = |row: FixRow|
        if row.status is Synthesized {
            Some(row.slug)
        } else {
            None
        };
    let g = |row: FixRow|
        if row.status is SkippedNoSourceContext {
            Some(row.slug)
        } else {
            None
        };
    let h = |row: FixRow|
        match row.status {
            StatusRow::Failed(e) => Some("Failed to synthesize [["@ + row.slug + "]]: "@ + e),
            _ => None,
        };
    lemma_outcomes(outcomes);
    let written = slugs_of(outcomes, true);
    let skipped = slugs_of(outcomes, false);
    let first: Seq<Seq<char>> = if written.len() == 0 {
        seq![]
    } else {
        seq!["Synthesized "@ + decimal(written.len()) + " concept page(s) via LLM: "@ + bracketed(
            written,
        )]
    };
    let second: Seq<Seq<char>> = if skipped.len() == 0 {
        seq![]
    } else {
        seq!["Skipped "@ + decimal(skipped.len()) + " (no raw-source context available): "@
            + bracketed(skipped)]
    };
    let all = first + second + failure_lines(outcomes);
    if row.status is Synthesized {
        law_gathered_values_are_those_that_are_made(outcomes, f, row.slug);
        assert(f(outcomes[i]) == Some(row.slug));
        lemma_bracketed(written, row.slug);
        let head = "Synthesized "@ + decimal(written.len()) + " concept page(s) via LLM: "@;
        lemma_part(head, bracketed(written), seq![], "[["@ + row.slug + "]]"@);
        assert(all[0] == head + bracketed(written));
        lemma_line_in_summary(all, 0, "[["@ + row.slug + "]]"@);
    } else if row.status is SkippedNoSourceContext {
        law_gathered_values_are_those_that_are_made(outcomes, g, row.slug);
        assert(g(outcomes[i]) == Some(row.slug));
        lemma_bracketed(skipped, row.slug);
        let head = "Skipped "@ + decimal(skipped.len())
            + " (no raw-source context available): "@;
        lemma_part(head, bracketed(skipped), seq![], "[["@ + row.slug + "]]"@);
        assert(all[first.len() as int] == head + bracketed(skipped));
        lemma_line_in_summary(all, first.len() as int, "[["@ + row.slug + "]]"@);
    } else {
        let line = h(row)->0;
        law_gathered_values_are_those_that_are_made(outcomes, h, line);
        assert(h(outcomes[i]) == Some(line));
        let lines = failure_lines(outcomes);
        let k = choose|k: int| 0 <= k < lines.len() && lines[k] == line;
        let at = first.len() + second.len() + k;
        assert(all[at] == line);
        lemma_part_of_itself(line);
        lemma_line_in_summary(all, at, line);
    }
}

proof fn lemma_bracketed(slugs: Seq<Seq<char>>, slug: Seq<char>)
    requires
        slugs.contains(slug),
    ensures
        has_part(bracketed(slugs), "[["@ + slug + "]]"@),
{
    let k = choose|k: int| 0 <= k < slugs.len() && slugs[k] == slug;
    let shown = slugs.map_values(|slug: Seq<char>| as_link(slug));
    law_joined_parts_are_there(shown, ", "@, k);
    assert(shown[k] == "[["@ + slug + "]]"@);
}

proof fn lemma_line_in_summary(lines: Seq<Seq<char>>, k: int, part: Seq<char>)
    requires
        0 <= k < lines.len(),
        has_part(lines[k], part),
    ensures
        has_part(joined(lines, "\n"@), part),
    decreases lines.len(),
{
    if lines.len() > 1 {
        let front = joined(lines.drop_last(), "\n"@);
        if k == lines.len() - 1 {
            lemma_part(front + "\n"@, lines[k], seq![], part);
        } else {
            lemma_line_in_summary(lines.drop_last(), k, part);
            lemma_part(seq![], front, "\n"@ + lines.last(), part);
            assert(front + ("\n"@ + lines.last()) =~= front + "\n"@ + lines.last());
        }
    }
}

/// The written and the skipped pages of two runs are those of the one and then those of the
/// other, and none but those that were written or skipped.
pub proof fn law_outcomes_are_told_apart(
    a: Seq<FixRow>,
    b: Seq<FixRow>,
    slug: Seq<char>,
)
    ensures
        slugs_of(a + b, true) == slugs_of(a, true) + slugs_of(b, true),
        slugs_of(a + b, false) == slugs_of(a, false) + slugs_of(b, false),
        slugs_of(a, true).contains(slug) <==> exists|i: int|
            0 <= i < a.len() && (#[trigger] a[i]).slug == slug && a[i].status is Synthesized,
        slugs_of(a, false).contains(slug) <==> exists|i: int|
            0 <= i < a.len() && (#[trigger] a[i]).slug == slug && a[i].status
                is SkippedNoSourceContext,
{
    let f = |row: FixRow|
        if row.status is Synthesized {
            Some(row.slug)
        } else {
            None
        };
    let g = |row: FixRow|
        if row.status is SkippedNoSourceContext {
            Some(row.slug)
        } else {
            None
        };
    lemma_outcomes(a);
    lemma_outcomes(b);
    lemma_outcomes(a + b);
    let any = FixRow { slug, status: StatusRow::Synthesized };
    law_gathering_goes_value_by_value(a, b, any, f);
    law_gathering_goes_value_by_value(a, b, any, g);
    law_gathered_values_are_those_that_are_made(a, f, slug);
    law_gathered_values_are_those_that_are_made(a, g, slug);
    if slugs_of(a, true).contains(slug) {
        let i = choose|i: int| 0 <= i < a.len() && f(#[trigger] a[i]) == Some(slug);
        assert(a[i].slug == slug);
    }
    if slugs_of(a, false).contains(slug) {
        let i = choose|i: int| 0 <= i < a.len() && g(#[trigger] a[i]) == Some(slug);
        assert(a[i].slug == slug);
    }
    if exists|i: int|
        0 <= i < a.len() && (#[trigger] a[i]).slug == slug && a[i].status is Synthesized {
        let i = choose|i: int|
            0 <= i < a.len() && (#[trigger] a[i]).slug == slug && a[i].status is Synthesized;
        assert(f(a[i]) == Some(slug));
    }
    if exists|i: int|
        0 <= i < a.len() && (#[trigger] a[i]).slug == slug && a[i].status
            is SkippedNoSourceContext {
        let i = choose|i: int|
            0 <= i < a.len() && (#[trigger] a[i]).slug == slug && a[i].status
                is SkippedNoSourceContext;
        assert(g(a[i]) == Some(slug));
    }
}

/// The work on a page that is not there is told by the page.
pub proof fn law_work_is_told_by_its_page(slug: Seq<char>)
    ensures
        has_part(fix_label(slug), slug),
{
    lemma_part_of_itself(slug);
    lemma_part("synthesizing [["@, slug, "]]"@, slug);
}

} // verus!
