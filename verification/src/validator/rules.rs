//! Checking the concept pages of a vault: links that lead nowhere, sources that are
//! not there, pages that no other page links to.

use vstd::prelude::*;

use crate::ingest::frontmatter::{
    raw_id_from_resource, raw_identity, raw_path, find_raw_path, RawFile,
};
use crate::manifest::model::{
    active_of, compiled_now, is_first_active, law_active_entries_are_the_active_snapshots,
    EntryView, Manifest, VersionView,
};
use crate::order::{
    gathered, in_order, law_gathered_values_are_those_that_are_made, lemma_contained_in_either,
    lemma_sorted, sort, sorted,
};
use crate::paths::file_stem;
use crate::text::{copy_texts, has_text, text_eq, views};
use crate::validator::frontmatter::{PageFile, PageModel};
use crate::validator::wikilink::{extract_wikilinks, links, LinkView, WikiLink};

verus! {

/// What a check of a vault found. All lists are sorted.
#[derive(Debug)]
pub struct LintReport {
    /// The active sources that are not compiled at their current content.
    pub pending_compiles: Vec<String>,
    /// Pages and the names on them that lead to no page.
    pub broken_links: Vec<(String, String)>,
    /// Pages that no other page links to.
    pub orphan_pages: Vec<String>,
    /// Pages and the sources on them that are not there.
    pub missing_sources: Vec<(String, String)>,
    /// Pages and the pages of other vaults that they link to.
    pub cross_vault_links: Vec<(String, String)>,
}

impl Default for LintReport {
    fn default() -> (r: LintReport)
        ensures
            r.pending_compiles@.len() == 0,
            r.broken_links@.len() == 0,
            r.orphan_pages@.len() == 0,
            r.missing_sources@.len() == 0,
            r.cross_vault_links@.len() == 0,
    {
        LintReport {
            pending_compiles: Vec::new(),
            broken_links: Vec::new(),
            orphan_pages: Vec::new(),
            missing_sources: Vec::new(),
            cross_vault_links: Vec::new(),
        }
    }
}

impl LintReport {
    /// Whether the check failed.
    pub open spec fn failed(&self) -> bool {
        self.broken_links@.len() > 0 || self.missing_sources@.len() > 0
    }

    /// Whether the check failed. Pages that no other page links to, links to other vaults
    /// and sources still to be compiled are no failure.
    pub fn has_errors(&self) -> (r: bool)
        ensures
            r == self.failed(),
    {
        self.broken_links.len() > 0 || self.missing_sources.len() > 0
    }

    /// A copy of the report.
    pub fn duplicate(&self) -> (r: LintReport)
        ensures
            r.pending_compiles@ == self.pending_compiles@,
            r.broken_links@ == self.broken_links@,
            r.orphan_pages@ == self.orphan_pages@,
            r.missing_sources@ == self.missing_sources@,
            r.cross_vault_links@ == self.cross_vault_links@,
    {
        LintReport {
            pending_compiles: copy_texts(&self.pending_compiles),
            broken_links: copy_pairs(&self.broken_links),
            orphan_pages: copy_texts(&self.orphan_pages),
            missing_sources: copy_pairs(&self.missing_sources),
            cross_vault_links: copy_pairs(&self.cross_vault_links),
        }
    }
}

fn copy_pairs(v: &Vec<(String, String)>) -> (r: Vec<(String, String)>)
    ensures
        r@ == v@,
{
    let mut out: Vec<(String, String)> = Vec::new();
    let mut i: usize = 0;
    while i < v.len()
        invariant
            i <= v@.len(),
            out@ == v@.take(i as int),
        decreases v@.len() - i,
    {
        out.push((v[i].0.clone(), v[i].1.clone()));
        assert(out@ =~= v@.take(i + 1));
        i += 1;
    }
    assert(v@.take(v@.len() as int) =~= v@);
    out
}

/// A page that could not be read, which ends the check.
#[derive(Debug)]
pub struct LintError {
    pub path: String,
    pub reason: String,
}

impl LintError {
    /// The message for a person.
    pub fn message(&self) -> (r: String)
        ensures
            r@ == self.path@ + ": "@ + self.reason@,
    {
        let mut s = self.path.clone();
        s.append(": ");
        s.append(self.reason.as_str());
        s
    }
}

// ---------------------------------------------------------------------------
// What is to be found
// ---------------------------------------------------------------------------

/// The links on a page.
pub open spec fn page_links(page: PageModel) -> Seq<LinkView> {
    match page.parsed {
        Ok(p) => links(p.body),
        Err(_) => seq![],
    }
}

/// Whether a page of this name exists.
pub open spec fn slug_exists(pages: Seq<PageModel>, slug: Seq<char>) -> bool {
    exists|i: int| 0 <= i < pages.len() && (#[trigger] pages[i]).slug() == slug
}

/// Whether some page other than that at position `i` links to this name.
pub open spec fn slug_linked(pages: Seq<PageModel>, i: int, slug: Seq<char>) -> bool {
    exists|j: int|
        0 <= j < pages.len() && j != i && #[trigger] page_links(pages[j]).contains(
            LinkView::Local(slug),
        )
}

/// Whether the source that a resource names is there.
pub open spec fn resolves(manifest: Manifest, files: Seq<RawFile>, resource: Seq<char>) -> bool {
    match raw_identity(resource) {
        Some(raw_id) => raw_path(manifest, files, raw_id) is Some,
        None => false,
    }
}

/// The first page, from position `from` on, that could not be read.
pub open spec fn first_unread(pages: Seq<PageModel>, from: int) -> Option<int>
    decreases pages.len() - from,
{
    if from < 0 || from >= pages.len() {
        None
    } else if pages[from].parsed is Err {
        Some(from)
    } else {
        first_unread(pages, from + 1)
    }
}

/// The names in `found`, links on the page `path`, that lead to no page.
pub open spec fn broken_on(
    path: Seq<char>,
    found: Seq<LinkView>,
    all: Seq<PageModel>,
) -> Seq<(Seq<char>, Seq<char>)>
    decreases found.len(),
{
    if found.len() == 0 {
        seq![]
    } else {
        let rest = broken_on(path, found.drop_last(), all);
        match found.last() {
            LinkView::Local(slug) => if slug_exists(all, slug) {
                rest
            } else {
                rest.push((path, slug))
            },
            LinkView::CrossVault { vault, concept } => rest,
        }
    }
}

/// The pages of other vaults that `found`, links on the page `path`, lead to.
pub open spec fn crossing_on(path: Seq<char>, found: Seq<LinkView>) -> Seq<
    (Seq<char>, Seq<char>),
>
    decreases found.len(),
{
    if found.len() == 0 {
        seq![]
    } else {
        let rest = crossing_on(path, found.drop_last());
        match found.last() {
            LinkView::Local(slug) => rest,
            LinkView::CrossVault { vault, concept } => rest.push(
                (path, vault + "::"@ + concept),
            ),
        }
    }
}

/// The resources of the page `path` that are not there.
pub open spec fn missing_on(
    path: Seq<char>,
    resources: Seq<Seq<char>>,
    manifest: Manifest,
    files: Seq<RawFile>,
) -> Seq<(Seq<char>, Seq<char>)>
    decreases resources.len(),
{
    if resources.len() == 0 {
        seq![]
    } else {
        let rest = missing_on(path, resources.drop_last(), manifest, files);
        if resolves(manifest, files, resources.last()) {
            rest
        } else {
            rest.push((path, resources.last()))
        }
    }
}

/// The links of `pages` that lead to no page of `all`.
pub open spec fn broken(pages: Seq<PageModel>, all: Seq<PageModel>) -> Seq<(Seq<char>, Seq<char>)>
    decreases pages.len(),
{
    if pages.len() == 0 {
        seq![]
    } else {
        broken(pages.drop_last(), all) + broken_on(
            pages.last().path,
            page_links(pages.last()),
            all,
        )
    }
}

/// The links of `pages` to pages of other vaults.
pub open spec fn crossing(pages: Seq<PageModel>) -> Seq<(Seq<char>, Seq<char>)>
    decreases pages.len(),
{
    if pages.len() == 0 {
        seq![]
    } else {
        crossing(pages.drop_last()) + crossing_on(pages.last().path, page_links(pages.last()))
    }
}

/// The sources of `pages` that are not there.
pub open spec fn missing(
    pages: Seq<PageModel>,
    manifest: Manifest,
    files: Seq<RawFile>,
) -> Seq<(Seq<char>, Seq<char>)>
    decreases pages.len(),
{
    if pages.len() == 0 {
        seq![]
    } else {
        missing(pages.drop_last(), manifest, files) + missing_on(
            pages.last().path,
            pages.last().resources(),
            manifest,
            files,
        )
    }
}

/// The paths of those of the first `n` of `pages` that no other page links to.
pub open spec fn orphans(pages: Seq<PageModel>, n: nat) -> Seq<Seq<char>>
    decreases n,
{
    if n == 0 {
        seq![]
    } else {
        let rest = orphans(pages, (n - 1) as nat);
        if slug_linked(pages, n - 1, pages[n - 1].slug()) {
            rest
        } else {
            rest.push(pages[n - 1].path)
        }
    }
}

/// The active sources of `entries` that are not compiled at their current content.
pub open spec fn pending(
    entries: Seq<(Seq<char>, VersionView)>,
    manifest: Map<Seq<char>, EntryView>,
) -> Seq<Seq<char>>
    decreases entries.len(),
{
    if entries.len() == 0 {
        seq![]
    } else {
        let rest = pending(entries.drop_last(), manifest);
        let uri = entries.last().0;
        if manifest.contains_key(uri) && compiled_now(manifest[uri]) {
            rest
        } else {
            rest.push(uri)
        }
    }
}

// ---------------------------------------------------------------------------
// Finding it
// ---------------------------------------------------------------------------

fn links_on(page: &PageFile) -> (r: Vec<WikiLink>)
    ensures
        views(r@) == page_links(page@),
{
    match &page.parsed {
        Ok(p) => extract_wikilinks(p.body.as_str()),
        Err(_) => {
            let out: Vec<WikiLink> = Vec::new();
            assert(views(out@) =~= seq![]);
            out
        },
    }
}

fn source_resolves(manifest: &Manifest, files: &Vec<RawFile>, resource: &str) -> (r: bool)
    ensures
        r == resolves(*manifest, files@, resource@),
{
    match raw_id_from_resource(resource) {
        Some(raw_id) => find_raw_path(manifest, files, raw_id.as_str()).is_some(),
        None => false,
    }
}

/// The URIs of the active sources that are not compiled at their current content.
pub fn pending_sources(manifest: &Manifest) -> (r: Vec<String>)
    requires
        manifest.wf(),
    ensures
        views(r@) == sorted::<String>(pending(active_of(manifest.listing()), manifest@)),
{
    let entries = manifest.active_entries();
    let ghost all = active_of(manifest.listing());
    let mut out: Vec<String> = Vec::new();
    let mut i: usize = 0;
    assert(views(out@) =~= seq![]);
    while i < entries.len()
        invariant
            manifest.wf(),
            i <= entries@.len(),
            all == active_of(manifest.listing()),
            entries@.len() == all.len(),
            forall|k: int| 0 <= k < all.len() ==> (#[trigger] entries@[k]).0@ == all[k].0,
            views(out@) == pending(all.take(i as int), manifest@),
        decreases entries@.len() - i,
    {
        let ghost before = out@;
        assert(all.take(i + 1).drop_last() =~= all.take(i as int));
        let uri = entries[i].0;
        if !manifest.is_compiled_at_current_hash(uri) {
            out.push(uri.to_string());
            assert(views(out@) =~= views(before).push(uri@));
        }
        i += 1;
    }
    assert(all.take(all.len() as int) =~= all);
    sort(out)
}

struct Scan {
    slugs: Vec<String>,
    broken: Vec<(String, String)>,
    crossing: Vec<(String, String)>,
    missing: Vec<(String, String)>,
}

fn scan_links(path: &String, found: &Vec<WikiLink>, scan: &mut Scan, Ghost(all): Ghost<
    Seq<PageModel>,
>)
    requires
        forall|s: Seq<char>| #[trigger] views(old(scan).slugs@).contains(s) <==> slug_exists(all, s),
    ensures
        final(scan).slugs == old(scan).slugs,
        final(scan).missing == old(scan).missing,
        views(final(scan).broken@) == views(old(scan).broken@) + broken_on(
            path@,
            views(found@),
            all,
        ),
        views(final(scan).crossing@) == views(old(scan).crossing@) + crossing_on(
            path@,
            views(found@),
        ),
{
    let ghost before = *scan;
    let mut i: usize = 0;
    assert(views(scan.broken@) =~= views(before.broken@) + broken_on(path@, seq![], all));
    assert(views(scan.crossing@) =~= views(before.crossing@) + crossing_on(path@, seq![]));
    assert(views(found@).take(0) =~= seq![]);
    while i < found.len()
        invariant
            i <= found@.len(),
            forall|s: Seq<char>| #[trigger]
                views(scan.slugs@).contains(s) <==> slug_exists(all, s),
            scan.slugs == before.slugs,
            scan.missing == before.missing,
            views(scan.broken@) == views(before.broken@) + broken_on(
                path@,
                views(found@).take(i as int),
                all,
            ),
            views(scan.crossing@) == views(before.crossing@) + crossing_on(
                path@,
                views(found@).take(i as int),
            ),
        decreases found@.len() - i,
    {
        let ghost now = views(found@).take(i + 1);
        let ghost was = views(found@).take(i as int);
        let ghost here = *scan;
        proof {
            assert(now.drop_last() =~= was);
            assert(now.last() == found@[i as int]@);
        }
        match &found[i] {
            WikiLink::Local(slug) => {
                if !has_text(&scan.slugs, slug.as_str()) {
                    scan.broken.push((path.clone(), slug.clone()));
                    assert(views(scan.broken@) =~= views(here.broken@).push((path@, slug@)));
                }
            },
            WikiLink::CrossVault { vault, concept } => {
                let mut target = vault.clone();
                target.append("::");
                target.append(concept.as_str());
                let ghost what = target@;
                scan.crossing.push((path.clone(), target));
                assert(views(scan.crossing@) =~= views(here.crossing@).push((path@, what)));
            },
        }
        i += 1;
    }
    assert(views(found@).take(found@.len() as int) =~= views(found@));
}

fn leads_to(found: &Vec<WikiLink>, slug: &str) -> (r: bool)
    ensures
        r == views(found@).contains(LinkView::Local(slug@)),
{
    let mut i: usize = 0;
    while i < found.len()
        invariant
            i <= found@.len(),
            forall|k: int| 0 <= k < i ==> #[trigger] views(found@)[k] != LinkView::Local(slug@),
        decreases found@.len() - i,
    {
        assert(views(found@)[i as int] == found@[i as int]@);
        match &found[i] {
            WikiLink::Local(name) => {
                if text_eq(name.as_str(), slug) {
                    return true;
                }
            },
            WikiLink::CrossVault { .. } => {},
        }
        i += 1;
    }
    false
}

fn linked_elsewhere(linking: &Vec<Vec<WikiLink>>, i: usize, slug: &str, Ghost(all): Ghost<
    Seq<PageModel>,
>) -> (r: bool)
    requires
        linking@.len() == all.len(),
        forall|j: int| 0 <= j < all.len() ==> views((#[trigger] linking@[j])@) == page_links(all[j]),
    ensures
        r == slug_linked(all, i as int, slug@),
{
    let mut j: usize = 0;
    while j < linking.len()
        invariant
            j <= linking@.len() == all.len(),
            forall|k: int|
                0 <= k < all.len() ==> views((#[trigger] linking@[k])@) == page_links(all[k]),
            forall|k: int|
                0 <= k < j && k != i ==> !(#[trigger] page_links(all[k]).contains(
                    LinkView::Local(slug@),
                )),
        decreases linking@.len() - j,
    {
        let found = &linking[j];
        assert(views(found@) == page_links(all[j as int]));
        if j != i && leads_to(found, slug) {
            return true;
        }
        j += 1;
    }
    false
}

fn scan_sources(
    path: &String,
    resources: &Vec<String>,
    manifest: &Manifest,
    files: &Vec<RawFile>,
    scan: &mut Scan,
)
    ensures
        final(scan).slugs == old(scan).slugs,
        final(scan).broken == old(scan).broken,
        final(scan).crossing == old(scan).crossing,
        views(final(scan).missing@) == views(old(scan).missing@) + missing_on(
            path@,
            views(resources@),
            *manifest,
            files@,
        ),
{
    let ghost before = *scan;
    let mut i: usize = 0;
    assert(views(resources@).take(0) =~= seq![]);
    assert(views(scan.missing@) =~= views(before.missing@) + missing_on(
        path@,
        seq![],
        *manifest,
        files@,
    ));
    while i < resources.len()
        invariant
            i <= resources@.len(),
            scan.slugs == before.slugs,
            scan.broken == before.broken,
            scan.crossing == before.crossing,
            views(scan.missing@) == views(before.missing@) + missing_on(
                path@,
                views(resources@).take(i as int),
                *manifest,
                files@,
            ),
        decreases resources@.len() - i,
    {
        let ghost here = *scan;
        proof {
            let now = views(resources@).take(i + 1);
            assert(now.drop_last() =~= views(resources@).take(i as int));
            assert(now.last() == resources@[i as int]@);
        }
        if !source_resolves(manifest, files, resources[i].as_str()) {
            scan.missing.push((path.clone(), resources[i].clone()));
            assert(views(scan.missing@) =~= views(here.missing@).push(
                (path@, resources@[i as int]@),
            ));
        }
        i += 1;
    }
    assert(views(resources@).take(resources@.len() as int) =~= views(resources@));
}

/// Whether `r` is what a check of these pages comes to.
pub open spec fn is_lint_of(
    pages: Seq<PageModel>,
    manifest: Manifest,
    files: Seq<RawFile>,
    r: Result<LintReport, LintError>,
) -> bool {
    match first_unread(pages, 0) {
        Some(i) => r is Err && r->Err_0.path@ == pages[i].path && r->Err_0.reason@
            == pages[i].parsed->Err_0,
        None => {
            &&& r is Ok
            &&& views(r->Ok_0.pending_compiles@) == sorted::<String>(
                pending(active_of(manifest.listing()), manifest@),
            )
            &&& views(r->Ok_0.broken_links@) == sorted::<(String, String)>(broken(pages, pages))
            &&& views(r->Ok_0.orphan_pages@) == sorted::<String>(
                orphans(pages, pages.len()),
            )
            &&& views(r->Ok_0.missing_sources@) == sorted::<(String, String)>(
                missing(pages, manifest, files),
            )
            &&& views(r->Ok_0.cross_vault_links@) == sorted::<(String, String)>(crossing(pages))
        },
    }
}

/// Checks the concept pages of a vault. A page that cannot be read ends the check
/// with an error. A source counts as there if a raw blob with the id it names is
/// found.
pub fn lint_bundle(pages: &Vec<PageFile>, manifest: &Manifest, files: &Vec<RawFile>) -> (r: Result<
    LintReport,
    LintError,
>)
    requires
        manifest.wf(),
    ensures
        is_lint_of(views(pages@), *manifest, files@, r),
{
    let ghost all = views(pages@);
    let mut slugs: Vec<String> = Vec::new();
    let mut i: usize = 0;
    while i < pages.len()
        invariant
            i <= pages@.len(),
            all == views(pages@),
            first_unread(all, 0) == first_unread(all, i as int),
            slugs@.len() == i,
            forall|k: int| 0 <= k < i ==> (#[trigger] slugs@[k])@ == all[k].slug(),
        decreases pages@.len() - i,
    {
        assert(all[i as int] == pages@[i as int]@);
        match &pages[i].parsed {
            Ok(_) => {},
            Err(e) => {
                return Err(LintError { path: pages[i].path.clone(), reason: e.message() });
            },
        }
        slugs.push(pages[i].slug());
        i += 1;
    }
    proof {
        assert forall|s: Seq<char>| #[trigger] views(slugs@).contains(s) <==> slug_exists(
            all,
            s,
        ) by {
            if views(slugs@).contains(s) {
                let k = choose|k: int| 0 <= k < slugs@.len() && views(slugs@)[k] == s;
                assert(slugs@[k]@ == all[k].slug());
            }
            if slug_exists(all, s) {
                let k = choose|k: int| 0 <= k < all.len() && (#[trigger] all[k]).slug() == s;
                assert(slugs@[k]@ == all[k].slug());
                assert(views(slugs@)[k] == s);
            }
        }
    }
    let mut scan = Scan {
        slugs,
        broken: Vec::new(),
        crossing: Vec::new(),
        missing: Vec::new(),
    };
    let mut linking: Vec<Vec<WikiLink>> = Vec::new();
    let mut j: usize = 0;
    proof {
        assert(all.take(0) =~= seq![]);
        assert(views(scan.broken@) =~= seq![]);
        assert(views(scan.crossing@) =~= seq![]);
        assert(views(scan.missing@) =~= seq![]);
    }
    while j < pages.len()
        invariant
            j <= pages@.len(),
            all == views(pages@),
            first_unread(all, 0) is None,
            forall|s: Seq<char>| #[trigger]
                views(scan.slugs@).contains(s) <==> slug_exists(all, s),
            views(scan.broken@) == broken(all.take(j as int), all),
            views(scan.crossing@) == crossing(all.take(j as int)),
            views(scan.missing@) == missing(all.take(j as int), *manifest, files@),
            linking@.len() == j,
            forall|i: int| 0 <= i < j ==> views((#[trigger] linking@[i])@) == page_links(all[i]),
        decreases pages@.len() - j,
    {
        let ghost now = all.take(j + 1);
        let ghost was = all.take(j as int);
        proof {
            assert(now.drop_last() =~= was);
            assert(now.last() == pages@[j as int]@);
        }
        let page = &pages[j];
        let found = links_on(page);
        scan_links(&page.path, &found, &mut scan, Ghost(all));
        let resources = page.resources();
        scan_sources(&page.path, &resources, manifest, files, &mut scan);
        linking.push(found);
        j += 1;
    }
    assert(all.take(all.len() as int) =~= all);
    let mut lonely: Vec<String> = Vec::new();
    let mut k: usize = 0;
    assert(views(lonely@) =~= seq![]);
    while k < pages.len()
        invariant
            k <= pages@.len(),
            all == views(pages@),
            linking@.len() == all.len(),
            forall|i: int|
                0 <= i < all.len() ==> views((#[trigger] linking@[i])@) == page_links(all[i]),
            views(lonely@) == orphans(all, k as nat),
        decreases pages@.len() - k,
    {
        let ghost before = lonely@;
        assert(all[k as int] == pages@[k as int]@);
        let slug = pages[k].slug();
        if !linked_elsewhere(&linking, k, slug.as_str(), Ghost(all)) {
            lonely.push(pages[k].path.clone());
            assert(views(lonely@) =~= views(before).push(pages@[k as int].path@));
        }
        k += 1;
    }
    Ok(
        LintReport {
            pending_compiles: pending_sources(manifest),
            broken_links: sort(scan.broken),
            orphan_pages: sort(lonely),
            missing_sources: sort(scan.missing),
            cross_vault_links: sort(scan.crossing),
        },
    )
}

// ---------------------------------------------------------------------------
// Laws
// ---------------------------------------------------------------------------

proof fn lemma_broken_on(
    path: Seq<char>,
    found: Seq<LinkView>,
    all: Seq<PageModel>,
    row: (Seq<char>, Seq<char>),
)
    ensures
        broken_on(path, found, all).contains(row) <==> row.0 == path && found.contains(
            LinkView::Local(row.1),
        ) && !slug_exists(all, row.1),
    decreases found.len(),
{
    if found.len() > 0 {
        let front = found.drop_last();
        let rest = broken_on(path, front, all);
        let rows = broken_on(path, found, all);
        lemma_broken_on(path, front, all, row);
        assert(found =~= front.push(found.last()));
        assert(found.contains(LinkView::Local(row.1)) <==> front.contains(LinkView::Local(row.1))
            || found.last() == LinkView::Local(row.1)) by {
            if front.contains(LinkView::Local(row.1)) {
                let k = choose|k: int| 0 <= k < front.len() && front[k] == LinkView::Local(row.1);
                assert(found[k] == front[k]);
            }
            if found.contains(LinkView::Local(row.1)) {
                let k = choose|k: int| 0 <= k < found.len() && found[k] == LinkView::Local(row.1);
                if k < front.len() {
                    assert(front[k] == found[k]);
                }
            }
        }
        if rows != rest {
            assert(rows == rest.push(rows.last()));
            if rest.contains(row) {
                let k = choose|k: int| 0 <= k < rest.len() && rest[k] == row;
                assert(rows[k] == row);
            }
            if rows.contains(row) {
                let k = choose|k: int| 0 <= k < rows.len() && rows[k] == row;
                if k < rest.len() {
                    assert(rest[k] == row);
                }
            }
            if rows.last() == row {
                assert(rows[rows.len() - 1] == row);
            }
        }
    }
}

proof fn lemma_broken(pages: Seq<PageModel>, all: Seq<PageModel>, row: (Seq<char>, Seq<char>))
    ensures
        broken(pages, all).contains(row) <==> !slug_exists(all, row.1) && exists|i: int|
            0 <= i < pages.len() && (#[trigger] pages[i]).path == row.0 && page_links(
                pages[i],
            ).contains(LinkView::Local(row.1)),
    decreases pages.len(),
{
    if pages.len() > 0 {
        let front = pages.drop_last();
        let last = pages.last();
        let a = broken(front, all);
        let b = broken_on(last.path, page_links(last), all);
        lemma_broken(front, all, row);
        lemma_broken_on(last.path, page_links(last), all, row);
        let rows = broken(pages, all);
        assert(rows.contains(row) <==> a.contains(row) || b.contains(row)) by {
            if a.contains(row) {
                let k = choose|k: int| 0 <= k < a.len() && a[k] == row;
                assert(rows[k] == row);
            }
            if b.contains(row) {
                let k = choose|k: int| 0 <= k < b.len() && b[k] == row;
                assert(rows[a.len() + k] == row);
            }
            if rows.contains(row) {
                let k = choose|k: int| 0 <= k < rows.len() && rows[k] == row;
                if k < a.len() {
                    assert(a[k] == row);
                } else {
                    assert(b[k - a.len()] == row);
                }
            }
        }
        if a.contains(row) {
            let i = choose|i: int|
                0 <= i < front.len() && (#[trigger] front[i]).path == row.0 && page_links(
                    front[i],
                ).contains(LinkView::Local(row.1));
            assert(pages[i] == front[i]);
        }
        if b.contains(row) {
            assert(pages[pages.len() - 1].path == row.0);
        }
        if !slug_exists(all, row.1) && exists|i: int|
            0 <= i < pages.len() && (#[trigger] pages[i]).path == row.0 && page_links(
                pages[i],
            ).contains(LinkView::Local(row.1)) {
            let i = choose|i: int|
                0 <= i < pages.len() && (#[trigger] pages[i]).path == row.0 && page_links(
                    pages[i],
                ).contains(LinkView::Local(row.1));
            if i < front.len() {
                assert(front[i] == pages[i]);
            }
        }
    }
}

/// A link is reported as broken if and only if a page has it and no page goes by the
/// name it leads to; the report is sorted.
pub proof fn law_broken_links_are_those_that_lead_nowhere(
    pages: Seq<PageModel>,
    path: Seq<char>,
    slug: Seq<char>,
)
    ensures
        in_order::<(String, String)>(sorted::<(String, String)>(broken(pages, pages))),
        sorted::<(String, String)>(broken(pages, pages)).contains((path, slug)) <==> !slug_exists(
            pages,
            slug,
        ) && exists|i: int|
            0 <= i < pages.len() && (#[trigger] pages[i]).path == path && page_links(
                pages[i],
            ).contains(LinkView::Local(slug)),
{
    lemma_sorted::<(String, String)>(broken(pages, pages));
    lemma_broken(pages, pages, (path, slug));
}

proof fn lemma_orphans(pages: Seq<PageModel>, n: nat, path: Seq<char>)
    requires
        n <= pages.len(),
    ensures
        orphans(pages, n).contains(path) <==> exists|i: int|
            0 <= i < n && (#[trigger] pages[i]).path == path && !slug_linked(
                pages,
                i,
                pages[i].slug(),
            ),
    decreases n,
{
    if n > 0 {
        let m = (n - 1) as nat;
        let rest = orphans(pages, m);
        let rows = orphans(pages, n);
        lemma_orphans(pages, m, path);
        if rest.contains(path) {
            let k = choose|k: int| 0 <= k < rest.len() && rest[k] == path;
            assert(rows[k] == path);
        }
        if rows.contains(path) && !rest.contains(path) {
            let k = choose|k: int| 0 <= k < rows.len() && rows[k] == path;
            if k < rest.len() {
                assert(rest[k] == path);
            }
            assert(pages[n - 1].path == path);
        }
        if exists|i: int|
            0 <= i < n && (#[trigger] pages[i]).path == path && !slug_linked(
                pages,
                i,
                pages[i].slug(),
            ) {
            let i = choose|i: int|
                0 <= i < n && (#[trigger] pages[i]).path == path && !slug_linked(
                    pages,
                    i,
                    pages[i].slug(),
                );
            if i == n - 1 {
                assert(rows[rows.len() - 1] == path);
            }
        }
    }
}

/// A page is reported as an orphan if and only if no other page links to its name, so
/// its own links do not count; the report is sorted.
pub proof fn law_orphans_are_those_no_other_page_links_to(pages: Seq<PageModel>, path: Seq<char>)
    ensures
        in_order::<String>(sorted::<String>(orphans(pages, pages.len()))),
        sorted::<String>(orphans(pages, pages.len())).contains(path) <==> exists|i: int|
            0 <= i < pages.len() && (#[trigger] pages[i]).path == path && !exists|j: int|
                0 <= j < pages.len() && j != i && #[trigger] page_links(pages[j]).contains(
                    LinkView::Local(pages[i].slug()),
                ),
{
    lemma_sorted::<String>(orphans(pages, pages.len()));
    lemma_orphans(pages, pages.len(), path);
    if exists|i: int|
        0 <= i < pages.len() && (#[trigger] pages[i]).path == path && !slug_linked(
            pages,
            i,
            pages[i].slug(),
        ) {
        let i = choose|i: int|
            0 <= i < pages.len() && (#[trigger] pages[i]).path == path && !slug_linked(
                pages,
                i,
                pages[i].slug(),
            );
        assert(pages[i].path == path);
    }
}

proof fn lemma_missing_on(
    path: Seq<char>,
    resources: Seq<Seq<char>>,
    manifest: Manifest,
    files: Seq<RawFile>,
)
    ensures
        missing_on(path, resources, manifest, files) == gathered(
            resources,
            |resource: Seq<char>|
                if resolves(manifest, files, resource) {
                    None
                } else {
                    Some((path, resource))
                },
        ),
    decreases resources.len(),
{
    if resources.len() > 0 {
        lemma_missing_on(path, resources.drop_last(), manifest, files);
    }
}

proof fn lemma_missing(
    pages: Seq<PageModel>,
    manifest: Manifest,
    files: Seq<RawFile>,
    row: (Seq<char>, Seq<char>),
)
    ensures
        missing(pages, manifest, files).contains(row) <==> !resolves(manifest, files, row.1)
            && exists|i: int|
            0 <= i < pages.len() && (#[trigger] pages[i]).path == row.0
                && pages[i].resources().contains(row.1),
    decreases pages.len(),
{
    if pages.len() > 0 {
        let front = pages.drop_last();
        let last = pages.last();
        let here = missing_on(last.path, last.resources(), manifest, files);
        let f = |resource: Seq<char>|
            if resolves(manifest, files, resource) {
                None
            } else {
                Some((last.path, resource))
            };
        lemma_missing(front, manifest, files, row);
        lemma_missing_on(last.path, last.resources(), manifest, files);
        law_gathered_values_are_those_that_are_made(last.resources(), f, row);
        lemma_contained_in_either(missing(front, manifest, files), here, row);
        if here.contains(row) {
            let k = choose|k: int|
                0 <= k < last.resources().len() && f(#[trigger] last.resources()[k]) == Some(row);
            assert(last.resources()[k] == row.1);
            assert(pages[pages.len() - 1].path == row.0);
        }
        if missing(front, manifest, files).contains(row) {
            let i = choose|i: int|
                0 <= i < front.len() && (#[trigger] front[i]).path == row.0
                    && front[i].resources().contains(row.1);
            assert(pages[i] == front[i]);
        }
        if !resolves(manifest, files, row.1) && exists|i: int|
            0 <= i < pages.len() && (#[trigger] pages[i]).path == row.0
                && pages[i].resources().contains(row.1) {
            let i = choose|i: int|
                0 <= i < pages.len() && (#[trigger] pages[i]).path == row.0
                    && pages[i].resources().contains(row.1);
            if i < front.len() {
                assert(front[i] == pages[i]);
            } else {
                let k = choose|k: int|
                    0 <= k < last.resources().len() && last.resources()[k] == row.1;
                assert(f(last.resources()[k]) == Some(row));
            }
        }
    }
}

proof fn lemma_crossing_on(path: Seq<char>, found: Seq<LinkView>)
    ensures
        crossing_on(path, found) == gathered(
            found,
            |link: LinkView|
                match link {
                    LinkView::Local(slug) => None,
                    LinkView::CrossVault { vault, concept } => Some(
                        (path, vault + "::"@ + concept),
                    ),
                },
        ),
    decreases found.len(),
{
    if found.len() > 0 {
        lemma_crossing_on(path, found.drop_last());
    }
}

/// Whether a page has a link to `target` of another vault.
spec fn crosses(page: PageModel, target: Seq<char>) -> bool {
    exists|k: int|
        0 <= k < page_links(page).len() && (#[trigger] page_links(page)[k]) is CrossVault
            && target == page_links(page)[k]->vault + "::"@ + page_links(page)[k]->concept
}

proof fn lemma_crossing(pages: Seq<PageModel>, row: (Seq<char>, Seq<char>))
    ensures
        crossing(pages).contains(row) <==> exists|i: int|
            0 <= i < pages.len() && (#[trigger] pages[i]).path == row.0 && crosses(
                pages[i],
                row.1,
            ),
    decreases pages.len(),
{
    if pages.len() > 0 {
        let front = pages.drop_last();
        let last = pages.last();
        let found = page_links(last);
        let here = crossing_on(last.path, found);
        let f = |link: LinkView|
            match link {
                LinkView::Local(slug) => None,
                LinkView::CrossVault { vault, concept } => Some(
                    (last.path, vault + "::"@ + concept),
                ),
            };
        lemma_crossing(front, row);
        lemma_crossing_on(last.path, found);
        law_gathered_values_are_those_that_are_made(found, f, row);
        lemma_contained_in_either(crossing(front), here, row);
        if here.contains(row) {
            let k = choose|k: int| 0 <= k < found.len() && f(#[trigger] found[k]) == Some(row);
            assert(page_links(last)[k] is CrossVault);
            assert(crosses(last, row.1));
            assert(pages[pages.len() - 1].path == row.0);
        }
        if crossing(front).contains(row) {
            let i = choose|i: int|
                0 <= i < front.len() && (#[trigger] front[i]).path == row.0 && crosses(
                    front[i],
                    row.1,
                );
            assert(pages[i] == front[i]);
        }
        if exists|i: int|
            0 <= i < pages.len() && (#[trigger] pages[i]).path == row.0 && crosses(
                pages[i],
                row.1,
            ) {
            let i = choose|i: int|
                0 <= i < pages.len() && (#[trigger] pages[i]).path == row.0 && crosses(
                    pages[i],
                    row.1,
                );
            if i < front.len() {
                assert(front[i] == pages[i]);
            } else {
                let k = choose|k: int|
                    0 <= k < found.len() && (#[trigger] page_links(last)[k]) is CrossVault && row.1
                        == page_links(last)[k]->vault + "::"@ + page_links(last)[k]->concept;
                assert(f(found[k]) == Some(row));
            }
        }
    }
}

proof fn lemma_pending(
    entries: Seq<(Seq<char>, VersionView)>,
    manifest: Map<Seq<char>, EntryView>,
    uri: Seq<char>,
)
    ensures
        pending(entries, manifest).contains(uri) <==> !(manifest.contains_key(uri) && compiled_now(
            manifest[uri],
        )) && exists|k: int| 0 <= k < entries.len() && (#[trigger] entries[k]).0 == uri,
    decreases entries.len(),
{
    if entries.len() > 0 {
        let front = entries.drop_last();
        let rest = pending(front, manifest);
        let last = entries.last();
        lemma_pending(front, manifest, uri);
        lemma_contained_in_either(rest, seq![last.0], uri);
        assert(rest.push(last.0) =~= rest + seq![last.0]);
        assert(seq![last.0].contains(uri) <==> last.0 == uri) by {
            assert(seq![last.0][0] == last.0);
        }
        if exists|k: int| 0 <= k < front.len() && (#[trigger] front[k]).0 == uri {
            let k = choose|k: int| 0 <= k < front.len() && (#[trigger] front[k]).0 == uri;
            assert(entries[k].0 == uri);
        }
        if last.0 == uri {
            assert(entries[entries.len() - 1].0 == uri);
        }
        if exists|k: int| 0 <= k < entries.len() && (#[trigger] entries[k]).0 == uri {
            let k = choose|k: int| 0 <= k < entries.len() && (#[trigger] entries[k]).0 == uri;
            if k < front.len() {
                assert(front[k].0 == uri);
            }
        }
    }
}

proof fn lemma_first_unread(pages: Seq<PageModel>, from: int)
    requires
        0 <= from,
    ensures
        match first_unread(pages, from) {
            Some(i) => from <= i < pages.len() && pages[i].parsed is Err && forall|j: int|
                from <= j < i ==> (#[trigger] pages[j]).parsed is Ok,
            None => forall|j: int| from <= j < pages.len() ==> (#[trigger] pages[j]).parsed is Ok,
        },
    decreases pages.len() - from,
{
    if from < pages.len() && pages[from].parsed is Ok {
        lemma_first_unread(pages, from + 1);
    }
}

/// A check gives a report exactly if every page can be read; else it names the first page
/// that cannot be, and says why.
pub proof fn law_a_check_ends_at_the_first_page_that_cannot_be_read(
    pages: Seq<PageModel>,
    manifest: Manifest,
    files: Seq<RawFile>,
    r: Result<LintReport, LintError>,
)
    requires
        is_lint_of(pages, manifest, files, r),
    ensures
        r is Ok <==> forall|i: int| 0 <= i < pages.len() ==> (#[trigger] pages[i]).parsed is Ok,
        r is Err ==> exists|i: int|
            0 <= i < pages.len() && (#[trigger] pages[i]).parsed is Err && r->Err_0.path@
                == pages[i].path && r->Err_0.reason@ == pages[i].parsed->Err_0 && forall|j: int|
                0 <= j < i ==> (#[trigger] pages[j]).parsed is Ok,
{
    lemma_first_unread(pages, 0);
    if first_unread(pages, 0) is Some {
        let i = first_unread(pages, 0)->0;
        assert(pages[i].parsed is Err);
    }
}

/// A report names a page and a resource as a missing source exactly if the page lists the
/// resource among its sources, at whatever place, and no raw blob with the id that the
/// resource names is found.
pub proof fn law_missing_sources_are_those_without_a_blob(
    pages: Seq<PageModel>,
    manifest: Manifest,
    files: Seq<RawFile>,
    report: LintReport,
    path: Seq<char>,
    resource: Seq<char>,
)
    requires
        is_lint_of(pages, manifest, files, Ok(report)),
    ensures
        in_order::<(String, String)>(views(report.missing_sources@)),
        views(report.missing_sources@).contains((path, resource)) <==> {
            &&& exists|i: int, k: int|
                #![trigger pages[i].parsed->Ok_0.frontmatter.sources[k]]
                0 <= i < pages.len() && pages[i].path == path && pages[i].parsed is Ok && 0 <= k
                    < pages[i].parsed->Ok_0.frontmatter.sources.len()
                    && pages[i].parsed->Ok_0.frontmatter.sources[k].resource == resource
            &&& !exists|raw_id: Seq<char>|
                raw_identity(resource) == Some(raw_id) && #[trigger] raw_path(
                    manifest,
                    files,
                    raw_id,
                ) is Some
        },
{
    let row = (path, resource);
    lemma_sorted::<(String, String)>(missing(pages, manifest, files));
    lemma_missing(pages, manifest, files, row);
    if resolves(manifest, files, resource) {
        let raw_id = raw_identity(resource)->0;
        assert(raw_path(manifest, files, raw_id) is Some);
    }
    if missing(pages, manifest, files).contains(row) {
        let i = choose|i: int|
            0 <= i < pages.len() && (#[trigger] pages[i]).path == row.0
                && pages[i].resources().contains(row.1);
        let k = choose|k: int|
            0 <= k < pages[i].resources().len() && pages[i].resources()[k] == row.1;
        assert(pages[i].parsed->Ok_0.frontmatter.sources[k].resource == resource);
    }
    if exists|i: int, k: int|
        #![trigger pages[i].parsed->Ok_0.frontmatter.sources[k]]
        0 <= i < pages.len() && pages[i].path == path && pages[i].parsed is Ok && 0 <= k
            < pages[i].parsed->Ok_0.frontmatter.sources.len()
            && pages[i].parsed->Ok_0.frontmatter.sources[k].resource == resource {
        let (i, k) = choose|i: int, k: int|
            #![trigger pages[i].parsed->Ok_0.frontmatter.sources[k]]
            0 <= i < pages.len() && pages[i].path == path && pages[i].parsed is Ok && 0 <= k
                < pages[i].parsed->Ok_0.frontmatter.sources.len()
                && pages[i].parsed->Ok_0.frontmatter.sources[k].resource == resource;
        assert(pages[i].resources()[k] == resource);
        assert(pages[i].path == row.0);
    }
}

/// A report names a page and a page of another vault exactly if the body of the page has a
/// link to it, at whatever place.
pub proof fn law_cross_vault_links_are_those_on_the_pages(
    pages: Seq<PageModel>,
    manifest: Manifest,
    files: Seq<RawFile>,
    report: LintReport,
    path: Seq<char>,
    target: Seq<char>,
)
    requires
        is_lint_of(pages, manifest, files, Ok(report)),
    ensures
        in_order::<(String, String)>(views(report.cross_vault_links@)),
        views(report.cross_vault_links@).contains((path, target)) <==> exists|
            i: int,
            vault: Seq<char>,
            concept: Seq<char>,
        |
            #![trigger links(pages[i].parsed->Ok_0.body).contains(LinkView::CrossVault { vault, concept })]
            0 <= i < pages.len() && pages[i].path == path && pages[i].parsed is Ok && links(
                pages[i].parsed->Ok_0.body,
            ).contains((LinkView::CrossVault { vault, concept })) && target == vault + "::"@
                + concept,
{
    lemma_sorted::<(String, String)>(crossing(pages));
    lemma_crossing(pages, (path, target));
    if crossing(pages).contains((path, target)) {
        let i = choose|i: int|
            0 <= i < pages.len() && (#[trigger] pages[i]).path == path && crosses(
                pages[i],
                target,
            );
        let found = page_links(pages[i]);
        let k = choose|k: int|
            0 <= k < found.len() && (#[trigger] page_links(pages[i])[k]) is CrossVault && target
                == page_links(pages[i])[k]->vault + "::"@ + page_links(pages[i])[k]->concept;
        let vault = found[k]->vault;
        let concept = found[k]->concept;
        assert(found[k] == LinkView::CrossVault { vault, concept });
        assert(links(pages[i].parsed->Ok_0.body).contains(LinkView::CrossVault { vault, concept }));
    }
    if exists|i: int, vault: Seq<char>, concept: Seq<char>|
        #![trigger links(pages[i].parsed->Ok_0.body).contains(LinkView::CrossVault { vault, concept })]
        0 <= i < pages.len() && pages[i].path == path && pages[i].parsed is Ok && links(
            pages[i].parsed->Ok_0.body,
        ).contains((LinkView::CrossVault { vault, concept })) && target == vault + "::"@
            + concept {
        let (i, vault, concept) = choose|i: int, vault: Seq<char>, concept: Seq<char>|
            #![trigger links(pages[i].parsed->Ok_0.body).contains(LinkView::CrossVault { vault, concept })]
            0 <= i < pages.len() && pages[i].path == path && pages[i].parsed is Ok && links(
                pages[i].parsed->Ok_0.body,
            ).contains((LinkView::CrossVault { vault, concept })) && target == vault + "::"@
                + concept;
        let found = page_links(pages[i]);
        let k = choose|k: int|
            0 <= k < found.len() && found[k] == (LinkView::CrossVault { vault, concept });
        assert(page_links(pages[i])[k] is CrossVault);
        assert(crosses(pages[i], target));
        assert(pages[i].path == path);
    }
}

/// A report names a page and a page name as a broken link exactly if the body of the page
/// has a link to that name, at whatever place, and no file of that name is among the pages.
pub proof fn law_broken_links_are_those_on_the_pages(
    pages: Seq<PageModel>,
    manifest: Manifest,
    files: Seq<RawFile>,
    report: LintReport,
    path: Seq<char>,
    slug: Seq<char>,
)
    requires
        is_lint_of(pages, manifest, files, Ok(report)),
    ensures
        in_order::<(String, String)>(views(report.broken_links@)),
        views(report.broken_links@).contains((path, slug)) <==> {
            &&& exists|i: int|
                0 <= i < pages.len() && (#[trigger] pages[i]).path == path && pages[i].parsed is Ok
                    && links(pages[i].parsed->Ok_0.body).contains(LinkView::Local(slug))
            &&& !exists|j: int| 0 <= j < pages.len() && file_stem((#[trigger] pages[j]).path) == slug
        },
{
    law_broken_links_are_those_that_lead_nowhere(pages, path, slug);
    if slug_exists(pages, slug) {
        let j = choose|j: int| 0 <= j < pages.len() && (#[trigger] pages[j]).slug() == slug;
        assert(file_stem(pages[j].path) == slug);
    }
    if exists|j: int| 0 <= j < pages.len() && file_stem((#[trigger] pages[j]).path) == slug {
        let j = choose|j: int| 0 <= j < pages.len() && file_stem((#[trigger] pages[j]).path) == slug;
        assert(pages[j].slug() == slug);
    }
}

/// A report names a page as an orphan exactly if no body of another page has a link to the
/// page's file name.
pub proof fn law_orphans_are_those_that_no_page_leads_to(
    pages: Seq<PageModel>,
    manifest: Manifest,
    files: Seq<RawFile>,
    report: LintReport,
    path: Seq<char>,
)
    requires
        is_lint_of(pages, manifest, files, Ok(report)),
    ensures
        in_order::<String>(views(report.orphan_pages@)),
        views(report.orphan_pages@).contains(path) <==> exists|i: int|
            0 <= i < pages.len() && (#[trigger] pages[i]).path == path && forall|j: int|
                0 <= j < pages.len() && j != i && (#[trigger] pages[j]).parsed is Ok ==> !links(
                    pages[j].parsed->Ok_0.body,
                ).contains(LinkView::Local(file_stem(path))),
{
    law_orphans_are_those_no_other_page_links_to(pages, path);
    let rows = sorted::<String>(orphans(pages, pages.len()));
    if rows.contains(path) {
        let i = choose|i: int|
            0 <= i < pages.len() && (#[trigger] pages[i]).path == path && !exists|j: int|
                0 <= j < pages.len() && j != i && #[trigger] page_links(pages[j]).contains(
                    LinkView::Local(pages[i].slug()),
                );
        assert forall|j: int|
            0 <= j < pages.len() && j != i && (#[trigger] pages[j]).parsed is Ok implies !links(
            pages[j].parsed->Ok_0.body,
        ).contains(LinkView::Local(file_stem(path))) by {
            assert(!page_links(pages[j]).contains(LinkView::Local(pages[i].slug())));
        }
        assert(pages[i].path == path);
    }
    if exists|i: int|
        0 <= i < pages.len() && (#[trigger] pages[i]).path == path && forall|j: int|
            0 <= j < pages.len() && j != i && (#[trigger] pages[j]).parsed is Ok ==> !links(
                pages[j].parsed->Ok_0.body,
            ).contains(LinkView::Local(file_stem(path))) {
        let i = choose|i: int|
            0 <= i < pages.len() && (#[trigger] pages[i]).path == path && forall|j: int|
                0 <= j < pages.len() && j != i && (#[trigger] pages[j]).parsed is Ok ==> !links(
                    pages[j].parsed->Ok_0.body,
                ).contains(LinkView::Local(file_stem(path)));
        assert forall|j: int| 0 <= j < pages.len() && j != i implies !(
        #[trigger] page_links(pages[j]).contains(LinkView::Local(pages[i].slug()))) by {
            if pages[j].parsed is Ok {
                assert(!links(pages[j].parsed->Ok_0.body).contains(
                    LinkView::Local(file_stem(path)),
                ));
            }
        }
    }
}

/// A report names a source as one still to be compiled exactly if it has an active snapshot
/// and the content it was last compiled at, if any, is not the content that is active.
pub proof fn law_pending_compiles_are_those_not_compiled_at_their_content(
    pages: Seq<PageModel>,
    manifest: Manifest,
    files: Seq<RawFile>,
    report: LintReport,
    uri: Seq<char>,
)
    requires
        manifest.wf(),
        is_lint_of(pages, manifest, files, Ok(report)),
    ensures
        in_order::<String>(views(report.pending_compiles@)),
        views(report.pending_compiles@).contains(uri) <==> {
            &&& manifest@.contains_key(uri)
            &&& exists|version: VersionView| #[trigger]
                is_first_active(manifest@[uri].history, version)
            &&& !(manifest@[uri].compiled_hash is Some && manifest@[uri].compiled_hash
                == manifest@[uri].active_hash)
        },
{
    let entries = active_of(manifest.listing());
    lemma_sorted::<String>(pending(entries, manifest@));
    lemma_pending(entries, manifest@, uri);
    if exists|k: int| 0 <= k < entries.len() && (#[trigger] entries[k]).0 == uri {
        let k = choose|k: int| 0 <= k < entries.len() && (#[trigger] entries[k]).0 == uri;
        assert(entries.contains((uri, entries[k].1)));
        law_active_entries_are_the_active_snapshots(manifest, uri, entries[k].1);
        assert(is_first_active(manifest@[uri].history, entries[k].1));
    }
    if manifest@.contains_key(uri) && exists|version: VersionView| #[trigger]
        is_first_active(manifest@[uri].history, version) {
        let version = choose|version: VersionView| #[trigger]
            is_first_active(manifest@[uri].history, version);
        law_active_entries_are_the_active_snapshots(manifest, uri, version);
        let k = choose|k: int| 0 <= k < entries.len() && entries[k] == (uri, version);
        assert(entries[k].0 == uri);
    }
}

/// Every place counts: a link or a source that stands twice is reported twice. The findings
/// on two lists of links, of sources or of pages are those on the one and those on the other.
pub proof fn law_findings_add_up(
    path: Seq<char>,
    a: Seq<LinkView>,
    b: Seq<LinkView>,
    r: Seq<Seq<char>>,
    s: Seq<Seq<char>>,
    p: Seq<PageModel>,
    q: Seq<PageModel>,
    all: Seq<PageModel>,
    manifest: Manifest,
    files: Seq<RawFile>,
)
    ensures
        broken_on(path, a + b, all) == broken_on(path, a, all) + broken_on(path, b, all),
        crossing_on(path, a + b) == crossing_on(path, a) + crossing_on(path, b),
        missing_on(path, r + s, manifest, files) == missing_on(path, r, manifest, files)
            + missing_on(path, s, manifest, files),
        broken(p + q, all) == broken(p, all) + broken(q, all),
        crossing(p + q) == crossing(p) + crossing(q),
        missing(p + q, manifest, files) == missing(p, manifest, files) + missing(
            q,
            manifest,
            files,
        ),
    decreases b.len() + s.len() + q.len(),
{
    if b.len() > 0 {
        law_findings_add_up(path, a, b.drop_last(), r, s, p, q, all, manifest, files);
        assert((a + b).drop_last() =~= a + b.drop_last());
        assert(broken_on(path, a + b, all) =~= broken_on(path, a, all) + broken_on(path, b, all));
        assert(crossing_on(path, a + b) =~= crossing_on(path, a) + crossing_on(path, b));
    } else {
        assert(a + b =~= a);
        assert(broken_on(path, b, all) =~= seq![]);
        assert(crossing_on(path, b) =~= seq![]);
    }
    if s.len() > 0 {
        law_findings_add_up(path, a, b, r, s.drop_last(), p, q, all, manifest, files);
        assert((r + s).drop_last() =~= r + s.drop_last());
        assert(missing_on(path, r + s, manifest, files) =~= missing_on(path, r, manifest, files)
            + missing_on(path, s, manifest, files));
    } else {
        assert(r + s =~= r);
        assert(missing_on(path, s, manifest, files) =~= seq![]);
    }
    if q.len() > 0 {
        law_findings_add_up(path, a, b, r, s, p, q.drop_last(), all, manifest, files);
        assert((p + q).drop_last() =~= p + q.drop_last());
        assert(broken(p + q, all) =~= broken(p, all) + broken(q, all));
        assert(crossing(p + q) =~= crossing(p) + crossing(q));
        assert(missing(p + q, manifest, files) =~= missing(p, manifest, files) + missing(
            q,
            manifest,
            files,
        ));
    } else {
        assert(p + q =~= p);
        assert(broken(q, all) =~= seq![]);
        assert(crossing(q) =~= seq![]);
        assert(missing(q, manifest, files) =~= seq![]);
    }
}

/// A check fails exactly if the body of some page has a link to a name that no file has, or
/// some page lists a source of which no raw blob is found. Nothing else makes it fail.
pub proof fn law_a_check_fails_on_broken_links_and_missing_sources_only(
    pages: Seq<PageModel>,
    manifest: Manifest,
    files: Seq<RawFile>,
    report: LintReport,
)
    requires
        is_lint_of(pages, manifest, files, Ok(report)),
    ensures
        report.failed() <==> (exists|i: int, slug: Seq<char>|
            #![trigger links(pages[i].parsed->Ok_0.body).contains(LinkView::Local(slug))]
            0 <= i < pages.len() && pages[i].parsed is Ok && links(
                pages[i].parsed->Ok_0.body,
            ).contains(LinkView::Local(slug)) && !slug_exists(pages, slug)) || (exists|
            i: int,
            k: int,
        |
            #![trigger pages[i].parsed->Ok_0.frontmatter.sources[k]]
            0 <= i < pages.len() && pages[i].parsed is Ok && 0 <= k
                < pages[i].parsed->Ok_0.frontmatter.sources.len() && !resolves(
                manifest,
                files,
                pages[i].parsed->Ok_0.frontmatter.sources[k].resource,
            )),
{
    let found = views(report.broken_links@);
    let lost = views(report.missing_sources@);
    if report.broken_links@.len() > 0 {
        let row = found[0];
        assert(found.contains(row));
        law_broken_links_are_those_that_lead_nowhere(pages, row.0, row.1);
        let i = choose|i: int|
            0 <= i < pages.len() && (#[trigger] pages[i]).path == row.0 && page_links(
                pages[i],
            ).contains(LinkView::Local(row.1));
        assert(links(pages[i].parsed->Ok_0.body).contains(LinkView::Local(row.1)));
    }
    if report.missing_sources@.len() > 0 {
        let row = lost[0];
        assert(lost.contains(row));
        lemma_sorted::<(String, String)>(missing(pages, manifest, files));
        lemma_missing(pages, manifest, files, row);
        let i = choose|i: int|
            0 <= i < pages.len() && (#[trigger] pages[i]).path == row.0
                && pages[i].resources().contains(row.1);
        let k = choose|k: int|
            0 <= k < pages[i].resources().len() && pages[i].resources()[k] == row.1;
        assert(pages[i].parsed->Ok_0.frontmatter.sources[k].resource == row.1);
    }
    if exists|i: int, slug: Seq<char>|
        #![trigger links(pages[i].parsed->Ok_0.body).contains(LinkView::Local(slug))]
        0 <= i < pages.len() && pages[i].parsed is Ok && links(
            pages[i].parsed->Ok_0.body,
        ).contains(LinkView::Local(slug)) && !slug_exists(pages, slug) {
        let (i, slug) = choose|i: int, slug: Seq<char>|
            #![trigger links(pages[i].parsed->Ok_0.body).contains(LinkView::Local(slug))]
            0 <= i < pages.len() && pages[i].parsed is Ok && links(
                pages[i].parsed->Ok_0.body,
            ).contains(LinkView::Local(slug)) && !slug_exists(pages, slug);
        law_broken_links_are_those_that_lead_nowhere(pages, pages[i].path, slug);
        assert(page_links(pages[i]).contains(LinkView::Local(slug)));
        assert(found.contains((pages[i].path, slug)));
    }
    if exists|i: int, k: int|
        #![trigger pages[i].parsed->Ok_0.frontmatter.sources[k]]
        0 <= i < pages.len() && pages[i].parsed is Ok && 0 <= k
            < pages[i].parsed->Ok_0.frontmatter.sources.len() && !resolves(
            manifest,
            files,
            pages[i].parsed->Ok_0.frontmatter.sources[k].resource,
        ) {
        let (i, k) = choose|i: int, k: int|
            #![trigger pages[i].parsed->Ok_0.frontmatter.sources[k]]
            0 <= i < pages.len() && pages[i].parsed is Ok && 0 <= k
                < pages[i].parsed->Ok_0.frontmatter.sources.len() && !resolves(
                manifest,
                files,
                pages[i].parsed->Ok_0.frontmatter.sources[k].resource,
            );
        let row = (pages[i].path, pages[i].parsed->Ok_0.frontmatter.sources[k].resource);
        assert(pages[i].resources()[k] == row.1);
        lemma_sorted::<(String, String)>(missing(pages, manifest, files));
        lemma_missing(pages, manifest, files, row);
        assert(lost.contains(row));
    }
}

} // verus!
