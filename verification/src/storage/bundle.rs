//! The bundle: a summary of what a vault holds, for other programs. What is in the vault
//! decides what the bundle says, not the order in which it is found.

use vstd::prelude::*;

use crate::manifest::model::{
    active_index, active_of, is_first_active, law_active_entries_are_the_active_snapshots,
    lemma_listed, EntryView, Manifest, VersionView,
};
use crate::order::{
    gathered, in_order, law_gathered_values_are_those_that_are_made, lemma_gathered_in_any_order,
    lemma_one_key, lemma_sorted, lemma_sorted_in_any_order, sort, sorted, text_before, Sortable,
};
use crate::paths::file_stem;
use crate::text::{text_eq, views};
use crate::validator::frontmatter::{PageFile, PageModel};
use crate::vault::okf_schema::OKF_SCHEMA_VERSION;

verus! {

/// Where the bundle stands in a vault.
pub const BUNDLE_RELATIVE_PATH: &'static str = "okf.json";

#[derive(Debug)]
pub struct BundleConcept {
    pub id: String,
    pub path: String,
    pub title: String,
    pub sources: Vec<String>,
}

#[verifier::ext_equal]
pub struct ConceptRow {
    pub id: Seq<char>,
    pub path: Seq<char>,
    pub title: Seq<char>,
    pub sources: Seq<Seq<char>>,
}

impl View for BundleConcept {
    type V = ConceptRow;

    open spec fn view(&self) -> ConceptRow {
        ConceptRow {
            id: self.id@,
            path: self.path@,
            title: self.title@,
            sources: views(self.sources@),
        }
    }
}

impl Sortable for BundleConcept {
    open spec fn sort_key(v: ConceptRow) -> Seq<Seq<char>> {
        seq![v.path]
    }

    fn not_after(&self, other: &Self) -> (r: bool) {
        proof {
            lemma_one_key(self@.path, other@.path);
        }
        text_eq(self.path.as_str(), other.path.as_str()) || text_before(
            self.path.as_str(),
            other.path.as_str(),
        )
    }
}

#[derive(Debug)]
pub struct BundleRawSource {
    pub uri: String,
    pub raw_id: String,
    pub hash: String,
}

pub struct SourceRow {
    pub uri: Seq<char>,
    pub raw_id: Seq<char>,
    pub hash: Seq<char>,
}

impl View for BundleRawSource {
    type V = SourceRow;

    open spec fn view(&self) -> SourceRow {
        SourceRow { uri: self.uri@, raw_id: self.raw_id@, hash: self.hash@ }
    }
}

impl Sortable for BundleRawSource {
    open spec fn sort_key(v: SourceRow) -> Seq<Seq<char>> {
        seq![v.uri]
    }

    fn not_after(&self, other: &Self) -> (r: bool) {
        proof {
            lemma_one_key(self@.uri, other@.uri);
        }
        text_eq(self.uri.as_str(), other.uri.as_str()) || text_before(
            self.uri.as_str(),
            other.uri.as_str(),
        )
    }
}

#[derive(Debug)]
pub struct Bundle {
    pub okf_version: String,
    pub concepts: Vec<BundleConcept>,
    pub raw_sources: Vec<BundleRawSource>,
}

/// What the bundle says of a page: its legacy id or else its slug, its path, its title,
/// and its sources in order. Nothing of a page that cannot be read.
pub open spec fn concept_row(page: PageModel) -> Option<ConceptRow> {
    match page.parsed {
        Ok(p) => Some(
            ConceptRow {
                id: match p.frontmatter.id {
                    Some(id) => id,
                    None => page.slug(),
                },
                path: page.path,
                title: p.frontmatter.title,
                sources: sorted::<String>(page.resources()),
            },
        ),
        Err(_) => None,
    }
}

/// What the bundle says of the pages, by path.
pub open spec fn concept_rows(pages: Seq<PageModel>) -> Seq<ConceptRow> {
    sorted::<BundleConcept>(gathered(pages, |page: PageModel| concept_row(page)))
}

/// What the bundle says of an active source.
pub open spec fn source_row(entry: (Seq<char>, VersionView)) -> SourceRow {
    SourceRow { uri: entry.0, raw_id: entry.1.raw_id, hash: entry.1.hash }
}

/// What the bundle says of the active sources, by URI.
pub open spec fn source_rows(manifest: Manifest) -> Seq<SourceRow> {
    sorted::<BundleRawSource>(
        active_of(manifest.listing()).map_values(|e: (Seq<char>, VersionView)| source_row(e)),
    )
}

fn bundle_sources(manifest: &Manifest) -> (r: Vec<BundleRawSource>)
    requires
        manifest.wf(),
    ensures
        views(r@) == source_rows(*manifest),
{
    let entries = manifest.active_entries();
    let ghost all = active_of(manifest.listing());
    let ghost f = |e: (Seq<char>, VersionView)| source_row(e);
    let mut out: Vec<BundleRawSource> = Vec::new();
    let mut i: usize = 0;
    assert(views(out@) =~= all.take(0).map_values(f));
    while i < entries.len()
        invariant
            i <= entries@.len(),
            entries@.len() == all.len(),
            f == (|e: (Seq<char>, VersionView)| source_row(e)),
            forall|k: int|
                0 <= k < all.len() ==> (#[trigger] entries@[k]).0@ == all[k].0 && entries@[k].1@
                    == all[k].1,
            views(out@) == all.take(i as int).map_values(f),
        decreases entries@.len() - i,
    {
        let ghost before = out@;
        let (uri, version) = entries[i];
        let row = BundleRawSource {
            uri: uri.to_string(),
            raw_id: version.raw_id.clone(),
            hash: version.hash.clone(),
        };
        let ghost what = row@;
        out.push(row);
        proof {
            assert(views(out@) =~= views(before).push(what));
            assert(all.take(i + 1).map_values(f) =~= all.take(i as int).map_values(f).push(what));
        }
        i += 1;
    }
    assert(all.take(all.len() as int) =~= all);
    sort(out)
}

fn bundle_concepts(pages: &Vec<PageFile>) -> (r: Vec<BundleConcept>)
    ensures
        views(r@) == concept_rows(views(pages@)),
{
    let ghost all = views(pages@);
    let ghost f = |page: PageModel| concept_row(page);
    let mut out: Vec<BundleConcept> = Vec::new();
    let mut i: usize = 0;
    assert(all.take(0) =~= seq![]);
    assert(views(out@) =~= seq![]);
    while i < pages.len()
        invariant
            i <= pages@.len(),
            all == views(pages@),
            f == (|page: PageModel| concept_row(page)),
            views(out@) == gathered(all.take(i as int), f),
        decreases pages@.len() - i,
    {
        let ghost before = out@;
        proof {
            let now = all.take(i + 1);
            assert(now.drop_last() =~= all.take(i as int));
            assert(now.last() == pages@[i as int]@);
        }
        match &pages[i].parsed {
            Ok(p) => {
                let id: String = match &p.frontmatter.id {
                    Some(id) => id.clone(),
                    None => pages[i].slug(),
                };
                let row = BundleConcept {
                    id,
                    path: pages[i].path.clone(),
                    title: p.frontmatter.title.clone(),
                    sources: sort(pages[i].resources()),
                };
                let ghost what = row@;
                out.push(row);
                assert(views(out@) =~= views(before).push(what));
            },
            Err(_) => {},
        }
        i += 1;
    }
    assert(all.take(all.len() as int) =~= all);
    sort(out)
}

/// The bundle of a vault: its active sources and the pages that can be read, of both
/// kinds.
pub fn build_bundle(manifest: &Manifest, pages: &Vec<PageFile>) -> (r: Bundle)
    requires
        manifest.wf(),
    ensures
        r.okf_version@ == OKF_SCHEMA_VERSION@,
        views(r.concepts@) == concept_rows(views(pages@)),
        views(r.raw_sources@) == source_rows(*manifest),
{
    Bundle {
        okf_version: OKF_SCHEMA_VERSION.to_string(),
        concepts: bundle_concepts(pages),
        raw_sources: bundle_sources(manifest),
    }
}

/// What the bundle says of the pages does not depend on the order in which they are
/// found, if no two of them have the same path.
pub proof fn law_bundled_pages_do_not_depend_on_order(a: Seq<PageModel>, b: Seq<PageModel>)
    requires
        a.to_multiset() == b.to_multiset(),
        forall|i: int, j: int|
            #![trigger a[i], a[j]]
            0 <= i < a.len() && 0 <= j < a.len() && a[i].path == a[j].path ==> i == j,
    ensures
        concept_rows(a) == concept_rows(b),
{
    let f = |page: PageModel| concept_row(page);
    lemma_gathered_in_any_order(a, b, f);
    let rows = gathered(a, f);
    assert forall|x: ConceptRow, y: ConceptRow|
        #![trigger rows.contains(x), rows.contains(y)]
        rows.contains(x) && rows.contains(y) && BundleConcept::sort_key(x)
            == BundleConcept::sort_key(y) implies x == y by {
        assert(BundleConcept::sort_key(x)[0] == BundleConcept::sort_key(y)[0]);
        lemma_comes_from(a, x);
        lemma_comes_from(a, y);
        let i = choose|i: int| 0 <= i < a.len() && concept_row(#[trigger] a[i]) == Some(x);
        let j = choose|j: int| 0 <= j < a.len() && concept_row(#[trigger] a[j]) == Some(y);
        assert(a[i].path == a[j].path);
    }
    lemma_sorted_in_any_order::<BundleConcept>(rows, gathered(b, f));
}

proof fn lemma_comes_from(pages: Seq<PageModel>, row: ConceptRow)
    requires
        gathered(pages, |page: PageModel| concept_row(page)).contains(row),
    ensures
        exists|i: int| 0 <= i < pages.len() && concept_row(#[trigger] pages[i]) == Some(row),
    decreases pages.len(),
{
    let f = |page: PageModel| concept_row(page);
    let rows = gathered(pages, f);
    if pages.len() > 0 {
        let front = pages.drop_last();
        let rest = gathered(front, f);
        if rest.contains(row) {
            lemma_comes_from(front, row);
            let i = choose|i: int|
                0 <= i < front.len() && concept_row(#[trigger] front[i]) == Some(row);
            assert(pages[i] == front[i]);
        } else {
            let k = choose|k: int| 0 <= k < rows.len() && rows[k] == row;
            if k < rest.len() {
                assert(rest[k] == row);
            }
            assert(concept_row(pages[pages.len() - 1]) == Some(row));
        }
    }
}

/// What the bundle says of a source, if a snapshot of it is active.
spec fn active_row(entry: (Seq<char>, EntryView)) -> Option<SourceRow> {
    match active_index(entry.1.history) {
        Some(i) => Some(source_row((entry.0, entry.1.history[i]))),
        None => None,
    }
}

proof fn lemma_active_rows(listing: Seq<(Seq<char>, EntryView)>)
    ensures
        active_of(listing).map_values(|e: (Seq<char>, VersionView)| source_row(e)) == gathered(
            listing,
            |e: (Seq<char>, EntryView)| active_row(e),
        ),
    decreases listing.len(),
{
    let f = |e: (Seq<char>, VersionView)| source_row(e);
    let g = |e: (Seq<char>, EntryView)| active_row(e);
    if listing.len() == 0 {
        assert(active_of(listing).map_values(f) =~= gathered(listing, g));
    } else {
        let front = listing.drop_last();
        lemma_active_rows(front);
        let (uri, entry) = listing.last();
        if active_index(entry.history) is Some {
            let row = (uri, entry.history[active_index(entry.history)->0]);
            assert(active_of(listing) == active_of(front).push(row));
            assert(active_of(listing).map_values(f) =~= active_of(front).map_values(f).push(
                source_row(row),
            ));
        }
        assert(active_of(listing).map_values(f) =~= gathered(listing, g));
    }
}

proof fn lemma_row_comes_from(listing: Seq<(Seq<char>, EntryView)>, row: SourceRow)
    requires
        gathered(listing, |e: (Seq<char>, EntryView)| active_row(e)).contains(row),
    ensures
        exists|i: int| 0 <= i < listing.len() && active_row(#[trigger] listing[i]) == Some(row),
    decreases listing.len(),
{
    let g = |e: (Seq<char>, EntryView)| active_row(e);
    let rows = gathered(listing, g);
    if listing.len() > 0 {
        let front = listing.drop_last();
        let rest = gathered(front, g);
        if rest.contains(row) {
            lemma_row_comes_from(front, row);
            let i = choose|i: int|
                0 <= i < front.len() && active_row(#[trigger] front[i]) == Some(row);
            assert(listing[i] == front[i]);
        } else {
            let k = choose|k: int| 0 <= k < rows.len() && rows[k] == row;
            if k < rest.len() {
                assert(rest[k] == row);
            }
            assert(active_row(listing[listing.len() - 1]) == Some(row));
        }
    }
}

proof fn lemma_listing_distinct(manifest: Manifest)
    requires
        manifest.wf(),
    ensures
        manifest.listing().no_duplicates(),
{
    let listing = manifest.listing();
    assert forall|i: int, j: int|
        0 <= i < listing.len() && 0 <= j < listing.len() && i != j implies listing[i]
        != listing[j] by {
        assert(manifest.sources@[i].uri@ != manifest.sources@[j].uri@);
    }
}

/// What the bundle says of the sources does not depend on the order in which the manifest
/// keeps them.
pub proof fn law_bundled_sources_do_not_depend_on_order(a: Manifest, b: Manifest)
    requires
        a.wf(),
        b.wf(),
        a@ == b@,
    ensures
        source_rows(a) == source_rows(b),
{
    broadcast use vstd::seq_lib::group_to_multiset_ensures;

    let x = a.listing();
    let y = b.listing();
    lemma_listing_distinct(a);
    lemma_listing_distinct(b);
    x.lemma_multiset_has_no_duplicates();
    y.lemma_multiset_has_no_duplicates();
    assert forall|row: (Seq<char>, EntryView)| #[trigger]
        x.to_multiset().count(row) == y.to_multiset().count(row) by {
        lemma_listed(a, row);
        lemma_listed(b, row);
        assert(x.contains(row) <==> x.to_multiset().count(row) > 0);
        assert(y.contains(row) <==> y.to_multiset().count(row) > 0);
        assert(x.to_multiset().contains(row) ==> x.to_multiset().count(row) == 1);
        assert(y.to_multiset().contains(row) ==> y.to_multiset().count(row) == 1);
    }
    assert(x.to_multiset() =~= y.to_multiset());
    lemma_active_rows(x);
    lemma_active_rows(y);
    let g = |e: (Seq<char>, EntryView)| active_row(e);
    lemma_gathered_in_any_order(x, y, g);
    let rows = gathered(x, g);
    assert forall|p: SourceRow, q: SourceRow|
        #![trigger rows.contains(p), rows.contains(q)]
        rows.contains(p) && rows.contains(q) && BundleRawSource::sort_key(p)
            == BundleRawSource::sort_key(q) implies p == q by {
        assert(BundleRawSource::sort_key(p)[0] == BundleRawSource::sort_key(q)[0]);
        lemma_row_comes_from(x, p);
        lemma_row_comes_from(x, q);
        let i = choose|i: int| 0 <= i < x.len() && active_row(#[trigger] x[i]) == Some(p);
        let j = choose|j: int| 0 <= j < x.len() && active_row(#[trigger] x[j]) == Some(q);
        assert(a.sources@[i].uri@ == a.sources@[j].uri@);
    }
    lemma_sorted_in_any_order::<BundleRawSource>(rows, gathered(y, g));
}

/// The bundle says of every page that can be read, and of no other, where it stands, what it
/// is called, by what it goes, and all of its sources; by path.
pub proof fn law_the_bundle_has_every_readable_page(pages: Seq<PageModel>, i: int, row: ConceptRow)
    ensures
        in_order::<BundleConcept>(concept_rows(pages)),
        concept_rows(pages).len() <= pages.len(),
        0 <= i < pages.len() && pages[i].parsed is Ok ==> exists|k: int|
            {
                let front = pages[i].parsed->Ok_0.frontmatter;
                &&& 0 <= k < concept_rows(pages).len()
                &&& (#[trigger] concept_rows(pages)[k]).path == pages[i].path
                &&& concept_rows(pages)[k].title == front.title
                &&& concept_rows(pages)[k].id == (if front.id is Some {
                    front.id->0
                } else {
                    file_stem(pages[i].path)
                })
                &&& concept_rows(pages)[k].sources.to_multiset() == Seq::new(
                    front.sources.len(),
                    |j: int| front.sources[j].resource,
                ).to_multiset()
                &&& in_order::<String>(concept_rows(pages)[k].sources)
            },
        concept_rows(pages).contains(row) ==> exists|j: int|
            0 <= j < pages.len() && (#[trigger] pages[j]).parsed is Ok && row.path == pages[j].path
                && row.title == pages[j].parsed->Ok_0.frontmatter.title,
{
    let f = |page: PageModel| concept_row(page);
    let rows = gathered(pages, f);
    let kept = concept_rows(pages);
    lemma_sorted::<BundleConcept>(rows);
    law_gathered_values_are_those_that_are_made(pages, f, row);
    if 0 <= i < pages.len() && pages[i].parsed is Ok {
        let front = pages[i].parsed->Ok_0.frontmatter;
        let own = concept_row(pages[i])->0;
        law_gathered_values_are_those_that_are_made(pages, f, own);
        assert(f(pages[i]) == Some(own));
        assert(kept.contains(own));
        let k = choose|k: int| 0 <= k < kept.len() && kept[k] == own;
        lemma_sorted::<String>(pages[i].resources());
        assert(pages[i].resources() =~= Seq::new(
            front.sources.len(),
            |j: int| front.sources[j].resource,
        ));
        assert(kept[k].path == pages[i].path);
    }
    if kept.contains(row) {
        assert(rows.contains(row));
        let j = choose|j: int| 0 <= j < pages.len() && f(#[trigger] pages[j]) == Some(row);
        assert(pages[j].parsed is Ok);
    }
}

/// The bundle names a source, with the raw id and the hash of a snapshot, exactly if that is
/// its active snapshot; by URI, and each source once.
pub proof fn law_the_bundle_has_every_active_source(manifest: Manifest, row: SourceRow)
    requires
        manifest.wf(),
    ensures
        in_order::<BundleRawSource>(source_rows(manifest)),
        source_rows(manifest).contains(row) <==> manifest@.contains_key(row.uri) && exists|
            version: VersionView,
        | #[trigger]
            is_first_active(manifest@[row.uri].history, version) && version.raw_id == row.raw_id
                && version.hash == row.hash,
        source_rows(manifest).len() == active_of(manifest.listing()).len(),
{
    let entries = active_of(manifest.listing());
    let rows = entries.map_values(|e: (Seq<char>, VersionView)| source_row(e));
    lemma_sorted::<BundleRawSource>(rows);
    if rows.contains(row) {
        let k = choose|k: int| 0 <= k < rows.len() && rows[k] == row;
        let (uri, version) = entries[k];
        assert(entries.contains((uri, version)));
        law_active_entries_are_the_active_snapshots(manifest, uri, version);
        assert(is_first_active(manifest@[row.uri].history, version));
    }
    if manifest@.contains_key(row.uri) && exists|version: VersionView| #[trigger]
        is_first_active(manifest@[row.uri].history, version) && version.raw_id == row.raw_id
            && version.hash == row.hash {
        let version = choose|version: VersionView| #[trigger]
            is_first_active(manifest@[row.uri].history, version) && version.raw_id == row.raw_id
                && version.hash == row.hash;
        law_active_entries_are_the_active_snapshots(manifest, row.uri, version);
        let k = choose|k: int| 0 <= k < entries.len() && entries[k] == (row.uri, version);
        assert(rows[k] == row);
    }
}

} // verus!
