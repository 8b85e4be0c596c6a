//! Repairs that need no judgement. There is one: a page that cannot be read and
//! whose frontmatter says `tid:` where `id:` was meant. Links and orphans are never
//! touched here.

use vstd::prelude::*;

use crate::ingest::frontmatter::RawFile;
use crate::manifest::model::Manifest;
use crate::text::{
    chars_of, decimal, find_from, has_part, join, joined, law_joined_parts_are_there,
    lemma_find_from, occurs_at, opt_view, stands_at, text_slice, views,
};
use crate::validator::frontmatter::{
    closing_line, cut, is_made_of, law_a_document_is_cut_at_its_delimiters, opening_line,
    split_frontmatter, PageFile, PageModel, ParsedPage,
};
use crate::validator::report::{add_items, counted, item_lines};
use crate::validator::rules::{is_lint_of, lint_bundle, LintError, LintReport};

verus! {

/// What was repaired.
#[derive(Debug)]
pub struct FixReport {
    /// The paths of the pages on which `tid:` became `id:`.
    pub fixed_frontmatter_typos: Vec<String>,
}

impl Default for FixReport {
    fn default() -> (r: FixReport)
        ensures
            r.fixed_frontmatter_typos@.len() == 0,
    {
        FixReport { fixed_frontmatter_typos: Vec::new() }
    }
}

impl FixReport {
    /// Whether nothing was repaired.
    pub fn is_empty(&self) -> (r: bool)
        ensures
            r == (self.fixed_frontmatter_typos@.len() == 0),
    {
        self.fixed_frontmatter_typos.len() == 0
    }
}

/// Whether a line of `s` begins at position `p` with `mark`.
pub open spec fn line_begins(s: Seq<char>, mark: Seq<char>, p: int) -> bool {
    occurs_at(s, mark, p) && (p == 0 || s[p - 1] == '\n')
}

/// Where the first line of `s` begins, from position `from` on, that begins with `mark`.
pub open spec fn first_line_with(s: Seq<char>, mark: Seq<char>, from: int) -> Option<int>
    decreases s.len() - from,
{
    if from < 0 || from >= s.len() {
        None
    } else if line_begins(s, mark, from) {
        Some(from)
    } else {
        first_line_with(s, mark, from + 1)
    }
}

/// The YAML of a frontmatter with its first `tid:` line as an `id:` line, where it has
/// no `id:` line yet. Every other line stays.
pub open spec fn renamed_id(yaml: Seq<char>) -> Option<Seq<char>> {
    if first_line_with(yaml, "id:"@, 0) is Some {
        None
    } else {
        match first_line_with(yaml, "tid:"@, 0) {
            Some(p) => Some(yaml.take(p) + "id:"@ + yaml.skip(p + "tid:"@.len())),
            None => None,
        }
    }
}

/// What a page is to hold instead, where it cannot be read and its `tid:` may be the
/// reason. The body stays as it is.
pub open spec fn proposed(page: PageModel) -> Option<Seq<char>> {
    match page.parsed {
        Ok(_) => None,
        Err(_) => match cut(page.content) {
            Err(_) => None,
            Ok((yaml, body)) => match renamed_id(yaml) {
                Some(fixed) => Some("---\n"@ + fixed + "\n---\n"@ + body),
                None => None,
            },
        },
    }
}

fn find_line_with(cs: &Vec<char>, mark: &str) -> (r: Option<usize>)
    ensures
        match r {
            Some(p) => first_line_with(cs@, mark@, 0) == Some(p as int) && line_begins(
                cs@,
                mark@,
                p as int,
            ),
            None => first_line_with(cs@, mark@, 0) is None,
        },
{
    let ms = chars_of(mark);
    let mut p: usize = 0;
    while p < cs.len()
        invariant
            ms@ == mark@,
            p <= cs@.len(),
            first_line_with(cs@, mark@, 0) == first_line_with(cs@, mark@, p as int),
        decreases cs@.len() - p,
    {
        if stands_at(cs, &ms, p) && (p == 0 || cs[p - 1] == '\n') {
            return Some(p);
        }
        p += 1;
    }
    None
}

fn rename_id(yaml: &str) -> (r: Option<String>)
    ensures
        opt_view(r) == renamed_id(yaml@),
{
    let cs = chars_of(yaml);
    if find_line_with(&cs, "id:").is_some() {
        return None;
    }
    match find_line_with(&cs, "tid:") {
        None => None,
        Some(p) => {
            proof {
                reveal_strlit("tid:");
            }
            let mut out = text_slice(&cs, 0, p);
            out.append("id:");
            let n: usize = cs.len();
            let tail = text_slice(&cs, p + 4, n);
            out.append(tail.as_str());
            proof {
                assert(cs@.subrange(0, p as int) =~= yaml@.take(p as int));
                assert(tail@ =~= yaml@.skip(p + 4));
            }
            Some(out)
        },
    }
}

/// What `page` is to hold instead, where it cannot be read and its `tid:` may be the
/// reason. The caller reads the proposed text again; only if that succeeds is it
/// kept.
pub fn propose_fix(page: &PageFile) -> (r: Option<String>)
    ensures
        (match r {
            Some(s) => Some(s@),
            None => None,
        }) == proposed(page@),
{
    if page.parsed.is_ok() {
        return None;
    }
    match split_frontmatter(page.content.as_str()) {
        Err(_) => None,
        Ok((yaml, body)) => match rename_id(yaml.as_str()) {
            None => None,
            Some(fixed) => {
                let mut out = "---\n".to_string();
                out.append(fixed.as_str());
                out.append("\n---\n");
                out.append(body.as_str());
                Some(out)
            },
        },
    }
}

/// A page as it is after the repair. `reread` is what its proposed text reads as, if
/// it can be read.
pub open spec fn repaired(page: PageModel, reread: Option<ParsedPage>) -> PageModel {
    match (proposed(page), reread) {
        (Some(content), Some(parsed)) => PageModel {
            path: page.path,
            content,
            parsed: Ok(parsed@),
        },
        _ => page,
    }
}

/// The pages of a vault as they are after the repair.
pub open spec fn all_repaired(pages: Seq<PageModel>, rereads: Seq<Option<ParsedPage>>) -> Seq<
    PageModel,
> {
    Seq::new(pages.len(), |i: int| repaired(pages[i], rereads[i]))
}

/// Whether a page is repaired.
pub open spec fn is_repaired(page: PageModel, reread: Option<ParsedPage>) -> bool {
    proposed(page) is Some && reread is Some
}

/// The paths of the pages that are repaired.
pub open spec fn repaired_paths(pages: Seq<PageModel>, rereads: Seq<Option<ParsedPage>>) -> Seq<
    Seq<char>,
>
    decreases pages.len(),
{
    if pages.len() == 0 {
        seq![]
    } else {
        let rest = repaired_paths(pages.drop_last(), rereads);
        if is_repaired(pages.last(), rereads[pages.len() - 1]) {
            rest.push(pages.last().path)
        } else {
            rest
        }
    }
}

/// What a repair of a vault comes to.
#[derive(Debug)]
pub struct FixOutcome {
    pub report: FixReport,
    /// The concept pages and then the entity pages, as they are now.
    pub pages: Vec<PageFile>,
    /// Which of the pages have to be written.
    pub changed: Vec<bool>,
    /// The check of the concept pages as they are now.
    pub lint: Result<LintReport, LintError>,
}

fn repair(page: PageFile, reread: Option<ParsedPage>) -> (r: (PageFile, bool))
    ensures
        r.0@ == repaired(page@, reread),
        r.1 == is_repaired(page@, reread),
        r.0.path == page.path,
{
    match (propose_fix(&page), reread) {
        (Some(content), Some(parsed)) => (PageFile { path: page.path, content, parsed: Ok(parsed) }, true),
        _ => (page, false),
    }
}

/// Repairs the pages of a vault and checks them again. `pages` are the concept pages
/// (the first `concepts` of them) and the entity pages; `rereads` holds for each what
/// its proposed text (`propose_fix`) reads as, if it can be read. A proposal that
/// cannot be read is dropped and the page stays as it is.
pub fn fix_bundle(
    pages: Vec<PageFile>,
    concepts: usize,
    rereads: Vec<Option<ParsedPage>>,
    manifest: &Manifest,
    files: &Vec<RawFile>,
) -> (r: FixOutcome)
    requires
        manifest.wf(),
        concepts <= pages@.len(),
        pages@.len() == rereads@.len(),
    ensures
        views(r.pages@) == all_repaired(views(pages@), rereads@),
        r.changed@.len() == pages@.len(),
        forall|i: int|
            0 <= i < pages@.len() ==> #[trigger] r.changed@[i] == is_repaired(
                pages@[i]@,
                rereads@[i],
            ),
        views(r.report.fixed_frontmatter_typos@) == repaired_paths(views(pages@), rereads@),
        is_lint_of(views(r.pages@).take(concepts as int), *manifest, files@, r.lint),
{
    let ghost all = pages@;
    let ghost read = rereads@;
    let mut readings = rereads;
    let mut fixed: Vec<String> = Vec::new();
    let mut front: Vec<PageFile> = Vec::new();
    let mut back: Vec<PageFile> = Vec::new();
    let mut changed: Vec<bool> = Vec::new();
    proof {
        assert(views(all).take(0) =~= seq![]);
        assert(views(fixed@) =~= seq![]);
    }
    for page in it: pages
        invariant
            it.seq() == all,
            all.len() == read.len(),
            concepts <= all.len(),
            readings@.len() == read.len(),
            forall|j: int| it.index() <= j < read.len() ==> #[trigger] readings@[j] == read[j],
            changed@.len() == it.index(),
            front@.len() == (if it.index() < concepts {
                it.index()
            } else {
                concepts as int
            }),
            front@.len() + back@.len() == it.index(),
            forall|j: int|
                0 <= j < front@.len() ==> (#[trigger] front@[j])@ == repaired(all[j]@, read[j]),
            forall|j: int|
                0 <= j < back@.len() ==> (#[trigger] back@[j])@ == repaired(
                    all[front@.len() + j]@,
                    read[front@.len() + j],
                ),
            forall|j: int|
                0 <= j < it.index() ==> #[trigger] changed@[j] == is_repaired(all[j]@, read[j]),
            views(fixed@) == repaired_paths(views(all).take(it.index()), read),
    {
        let ghost before = fixed@;
        let ghost what = page@;
        let k: usize = changed.len();
        proof {
            let now = views(all).take(k + 1);
            assert(now.drop_last() =~= views(all).take(k as int));
            assert(now.last() == what);
        }
        let reread = readings[k].take();
        let (page, done) = repair(page, reread);
        if done {
            fixed.push(page.path.clone());
            assert(views(fixed@) =~= views(before).push(what.path));
        }
        changed.push(done);
        if k < concepts {
            front.push(page);
        } else {
            back.push(page);
        }
    }
    assert(views(all).take(all.len() as int) =~= views(all));
    let lint = lint_bundle(&front, manifest, files);
    let ghost lead = front@;
    front.append(&mut back);
    proof {
        assert(views(front@).take(concepts as int) =~= views(lead));
        assert(views(front@) =~= all_repaired(views(all), read));
    }
    FixOutcome { report: FixReport { fixed_frontmatter_typos: fixed }, pages: front, changed, lint }
}

/// The text of a fix report.
pub open spec fn summary(report: FixReport) -> Seq<char> {
    let pages = views(report.fixed_frontmatter_typos@);
    if pages.len() == 0 {
        "No auto-fixable issues found."@
    } else {
        joined(
            seq![
                "Fixed "@ + decimal(pages.len()) + " frontmatter typo(s) (tid: -> id:):"@,
            ] + item_lines(pages, "  "@, ""@),
            "\n"@,
        )
    }
}

/// What was repaired, for a person.
pub fn summary_line(report: &FixReport) -> (r: String)
    ensures
        r@ == summary(*report),
{
    if report.is_empty() {
        return "No auto-fixable issues found.".to_string();
    }
    let pages = &report.fixed_frontmatter_typos;
    let mut out: Vec<String> = Vec::new();
    add_items(
        &mut out,
        counted("Fixed ", pages.len(), " frontmatter typo(s) (tid: -> id:):"),
        pages,
        "  ",
        "",
    );
    join(&out, "\n")
}

proof fn lemma_first_line_with(s: Seq<char>, mark: Seq<char>, from: int)
    requires
        0 <= from,
    ensures
        match first_line_with(s, mark, from) {
            Some(p) => from <= p < s.len() && line_begins(s, mark, p) && forall|q: int|
                from <= q < p ==> !#[trigger] line_begins(s, mark, q),
            None => forall|q: int| from <= q < s.len() ==> !#[trigger] line_begins(s, mark, q),
        },
    decreases s.len() - from,
{
    if from < s.len() && !line_begins(s, mark, from) {
        lemma_first_line_with(s, mark, from + 1);
    }
}

/// Only a page that cannot be read is repaired, and then it can be. All that changes is
/// one line of its frontmatter, the first that begins with `tid:`, which begins with
/// `id:` instead.
pub proof fn law_repair_renames_one_line(page: PageModel, reread: Option<ParsedPage>)
    ensures
        !is_repaired(page, reread) ==> repaired(page, reread) == page,
        is_repaired(page, reread) ==> {
            let after = repaired(page, reread);
            &&& page.parsed is Err
            &&& after.parsed is Ok
            &&& after.path == page.path
            &&& cut(page.content) is Ok
            &&& ({
                let (yaml, body) = cut(page.content)->Ok_0;
                let p = first_line_with(yaml, "tid:"@, 0)->0;
                &&& line_begins(yaml, "tid:"@, p)
                &&& forall|q: int| 0 <= q < p ==> !#[trigger] line_begins(yaml, "tid:"@, q)
                &&& page.content == "---\n"@ + yaml.take(p) + "tid:"@ + yaml.skip(p + 4)
                    + "\n---\n"@ + body
                &&& after.content == "---\n"@ + yaml.take(p) + "id:"@ + yaml.skip(p + 4)
                    + "\n---\n"@ + body
            })
        },
{
    reveal_strlit("tid:");
    reveal_strlit("---\n");
    reveal_strlit("\n---\n");
    if is_repaired(page, reread) {
        let (yaml, body) = cut(page.content)->Ok_0;
        lemma_first_line_with(yaml, "tid:"@, 0);
        let p = first_line_with(yaml, "tid:"@, 0)->0;
        let rest = page.content.skip(4);
        lemma_find_from(rest, closing_line(), 0);
        let k = find_from(rest, closing_line(), 0)->0;
        assert(page.content.subrange(0, 4) == opening_line());
        assert(rest.subrange(k, k + 5) == closing_line());
        assert("---\n"@ =~= opening_line());
        assert("\n---\n"@ =~= closing_line());
        assert(page.content =~= page.content.subrange(0, 4) + rest);
        assert(rest =~= yaml + rest.subrange(k, k + 5) + body);
        assert(yaml.subrange(p, p + 4) == "tid:"@);
        assert(yaml =~= yaml.take(p) + yaml.subrange(p, p + 4) + yaml.skip(p + 4));
        assert(page.content =~= "---\n"@ + yaml.take(p) + "tid:"@ + yaml.skip(p + 4)
            + "\n---\n"@ + body);
        assert(repaired(page, reread).content =~= "---\n"@ + yaml.take(p) + "id:"@ + yaml.skip(
            p + 4,
        ) + "\n---\n"@ + body);
    }
}

/// Whether two checks came to the same.
pub open spec fn same_findings(
    a: Result<LintReport, LintError>,
    b: Result<LintReport, LintError>,
) -> bool {
    match (a, b) {
        (Ok(x), Ok(y)) => {
            &&& views(x.pending_compiles@) == views(y.pending_compiles@)
            &&& views(x.broken_links@) == views(y.broken_links@)
            &&& views(x.orphan_pages@) == views(y.orphan_pages@)
            &&& views(x.missing_sources@) == views(y.missing_sources@)
            &&& views(x.cross_vault_links@) == views(y.cross_vault_links@)
        },
        (Err(x), Err(y)) => x.path@ == y.path@ && x.reason@ == y.reason@,
        _ => false,
    }
}

proof fn lemma_nothing_repaired(
    pages: Seq<PageModel>,
    rereads: Seq<Option<ParsedPage>>,
    n: int,
)
    requires
        0 <= n <= pages.len() <= rereads.len(),
        forall|i: int| 0 <= i < n ==> !#[trigger] is_repaired(pages[i], rereads[i]),
    ensures
        repaired_paths(pages.take(n), rereads) == Seq::<Seq<char>>::empty(),
    decreases n,
{
    if n > 0 {
        lemma_nothing_repaired(pages, rereads, n - 1);
        assert(pages.take(n).drop_last() =~= pages.take(n - 1));
        assert(!is_repaired(pages[n - 1], rereads[n - 1]));
    }
}

/// A second repair of a vault, with nothing changed in between, repairs no page, leaves
/// every page as it is, and its check finds what the first one found: a proposal that
/// could not be read the first time cannot be read the second time either.
pub proof fn law_repair_is_idempotent(
    pages: Seq<PageModel>,
    first: Seq<Option<ParsedPage>>,
    second: Seq<Option<ParsedPage>>,
    concepts: int,
    manifest: Manifest,
    files: Seq<RawFile>,
    lint: Result<LintReport, LintError>,
    again: Result<LintReport, LintError>,
)
    requires
        pages.len() == first.len() == second.len(),
        0 <= concepts <= pages.len(),
        forall|i: int|
            0 <= i < pages.len() && proposed(#[trigger] pages[i]) is Some && first[i] is None
                ==> second[i] is None,
        is_lint_of(all_repaired(pages, first).take(concepts), manifest, files, lint),
        is_lint_of(
            all_repaired(all_repaired(pages, first), second).take(concepts),
            manifest,
            files,
            again,
        ),
    ensures
        repaired_paths(all_repaired(pages, first), second) == Seq::<Seq<char>>::empty(),
        all_repaired(all_repaired(pages, first), second) == all_repaired(pages, first),
        same_findings(lint, again),
{
    let once = all_repaired(pages, first);
    assert forall|i: int| 0 <= i < once.len() implies !#[trigger] is_repaired(
        once[i],
        second[i],
    ) by {
        if !is_repaired(pages[i], first[i]) {
            assert(once[i] == pages[i]);
        }
    }
    lemma_nothing_repaired(once, second, once.len() as int);
    assert(once.take(once.len() as int) =~= once);
    assert forall|i: int| 0 <= i < once.len() implies all_repaired(once, second)[i]
        == once[i] by {
        assert(!is_repaired(once[i], second[i]));
    }
    assert(all_repaired(once, second) =~= once);
}

/// Whether some line of a text begins with `mark`.
pub open spec fn has_line_with(s: Seq<char>, mark: Seq<char>) -> bool {
    exists|p: int|
        0 <= p < s.len() && #[trigger] occurs_at(s, mark, p) && (p == 0 || s[p - 1] == '\n')
}

proof fn lemma_has_line_with(s: Seq<char>, mark: Seq<char>)
    ensures
        has_line_with(s, mark) <==> first_line_with(s, mark, 0) is Some,
{
    lemma_first_line_with(s, mark, 0);
    if has_line_with(s, mark) {
        let p = choose|p: int|
            0 <= p < s.len() && #[trigger] occurs_at(s, mark, p) && (p == 0 || s[p - 1] == '\n');
        assert(line_begins(s, mark, p));
    }
    if first_line_with(s, mark, 0) is Some {
        let p = first_line_with(s, mark, 0)->0;
        assert(occurs_at(s, mark, p));
    }
}

/// A repair is proposed of a page exactly if it cannot be read, has a frontmatter, no line
/// of which begins with `id:`, and some line of which begins with `tid:`.
pub proof fn law_a_repair_is_proposed_where_an_id_is_misspelt(page: PageModel)
    ensures
        proposed(page) is Some <==> page.parsed is Err && exists|yaml: Seq<char>, body: Seq<char>|
            #[trigger]
            is_made_of(page.content, yaml, body) && has_line_with(yaml, "tid:"@)
                && !has_line_with(yaml, "id:"@),
{
    if cut(page.content) is Ok {
        let (yaml, body) = cut(page.content)->Ok_0;
        law_a_document_is_cut_at_its_delimiters(page.content, yaml, body);
        lemma_has_line_with(yaml, "tid:"@);
        lemma_has_line_with(yaml, "id:"@);
    }
    if exists|yaml: Seq<char>, body: Seq<char>| #[trigger]
        is_made_of(page.content, yaml, body) && has_line_with(yaml, "tid:"@) && !has_line_with(
            yaml,
            "id:"@,
        ) {
        let (yaml, body) = choose|yaml: Seq<char>, body: Seq<char>| #[trigger]
            is_made_of(page.content, yaml, body) && has_line_with(yaml, "tid:"@) && !has_line_with(
                yaml,
                "id:"@,
            );
        law_a_document_is_cut_at_its_delimiters(page.content, yaml, body);
    }
}

/// The paths that are reported are those of the pages that are repaired, and of no others;
/// and each is named in the summary.
pub proof fn law_every_repair_is_reported(
    pages: Seq<PageModel>,
    rereads: Seq<Option<ParsedPage>>,
    path: Seq<char>,
)
    ensures
        repaired_paths(pages, rereads).contains(path) <==> exists|i: int|
            0 <= i < pages.len() && (#[trigger] pages[i]).path == path && proposed(pages[i]) is Some
                && rereads[i] is Some,
    decreases pages.len(),
{
    if pages.len() > 0 {
        let front = pages.drop_last();
        let last = pages.last();
        let n = pages.len() - 1;
        let rest = repaired_paths(front, rereads);
        let all = repaired_paths(pages, rereads);
        law_every_repair_is_reported(front, rereads, path);
        if rest.contains(path) {
            let k = choose|k: int| 0 <= k < rest.len() && rest[k] == path;
            assert(all[k] == path);
            let i = choose|i: int|
                0 <= i < front.len() && (#[trigger] front[i]).path == path && proposed(front[i])
                    is Some && rereads[i] is Some;
            assert(pages[i] == front[i]);
        }
        if all.contains(path) && !rest.contains(path) {
            let k = choose|k: int| 0 <= k < all.len() && all[k] == path;
            if k < rest.len() {
                assert(rest[k] == path);
            }
            assert(pages[n].path == path);
        }
        if exists|i: int|
            0 <= i < pages.len() && (#[trigger] pages[i]).path == path && proposed(pages[i])
                is Some && rereads[i] is Some {
            let i = choose|i: int|
                0 <= i < pages.len() && (#[trigger] pages[i]).path == path && proposed(pages[i])
                    is Some && rereads[i] is Some;
            if i < n {
                assert(front[i] == pages[i]);
            } else {
                assert(all[rest.len() as int] == path);
            }
        }
    }
}

/// The summary of a repair names every page that was repaired.
pub proof fn law_the_summary_names_every_repaired_page(report: FixReport, i: int)
    requires
        0 <= i < report.fixed_frontmatter_typos@.len(),
    ensures
        has_part(summary(report), "  "@ + report.fixed_frontmatter_typos@[i]@ + ""@),
{
    let pages = views(report.fixed_frontmatter_typos@);
    let lines = seq![
        "Fixed "@ + decimal(pages.len()) + " frontmatter typo(s) (tid: -> id:):"@,
    ] + item_lines(pages, "  "@, ""@);
    law_joined_parts_are_there(lines, "\n"@, i + 1);
    assert(lines[i + 1] == "  "@ + pages[i] + ""@);
}

} // verus!
