//! What a model is told when it compiles a source, and when it fills in a page that
//! others link to.

use vstd::prelude::*;

use crate::text::{has_part, has_prefix, lemma_part, lemma_part_of_itself, views};

verus! {

/// The body of a raw source.
#[derive(Debug)]
pub struct RawBlob {
    pub id: String,
    pub content: String,
}

pub struct BlobView {
    pub id: Seq<char>,
    pub content: Seq<char>,
}

impl View for RawBlob {
    type V = BlobView;

    open spec fn view(&self) -> BlobView {
        BlobView { id: self.id@, content: self.content@ }
    }
}

/// A wiki page that a prompt shows.
#[derive(Debug)]
pub struct WikiPageRef {
    pub path: String,
    pub content: String,
}

pub struct PageRefView {
    pub path: Seq<char>,
    pub content: Seq<char>,
}

impl View for WikiPageRef {
    type V = PageRefView;

    open spec fn view(&self) -> PageRefView {
        PageRefView { path: self.path@, content: self.content@ }
    }
}

pub const COMPILER_SYSTEM_PROMPT: &'static str = r#"You are the OKF LLM Compiler Engine, a knowledge-graph synthesis process that maintains a local Open Knowledge Format (OKF v0.2) wiki repository.

Core Mission: read raw source documents from ./raw/ and synthesize them into clean, atomic, cross-linked Markdown documents inside ./wiki/concepts/ (abstract ideas, processes, patterns, metrics) or ./wiki/entities/ (concrete subjects: people, organizations, places, tools, technologies) — whichever folder actually fits the subject.

Compilation Rules:
1. Source of Truth: read content exclusively from the active raw source(s) provided below.
2. Atomicity: one subject per file. If a document introduces multiple major concepts or entities, compile multiple distinct markdown files.
3. Entities vs. Concepts: a concrete subject (a specific person, organization, place, tool, or technology) belongs in ./wiki/entities/<slug>.md; an abstract idea, process, pattern, or metric belongs in ./wiki/concepts/<slug>.md.
4. Wikilinking Topology: use [[slug]] notation for cross-references. Every link's slug must match a target file's slug (its filename without the .md extension) in EITHER ./wiki/concepts/ or ./wiki/entities/ — either an existing one, or a slug for a new file you are creating in this same response. A reader following a link should never need to know or care which of the two folders its target lives in.
5. Open Type Vocabulary: choose a `type:` value that specifically describes this document's subject — it is NOT a fixed enum. Examples for entities: Person, Organization, Place, Tool, Technology. Examples for concepts: Process, Pattern, Metric, Event, Reference. These are illustrative, not exhaustive — pick whatever value is most descriptive and self-explanatory for the actual content.
6. Strict Provenance: every output file's YAML frontmatter MUST declare its active raw sources under a `sources:` array, each entry shaped `{resource: "/raw/<raw_id>.md", id: "<short stable key, e.g. s1>", title: "<short label>"}`. Where it aids traceability, cite specific claims in the body with a markdown footnote keyed to that source's `id` (e.g. `[^s1]`) — not required for every sentence, only where it meaningfully helps a reader verify a claim.
7. Conflict Resolution: if a new source contradicts an existing wiki page, update that page with the newest state and record the conflict under a `## Contradictions & Evolutions` section, dated.

Output Format Requirement: respond with exactly one valid JSON object, no prose before or after it, no markdown code fences:
{"operations": [
  {"action": "CREATE_OR_UPDATE", "path": "wiki/concepts/<slug>.md", "content": "<full markdown file content, including frontmatter>"},
  {"action": "CREATE_OR_UPDATE", "path": "wiki/entities/<slug>.md", "content": "<full markdown file content, including frontmatter>"},
  {"action": "DELETE", "path": "wiki/concepts/<slug>.md", "reason": "<why this file no longer has any active source>"}
]}

Page template (same shape for both ./wiki/concepts/ and ./wiki/entities/ — only the folder and `type:` value differ):
---
type: <descriptive type — see rule 5>
title: "<Human Readable Title>"
description: "<one sentence, used as an index/search preview>"
sources:
  - resource: "/raw/<raw_id>.md"
    id: "<short stable key>"
    title: "<short label>"
tags: [<tag1>, <tag2>]
generated: { by: "okf-mcp-compiler", at: "<ISO8601>" }
---

# <Title>

<Executive summary>

## Key Details
* Relates to [[other-slug]] for ...

## Contradictions & Evolutions
* **<ISO8601_DATE>**: Superseded [[previous-slug]] based on source `/raw/<new_raw_id>.md`.

Do NOT include an `okf_version:` or `id:` field — those don't belong on individual pages (okf_version is declared once, at the bundle root; a page's ID is just its own file path). Only add `status: draft` if this synthesis is genuinely uncertain or incomplete (omit it otherwise — stable is the default). Only add `stale_after: <YYYY-MM-DD>` if this content has an obvious, concrete expiry — most content won't, so omit it by default rather than guessing.
"#;

/// A page as a prompt shows it.
pub open spec fn page_section(page: PageRefView) -> Seq<char> {
    "Path: "@ + page.path + "\n```markdown\n"@ + page.content + "\n```\n\n"@
}

/// Pages as a prompt shows them, one after the other.
pub open spec fn page_sections(pages: Seq<PageRefView>) -> Seq<char>
    decreases pages.len(),
{
    if pages.len() == 0 {
        seq![]
    } else {
        page_sections(pages.drop_last()) + page_section(pages.last())
    }
}

/// A raw source as a prompt shows it.
pub open spec fn raw_section(raw: BlobView) -> Seq<char> {
    "Raw ID: "@ + raw.id + "\nContent:\n```markdown\n"@ + raw.content + "\n```\n\n"@
}

/// Raw sources as a prompt shows them, one after the other.
pub open spec fn raw_sections(raws: Seq<BlobView>) -> Seq<char>
    decreases raws.len(),
{
    if raws.len() == 0 {
        seq![]
    } else {
        raw_sections(raws.drop_last()) + raw_section(raws.last())
    }
}

/// The part of a compile prompt on the source that the active one replaced.
pub open spec fn superseded_section(superseded: Option<BlobView>) -> Seq<char> {
    match superseded {
        None => seq![],
        Some(old_raw) => "## 2. SUPERSEDED PREVIOUS SOURCE (Diff Reference)\n"@ + "Old Raw ID: "@
            + old_raw.id + "\n"@ + "Old Content:\n```markdown\n"@ + old_raw.content + "\n```\n\n"@
            + "INSTRUCTION: identify what changed or evolved between the superseded source and the active source, then update existing concept pages accordingly.\n\n"@,
    }
}

/// The part of a compile prompt on the pages that there are.
pub open spec fn context_section(related: Seq<PageRefView>) -> Seq<char> {
    if related.len() == 0 {
        seq![]
    } else {
        "## 3. CURRENT EXISTING WIKI CONTEXT (To Update / Link Against)\n"@ + page_sections(related)
    }
}

/// The prompt to compile a source: the source, the one it replaced, the pages that
/// are related to it, and what to do.
pub open spec fn compile_prompt(
    active: BlobView,
    superseded: Option<BlobView>,
    related: Seq<PageRefView>,
) -> Seq<char> {
    "## 1. ACTIVE RAW SOURCE TO PROCESS\n"@ + "Raw ID: "@ + active.id + "\n"@
        + "Content:\n```markdown\n"@ + active.content + "\n```\n\n"@ + superseded_section(superseded)
        + context_section(related)
        + "Synthesize the active raw source into OKF v0.2 concept documents. Emit the JSON payload of operations."@
}

fn append_page_sections(prompt: &mut String, pages: &Vec<WikiPageRef>)
    ensures
        final(prompt)@ == old(prompt)@ + page_sections(views(pages@)),
{
    let ghost had = prompt@;
    let mut i: usize = 0;
    assert(views(pages@).take(0) =~= seq![]);
    assert(had + page_sections(views(pages@).take(0)) =~= had);
    while i < pages.len()
        invariant
            i <= pages@.len(),
            prompt@ == had + page_sections(views(pages@).take(i as int)),
        decreases pages@.len() - i,
    {
        proof {
            let now = views(pages@).take(i + 1);
            assert(now.drop_last() =~= views(pages@).take(i as int));
            assert(now.last() == pages@[i as int]@);
        }
        prompt.append("Path: ");
        prompt.append(pages[i].path.as_str());
        prompt.append("\n```markdown\n");
        prompt.append(pages[i].content.as_str());
        prompt.append("\n```\n\n");
        assert(prompt@ =~= had + page_sections(views(pages@).take(i + 1)));
        i += 1;
    }
    assert(views(pages@).take(pages@.len() as int) =~= views(pages@));
}

fn append_raw_sections(prompt: &mut String, raws: &Vec<RawBlob>)
    ensures
        final(prompt)@ == old(prompt)@ + raw_sections(views(raws@)),
{
    let ghost had = prompt@;
    let mut i: usize = 0;
    assert(views(raws@).take(0) =~= seq![]);
    assert(had + raw_sections(views(raws@).take(0)) =~= had);
    while i < raws.len()
        invariant
            i <= raws@.len(),
            prompt@ == had + raw_sections(views(raws@).take(i as int)),
        decreases raws@.len() - i,
    {
        proof {
            let now = views(raws@).take(i + 1);
            assert(now.drop_last() =~= views(raws@).take(i as int));
            assert(now.last() == raws@[i as int]@);
        }
        prompt.append("Raw ID: ");
        prompt.append(raws[i].id.as_str());
        prompt.append("\nContent:\n```markdown\n");
        prompt.append(raws[i].content.as_str());
        prompt.append("\n```\n\n");
        assert(prompt@ =~= had + raw_sections(views(raws@).take(i + 1)));
        i += 1;
    }
    assert(views(raws@).take(raws@.len() as int) =~= views(raws@));
}

/// The prompt to compile a source.
pub fn build_compile_user_prompt(
    active_raw: &RawBlob,
    superseded_raw: Option<&RawBlob>,
    existing_related_wiki_pages: &Vec<WikiPageRef>,
) -> (r: String)
    ensures
        r@ == compile_prompt(
            active_raw@,
            match superseded_raw {
                Some(b) => Some(b@),
                None => None,
            },
            views(existing_related_wiki_pages@),
        ),
{
    let mut prompt = "## 1. ACTIVE RAW SOURCE TO PROCESS\n".to_string();
    prompt.append("Raw ID: ");
    prompt.append(active_raw.id.as_str());
    prompt.append("\n");
    prompt.append("Content:\n```markdown\n");
    prompt.append(active_raw.content.as_str());
    prompt.append("\n```\n\n");
    let ghost first = prompt@;
    match superseded_raw {
        Some(old_raw) => {
            prompt.append("## 2. SUPERSEDED PREVIOUS SOURCE (Diff Reference)\n");
            prompt.append("Old Raw ID: ");
            prompt.append(old_raw.id.as_str());
            prompt.append("\n");
            prompt.append("Old Content:\n```markdown\n");
            prompt.append(old_raw.content.as_str());
            prompt.append("\n```\n\n");
            prompt.append(
                "INSTRUCTION: identify what changed or evolved between the superseded source and the active source, then update existing concept pages accordingly.\n\n",
            );
        },
        None => {},
    }
    let ghost second = superseded_section(
        match superseded_raw {
            Some(b) => Some(b@),
            None => None,
        },
    );
    assert(prompt@ =~= first + second);
    if existing_related_wiki_pages.len() > 0 {
        prompt.append("## 3. CURRENT EXISTING WIKI CONTEXT (To Update / Link Against)\n");
        append_page_sections(&mut prompt, existing_related_wiki_pages);
    }
    assert(prompt@ =~= first + second + context_section(views(existing_related_wiki_pages@)));
    prompt.append(
        "Synthesize the active raw source into OKF v0.2 concept documents. Emit the JSON payload of operations.",
    );
    prompt
}

/// The prompt to write a page that others link to: which one, the pages that link to
/// it, the sources that those pages cite, and what to do.
pub open spec fn link_fix_prompt(
    missing_slug: Seq<char>,
    referencing: Seq<PageRefView>,
    cited: Seq<BlobView>,
) -> Seq<char> {
    "## 1. MISSING CONCEPT TO SYNTHESIZE\n"@
        + "The wiki graph contains one or more `[["@ + missing_slug
        + "]]` wikilinks, but neither `wiki/concepts/"@ + missing_slug + ".md` nor `wiki/entities/"@
        + missing_slug
        + ".md` exists. Create exactly that one file, in whichever of the two folders fits the subject (see the entities-vs-concepts rule above) (and, only if genuinely warranted by the source material, closely related files it should link to) — do not invent unrelated content.\n\n"@
        + "## 2. PAGES THAT LINK TO IT\n"@ + page_sections(referencing)
        + "## 3. RAW SOURCES CITED BY THOSE PAGES\n"@ + raw_sections(cited) + "Synthesize "@
        + missing_slug
        + ".md (in wiki/concepts/ or wiki/entities/, whichever fits) strictly from the raw sources above — the same provenance and atomicity rules as any other compile. Emit the JSON payload of operations."@
}

/// The prompt to write a page that others link to.
pub fn build_link_fix_user_prompt(
    missing_slug: &str,
    referencing_pages: &Vec<WikiPageRef>,
    cited_raw_sources: &Vec<RawBlob>,
) -> (r: String)
    ensures
        r@ == link_fix_prompt(missing_slug@, views(referencing_pages@), views(cited_raw_sources@)),
{
    let mut prompt = "## 1. MISSING CONCEPT TO SYNTHESIZE\n".to_string();
    prompt.append("The wiki graph contains one or more `[[");
    prompt.append(missing_slug);
    prompt.append("]]` wikilinks, but neither `wiki/concepts/");
    prompt.append(missing_slug);
    prompt.append(".md` nor `wiki/entities/");
    prompt.append(missing_slug);
    prompt.append(
        ".md` exists. Create exactly that one file, in whichever of the two folders fits the subject (see the entities-vs-concepts rule above) (and, only if genuinely warranted by the source material, closely related files it should link to) — do not invent unrelated content.\n\n",
    );
    prompt.append("## 2. PAGES THAT LINK TO IT\n");
    append_page_sections(&mut prompt, referencing_pages);
    prompt.append("## 3. RAW SOURCES CITED BY THOSE PAGES\n");
    append_raw_sections(&mut prompt, cited_raw_sources);
    prompt.append("Synthesize ");
    prompt.append(missing_slug);
    prompt.append(
        ".md (in wiki/concepts/ or wiki/entities/, whichever fits) strictly from the raw sources above — the same provenance and atomicity rules as any other compile. Emit the JSON payload of operations.",
    );
    prompt
}

proof fn lemma_page_sections(a: Seq<PageRefView>, b: Seq<PageRefView>)
    ensures
        page_sections(a + b) == page_sections(a) + page_sections(b),
    decreases b.len(),
{
    if b.len() == 0 {
        assert(a + b =~= a);
        assert(page_sections(a) + page_sections(b) =~= page_sections(a));
    } else {
        lemma_page_sections(a, b.drop_last());
        assert((a + b).drop_last() =~= a + b.drop_last());
        assert(page_sections(a + b) =~= page_sections(a) + page_sections(b));
    }
}

proof fn lemma_raw_sections(a: Seq<BlobView>, b: Seq<BlobView>)
    ensures
        raw_sections(a + b) == raw_sections(a) + raw_sections(b),
    decreases b.len(),
{
    if b.len() == 0 {
        assert(a + b =~= a);
        assert(raw_sections(a) + raw_sections(b) =~= raw_sections(a));
    } else {
        lemma_raw_sections(a, b.drop_last());
        assert((a + b).drop_last() =~= a + b.drop_last());
        assert(raw_sections(a + b) =~= raw_sections(a) + raw_sections(b));
    }
}

proof fn lemma_page_is_shown(pages: Seq<PageRefView>, i: int)
    requires
        0 <= i < pages.len(),
    ensures
        has_part(
            page_sections(pages),
            "Path: "@ + pages[i].path + "\n```markdown\n"@ + pages[i].content + "\n```\n\n"@,
        ),
{
    let text = "Path: "@ + pages[i].path + "\n```markdown\n"@ + pages[i].content + "\n```\n\n"@;
    let front = pages.take(i);
    let back = pages.skip(i + 1);
    assert(pages =~= front + (seq![pages[i]] + back));
    lemma_page_sections(front, seq![pages[i]] + back);
    lemma_page_sections(seq![pages[i]], back);
    assert(page_sections(seq![pages[i]].drop_last()) =~= seq![]);
    assert(page_sections(seq![pages[i]]) =~= text);
    lemma_part_of_itself(text);
    lemma_part(page_sections(front), text, page_sections(back), text);
    assert(page_sections(pages) =~= page_sections(front) + text + page_sections(back));
}

proof fn lemma_raw_is_shown(raws: Seq<BlobView>, i: int)
    requires
        0 <= i < raws.len(),
    ensures
        has_part(
            raw_sections(raws),
            "Raw ID: "@ + raws[i].id + "\nContent:\n```markdown\n"@ + raws[i].content
                + "\n```\n\n"@,
        ),
{
    let text = "Raw ID: "@ + raws[i].id + "\nContent:\n```markdown\n"@ + raws[i].content
        + "\n```\n\n"@;
    let front = raws.take(i);
    let back = raws.skip(i + 1);
    assert(raws =~= front + (seq![raws[i]] + back));
    lemma_raw_sections(front, seq![raws[i]] + back);
    lemma_raw_sections(seq![raws[i]], back);
    assert(raw_sections(seq![raws[i]].drop_last()) =~= seq![]);
    assert(raw_sections(seq![raws[i]]) =~= text);
    lemma_part_of_itself(text);
    lemma_part(raw_sections(front), text, raw_sections(back), text);
    assert(raw_sections(raws) =~= raw_sections(front) + text + raw_sections(back));
}

/// A compile prompt shows the source, the one it replaced if there is one, and every page
/// it is given, each whole and under its name, and in that order.
pub proof fn law_compile_prompt_shows_all_that_it_is_given(
    active: BlobView,
    superseded: Option<BlobView>,
    related: Seq<PageRefView>,
    i: int,
)
    ensures
        has_prefix(
            compile_prompt(active, superseded, related),
            "## 1. ACTIVE RAW SOURCE TO PROCESS\n"@ + "Raw ID: "@ + active.id + "\n"@
                + "Content:\n```markdown\n"@ + active.content + "\n```\n\n"@,
        ),
        superseded is Some ==> has_part(
            compile_prompt(active, superseded, related),
            "Old Raw ID: "@ + superseded->0.id + "\n"@ + "Old Content:\n```markdown\n"@
                + superseded->0.content + "\n```\n\n"@,
        ),
        0 <= i < related.len() ==> has_part(
            compile_prompt(active, superseded, related),
            "Path: "@ + related[i].path + "\n```markdown\n"@ + related[i].content
                + "\n```\n\n"@,
        ),
        compile_prompt(active, superseded, related).len() >= active.content.len()
            + superseded_section(superseded).len() + page_sections(related).len(),
{
    let whole = compile_prompt(active, superseded, related);
    let first = "## 1. ACTIVE RAW SOURCE TO PROCESS\n"@ + "Raw ID: "@ + active.id + "\n"@
        + "Content:\n```markdown\n"@ + active.content + "\n```\n\n"@;
    let second = superseded_section(superseded);
    let third = context_section(related);
    let last = "Synthesize the active raw source into OKF v0.2 concept documents. Emit the JSON payload of operations."@;
    assert(whole =~= first + second + third + last);
    assert(whole.subrange(0, first.len() as int) =~= first);
    if superseded is Some {
        let raw = superseded->0;
        let mark = "## 2. SUPERSEDED PREVIOUS SOURCE (Diff Reference)\n"@;
        let text = "Old Raw ID: "@ + raw.id + "\n"@ + "Old Content:\n```markdown\n"@ + raw.content
            + "\n```\n\n"@;
        let what = "INSTRUCTION: identify what changed or evolved between the superseded source and the active source, then update existing concept pages accordingly.\n\n"@;
        assert(second =~= mark + text + what);
        lemma_part_of_itself(text);
        lemma_part(mark, text, what, text);
        lemma_part(first, second, third + last, text);
        assert(whole =~= first + second + (third + last));
    }
    if 0 <= i < related.len() {
        lemma_page_is_shown(related, i);
        let text = "Path: "@ + related[i].path + "\n```markdown\n"@ + related[i].content
            + "\n```\n\n"@;
        let mark = "## 3. CURRENT EXISTING WIKI CONTEXT (To Update / Link Against)\n"@;
        assert(third =~= mark + page_sections(related));
        lemma_part(mark, page_sections(related), last, text);
        lemma_part(first + second, third, last, text);
    } else if related.len() == 0 {
        assert(page_sections(related).len() == 0);
    }
}

/// A prompt to write a missing page names it, and shows every page that links to it and
/// every source that it is given, each whole.
pub proof fn law_link_fix_prompt_shows_all_that_it_is_given(
    missing_slug: Seq<char>,
    referencing: Seq<PageRefView>,
    cited: Seq<BlobView>,
    i: int,
)
    ensures
        has_part(
            link_fix_prompt(missing_slug, referencing, cited),
            "`[["@ + missing_slug + "]]` wikilinks, but neither `wiki/concepts/"@,
        ),
        0 <= i < referencing.len() ==> has_part(
            link_fix_prompt(missing_slug, referencing, cited),
            "Path: "@ + referencing[i].path + "\n```markdown\n"@ + referencing[i].content
                + "\n```\n\n"@,
        ),
        0 <= i < cited.len() ==> has_part(
            link_fix_prompt(missing_slug, referencing, cited),
            "Raw ID: "@ + cited[i].id + "\nContent:\n```markdown\n"@ + cited[i].content
                + "\n```\n\n"@,
        ),
{
    let whole = link_fix_prompt(missing_slug, referencing, cited);
    let head = "## 1. MISSING CONCEPT TO SYNTHESIZE\n"@
        + "The wiki graph contains one or more `[["@ + missing_slug
        + "]]` wikilinks, but neither `wiki/concepts/"@ + missing_slug + ".md` nor `wiki/entities/"@
        + missing_slug
        + ".md` exists. Create exactly that one file, in whichever of the two folders fits the subject (see the entities-vs-concepts rule above) (and, only if genuinely warranted by the source material, closely related files it should link to) — do not invent unrelated content.\n\n"@
        + "## 2. PAGES THAT LINK TO IT\n"@;
    let middle = "## 3. RAW SOURCES CITED BY THOSE PAGES\n"@;
    let tail = "Synthesize "@ + missing_slug
        + ".md (in wiki/concepts/ or wiki/entities/, whichever fits) strictly from the raw sources above — the same provenance and atomicity rules as any other compile. Emit the JSON payload of operations."@;
    let pages = page_sections(referencing);
    let raws = raw_sections(cited);
    assert(whole =~= head + pages + middle + raws + tail);
    let name = "`[["@ + missing_slug + "]]` wikilinks, but neither `wiki/concepts/"@;
    assert(has_part(whole, name)) by {
        let a = "## 1. MISSING CONCEPT TO SYNTHESIZE\n"@ + "The wiki graph contains one or more `[["@;
        reveal_strlit("The wiki graph contains one or more `[[");
        reveal_strlit("`[[");
        let before = a.take(a.len() - 3);
        let after = whole.skip((before.len() + name.len()) as int);
        assert(whole =~= before + name + after);
        lemma_part_of_itself(name);
        lemma_part(before, name, after, name);
    }
    if 0 <= i < referencing.len() {
        lemma_page_is_shown(referencing, i);
        let text = "Path: "@ + referencing[i].path + "\n```markdown\n"@ + referencing[i].content
            + "\n```\n\n"@;
        lemma_part(head, pages, middle + raws + tail, text);
        assert(whole =~= head + pages + (middle + raws + tail));
    }
    if 0 <= i < cited.len() {
        lemma_raw_is_shown(cited, i);
        let text = "Raw ID: "@ + cited[i].id + "\nContent:\n```markdown\n"@ + cited[i].content
            + "\n```\n\n"@;
        lemma_part(head + pages + middle, raws, tail, text);
    }
}

} // verus!
