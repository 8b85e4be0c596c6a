//! The link graph of a vault.
//!
//! Its nodes are wiki pages (`concept` or `entity`, by the directory they stand
//! in), tags (`tag`, under `#name`), raw sources that pages cite (`raw`), pages of
//! other vaults (`cross_vault`), and names that lead nowhere (`missing`). There is
//! one link for each pair of a source and a target.

use vstd::prelude::*;

use crate::explorer::network::{
    adjacency_of, ascending, is_articulation, is_pair, joined,
    law_an_articulation_point_parts_its_neighbours, paired, parts, relation_of, undirected,
    well_formed, Relation,
};
use crate::ingest::frontmatter::{
    find_raw_path, raw_id_from_resource, raw_identity, raw_path, read_view, RawFile,
};
use crate::manifest::model::Manifest;
use crate::order::{
    gathered, in_order, insert_at, key_le, law_gathered_values_are_those_that_are_made,
    lemma_contained_in_either, lemma_insert_at, lemma_key_total, lemma_one_key, lemma_sorted,
    lemma_sorted_no_duplicates, pair_not_after, sort, sorted, text_lt, Sortable,
};
use crate::paths::{file_name, file_name_of, file_stem};
use crate::table::{lemma_row, named_at, Table};
use crate::text::{
    chars_of, copy_opt, law_trimming_takes_white_space_off_the_ends, opt_view, position_of, text_eq,
    text_slice, trim, trim_range, views,
};
use crate::validator::frontmatter::{cut, split_frontmatter, PageFile, PageModel};
use crate::validator::wikilink::{extract_wikilinks, links, LinkView, WikiLink};

verus! {

/// A node before its place in the graph is known.
#[derive(Debug)]
pub struct PendingNode {
    pub title: String,
    pub kind: &'static str,
    pub page_type: Option<String>,
    pub description: Option<String>,
    pub tags: Vec<String>,
    pub path: Option<String>,
}

#[verifier::ext_equal]
pub struct NodeView {
    pub title: Seq<char>,
    pub kind: Seq<char>,
    pub page_type: Option<Seq<char>>,
    pub description: Option<Seq<char>>,
    pub tags: Seq<Seq<char>>,
    pub path: Option<Seq<char>>,
}

impl View for PendingNode {
    type V = NodeView;

    open spec fn view(&self) -> NodeView {
        NodeView {
            title: self.title@,
            kind: self.kind@,
            page_type: opt_view(self.page_type),
            description: opt_view(self.description),
            tags: views(self.tags@),
            path: opt_view(self.path),
        }
    }
}

/// A node that is nothing but a title.
pub open spec fn plain_node(title: Seq<char>, kind: Seq<char>) -> NodeView {
    NodeView {
        title,
        kind,
        page_type: None,
        description: None,
        tags: seq![],
        path: None,
    }
}

fn new_plain_node(title: String, kind: &'static str) -> (r: PendingNode)
    ensures
        r@ == plain_node(title@, kind@),
{
    let r = PendingNode {
        title,
        kind,
        page_type: None,
        description: None,
        tags: Vec::new(),
        path: None,
    };
    assert(r@.tags =~= seq![]);
    r
}

/// A link from one node to another.
#[derive(Debug, Clone, PartialEq, Eq, Hash)]
pub struct GraphLink {
    pub source: String,
    pub target: String,
    /// `wikilink`, `tag`, `source` or `cross_vault`.
    pub kind: &'static str,
}

#[verifier::ext_equal]
pub struct LinkRow {
    pub source: Seq<char>,
    pub target: Seq<char>,
    pub kind: Seq<char>,
}

impl View for GraphLink {
    type V = LinkRow;

    open spec fn view(&self) -> LinkRow {
        LinkRow { source: self.source@, target: self.target@, kind: self.kind@ }
    }
}

impl Sortable for GraphLink {
    /// Links are ordered by their source, then by their target.
    open spec fn sort_key(v: LinkRow) -> Seq<Seq<char>> {
        seq![v.source, v.target]
    }

    fn not_after(&self, other: &Self) -> (r: bool) {
        pair_not_after(
            self.source.as_str(),
            self.target.as_str(),
            other.source.as_str(),
            other.target.as_str(),
        )
    }
}

// ---------------------------------------------------------------------------
// What a link names
// ---------------------------------------------------------------------------

/// What precedes the first `a` or `b` in `s`, or all of it.
pub open spec fn before_any(s: Seq<char>, a: char, b: char) -> Seq<char>
    decreases s.len(),
{
    if s.len() == 0 || s[0] == a || s[0] == b {
        seq![]
    } else {
        seq![s[0]] + before_any(s.skip(1), a, b)
    }
}

fn find_any(cs: &Vec<char>, a: char, b: char) -> (r: usize)
    ensures
        r <= cs@.len(),
        before_any(cs@, a, b) == cs@.take(r as int),
{
    let mut k: usize = 0;
    assert(cs@.skip(0) =~= cs@);
    assert(cs@.take(0) + before_any(cs@, a, b) =~= before_any(cs@, a, b));
    while k < cs.len() && cs[k] != a && cs[k] != b
        invariant
            k <= cs@.len(),
            before_any(cs@, a, b) == cs@.take(k as int) + before_any(cs@.skip(k as int), a, b),
        decreases cs@.len() - k,
    {
        proof {
            assert(cs@.skip(k as int).skip(1) =~= cs@.skip(k + 1));
            assert(cs@.take(k as int) + before_any(cs@.skip(k as int), a, b) =~= cs@.take(k + 1)
                + before_any(cs@.skip(k + 1), a, b));
        }
        k += 1;
    }
    assert(cs@.take(k as int) + before_any(cs@.skip(k as int), a, b) =~= cs@.take(k as int));
    k
}

/// The page that a link names: what precedes a `#heading` or `^block`, without
/// white space around it.
pub open spec fn without_anchor(slug: Seq<char>) -> Seq<char> {
    trim(before_any(slug, '#', '^'))
}

/// `slug#heading` and `slug^block` name a place inside a page; the graph is about
/// the page alone.
pub fn strip_anchor(slug: &str) -> (r: String)
    ensures
        r@ == without_anchor(slug@),
{
    let cs = chars_of(slug);
    let k = find_any(&cs, '#', '^');
    let (a, b) = trim_range(&cs, 0, k);
    assert(cs@.subrange(0, k as int) =~= cs@.take(k as int));
    text_slice(&cs, a, b)
}

/// The page that the text of a link names: the text shown for it, behind a `|`,
/// does not matter.
pub open spec fn link_target(text: Seq<char>) -> Seq<char> {
    without_anchor(before_any(text, '|', '|'))
}

/// The page that the text of a link names.
pub fn target_of(text: &str) -> (r: String)
    ensures
        r@ == link_target(text@),
{
    let cs = chars_of(text);
    let k = find_any(&cs, '|', '|');
    let name = text_slice(&cs, 0, k);
    assert(name@ =~= cs@.take(k as int));
    strip_anchor(name.as_str())
}

/// `s` without the hash signs at its front.
pub open spec fn without_hashes(s: Seq<char>) -> Seq<char>
    decreases s.len(),
{
    if s.len() > 0 && s[0] == '#' {
        without_hashes(s.skip(1))
    } else {
        s
    }
}

/// The tags of a page: without white space around them, without hash signs in
/// front, and none that is empty then.
pub open spec fn clean_tags(tags: Seq<Seq<char>>) -> Seq<Seq<char>>
    decreases tags.len(),
{
    if tags.len() == 0 {
        seq![]
    } else {
        let rest = clean_tags(tags.drop_last());
        let tag = without_hashes(trim(tags.last()));
        if tag.len() == 0 {
            rest
        } else {
            rest.push(tag)
        }
    }
}

fn clean_tag(tag: &str) -> (r: String)
    ensures
        r@ == without_hashes(trim(tag@)),
{
    let cs = chars_of(tag);
    let (a, b) = trim_range(&cs, 0, cs.len());
    assert(cs@.subrange(0, cs@.len() as int) =~= tag@);
    let mut k: usize = a;
    while k < b && cs[k] == '#'
        invariant
            a <= k <= b <= cs@.len(),
            without_hashes(cs@.subrange(a as int, b as int)) == without_hashes(
                cs@.subrange(k as int, b as int),
            ),
        decreases b - k,
    {
        assert(cs@.subrange(k as int, b as int).skip(1) =~= cs@.subrange(k + 1, b as int));
        k += 1;
    }
    text_slice(&cs, k, b)
}

fn cleaned_tags(tags: &Vec<String>) -> (r: Vec<String>)
    ensures
        views(r@) == clean_tags(views(tags@)),
{
    let mut out: Vec<String> = Vec::new();
    let mut i: usize = 0;
    assert(views(out@) =~= seq![]);
    while i < tags.len()
        invariant
            i <= tags@.len(),
            views(out@) == clean_tags(views(tags@).take(i as int)),
        decreases tags@.len() - i,
    {
        let ghost before = out@;
        proof {
            let now = views(tags@).take(i + 1);
            assert(now.drop_last() =~= views(tags@).take(i as int));
            assert(now.last() == tags@[i as int]@);
        }
        let tag = clean_tag(tags[i].as_str());
        if !tag.as_str().is_empty() {
            let ghost what = tag@;
            out.push(tag);
            assert(views(out@) =~= views(before).push(what));
        }
        i += 1;
    }
    assert(views(tags@).take(tags@.len() as int) =~= views(tags@));
    out
}

// ---------------------------------------------------------------------------
// Raw sources
// ---------------------------------------------------------------------------

/// The text under `key` in a YAML mapping, if it holds one.
pub uninterp spec fn yaml_text_field(yaml: Seq<char>, key: Seq<char>) -> Option<Seq<char>>;

/// Calls `serde_yaml::from_str` for a `serde_yaml::Value` and, where that succeeds,
/// `Value::get` and `Value::as_str`. The result is a function of the two texts
/// alone.
#[verifier::external_body]
fn yaml_field(yaml: &str, key: &str) -> (r: Option<String>)
    ensures
        opt_view(r) == yaml_text_field(yaml@, key@),
{
    let value = serde_yaml::from_str::<serde_yaml::Value>(yaml).ok()?;
    value.get(key).and_then(|v| v.as_str()).map(str::to_string)
}

/// What reading the file at `path` came to, among the files from `from` on.
pub open spec fn content_at(files: Seq<RawFile>, path: Seq<char>, from: int) -> Option<
    Result<Seq<char>, Seq<char>>,
>
    decreases files.len() - from,
{
    if from < 0 || from >= files.len() {
        None
    } else if files[from].path@ == path {
        Some(read_view(files[from].content))
    } else {
        content_at(files, path, from + 1)
    }
}

/// What reading the file at `path` came to.
pub fn find_content<'a>(files: &'a Vec<RawFile>, path: &str) -> (r: Option<
    &'a Result<String, String>,
>)
    ensures
        (match r {
            Some(c) => Some(read_view(*c)),
            None => None,
        }) == content_at(files@, path@, 0),
{
    let mut i: usize = 0;
    while i < files.len()
        invariant
            i <= files@.len(),
            content_at(files@, path@, 0) == content_at(files@, path@, i as int),
        decreases files@.len() - i,
    {
        if text_eq(files[i].path.as_str(), path) {
            return Some(&files[i].content);
        }
        i += 1;
    }
    None
}

/// What a raw source goes by: where it came from, where that is known, else its raw id.
pub open spec fn source_name(source_url: Option<Seq<char>>, raw_id: Seq<char>) -> Seq<char> {
    match source_url {
        Some(url) => url,
        None => raw_id,
    }
}

/// What a raw source goes by.
pub fn name_of_source(source_url: Option<String>, raw_id: &str) -> (r: String)
    ensures
        r@ == source_name(opt_view(source_url), raw_id@),
{
    match source_url {
        Some(url) => url,
        None => raw_id.to_string(),
    }
}

/// The title of a raw document: the `source_url` of its frontmatter, where it has one,
/// else `raw_id`.
pub open spec fn titled(content: Seq<char>, raw_id: Seq<char>) -> Seq<char> {
    match cut(content) {
        Ok((yaml, body)) => source_name(yaml_text_field(yaml, "source_url"@), raw_id),
        Err(_) => raw_id,
    }
}

/// The title of a raw source and where it stands. A source that is not found, or
/// cannot be read, goes by its raw id.
pub open spec fn raw_source(manifest: Manifest, files: Seq<RawFile>, raw_id: Seq<char>) -> (
    Seq<char>,
    Option<Seq<char>>,
) {
    match raw_path(manifest, files, raw_id) {
        None => (raw_id, None),
        Some(path) => match content_at(files, path, 0) {
            Some(Ok(content)) => (titled(content, raw_id), Some(path)),
            _ => (raw_id, Some(path)),
        },
    }
}

/// The title of a raw source and its vault-relative path. Only a file that is
/// found under its raw id is ever looked at.
pub fn raw_source_title(manifest: &Manifest, files: &Vec<RawFile>, raw_id: &str) -> (r: (
    String,
    Option<String>,
))
    ensures
        (r.0@, opt_view(r.1)) == raw_source(*manifest, files@, raw_id@),
{
    let path: String = match find_raw_path(manifest, files, raw_id) {
        None => {
            return (raw_id.to_string(), None);
        },
        Some(path) => path,
    };
    let title: String = match find_content(files, path.as_str()) {
        Some(Ok(content)) => match split_frontmatter(content.as_str()) {
            Ok((yaml, _)) => name_of_source(yaml_field(yaml.as_str(), "source_url"), raw_id),
            Err(_) => raw_id.to_string(),
        },
        _ => raw_id.to_string(),
    };
    (title, Some(path))
}

// ---------------------------------------------------------------------------
// The links of a page
// ---------------------------------------------------------------------------

/// A link out of a page, and the node it leads to where there is none yet.
#[derive(Debug)]
pub struct Edge {
    pub target: String,
    pub kind: &'static str,
    pub node: PendingNode,
}

pub struct EdgeView {
    pub target: Seq<char>,
    pub kind: Seq<char>,
    pub node: NodeView,
}

impl View for Edge {
    type V = EdgeView;

    open spec fn view(&self) -> EdgeView {
        EdgeView { target: self.target@, kind: self.kind@, node: self.node@ }
    }
}

/// What a wikilink on the page `slug` adds: nothing if it names no page or the
/// page itself.
pub open spec fn wikilink_edge(slug: Seq<char>, link: LinkView) -> Option<EdgeView> {
    match link {
        LinkView::Local(text) => {
            let target = link_target(text);
            if target.len() == 0 || target == slug {
                None
            } else {
                Some(
                    EdgeView { target, kind: "wikilink"@, node: plain_node(target, "missing"@) },
                )
            }
        },
        LinkView::CrossVault { vault, concept } => {
            let id = vault + "::"@ + link_target(concept);
            Some(
                EdgeView {
                    target: id,
                    kind: "cross_vault"@,
                    node: NodeView {
                        description: Some("in vault '"@ + vault + "'"@),
                        ..plain_node(id, "cross_vault"@)
                    },
                },
            )
        },
    }
}

/// What the wikilinks of the page `slug` add, in order.
pub open spec fn wikilink_edges(slug: Seq<char>, all: Seq<LinkView>) -> Seq<EdgeView>
    decreases all.len(),
{
    if all.len() == 0 {
        seq![]
    } else {
        let rest = wikilink_edges(slug, all.drop_last());
        match wikilink_edge(slug, all.last()) {
            Some(edge) => rest.push(edge),
            None => rest,
        }
    }
}

/// What a tag adds.
pub open spec fn tag_edge(tag: Seq<char>) -> EdgeView {
    let id = "#"@ + tag;
    EdgeView { target: id, kind: "tag"@, node: plain_node(id, "tag"@) }
}

/// What the tags of a page add, in order.
pub open spec fn tag_edges(tags: Seq<Seq<char>>) -> Seq<EdgeView> {
    tags.map_values(|tag: Seq<char>| tag_edge(tag))
}

/// What a cited resource adds: nothing if it names no raw source.
pub open spec fn source_edge(
    manifest: Manifest,
    files: Seq<RawFile>,
    resource: Seq<char>,
) -> Option<EdgeView> {
    match raw_identity(resource) {
        None => None,
        Some(raw_id) => {
            let (title, path) = raw_source(manifest, files, raw_id);
            Some(
                EdgeView {
                    target: "raw:"@ + raw_id,
                    kind: "source"@,
                    node: NodeView {
                        description: if path is None {
                            Some("raw file not found"@)
                        } else {
                            None
                        },
                        path,
                        ..plain_node(title, "raw"@)
                    },
                },
            )
        },
    }
}

/// What the cited resources of a page add, in order.
pub open spec fn source_edges(
    manifest: Manifest,
    files: Seq<RawFile>,
    resources: Seq<Seq<char>>,
) -> Seq<EdgeView>
    decreases resources.len(),
{
    if resources.len() == 0 {
        seq![]
    } else {
        let rest = source_edges(manifest, files, resources.drop_last());
        match source_edge(manifest, files, resources.last()) {
            Some(edge) => rest.push(edge),
            None => rest,
        }
    }
}

/// The text of a page in which links are looked for: its body, or all of it where
/// the page could not be read.
pub open spec fn linked_text(page: PageModel) -> Seq<char> {
    match page.parsed {
        Ok(p) => p.body,
        Err(_) => page.content,
    }
}

/// The tags of a page; none where the page could not be read.
pub open spec fn page_tags(page: PageModel) -> Seq<Seq<char>> {
    match page.parsed {
        Ok(p) => clean_tags(p.frontmatter.tags),
        Err(_) => seq![],
    }
}

/// Everything that a page leads to: its wikilinks, its tags, its sources.
pub open spec fn page_edges(manifest: Manifest, files: Seq<RawFile>, page: PageModel) -> Seq<
    EdgeView,
> {
    wikilink_edges(page.slug(), links(linked_text(page))) + tag_edges(page_tags(page))
        + source_edges(manifest, files, page.resources())
}

fn edge_of_link(slug: &str, link: &WikiLink) -> (r: Option<Edge>)
    ensures
        opt_view(r) == wikilink_edge(slug@, link@),
{
    match link {
        WikiLink::Local(text) => {
            let target = target_of(text.as_str());
            if target.as_str().is_empty() || text_eq(target.as_str(), slug) {
                None
            } else {
                let title = target.clone();
                Some(Edge { target, kind: "wikilink", node: new_plain_node(title, "missing") })
            }
        },
        WikiLink::CrossVault { vault, concept } => {
            let mut id = vault.clone();
            id.append("::");
            let name = target_of(concept.as_str());
            id.append(name.as_str());
            let mut about = "in vault '".to_string();
            about.append(vault.as_str());
            about.append("'");
            let mut node = new_plain_node(id.clone(), "cross_vault");
            node.description = Some(about);
            Some(Edge { target: id, kind: "cross_vault", node })
        },
    }
}

fn edge_of_tag(tag: &str) -> (r: Edge)
    ensures
        r@ == tag_edge(tag@),
{
    let mut id = "#".to_string();
    id.append(tag);
    let title = id.clone();
    Edge { target: id, kind: "tag", node: new_plain_node(title, "tag") }
}

fn edge_of_source(manifest: &Manifest, files: &Vec<RawFile>, resource: &str) -> (r: Option<Edge>)
    ensures
        opt_view(r) == source_edge(*manifest, files@, resource@),
{
    match raw_id_from_resource(resource) {
        None => None,
        Some(raw_id) => {
            let (title, path) = raw_source_title(manifest, files, raw_id.as_str());
            let mut id = "raw:".to_string();
            id.append(raw_id.as_str());
            let mut node = new_plain_node(title, "raw");
            if path.is_none() {
                node.description = Some("raw file not found".to_string());
            }
            node.path = path;
            Some(Edge { target: id, kind: "source", node })
        },
    }
}

/// Everything that a page leads to.
pub fn edges_of_page(manifest: &Manifest, files: &Vec<RawFile>, page: &PageFile) -> (r: Vec<Edge>)
    ensures
        views(r@) == page_edges(*manifest, files@, page@),
{
    let slug = page.slug();
    let mut out: Vec<Edge> = Vec::new();
    let (found, tags): (Vec<WikiLink>, Vec<String>) = match &page.parsed {
        Ok(p) => (extract_wikilinks(p.body.as_str()), cleaned_tags(&p.frontmatter.tags)),
        Err(_) => (extract_wikilinks(page.content.as_str()), Vec::new()),
    };
    proof {
        if page.parsed is Err {
            assert(views(tags@) =~= seq![]);
        }
        assert(views(out@) =~= seq![]);
    }
    let mut i: usize = 0;
    while i < found.len()
        invariant
            i <= found@.len(),
            slug@ == page@.slug(),
            views(out@) == wikilink_edges(slug@, views(found@).take(i as int)),
        decreases found@.len() - i,
    {
        let ghost before = out@;
        proof {
            let now = views(found@).take(i + 1);
            assert(now.drop_last() =~= views(found@).take(i as int));
            assert(now.last() == found@[i as int]@);
        }
        match edge_of_link(slug.as_str(), &found[i]) {
            Some(edge) => {
                let ghost what = edge@;
                out.push(edge);
                assert(views(out@) =~= views(before).push(what));
            },
            None => {},
        }
        i += 1;
    }
    assert(views(found@).take(found@.len() as int) =~= views(found@));
    let ghost first = wikilink_edges(slug@, views(found@));
    assert(views(out@) =~= first + tag_edges(views(tags@).take(0)));
    let mut j: usize = 0;
    while j < tags.len()
        invariant
            j <= tags@.len(),
            views(out@) == first + tag_edges(views(tags@).take(j as int)),
        decreases tags@.len() - j,
    {
        let ghost before = out@;
        let edge = edge_of_tag(tags[j].as_str());
        let ghost what = edge@;
        out.push(edge);
        proof {
            let all = views(tags@);
            assert(views(out@) =~= views(before).push(what));
            assert(tag_edges(all.take(j + 1)) =~= tag_edges(all.take(j as int)).push(what));
        }
        j += 1;
    }
    assert(views(tags@).take(tags@.len() as int) =~= views(tags@));
    let ghost second = first + tag_edges(views(tags@));
    let resources = page.resources();
    assert(views(out@) =~= second + source_edges(*manifest, files@, views(resources@).take(0)));
    let mut k: usize = 0;
    while k < resources.len()
        invariant
            k <= resources@.len(),
            views(out@) == second + source_edges(
                *manifest,
                files@,
                views(resources@).take(k as int),
            ),
        decreases resources@.len() - k,
    {
        let ghost before = out@;
        proof {
            let now = views(resources@).take(k + 1);
            assert(now.drop_last() =~= views(resources@).take(k as int));
            assert(now.last() == resources@[k as int]@);
        }
        match edge_of_source(manifest, files, resources[k].as_str()) {
            Some(edge) => {
                let ghost what = edge@;
                out.push(edge);
                assert(views(out@) =~= views(before).push(what));
            },
            None => {},
        }
        k += 1;
    }
    assert(views(resources@).take(resources@.len() as int) =~= views(resources@));
    out
}

// ---------------------------------------------------------------------------
// Nodes and links
// ---------------------------------------------------------------------------

/// The node that a page is. A page that could not be read goes by its slug.
pub open spec fn page_node(page: PageModel, kind: Seq<char>) -> NodeView {
    match page.parsed {
        Ok(p) => NodeView {
            title: p.frontmatter.title,
            kind,
            page_type: Some(p.frontmatter.page_type),
            description: p.frontmatter.description,
            tags: clean_tags(p.frontmatter.tags),
            path: Some(page.path),
        },
        Err(_) => NodeView { path: Some(page.path), ..plain_node(page.slug(), kind) },
    }
}

/// The kind of the page at position `i`, where the first `split` pages are
/// concepts and the others entities.
pub open spec fn kind_at(split: int, i: int) -> Seq<char> {
    if i < split {
        "concept"@
    } else {
        "entity"@
    }
}

/// The pages as nodes, by slug; of pages with the same slug the last one counts.
pub open spec fn page_nodes(pages: Seq<PageModel>, split: int) -> Map<Seq<char>, NodeView>
    decreases pages.len(),
{
    if pages.len() == 0 {
        Map::empty()
    } else {
        let rest = page_nodes(pages.drop_last(), split);
        let page = pages.last();
        if file_name(page.path) is None {
            rest
        } else {
            rest.insert(page.slug(), page_node(page, kind_at(split, pages.len() - 1)))
        }
    }
}

/// `nodes` with the nodes that `edges` lead to; one that is there already stays as
/// it is.
pub open spec fn with_targets(nodes: Map<Seq<char>, NodeView>, edges: Seq<EdgeView>) -> Map<
    Seq<char>,
    NodeView,
>
    decreases edges.len(),
{
    if edges.len() == 0 {
        nodes
    } else {
        let rest = with_targets(nodes, edges.drop_last());
        if rest.contains_key(edges.last().target) {
            rest
        } else {
            rest.insert(edges.last().target, edges.last().node)
        }
    }
}

/// The links from the page `slug` that `edges` are.
pub open spec fn rows_from(slug: Seq<char>, edges: Seq<EdgeView>) -> Seq<LinkRow> {
    edges.map_values(
        |e: EdgeView| LinkRow { source: slug, target: e.target, kind: e.kind },
    )
}

/// Every node: the pages, and then what the pages lead to, page by page.
pub open spec fn all_nodes(
    manifest: Manifest,
    files: Seq<RawFile>,
    start: Map<Seq<char>, NodeView>,
    pages: Seq<PageModel>,
) -> Map<Seq<char>, NodeView>
    decreases pages.len(),
{
    if pages.len() == 0 {
        start
    } else {
        let rest = all_nodes(manifest, files, start, pages.drop_last());
        if file_name(pages.last().path) is None {
            rest
        } else {
            with_targets(rest, page_edges(manifest, files, pages.last()))
        }
    }
}

/// Every link out of a page, page by page, repeated ones included.
pub open spec fn all_rows(
    manifest: Manifest,
    files: Seq<RawFile>,
    pages: Seq<PageModel>,
) -> Seq<LinkRow>
    decreases pages.len(),
{
    if pages.len() == 0 {
        seq![]
    } else {
        let rest = all_rows(manifest, files, pages.drop_last());
        if file_name(pages.last().path) is None {
            rest
        } else {
            rest + rows_from(pages.last().slug(), page_edges(manifest, files, pages.last()))
        }
    }
}

/// Whether two links have the same source and the same target.
pub open spec fn same_ends(a: LinkRow, b: LinkRow) -> bool {
    a.source == b.source && a.target == b.target
}

/// `rows` without those that have the same ends as the one before them.
pub open spec fn without_repeats(rows: Seq<LinkRow>) -> Seq<LinkRow>
    decreases rows.len(),
{
    if rows.len() == 0 {
        seq![]
    } else {
        let rest = without_repeats(rows.drop_last());
        if rest.len() > 0 && same_ends(rest.last(), rows.last()) {
            rest
        } else {
            rest.push(rows.last())
        }
    }
}

/// The links of the graph: those of every page, by source and target, one for each
/// pair of ends. Where a page leads to one node in two ways, the first one counts.
pub open spec fn graph_rows(
    manifest: Manifest,
    files: Seq<RawFile>,
    pages: Seq<PageModel>,
) -> Seq<LinkRow> {
    without_repeats(sorted::<GraphLink>(all_rows(manifest, files, pages)))
}

/// How many of `pages` could not be read.
pub open spec fn unparsed(pages: Seq<PageModel>) -> nat
    decreases pages.len(),
{
    if pages.len() == 0 {
        0
    } else {
        unparsed(pages.drop_last()) + (if file_name(pages.last().path) is Some
            && pages.last().parsed is Err {
            1nat
        } else {
            0nat
        })
    }
}

spec fn node_views(nodes: Map<Seq<char>, PendingNode>) -> Map<Seq<char>, NodeView> {
    nodes.map_values(|n: PendingNode| n@)
}

fn node_of_page(page: &PageFile, slug: &String, kind: &'static str) -> (r: PendingNode)
    requires
        slug@ == page@.slug(),
    ensures
        r@ == page_node(page@, kind@),
{
    match &page.parsed {
        Ok(p) => PendingNode {
            title: p.frontmatter.title.clone(),
            kind,
            page_type: Some(p.frontmatter.page_type.clone()),
            description: copy_opt(&p.frontmatter.description),
            tags: cleaned_tags(&p.frontmatter.tags),
            path: Some(page.path.clone()),
        },
        Err(_) => {
            let mut node = new_plain_node(slug.clone(), kind);
            node.path = Some(page.path.clone());
            node
        },
    }
}

fn add_pages(pages: &Vec<PageFile>, split: usize) -> (r: (Table<PendingNode>, usize))
    ensures
        node_views(r.0@) == page_nodes(views(pages@), split as int),
        r.1 == unparsed(views(pages@)),
{
    let mut nodes: Table<PendingNode> = Table::new();
    let mut failed: usize = 0;
    let mut i: usize = 0;
    assert(node_views(nodes@) =~= Map::empty());
    while i < pages.len()
        invariant
            i <= pages@.len(),
            node_views(nodes@) == page_nodes(views(pages@).take(i as int), split as int),
            failed == unparsed(views(pages@).take(i as int)),
            failed <= i,
        decreases pages@.len() - i,
    {
        let ghost before = nodes@;
        proof {
            let now = views(pages@).take(i + 1);
            assert(now.drop_last() =~= views(pages@).take(i as int));
            assert(now.last() == pages@[i as int]@);
        }
        let page = &pages[i];
        if file_name_of(page.path.as_str()).is_some() {
            let slug = page.slug();
            let kind: &'static str = if i < split {
                "concept"
            } else {
                "entity"
            };
            let node = node_of_page(page, &slug, kind);
            let ghost what = node@;
            nodes.insert(slug.as_str(), node);
            if page.parsed.is_err() {
                failed += 1;
            }
            proof {
                assert(node_views(nodes@) =~= node_views(before).insert(slug@, what));
            }
        }
        i += 1;
    }
    assert(views(pages@).take(pages@.len() as int) =~= views(pages@));
    (nodes, failed)
}

fn add_links(
    manifest: &Manifest,
    files: &Vec<RawFile>,
    pages: &Vec<PageFile>,
    nodes: &mut Table<PendingNode>,
) -> (r: Vec<GraphLink>)
    ensures
        node_views(final(nodes)@) == all_nodes(
            *manifest,
            files@,
            node_views(old(nodes)@),
            views(pages@),
        ),
        views(r@) == all_rows(*manifest, files@, views(pages@)),
{
    let ghost start = node_views(nodes@);
    let mut rows: Vec<GraphLink> = Vec::new();
    let mut i: usize = 0;
    assert(views(rows@) =~= seq![]);
    while i < pages.len()
        invariant
            i <= pages@.len(),
            node_views(nodes@) == all_nodes(
                *manifest,
                files@,
                start,
                views(pages@).take(i as int),
            ),
            views(rows@) == all_rows(*manifest, files@, views(pages@).take(i as int)),
        decreases pages@.len() - i,
    {
        proof {
            let now = views(pages@).take(i + 1);
            assert(now.drop_last() =~= views(pages@).take(i as int));
            assert(now.last() == pages@[i as int]@);
        }
        let page = &pages[i];
        if file_name_of(page.path.as_str()).is_some() {
            let slug = page.slug();
            let edges = edges_of_page(manifest, files, page);
            add_edges(nodes, &mut rows, &slug, edges);
        }
        i += 1;
    }
    assert(views(pages@).take(pages@.len() as int) =~= views(pages@));
    rows
}

fn add_edges(
    nodes: &mut Table<PendingNode>,
    rows: &mut Vec<GraphLink>,
    slug: &String,
    edges: Vec<Edge>,
)
    ensures
        node_views(final(nodes)@) == with_targets(node_views(old(nodes)@), views(edges@)),
        views(final(rows)@) == views(old(rows)@) + rows_from(slug@, views(edges@)),
{
    let ghost all = edges@;
    let ghost start = node_views(nodes@);
    let ghost had = views(rows@);
    proof {
        assert(views(all.take(0)) =~= seq![]);
        assert(views(rows@) =~= had + rows_from(slug@, views(all.take(0))));
    }
    for edge in it: edges
        invariant
            it.seq() == all,
            node_views(nodes@) == with_targets(start, views(all.take(it.index()))),
            views(rows@) == had + rows_from(slug@, views(all.take(it.index()))),
    {
        let ghost k = it.index();
        let ghost what = edge@;
        let ghost nodes0 = nodes@;
        let ghost rows0 = rows@;
        proof {
            let now = views(all.take(k + 1));
            assert(now.drop_last() =~= views(all.take(k)));
            assert(now.last() == what);
        }
        let row = GraphLink { source: slug.clone(), target: edge.target.clone(), kind: edge.kind };
        let ghost link = row@;
        rows.push(row);
        if !nodes.contains(edge.target.as_str()) {
            nodes.insert(edge.target.as_str(), edge.node);
            assert(node_views(nodes@) =~= node_views(nodes0).insert(what.target, what.node));
        }
        proof {
            assert(views(rows@) =~= views(rows0).push(link));
            assert(rows_from(slug@, views(all.take(k + 1))) =~= rows_from(
                slug@,
                views(all.take(k)),
            ).push(link));
        }
    }
    assert(all.take(all.len() as int) =~= all);
}

fn drop_repeats(rows: Vec<GraphLink>) -> (r: Vec<GraphLink>)
    ensures
        views(r@) == without_repeats(views(rows@)),
{
    let ghost all = rows@;
    let mut out: Vec<GraphLink> = Vec::new();
    assert(views(out@) =~= seq![]);
    for row in it: rows
        invariant
            it.seq() == all,
            views(out@) == without_repeats(views(all.take(it.index()))),
    {
        let ghost before = out@;
        let ghost what = row@;
        proof {
            let now = views(all.take(it.index() + 1));
            assert(now.drop_last() =~= views(all.take(it.index())));
            assert(now.last() == what);
            if before.len() > 0 {
                assert(views(before).last() == before.last()@);
            }
        }
        let n: usize = out.len();
        let repeated: bool = n > 0 && text_eq(out[n - 1].source.as_str(), row.source.as_str())
            && text_eq(out[n - 1].target.as_str(), row.target.as_str());
        if !repeated {
            out.push(row);
            assert(views(out@) =~= views(before).push(what));
        }
    }
    assert(all.take(all.len() as int) =~= all);
    out
}

/// A node under its identifier.
#[derive(Debug)]
pub struct Slot {
    pub id: String,
    pub node: PendingNode,
}

impl View for Slot {
    type V = (Seq<char>, NodeView);

    open spec fn view(&self) -> (Seq<char>, NodeView) {
        (self.id@, self.node@)
    }
}

impl Sortable for Slot {
    open spec fn sort_key(v: (Seq<char>, NodeView)) -> Seq<Seq<char>> {
        seq![v.0]
    }

    fn not_after(&self, other: &Self) -> (r: bool) {
        self.id.not_after(&other.id)
    }
}

/// Whether `ids` go up without repeating themselves.
pub open spec fn ids_ascend(ids: Seq<Seq<char>>) -> bool {
    forall|i: int, j: int|
        #![trigger ids[i], ids[j]]
        0 <= i < j < ids.len() ==> text_lt(ids[i], ids[j])
}

spec fn slot_ids(slots: Seq<Slot>) -> Seq<Seq<char>> {
    slots.map_values(|s: Slot| s.id@)
}

fn slots_in_order(nodes: Table<PendingNode>) -> (r: Vec<Slot>)
    ensures
        ids_ascend(slot_ids(r@)),
        forall|id: Seq<char>| #[trigger]
            node_views(nodes@).contains_key(id) <==> slot_ids(r@).contains(id),
        forall|i: int|
            0 <= i < r@.len() ==> node_views(nodes@)[(#[trigger] r@[i]).id@] == r@[i].node@,
{
    let ghost map = node_views(nodes@);
    let ghost listing = nodes.listing();
    let rows = nodes.into_rows();
    let ghost all = rows@;
    let mut slots: Vec<Slot> = Vec::new();
    for row in it: rows
        invariant
            it.seq() == all,
            slots@.len() == it.index(),
            forall|i: int|
                0 <= i < it.index() ==> (#[trigger] slots@[i]).id@ == all[i].0@ && slots@[i].node@
                    == all[i].1@,
    {
        slots.push(Slot { id: row.0, node: row.1 });
    }
    let ghost unsorted = views(slots@);
    let out = sort(slots);
    proof {
        assert forall|i: int, j: int|
            0 <= i < unsorted.len() && 0 <= j < unsorted.len() && i != j implies unsorted[i]
            != unsorted[j] by {
            assert(listing[i].0 == unsorted[i].0);
            assert(listing[j].0 == unsorted[j].0);
        }
        lemma_sorted::<Slot>(unsorted);
        lemma_sorted_no_duplicates::<Slot>(unsorted);
        let result = views(out@);
        let ids = slot_ids(out@);
        assert forall|i: int| 0 <= i < result.len() implies exists|k: int|
            0 <= k < unsorted.len() && #[trigger] unsorted[k] == #[trigger] result[i] by {
            assert(result.contains(result[i]));
            assert(unsorted.contains(result[i]));
        }
        assert forall|i: int, j: int| #![trigger ids[i], ids[j]] 0 <= i < j < ids.len() implies text_lt(
            ids[i],
            ids[j],
        ) by {
            assert(result[i].0 == ids[i]);
            assert(result[j].0 == ids[j]);
            lemma_one_key(ids[i], ids[j]);
            assert(key_le(Slot::sort_key(result[i]), Slot::sort_key(result[j])));
            if ids[i] == ids[j] {
                let k = choose|k: int| 0 <= k < unsorted.len() && #[trigger] unsorted[k] == result[i];
                let l = choose|l: int| 0 <= l < unsorted.len() && #[trigger] unsorted[l] == result[j];
                assert(listing[k].0 == listing[l].0);
                assert(k == l);
                assert(result[i] == result[j]);
            }
        }
        assert forall|i: int| 0 <= i < out@.len() implies map.contains_key(out@[i].id@)
            && map[(#[trigger] out@[i]).id@] == out@[i].node@ by {
            assert(result[i] == out@[i]@);
            let k = choose|k: int| 0 <= k < unsorted.len() && #[trigger] unsorted[k] == result[i];
            lemma_row(listing, k);
            assert(unsorted[k].0 == listing[k].0);
            assert(unsorted[k].1 == listing[k].1@);
        }
        assert forall|id: Seq<char>| #[trigger] map.contains_key(id) <==> ids.contains(id) by {
            if map.contains_key(id) {
                let k = choose|k: int| #[trigger] named_at(listing, id, k);
                assert(unsorted[k].0 == id);
                assert(unsorted.contains(unsorted[k]));
                assert(result.contains(unsorted[k]));
                let i = choose|i: int| 0 <= i < result.len() && result[i] == unsorted[k];
                assert(ids[i] == id);
            }
            if ids.contains(id) {
                let i = choose|i: int| 0 <= i < ids.len() && ids[i] == id;
                assert(map.contains_key(out@[i].id@));
            }
        }
    }
    out
}

// ---------------------------------------------------------------------------
// The place of a node in the graph
// ---------------------------------------------------------------------------

/// How many links lead to `id`.
pub open spec fn count_in(rows: Seq<LinkRow>, id: Seq<char>) -> nat
    decreases rows.len(),
{
    if rows.len() == 0 {
        0
    } else {
        count_in(rows.drop_last(), id) + (if rows.last().target == id {
            1nat
        } else {
            0nat
        })
    }
}

/// How many links lead from `id`.
pub open spec fn count_out(rows: Seq<LinkRow>, id: Seq<char>) -> nat
    decreases rows.len(),
{
    if rows.len() == 0 {
        0
    } else {
        count_out(rows.drop_last(), id) + (if rows.last().source == id {
            1nat
        } else {
            0nat
        })
    }
}

/// How many links lead to `id`, and how many from it.
pub fn degrees(rows: &Vec<GraphLink>, id: &str) -> (r: (usize, usize))
    ensures
        r.0 == count_in(views(rows@), id@),
        r.1 == count_out(views(rows@), id@),
{
    let mut into: usize = 0;
    let mut out: usize = 0;
    let mut i: usize = 0;
    while i < rows.len()
        invariant
            i <= rows@.len(),
            into <= i,
            out <= i,
            into == count_in(views(rows@).take(i as int), id@),
            out == count_out(views(rows@).take(i as int), id@),
        decreases rows@.len() - i,
    {
        proof {
            let now = views(rows@).take(i + 1);
            assert(now.drop_last() =~= views(rows@).take(i as int));
            assert(now.last() == rows@[i as int]@);
        }
        if text_eq(rows[i].target.as_str(), id) {
            into += 1;
        }
        if text_eq(rows[i].source.as_str(), id) {
            out += 1;
        }
        i += 1;
    }
    assert(views(rows@).take(rows@.len() as int) =~= views(rows@));
    (into, out)
}

/// Whether a link runs between `a` and `b`, in either direction.
pub open spec fn touches(row: LinkRow, a: Seq<char>, b: Seq<char>) -> bool {
    (row.source == a && row.target == b) || (row.source == b && row.target == a)
}

/// Whether the nodes `ids[i]` and `ids[j]` are neighbours.
pub open spec fn related(ids: Seq<Seq<char>>, rows: Seq<LinkRow>, i: int, j: int) -> bool {
    &&& 0 <= i < ids.len()
    &&& 0 <= j < ids.len()
    &&& i != j
    &&& exists|k: int| 0 <= k < rows.len() && #[trigger] touches(rows[k], ids[i], ids[j])
}

/// Which nodes are neighbours, the direction of links ignored.
pub open spec fn link_relation(ids: Seq<Seq<char>>, rows: Seq<LinkRow>) -> Relation {
    |i: int, j: int| related(ids, rows, i, j)
}

/// The neighbours of the node `ids[i]`.
pub open spec fn neighbours(ids: Seq<Seq<char>>, rows: Seq<LinkRow>, i: int) -> Set<int> {
    Set::new(|j: int| related(ids, rows, i, j))
}

/// The adjacency lists of the graph with these nodes and links. A link to or from
/// anything else is left out.
pub fn adjacency(ids: &Vec<String>, rows: &Vec<GraphLink>) -> (r: Vec<Vec<usize>>)
    requires
        views(ids@).no_duplicates(),
    ensures
        r@.len() == ids@.len(),
        well_formed(r@),
        relation_of(r@) == link_relation(views(ids@), views(rows@)),
{
    let n: usize = ids.len();
    let mut pairs: Vec<(usize, usize)> = Vec::new();
    let mut k: usize = 0;
    while k < rows.len()
        invariant
            n == ids@.len(),
            k <= rows@.len(),
            views(ids@).no_duplicates(),
            forall|l: int|
                0 <= l < pairs@.len() ==> (#[trigger] pairs@[l]).0 < n && pairs@[l].1 < n,
            forall|i: int, j: int|
                0 <= i < n && 0 <= j < n ==> (#[trigger] paired(pairs@, i, j) <==> exists|l: int|
                    0 <= l < k && #[trigger] touches(
                        views(rows@)[l],
                        views(ids@)[i],
                        views(ids@)[j],
                    )),
        decreases rows@.len() - k,
    {
        let ghost before = pairs@;
        let from = position_of(ids, rows[k].source.as_str());
        let to = position_of(ids, rows[k].target.as_str());
        let ghost row = views(rows@)[k as int];
        match (from, to) {
            (Some(a), Some(b)) => {
                pairs.push((a, b));
            },
            _ => {},
        }
        proof {
            assert forall|i: int, j: int| 0 <= i < n && 0 <= j < n implies (#[trigger] paired(
                pairs@,
                i,
                j,
            ) <==> exists|l: int|
                0 <= l < k + 1 && #[trigger] touches(
                    views(rows@)[l],
                    views(ids@)[i],
                    views(ids@)[j],
                )) by {
                let a = views(ids@)[i];
                let b = views(ids@)[j];
                assert(a == ids@[i]@ && b == ids@[j]@);
                assert(paired(before, i, j) <==> exists|l: int|
                    0 <= l < k && #[trigger] touches(views(rows@)[l], a, b));
                if touches(row, a, b) {
                    assert(from is Some && to is Some);
                    let x = from->0 as int;
                    let y = to->0 as int;
                    assert(views(ids@)[x] == row.source);
                    assert(views(ids@)[y] == row.target);
                    assert(pairs@ == before.push((from->0, to->0)));
                    assert(is_pair(pairs@[before.len() as int], i, j));
                }
                if paired(pairs@, i, j) {
                    let l = choose|l: int| 0 <= l < pairs@.len() && #[trigger] is_pair(pairs@[l], i, j);
                    if l < before.len() {
                        assert(is_pair(before[l], i, j));
                    } else {
                        assert(pairs@[l] == (from->0, to->0));
                        assert(touches(row, a, b));
                    }
                }
                if paired(before, i, j) {
                    let l = choose|l: int| 0 <= l < before.len() && #[trigger] is_pair(before[l], i, j);
                    assert(is_pair(pairs@[l], i, j));
                }
            }
        }
        k += 1;
    }
    let r = adjacency_of(n, &pairs);
    proof {
        let rel = link_relation(views(ids@), views(rows@));
        assert forall|i: int, j: int| relation_of(r@)(i, j) == #[trigger] rel(i, j) by {
            if 0 <= i < n && 0 <= j < n && i != j {
                assert(paired(pairs@, i, j) <==> exists|l: int|
                    0 <= l < rows@.len() && #[trigger] touches(
                        views(rows@)[l],
                        views(ids@)[i],
                        views(ids@)[j],
                    ));
            }
        }
        assert(relation_of(r@) =~= rel);
    }
    r
}

/// How a node is woven into the graph.
#[derive(Debug, Clone, Copy)]
pub struct StructuralMetrics {
    /// How many neighbours it has, the direction of links ignored.
    pub degree: usize,
    /// Whether its removal alone parts its component.
    pub articulation: bool,
}

proof fn lemma_degree(list: Seq<usize>, members: Set<int>)
    requires
        ascending(list),
        forall|j: int| members.contains(j) <==> 0 <= j <= usize::MAX && list.contains(j as usize),
    ensures
        members.finite(),
        members.len() == list.len(),
{
    let ints = list.map_values(|x: usize| x as int);
    assert(ints.no_duplicates()) by {
        assert forall|i: int, j: int|
            0 <= i < ints.len() && 0 <= j < ints.len() && i != j implies ints[i] != ints[j] by {
            if i < j {
                assert(list[i] < list[j]);
            } else {
                assert(list[j] < list[i]);
            }
        }
    }
    ints.unique_seq_to_set();
    assert(ints.to_set() =~= members) by {
        assert forall|j: int| ints.to_set().contains(j) <==> members.contains(j) by {
            if members.contains(j) {
                let i = choose|i: int| 0 <= i < list.len() && list[i] == j as usize;
                assert(ints[i] == j);
            }
            if ints.to_set().contains(j) {
                let i = choose|i: int| 0 <= i < ints.len() && ints[i] == j;
                assert(list[i] == j as usize);
            }
        }
    }
}

/// The degree of every node, and whether it is an articulation point.
pub fn structural_metrics(ids: &Vec<String>, rows: &Vec<GraphLink>) -> (r: Vec<StructuralMetrics>)
    requires
        views(ids@).no_duplicates(),
    ensures
        r@.len() == ids@.len(),
        forall|i: int|
            0 <= i < r@.len() ==> (#[trigger] r@[i]).degree == neighbours(
                views(ids@),
                views(rows@),
                i,
            ).len() && r@[i].articulation == parts(
                ids@.len() as int,
                link_relation(views(ids@), views(rows@)),
                i,
            ),
{
    let lists = adjacency(ids, rows);
    let ghost rel = link_relation(views(ids@), views(rows@));
    let mut out: Vec<StructuralMetrics> = Vec::new();
    let mut i: usize = 0;
    while i < ids.len()
        invariant
            i <= ids@.len(),
            lists@.len() == ids@.len(),
            well_formed(lists@),
            relation_of(lists@) == rel,
            rel == link_relation(views(ids@), views(rows@)),
            out@.len() == i,
            forall|j: int|
                0 <= j < i ==> (#[trigger] out@[j]).degree == neighbours(
                    views(ids@),
                    views(rows@),
                    j,
                ).len() && out@[j].articulation == parts(ids@.len() as int, rel, j),
        decreases ids@.len() - i,
    {
        let articulation = is_articulation(&lists, i);
        proof {
            let list = lists@[i as int]@;
            let members = neighbours(views(ids@), views(rows@), i as int);
            assert(ascending(list));
            assert forall|j: int| members.contains(j) <==> 0 <= j <= usize::MAX && list.contains(
                j as usize,
            ) by {
                assert(rel(i as int, j) == related(views(ids@), views(rows@), i as int, j));
                assert(rel(i as int, j) == relation_of(lists@)(i as int, j));
                if 0 <= j <= usize::MAX && list.contains(j as usize) {
                    let l = choose|l: int| 0 <= l < list.len() && list[l] == j as usize;
                    assert(lists@[i as int]@[l] < lists@.len());
                }
            }
            lemma_degree(list, members);
        }
        out.push(StructuralMetrics { degree: lists[i].len(), articulation });
        i += 1;
    }
    out
}

/// A node of the graph.
#[derive(Debug)]
pub struct GraphNode {
    /// A page's slug, `#tag`, `raw:<raw id>`, `<vault>::<slug>`, or the name that
    /// leads nowhere.
    pub id: String,
    pub title: String,
    /// `concept`, `entity`, `tag`, `raw`, `cross_vault` or `missing`.
    pub kind: &'static str,
    /// The page's `type:`, if it has one.
    pub page_type: Option<String>,
    pub description: Option<String>,
    pub tags: Vec<String>,
    /// The vault-relative path of a node that is a file.
    pub path: Option<String>,
    /// How many nodes link to it.
    pub in_degree: usize,
    /// How many nodes it links to.
    pub out_degree: usize,
    /// Its place among the numbers of inbound links, the largest first: nodes with
    /// the same number share a place, and the places follow each other.
    pub hub_rank: usize,
    /// How many neighbours it has, the direction of links ignored.
    pub degree: usize,
    /// Whether its removal alone parts its component.
    pub articulation: bool,
}

/// The link graph of a vault.
#[derive(Debug)]
pub struct Graph {
    pub nodes: Vec<GraphNode>,
    pub links: Vec<GraphLink>,
    /// How many pages could not be read. They are nodes all the same.
    pub unparsed_pages: usize,
}

/// The identifiers of nodes, in order.
pub open spec fn ids_of(nodes: Seq<GraphNode>) -> Seq<Seq<char>> {
    nodes.map_values(|n: GraphNode| n.id@)
}

/// What a node is, apart from its place in the graph.
pub open spec fn data_of(node: GraphNode) -> NodeView {
    NodeView {
        title: node.title@,
        kind: node.kind@,
        page_type: opt_view(node.page_type),
        description: opt_view(node.description),
        tags: views(node.tags@),
        path: opt_view(node.path),
    }
}

/// Whether `levels` are the numbers of inbound links that nodes have, and zero,
/// each once and going up.
pub open spec fn are_levels(levels: Seq<usize>, nodes: Seq<GraphNode>) -> bool {
    &&& ascending(levels)
    &&& forall|d: usize| #[trigger]
        levels.contains(d) <==> d == 0 || exists|i: int|
            0 <= i < nodes.len() && (#[trigger] nodes[i]).in_degree == d
}

/// Whether `levels` has the number of inbound links of every node at the place,
/// counted from the top, that its `hub_rank` says.
pub open spec fn ranked_by(levels: Seq<usize>, nodes: Seq<GraphNode>) -> bool {
    are_levels(levels, nodes) && forall|i: int|
        0 <= i < nodes.len() ==> 1 <= (#[trigger] nodes[i]).hub_rank <= levels.len()
            && levels[levels.len() - nodes[i].hub_rank] == nodes[i].in_degree
}

/// Whether every node has the `hub_rank` it should have.
pub open spec fn ranked(nodes: Seq<GraphNode>) -> bool {
    exists|levels: Seq<usize>| #[trigger] ranked_by(levels, nodes)
}

/// Whether `nodes` are those of `map`, by identifier, each with its place in a
/// graph whose links are `rows`.
pub open spec fn nodes_are(
    nodes: Seq<GraphNode>,
    map: Map<Seq<char>, NodeView>,
    rows: Seq<LinkRow>,
) -> bool {
    let ids = ids_of(nodes);
    &&& ids_ascend(ids)
    &&& forall|id: Seq<char>| #[trigger] map.contains_key(id) <==> ids.contains(id)
    &&& forall|i: int|
        0 <= i < nodes.len() ==> {
            let node = #[trigger] nodes[i];
            &&& data_of(node) == map[node.id@]
            &&& node.in_degree == count_in(rows, node.id@)
            &&& node.out_degree == count_out(rows, node.id@)
            &&& node.degree == neighbours(ids, rows, i).len()
            &&& node.articulation == parts(nodes.len() as int, link_relation(ids, rows), i)
        }
    &&& ranked(nodes)
}

proof fn lemma_ascending_ids(ids: Seq<Seq<char>>)
    requires
        ids_ascend(ids),
    ensures
        ids.no_duplicates(),
{
    assert forall|i: int, j: int|
        0 <= i < ids.len() && 0 <= j < ids.len() && i != j implies ids[i] != ids[j] by {
        crate::order::lemma_text_total(ids[i], ids[j]);
        if i < j {
            assert(text_lt(ids[i], ids[j]));
        } else {
            assert(text_lt(ids[j], ids[i]));
        }
    }
}

/// Where `d` stands in an ascending list, counted from its end.
fn place_from_top(levels: &Vec<usize>, d: usize) -> (r: usize)
    requires
        levels@.contains(d),
    ensures
        1 <= r <= levels@.len(),
        levels@[levels@.len() - r] == d,
{
    let n: usize = levels.len();
    let mut r: usize = 1;
    proof {
        let k = choose|k: int| 0 <= k < levels@.len() && levels@[k] == d;
        assert(levels@[n - (n - k)] == d);
    }
    while levels[n - r] != d
        invariant
            n == levels@.len(),
            levels@.contains(d),
            1 <= r <= n,
            forall|i: int| n - r < i < n ==> levels@[i] != d,
        decreases n - r,
    {
        proof {
            let k = choose|k: int| 0 <= k < levels@.len() && levels@[k] == d;
            if r == n {
                assert(levels@[k] == d);
            }
        }
        r += 1;
    }
    r
}

fn levels_of(counts: &Vec<(usize, usize)>) -> (r: Vec<usize>)
    ensures
        ascending(r@),
        forall|d: usize| #[trigger]
            r@.contains(d) <==> d == 0 || exists|i: int|
                0 <= i < counts@.len() && (#[trigger] counts@[i]).0 == d,
{
    let mut levels: Vec<usize> = Vec::new();
    levels.push(0);
    let mut i: usize = 0;
    proof {
        assert forall|d: usize| #[trigger] levels@.contains(d) <==> d == 0 by {
            if d == 0 {
                assert(levels@[0] == d);
            }
        }
    }
    while i < counts.len()
        invariant
            i <= counts@.len(),
            ascending(levels@),
            forall|d: usize| #[trigger]
                levels@.contains(d) <==> d == 0 || exists|j: int|
                    0 <= j < i && (#[trigger] counts@[j]).0 == d,
        decreases counts@.len() - i,
    {
        let ghost before = levels@;
        crate::explorer::network::insert_ascending(&mut levels, counts[i].0);
        proof {
            assert forall|d: usize| #[trigger] levels@.contains(d) <==> d == 0 || exists|j: int|
                0 <= j < i + 1 && (#[trigger] counts@[j]).0 == d by {
                assert(before.contains(d) <==> d == 0 || exists|j: int|
                    0 <= j < i && (#[trigger] counts@[j]).0 == d);
                if d == counts@[i as int].0 {
                    assert(counts@[i as int].0 == d);
                }
            }
        }
        i += 1;
    }
    levels
}

fn place_nodes(slots: Vec<Slot>, rows: &Vec<GraphLink>) -> (r: Vec<GraphNode>)
    requires
        ids_ascend(slot_ids(slots@)),
    ensures
        ids_of(r@) == slot_ids(slots@),
        forall|i: int|
            0 <= i < r@.len() ==> {
                let node = #[trigger] r@[i];
                &&& data_of(node) == slots@[i].node@
                &&& node.in_degree == count_in(views(rows@), node.id@)
                &&& node.out_degree == count_out(views(rows@), node.id@)
                &&& node.degree == neighbours(ids_of(r@), views(rows@), i).len()
                &&& node.articulation == parts(
                    r@.len() as int,
                    link_relation(ids_of(r@), views(rows@)),
                    i,
                )
            },
        ranked(r@),
{
    let ghost all = slots@;
    let ghost want = slot_ids(slots@);
    let mut ids: Vec<String> = Vec::new();
    let mut counts: Vec<(usize, usize)> = Vec::new();
    let mut i: usize = 0;
    while i < slots.len()
        invariant
            slots@ == all,
            want == slot_ids(all),
            i <= slots@.len(),
            ids@.len() == i,
            counts@.len() == i,
            forall|j: int| 0 <= j < i ==> (#[trigger] ids@[j])@ == want[j],
            forall|j: int|
                0 <= j < i ==> (#[trigger] counts@[j]).0 == count_in(views(rows@), want[j])
                    && counts@[j].1 == count_out(views(rows@), want[j]),
        decreases slots@.len() - i,
    {
        ids.push(slots[i].id.clone());
        counts.push(degrees(rows, slots[i].id.as_str()));
        i += 1;
    }
    proof {
        assert(views(ids@) =~= want);
        lemma_ascending_ids(want);
    }
    let metrics = structural_metrics(&ids, rows);
    let levels = levels_of(&counts);
    let mut out: Vec<GraphNode> = Vec::new();
    for slot in it: slots
        invariant
            it.seq() == all,
            want == slot_ids(all),
            counts@.len() == all.len(),
            metrics@.len() == all.len(),
            out@.len() == it.index(),
            forall|d: usize| #[trigger]
                levels@.contains(d) <==> d == 0 || exists|j: int|
                    0 <= j < counts@.len() && (#[trigger] counts@[j]).0 == d,
            forall|j: int|
                0 <= j < it.index() ==> {
                    let node = #[trigger] out@[j];
                    &&& node.id@ == want[j]
                    &&& data_of(node) == all[j].node@
                    &&& node.in_degree == counts@[j].0
                    &&& node.out_degree == counts@[j].1
                    &&& node.degree == metrics@[j].degree
                    &&& node.articulation == metrics@[j].articulation
                    &&& 1 <= node.hub_rank <= levels@.len()
                    &&& levels@[levels@.len() - node.hub_rank] == node.in_degree
                },
    {
        let k: usize = out.len();
        let count: (usize, usize) = counts[k];
        assert(levels@.contains(counts@[k as int].0));
        let hub_rank = place_from_top(&levels, count.0);
        out.push(
            GraphNode {
                id: slot.id,
                title: slot.node.title,
                kind: slot.node.kind,
                page_type: slot.node.page_type,
                description: slot.node.description,
                tags: slot.node.tags,
                path: slot.node.path,
                in_degree: count.0,
                out_degree: count.1,
                hub_rank,
                degree: metrics[k].degree,
                articulation: metrics[k].articulation,
            },
        );
    }
    proof {
        assert(ids_of(out@) =~= want);
        assert(are_levels(levels@, out@)) by {
            assert forall|d: usize| #[trigger] levels@.contains(d) <==> d == 0 || exists|j: int|
                0 <= j < out@.len() && (#[trigger] out@[j]).in_degree == d by {
                if exists|j: int| 0 <= j < counts@.len() && (#[trigger] counts@[j]).0 == d {
                    let j = choose|j: int| 0 <= j < counts@.len() && (#[trigger] counts@[j]).0 == d;
                    assert(out@[j].in_degree == d);
                }
                if exists|j: int| 0 <= j < out@.len() && (#[trigger] out@[j]).in_degree == d {
                    let j = choose|j: int|
                        0 <= j < out@.len() && (#[trigger] out@[j]).in_degree == d;
                    assert(counts@[j].0 == d);
                }
            }
        }
        assert(ranked_by(levels@, out@));
    }
    out
}

/// The pages of a vault in the order in which the graph takes them: the concepts by
/// path, then the entities by path.
pub open spec fn page_order(concepts: Seq<PageModel>, entities: Seq<PageModel>) -> Seq<PageModel> {
    sorted::<PageFile>(concepts) + sorted::<PageFile>(entities)
}

/// Builds the link graph of a vault from its concept pages, its entity pages, its
/// manifest and what stands in its `raw/`.
pub fn build_graph(
    concepts: Vec<PageFile>,
    entities: Vec<PageFile>,
    manifest: &Manifest,
    files: &Vec<RawFile>,
) -> (r: Graph)
    ensures
        ({
            let pages = page_order(views(concepts@), views(entities@));
            let start = page_nodes(pages, concepts@.len() as int);
            &&& views(r.links@) == graph_rows(*manifest, files@, pages)
            &&& nodes_are(
                r.nodes@,
                all_nodes(*manifest, files@, start, pages),
                views(r.links@),
            )
            &&& r.unparsed_pages == unparsed(pages)
        }),
{
    let ghost both = page_order(views(concepts@), views(entities@));
    proof {
        lemma_sorted::<PageFile>(views(concepts@));
    }
    let mut pages = sort(concepts);
    let mut more = sort(entities);
    let split: usize = pages.len();
    let ghost front = pages@;
    let ghost back = more@;
    pages.append(&mut more);
    assert(views(pages@) =~= views(front) + views(back));
    let (mut nodes, unparsed_pages) = add_pages(&pages, split);
    let rows = add_links(manifest, files, &pages, &mut nodes);
    let links = drop_repeats(sort(rows));
    let ghost map = node_views(nodes@);
    let slots = slots_in_order(nodes);
    let ghost all = slots@;
    let nodes = place_nodes(slots, &links);
    proof {
        assert forall|i: int| 0 <= i < nodes@.len() implies data_of(#[trigger] nodes@[i])
            == map[nodes@[i].id@] by {
            assert(ids_of(nodes@).len() == slot_ids(all).len());
            assert(ids_of(nodes@)[i] == slot_ids(all)[i]);
            assert(nodes@[i].id@ == all[i].id@);
            assert(map[all[i].id@] == all[i].node@);
        }
    }
    Graph { nodes, links, unparsed_pages }
}

// ---------------------------------------------------------------------------
// Asking the graph
// ---------------------------------------------------------------------------

/// Whether a link leads from `source` to `target`.
pub open spec fn linked(rows: Seq<LinkRow>, source: Seq<char>, target: Seq<char>) -> bool {
    exists|k: int|
        0 <= k < rows.len() && (#[trigger] rows[k]).source == source && rows[k].target == target
}

fn has_link(rows: &Vec<GraphLink>, source: &str, target: &str) -> (r: bool)
    ensures
        r == linked(views(rows@), source@, target@),
{
    let mut i: usize = 0;
    while i < rows.len()
        invariant
            i <= rows@.len(),
            forall|k: int|
                0 <= k < i ==> !((#[trigger] views(rows@)[k]).source == source@ && views(
                    rows@,
                )[k].target == target@),
        decreases rows@.len() - i,
    {
        if text_eq(rows[i].source.as_str(), source) && text_eq(rows[i].target.as_str(), target) {
            assert(views(rows@)[i as int].source == source@);
            return true;
        }
        i += 1;
    }
    false
}

/// The nodes that link to `id`, in order.
pub open spec fn linking_to(nodes: Seq<GraphNode>, rows: Seq<LinkRow>, id: Seq<char>) -> Seq<
    GraphNode,
> {
    nodes.filter(|n: GraphNode| linked(rows, n.id@, id))
}

/// The nodes that `id` links to, in order.
pub open spec fn linked_from(nodes: Seq<GraphNode>, rows: Seq<LinkRow>, id: Seq<char>) -> Seq<
    GraphNode,
> {
    nodes.filter(|n: GraphNode| linked(rows, id, n.id@))
}

spec fn refs(nodes: Seq<&GraphNode>) -> Seq<GraphNode> {
    nodes.map_values(|n: &GraphNode| *n)
}

/// The first node with this identifier, from position `from` on.
pub open spec fn node_named(nodes: Seq<GraphNode>, id: Seq<char>, from: int) -> Option<GraphNode>
    decreases nodes.len() - from,
{
    if from < 0 || from >= nodes.len() {
        None
    } else if nodes[from].id@ == id {
        Some(nodes[from])
    } else {
        node_named(nodes, id, from + 1)
    }
}

impl Graph {
    /// The node `id`, the first if there are several.
    pub fn node(&self, id: &str) -> (r: Option<&GraphNode>)
        ensures
            match r {
                Some(n) => node_named(self.nodes@, id@, 0) == Some(*n),
                None => node_named(self.nodes@, id@, 0) is None,
            },
    {
        let mut i: usize = 0;
        while i < self.nodes.len()
            invariant
                i <= self.nodes@.len(),
                node_named(self.nodes@, id@, 0) == node_named(self.nodes@, id@, i as int),
            decreases self.nodes@.len() - i,
        {
            if text_eq(self.nodes[i].id.as_str(), id) {
                return Some(&self.nodes[i]);
            }
            i += 1;
        }
        None
    }

    /// The nodes that link to `id`, in the order of the nodes.
    pub fn backlinks_of(&self, id: &str) -> (r: Vec<&GraphNode>)
        ensures
            r@.map_values(|n: &GraphNode| *n) == linking_to(self.nodes@, views(self.links@), id@),
    {
        self.pick(id, true)
    }

    /// The nodes that `id` links to, in the order of the nodes.
    pub fn outlinks_of(&self, id: &str) -> (r: Vec<&GraphNode>)
        ensures
            r@.map_values(|n: &GraphNode| *n) == linked_from(self.nodes@, views(self.links@), id@),
    {
        self.pick(id, false)
    }

    fn pick(&self, id: &str, backward: bool) -> (r: Vec<&GraphNode>)
        ensures
            r@.map_values(|n: &GraphNode| *n) == (if backward {
                linking_to(self.nodes@, views(self.links@), id@)
            } else {
                linked_from(self.nodes@, views(self.links@), id@)
            }),
    {
        let mut out: Vec<&GraphNode> = Vec::new();
        let ghost rows = views(self.links@);
        let mut i: usize = 0;
        proof {
            reveal(Seq::filter);
            assert(refs(out@) =~= linking_to(self.nodes@.take(0), rows, id@));
            assert(refs(out@) =~= linked_from(self.nodes@.take(0), rows, id@));
        }
        while i < self.nodes.len()
            invariant
                i <= self.nodes@.len(),
                rows == views(self.links@),
                refs(out@) == (if backward {
                    linking_to(self.nodes@.take(i as int), rows, id@)
                } else {
                    linked_from(self.nodes@.take(i as int), rows, id@)
                }),
            decreases self.nodes@.len() - i,
        {
            let ghost before = out@;
            let node = &self.nodes[i];
            proof {
                reveal(Seq::filter);
                let now = self.nodes@.take(i + 1);
                assert(now.drop_last() =~= self.nodes@.take(i as int));
                assert(now.last() == *node);
            }
            let found: bool = if backward {
                has_link(&self.links, node.id.as_str(), id)
            } else {
                has_link(&self.links, id, node.id.as_str())
            };
            if found {
                out.push(node);
                assert(refs(out@) =~= refs(before).push(*node));
            }
            i += 1;
        }
        proof {
            assert(self.nodes@.take(self.nodes@.len() as int) =~= self.nodes@);
            assert(out@.map_values(|n: &GraphNode| *n) =~= refs(out@));
        }
        out
    }
}

// ---------------------------------------------------------------------------
// Laws
// ---------------------------------------------------------------------------

/// Whether no two links have the same ends.
pub open spec fn ends_differ(rows: Seq<LinkRow>) -> bool {
    forall|i: int, j: int|
        #![trigger rows[i], rows[j]]
        0 <= i < j < rows.len() ==> !same_ends(rows[i], rows[j])
}

/// Whether some link has the ends of `row`.
pub open spec fn covered(rows: Seq<LinkRow>, row: LinkRow) -> bool {
    exists|k: int| 0 <= k < rows.len() && #[trigger] same_ends(rows[k], row)
}

proof fn lemma_without_repeats(rows: Seq<LinkRow>)
    requires
        in_order::<GraphLink>(rows),
    ensures
        ({
            let kept = without_repeats(rows);
            &&& ends_differ(kept)
            &&& in_order::<GraphLink>(kept)
            &&& forall|r: LinkRow| kept.contains(r) ==> rows.contains(r)
            &&& rows.len() > 0 ==> kept.len() > 0 && same_ends(kept.last(), rows.last())
            &&& forall|i: int| 0 <= i < rows.len() ==> covered(kept, #[trigger] rows[i])
        }),
    decreases rows.len(),
{
    if rows.len() > 0 {
        let front = rows.drop_last();
        let rest = without_repeats(front);
        let kept = without_repeats(rows);
        let last = rows.last();
        assert forall|i: int, j: int| #![trigger front[i], front[j]] 0 <= i < j
            < front.len() implies key_le(
            GraphLink::sort_key(front[i]),
            GraphLink::sort_key(front[j]),
        ) by {
            assert(front[i] == rows[i] && front[j] == rows[j]);
        }
        lemma_without_repeats(front);
        assert forall|i: int| 0 <= i < rest.len() implies key_le(
            GraphLink::sort_key(#[trigger] rest[i]),
            GraphLink::sort_key(last),
        ) by {
            assert(rest.contains(rest[i]));
            assert(front.contains(rest[i]));
            let k = choose|k: int| 0 <= k < front.len() && front[k] == rest[i];
            assert(rows[k] == rest[i] && rows[rows.len() - 1] == last);
        }
        if !(rest.len() > 0 && same_ends(rest.last(), last)) {
            assert(kept == rest.push(last));
            assert forall|i: int| 0 <= i < rest.len() implies !same_ends(
                #[trigger] rest[i],
                last,
            ) by {
                if same_ends(rest[i], last) {
                    let m = rest.len() - 1;
                    let a = rest[i];
                    let b = rest[m];
                    if i < m {
                        assert(key_le(GraphLink::sort_key(a), GraphLink::sort_key(b)));
                    }
                    assert(key_le(GraphLink::sort_key(b), GraphLink::sort_key(last)));
                    assert(GraphLink::sort_key(a) =~= GraphLink::sort_key(last));
                    lemma_key_total(GraphLink::sort_key(a), GraphLink::sort_key(b));
                    assert(GraphLink::sort_key(b) == GraphLink::sort_key(last));
                    assert(GraphLink::sort_key(b)[0] == b.source);
                    assert(GraphLink::sort_key(b)[1] == b.target);
                    assert(GraphLink::sort_key(last)[0] == last.source);
                    assert(GraphLink::sort_key(last)[1] == last.target);
                }
            }
        }
        assert forall|r: LinkRow| kept.contains(r) implies rows.contains(r) by {
            let k = choose|k: int| 0 <= k < kept.len() && kept[k] == r;
            if k < rest.len() {
                assert(rest.contains(r));
                assert(front.contains(r));
                let l = choose|l: int| 0 <= l < front.len() && front[l] == r;
                assert(rows[l] == r);
            } else {
                assert(rows[rows.len() - 1] == r);
            }
        }
        assert forall|i: int| 0 <= i < rows.len() implies covered(kept, #[trigger] rows[i]) by {
            if i < front.len() {
                assert(front[i] == rows[i]);
                let k = choose|k: int| 0 <= k < rest.len() && #[trigger] same_ends(rest[k], front[i]);
                assert(kept[k] == rest[k]);
                assert(same_ends(kept[k], rows[i]));
            } else {
                assert(same_ends(kept[kept.len() - 1], rows[i]));
            }
        }
    }
}

/// There is one link for each pair of ends, in the order of the sources and then of
/// the targets, and every link that a page has is among them.
pub proof fn law_links_are_distinct(manifest: Manifest, files: Seq<RawFile>, pages: Seq<PageModel>)
    ensures
        ends_differ(graph_rows(manifest, files, pages)),
        in_order::<GraphLink>(graph_rows(manifest, files, pages)),
        forall|i: int|
            0 <= i < all_rows(manifest, files, pages).len() ==> covered(
                graph_rows(manifest, files, pages),
                #[trigger] all_rows(manifest, files, pages)[i],
            ),
        forall|r: LinkRow| #[trigger]
            graph_rows(manifest, files, pages).contains(r) ==> all_rows(
                manifest,
                files,
                pages,
            ).contains(r),
{
    let all = all_rows(manifest, files, pages);
    let ordered = sorted::<GraphLink>(all);
    let kept = without_repeats(ordered);
    lemma_sorted::<GraphLink>(all);
    lemma_without_repeats(ordered);
    assert forall|i: int| 0 <= i < all.len() implies covered(kept, #[trigger] all[i]) by {
        assert(all.contains(all[i]));
        assert(ordered.contains(all[i]));
        let j = choose|j: int| 0 <= j < ordered.len() && ordered[j] == all[i];
        let k = choose|k: int| 0 <= k < kept.len() && #[trigger] same_ends(kept[k], ordered[j]);
        assert(same_ends(kept[k], all[i]));
    }
}

proof fn lemma_targets_kept(nodes: Map<Seq<char>, NodeView>, edges: Seq<EdgeView>)
    ensures
        forall|id: Seq<char>| #[trigger]
            nodes.contains_key(id) ==> with_targets(nodes, edges).contains_key(id)
                && with_targets(nodes, edges)[id] == nodes[id],
        forall|i: int|
            0 <= i < edges.len() ==> with_targets(nodes, edges).contains_key(
                (#[trigger] edges[i]).target,
            ),
    decreases edges.len(),
{
    if edges.len() > 0 {
        lemma_targets_kept(nodes, edges.drop_last());
        assert forall|i: int| 0 <= i < edges.len() implies with_targets(
            nodes,
            edges,
        ).contains_key((#[trigger] edges[i]).target) by {
            if i < edges.len() - 1 {
                assert(edges.drop_last()[i] == edges[i]);
            }
        }
    }
}

proof fn lemma_page_nodes(pages: Seq<PageModel>, split: int)
    ensures
        forall|i: int|
            0 <= i < pages.len() && file_name((#[trigger] pages[i]).path) is Some ==> page_nodes(
                pages,
                split,
            ).contains_key(pages[i].slug()),
    decreases pages.len(),
{
    if pages.len() > 0 {
        lemma_page_nodes(pages.drop_last(), split);
        assert forall|i: int|
            0 <= i < pages.len() && file_name((#[trigger] pages[i]).path) is Some implies page_nodes(
            pages,
            split,
        ).contains_key(pages[i].slug()) by {
            if i < pages.len() - 1 {
                assert(pages.drop_last()[i] == pages[i]);
            }
        }
    }
}

proof fn lemma_rows_have_nodes(
    manifest: Manifest,
    files: Seq<RawFile>,
    start: Map<Seq<char>, NodeView>,
    pages: Seq<PageModel>,
)
    requires
        forall|i: int|
            0 <= i < pages.len() && file_name((#[trigger] pages[i]).path) is Some
                ==> start.contains_key(pages[i].slug()),
    ensures
        ({
            let map = all_nodes(manifest, files, start, pages);
            let rows = all_rows(manifest, files, pages);
            &&& forall|id: Seq<char>| #[trigger]
                start.contains_key(id) ==> map.contains_key(id) && map[id] == start[id]
            &&& forall|i: int|
                0 <= i < rows.len() ==> map.contains_key((#[trigger] rows[i]).source)
                    && map.contains_key(rows[i].target)
        }),
    decreases pages.len(),
{
    if pages.len() > 0 {
        let front = pages.drop_last();
        let page = pages.last();
        assert forall|i: int|
            0 <= i < front.len() && file_name((#[trigger] front[i]).path) is Some
            implies start.contains_key(front[i].slug()) by {
            assert(front[i] == pages[i]);
        }
        lemma_rows_have_nodes(manifest, files, start, front);
        if file_name(page.path) is Some {
            let rest = all_nodes(manifest, files, start, front);
            let edges = page_edges(manifest, files, page);
            lemma_targets_kept(rest, edges);
            assert(start.contains_key(pages[pages.len() - 1].slug()));
            let had = all_rows(manifest, files, front);
            let rows = all_rows(manifest, files, pages);
            let map = all_nodes(manifest, files, start, pages);
            assert(map == with_targets(rest, edges));
            assert forall|id: Seq<char>| #[trigger] start.contains_key(id) implies map.contains_key(
                id,
            ) && map[id] == start[id] by {
                assert(rest.contains_key(id));
            }
            assert(rest.contains_key(page.slug()));
            assert forall|i: int| 0 <= i < rows.len() implies map.contains_key(
                (#[trigger] rows[i]).source,
            ) && map.contains_key(rows[i].target) by {
                if i < had.len() {
                    assert(rows[i] == had[i]);
                    assert(rest.contains_key(had[i].source));
                    assert(rest.contains_key(had[i].target));
                } else {
                    assert(rows[i] == rows_from(page.slug(), edges)[i - had.len()]);
                    assert(rows[i].target == edges[i - had.len()].target);
                }
            }
        }
    }
}

/// Both ends of every link are nodes, and a page is the node of its slug whatever
/// leads there.
pub proof fn law_links_run_between_nodes(
    manifest: Manifest,
    files: Seq<RawFile>,
    pages: Seq<PageModel>,
    split: int,
)
    ensures
        ({
            let start = page_nodes(pages, split);
            let map = all_nodes(manifest, files, start, pages);
            let rows = graph_rows(manifest, files, pages);
            &&& forall|i: int|
                0 <= i < rows.len() ==> map.contains_key((#[trigger] rows[i]).source)
                    && map.contains_key(rows[i].target)
            &&& forall|id: Seq<char>| #[trigger]
                start.contains_key(id) ==> map.contains_key(id) && map[id] == start[id]
        }),
{
    let start = page_nodes(pages, split);
    lemma_page_nodes(pages, split);
    lemma_rows_have_nodes(manifest, files, start, pages);
    law_links_are_distinct(manifest, files, pages);
    let rows = graph_rows(manifest, files, pages);
    let all = all_rows(manifest, files, pages);
    let map = all_nodes(manifest, files, start, pages);
    assert forall|i: int| 0 <= i < rows.len() implies map.contains_key((#[trigger] rows[i]).source)
        && map.contains_key(rows[i].target) by {
        assert(rows.contains(rows[i]));
        assert(all.contains(rows[i]));
        let k = choose|k: int| 0 <= k < all.len() && all[k] == rows[i];
        assert(map.contains_key(all[k].source));
    }
}

proof fn lemma_no_self_wikilinks(slug: Seq<char>, all: Seq<LinkView>)
    ensures
        forall|i: int|
            0 <= i < wikilink_edges(slug, all).len() ==> ((#[trigger] wikilink_edges(
                slug,
                all,
            )[i]).kind == "wikilink"@ ==> wikilink_edges(slug, all)[i].target != slug),
    decreases all.len(),
{
    reveal_strlit("wikilink");
    reveal_strlit("cross_vault");
    assert("wikilink"@.len() != "cross_vault"@.len());
    if all.len() > 0 {
        lemma_no_self_wikilinks(slug, all.drop_last());
    }
}

proof fn lemma_source_kinds(manifest: Manifest, files: Seq<RawFile>, resources: Seq<Seq<char>>)
    ensures
        forall|i: int|
            0 <= i < source_edges(manifest, files, resources).len() ==> (#[trigger] source_edges(
                manifest,
                files,
                resources,
            )[i]).kind == "source"@,
    decreases resources.len(),
{
    if resources.len() > 0 {
        lemma_source_kinds(manifest, files, resources.drop_last());
    }
}

proof fn lemma_page_has_no_self_wikilink(manifest: Manifest, files: Seq<RawFile>, page: PageModel)
    ensures
        forall|i: int|
            0 <= i < page_edges(manifest, files, page).len() ==> ((#[trigger] page_edges(
                manifest,
                files,
                page,
            )[i]).kind == "wikilink"@ ==> page_edges(manifest, files, page)[i].target
                != page.slug()),
{
    let a = wikilink_edges(page.slug(), links(linked_text(page)));
    let b = tag_edges(page_tags(page));
    let c = source_edges(manifest, files, page.resources());
    lemma_no_self_wikilinks(page.slug(), links(linked_text(page)));
    lemma_source_kinds(manifest, files, page.resources());
    reveal_strlit("wikilink");
    reveal_strlit("tag");
    reveal_strlit("source");
    assert("wikilink"@.len() == 8 && "tag"@.len() == 3 && "source"@.len() == 6);
    let all = page_edges(manifest, files, page);
    assert forall|i: int| 0 <= i < all.len() implies ((#[trigger] all[i]).kind == "wikilink"@
        ==> all[i].target != page.slug()) by {
        if i < a.len() {
            assert(all[i] == a[i]);
        } else if i < a.len() + b.len() {
            assert(all[i] == b[i - a.len()]);
        } else {
            assert(all[i] == c[i - a.len() - b.len()]);
        }
    }
}

proof fn lemma_rows_have_no_self_wikilink(
    manifest: Manifest,
    files: Seq<RawFile>,
    pages: Seq<PageModel>,
)
    ensures
        forall|i: int|
            0 <= i < all_rows(manifest, files, pages).len() ==> ((#[trigger] all_rows(
                manifest,
                files,
                pages,
            )[i]).kind == "wikilink"@ ==> all_rows(manifest, files, pages)[i].source != all_rows(
                manifest,
                files,
                pages,
            )[i].target),
    decreases pages.len(),
{
    if pages.len() > 0 {
        let page = pages.last();
        lemma_rows_have_no_self_wikilink(manifest, files, pages.drop_last());
        lemma_page_has_no_self_wikilink(manifest, files, page);
        let had = all_rows(manifest, files, pages.drop_last());
        let rows = all_rows(manifest, files, pages);
        let edges = page_edges(manifest, files, page);
        assert forall|i: int| 0 <= i < rows.len() implies ((#[trigger] rows[i]).kind
            == "wikilink"@ ==> rows[i].source != rows[i].target) by {
            if i < had.len() {
                assert(rows[i] == had[i]);
            } else {
                assert(rows[i] == rows_from(page.slug(), edges)[i - had.len()]);
                assert(edges[i - had.len()].kind == rows[i].kind);
            }
        }
    }
}

/// No page is linked to itself by a wikilink.
pub proof fn law_no_self_wikilinks(manifest: Manifest, files: Seq<RawFile>, pages: Seq<PageModel>)
    ensures
        forall|r: LinkRow| #[trigger]
            graph_rows(manifest, files, pages).contains(r) && r.kind == "wikilink"@ ==> r.source
                != r.target,
{
    law_links_are_distinct(manifest, files, pages);
    lemma_rows_have_no_self_wikilink(manifest, files, pages);
    let all = all_rows(manifest, files, pages);
    assert forall|r: LinkRow| #[trigger]
        graph_rows(manifest, files, pages).contains(r) && r.kind == "wikilink"@ implies r.source
        != r.target by {
        assert(all.contains(r));
        let k = choose|k: int| 0 <= k < all.len() && all[k] == r;
        assert(all[k].kind == "wikilink"@);
    }
}

/// More inbound links mean a better rank, and as many the same rank; rank one goes
/// to the most inbound links there are.
pub proof fn law_rank_follows_inbound_links(nodes: Seq<GraphNode>, i: int, j: int)
    requires
        ranked(nodes),
        0 <= i < nodes.len(),
        0 <= j < nodes.len(),
    ensures
        nodes[i].in_degree > nodes[j].in_degree <==> nodes[i].hub_rank < nodes[j].hub_rank,
        nodes[i].in_degree == nodes[j].in_degree <==> nodes[i].hub_rank == nodes[j].hub_rank,
        (forall|k: int| 0 <= k < nodes.len() ==> (#[trigger] nodes[k]).in_degree
            <= nodes[i].in_degree) ==> nodes[i].hub_rank == 1,
{
    let levels = choose|levels: Seq<usize>| #[trigger] ranked_by(levels, nodes);
    let n = levels.len() as int;
    let a = n - nodes[i].hub_rank;
    let b = n - nodes[j].hub_rank;
    assert(levels[a] == nodes[i].in_degree);
    assert(levels[b] == nodes[j].in_degree);
    if forall|k: int| 0 <= k < nodes.len() ==> (#[trigger] nodes[k]).in_degree
        <= nodes[i].in_degree {
        let top = levels[n - 1];
        assert(levels.contains(top));
        if a < n - 1 {
            assert(levels[a] < levels[n - 1]);
        }
    }
}

spec fn sources_into(rows: Seq<LinkRow>, id: Seq<char>) -> Set<Seq<char>>
    decreases rows.len(),
{
    if rows.len() == 0 {
        Set::empty()
    } else if rows.last().target == id {
        sources_into(rows.drop_last(), id).insert(rows.last().source)
    } else {
        sources_into(rows.drop_last(), id)
    }
}

proof fn lemma_sources_into(rows: Seq<LinkRow>, id: Seq<char>)
    requires
        ends_differ(rows),
    ensures
        sources_into(rows, id).finite(),
        sources_into(rows, id).len() == count_in(rows, id),
        forall|s: Seq<char>| #[trigger] sources_into(rows, id).contains(s) <==> linked(rows, s, id),
    decreases rows.len(),
{
    if rows.len() > 0 {
        let front = rows.drop_last();
        assert forall|i: int, j: int| #![trigger front[i], front[j]] 0 <= i < j
            < front.len() implies !same_ends(front[i], front[j]) by {
            assert(front[i] == rows[i] && front[j] == rows[j]);
        }
        lemma_sources_into(front, id);
        let last = rows.last();
        assert forall|s: Seq<char>| #[trigger] sources_into(rows, id).contains(s) <==> linked(
            rows,
            s,
            id,
        ) by {
            if linked(front, s, id) {
                let k = choose|k: int|
                    0 <= k < front.len() && (#[trigger] front[k]).source == s && front[k].target
                        == id;
                assert(rows[k] == front[k]);
            }
            if linked(rows, s, id) {
                let k = choose|k: int|
                    0 <= k < rows.len() && (#[trigger] rows[k]).source == s && rows[k].target
                        == id;
                if k < front.len() {
                    assert(front[k] == rows[k]);
                }
            }
            if last.target == id && s == last.source {
                assert(rows[rows.len() - 1].source == s);
            }
        }
        if last.target == id {
            assert(!linked(front, last.source, id)) by {
                if linked(front, last.source, id) {
                    let k = choose|k: int|
                        0 <= k < front.len() && (#[trigger] front[k]).source == last.source
                            && front[k].target == id;
                    assert(rows[k] == front[k]);
                    assert(same_ends(rows[k], rows[rows.len() - 1]));
                }
            }
            assert(!sources_into(front, id).contains(last.source));
        }
    } else {
        assert forall|s: Seq<char>| !linked(rows, s, id) by {}
    }
}

/// The number of inbound links of a node is the number of different nodes that link
/// to it.
pub proof fn law_in_degree_counts_nodes(
    manifest: Manifest,
    files: Seq<RawFile>,
    pages: Seq<PageModel>,
    id: Seq<char>,
)
    ensures
        ({
            let rows = graph_rows(manifest, files, pages);
            count_in(rows, id) == Set::new(|s: Seq<char>| linked(rows, s, id)).len()
        }),
{
    let rows = graph_rows(manifest, files, pages);
    law_links_are_distinct(manifest, files, pages);
    lemma_sources_into(rows, id);
    assert(sources_into(rows, id) =~= Set::new(|s: Seq<char>| linked(rows, s, id)));
}

/// Stripping takes the hash signs off the front of a tag and nothing else.
pub proof fn law_hash_signs_are_taken_off_the_front(s: Seq<char>)
    ensures
        without_hashes(s).len() <= s.len(),
        without_hashes(s) == s.skip(s.len() - without_hashes(s).len()),
        forall|i: int| 0 <= i < s.len() - without_hashes(s).len() ==> #[trigger] s[i] == '#',
        without_hashes(s).len() > 0 ==> without_hashes(s)[0] != '#',
    decreases s.len(),
{
    if s.len() > 0 && s[0] == '#' {
        let rest = s.skip(1);
        law_hash_signs_are_taken_off_the_front(rest);
        let n = s.len() - without_hashes(s).len();
        assert(without_hashes(s) =~= s.skip(n));
        assert forall|i: int| 0 <= i < n implies #[trigger] s[i] == '#' by {
            if i > 0 {
                assert(rest[i - 1] == '#');
            }
        }
    } else {
        assert(s.skip(0) =~= s);
    }
}

proof fn lemma_before_any(s: Seq<char>, t: Seq<char>, a: char, b: char)
    requires
        !s.contains(a),
        !s.contains(b),
        t.len() == 0 || t[0] == a || t[0] == b,
    ensures
        before_any(s + t, a, b) == s,
    decreases s.len(),
{
    if s.len() == 0 {
        assert(s + t =~= t);
        assert(before_any(t, a, b) =~= s);
    } else {
        let rest = s.skip(1);
        assert forall|c: char| !s.contains(c) implies !rest.contains(c) by {
            if rest.contains(c) {
                let k = choose|k: int| 0 <= k < rest.len() && rest[k] == c;
                assert(s[k + 1] == c);
            }
        }
        lemma_before_any(rest, t, a, b);
        assert((s + t).skip(1) =~= rest + t);
        assert(s.contains(s[0]));
        assert(seq![s[0]] + rest =~= s);
    }
}

/// A link names the page whose name its text begins with: a heading behind `#`, a block
/// behind `^` and a text to be shown behind `|` do not matter, nor does white space around
/// the name.
pub proof fn law_a_link_names_what_its_text_begins_with(name: Seq<char>, rest: Seq<char>)
    requires
        !name.contains('|') && !name.contains('#') && !name.contains('^'),
    ensures
        link_target(name) == trim(name),
        link_target(name + seq!['|'] + rest) == trim(name),
        link_target(name + seq!['#'] + rest) == trim(name),
        link_target(name + seq!['^'] + rest) == trim(name),
{
    assert(name + Seq::<char>::empty() =~= name);
    lemma_before_any(name, Seq::<char>::empty(), '|', '|');
    lemma_before_any(name, Seq::<char>::empty(), '#', '^');
    assert(name + seq!['|'] + rest =~= name + (seq!['|'] + rest));
    lemma_before_any(name, seq!['|'] + rest, '|', '|');
    lemma_anchored(name, '#', rest);
    lemma_anchored(name, '^', rest);
}

proof fn lemma_anchored(name: Seq<char>, mark: char, rest: Seq<char>)
    requires
        !name.contains('|') && !name.contains('#') && !name.contains('^'),
        mark == '#' || mark == '^',
    ensures
        link_target(name + seq![mark] + rest) == trim(name),
{
    let whole = name + seq![mark] + rest;
    let shown = before_any(rest, '|', '|');
    lemma_shown(name + seq![mark], rest);
    assert(name + seq![mark] + shown =~= name + (seq![mark] + shown));
    lemma_before_any(name, seq![mark] + shown, '#', '^');
}

proof fn lemma_shown(front: Seq<char>, rest: Seq<char>)
    requires
        !front.contains('|'),
    ensures
        before_any(front + rest, '|', '|') == front + before_any(rest, '|', '|'),
    decreases front.len(),
{
    if front.len() == 0 {
        assert(front + rest =~= rest);
        assert(front + before_any(rest, '|', '|') =~= before_any(rest, '|', '|'));
    } else {
        let tail = front.skip(1);
        assert(!tail.contains('|')) by {
            if tail.contains('|') {
                let k = choose|k: int| 0 <= k < tail.len() && tail[k] == '|';
                assert(front[k + 1] == '|');
            }
        }
        lemma_shown(tail, rest);
        assert((front + rest).skip(1) =~= tail + rest);
        assert(front.contains(front[0]));
        assert(before_any(front + rest, '|', '|') =~= front + before_any(rest, '|', '|'));
    }
}

/// The text of a page that its wikilinks stand in: what follows its frontmatter, or all of it
/// where its frontmatter cannot be read.
pub open spec fn text_with_links(page: PageModel) -> Seq<char> {
    if page.parsed is Ok {
        page.parsed->Ok_0.body
    } else {
        page.content
    }
}

/// Whether a page leads to the node `target` by a link of the kind `kind`: by a wikilink in
/// its text, by a tag or by a source of its frontmatter.
pub open spec fn page_leads_to(page: PageModel, target: Seq<char>, kind: Seq<char>) -> bool {
    let text = text_with_links(page);
    let front = page.parsed->Ok_0.frontmatter;
    ||| kind == "wikilink"@ && target.len() > 0 && target != file_stem(page.path) && exists|
        name: Seq<char>,
    | #[trigger] links(text).contains(LinkView::Local(name)) && target == link_target(name)
    ||| kind == "cross_vault"@ && exists|vault: Seq<char>, concept: Seq<char>|
        #![trigger links(text).contains(LinkView::CrossVault { vault, concept })]
        links(text).contains((LinkView::CrossVault { vault, concept })) && target == vault + "::"@
            + link_target(concept)
    ||| kind == "tag"@ && page.parsed is Ok && exists|k: int|
        0 <= k < front.tags.len() && without_hashes(trim(#[trigger] front.tags[k])).len() > 0
            && target == "#"@ + without_hashes(trim(front.tags[k]))
    ||| kind == "source"@ && page.parsed is Ok && exists|k: int|
        0 <= k < front.sources.len() && raw_identity((#[trigger] front.sources[k]).resource)
            is Some && target == "raw:"@ + raw_identity(front.sources[k].resource)->0
}

proof fn lemma_clean_tags(tags: Seq<Seq<char>>, tag: Seq<char>)
    ensures
        clean_tags(tags).contains(tag) <==> exists|k: int|
            0 <= k < tags.len() && without_hashes(trim(#[trigger] tags[k])) == tag && tag.len() > 0,
    decreases tags.len(),
{
    if tags.len() > 0 {
        let front = tags.drop_last();
        let rest = clean_tags(front);
        let last = without_hashes(trim(tags.last()));
        lemma_clean_tags(front, tag);
        lemma_contained_in_either(rest, seq![last], tag);
        assert(rest.push(last) =~= rest + seq![last]);
        assert(seq![last].contains(tag) <==> last == tag) by {
            assert(seq![last][0] == last);
        }
        if exists|k: int|
            0 <= k < front.len() && without_hashes(trim(#[trigger] front[k])) == tag && tag.len()
                > 0 {
            let k = choose|k: int|
                0 <= k < front.len() && without_hashes(trim(#[trigger] front[k])) == tag
                    && tag.len() > 0;
            assert(without_hashes(trim(tags[k])) == tag);
        }
        if last == tag {
            assert(without_hashes(trim(tags[tags.len() - 1])) == tag);
        }
        if exists|k: int|
            0 <= k < tags.len() && without_hashes(trim(#[trigger] tags[k])) == tag && tag.len()
                > 0 {
            let k = choose|k: int|
                0 <= k < tags.len() && without_hashes(trim(#[trigger] tags[k])) == tag
                    && tag.len() > 0;
            if k < front.len() {
                assert(without_hashes(trim(front[k])) == tag);
            }
        }
    }
}

proof fn lemma_wikilink_edges(slug: Seq<char>, all: Seq<LinkView>)
    ensures
        wikilink_edges(slug, all) == gathered(all, |link: LinkView| wikilink_edge(slug, link)),
    decreases all.len(),
{
    if all.len() > 0 {
        lemma_wikilink_edges(slug, all.drop_last());
    }
}

proof fn lemma_source_edges(manifest: Manifest, files: Seq<RawFile>, resources: Seq<Seq<char>>)
    ensures
        source_edges(manifest, files, resources) == gathered(
            resources,
            |resource: Seq<char>| source_edge(manifest, files, resource),
        ),
    decreases resources.len(),
{
    if resources.len() > 0 {
        lemma_source_edges(manifest, files, resources.drop_last());
    }
}

proof fn lemma_edge_of_page(
    manifest: Manifest,
    files: Seq<RawFile>,
    page: PageModel,
    edge: EdgeView,
)
    requires
        page_edges(manifest, files, page).contains(edge),
    ensures
        page_leads_to(page, edge.target, edge.kind),
{
    assert(linked_text(page) == text_with_links(page));
    let found = links(text_with_links(page));
    let a = wikilink_edges(page.slug(), found);
    let b = tag_edges(page_tags(page));
    let c = source_edges(manifest, files, page.resources());
    let f = |link: LinkView| wikilink_edge(page.slug(), link);
    let g = |resource: Seq<char>| source_edge(manifest, files, resource);
    lemma_contained_in_either(a, b, edge);
    lemma_contained_in_either(a + b, c, edge);
    lemma_wikilink_edges(page.slug(), found);
    lemma_source_edges(manifest, files, page.resources());
    law_gathered_values_are_those_that_are_made(found, f, edge);
    law_gathered_values_are_those_that_are_made(page.resources(), g, edge);
    if a.contains(edge) {
        let k = choose|k: int| 0 <= k < found.len() && f(#[trigger] found[k]) == Some(edge);
        assert(found.contains(found[k]));
        match found[k] {
            LinkView::Local(name) => {
                assert(links(text_with_links(page)).contains(LinkView::Local(name)));
            },
            LinkView::CrossVault { vault, concept } => {
                assert(links(text_with_links(page)).contains(
                    LinkView::CrossVault { vault, concept },
                ));
            },
        }
    } else if b.contains(edge) {
        let tags = page_tags(page);
        let k = choose|k: int| 0 <= k < b.len() && b[k] == edge;
        assert(edge == tag_edge(tags[k]));
        assert(tags.contains(tags[k]));
        lemma_clean_tags(page.parsed->Ok_0.frontmatter.tags, tags[k]);
        let m = choose|m: int|
            0 <= m < page.parsed->Ok_0.frontmatter.tags.len() && without_hashes(
                trim(#[trigger] page.parsed->Ok_0.frontmatter.tags[m]),
            ) == tags[k] && tags[k].len() > 0;
        assert(without_hashes(trim(page.parsed->Ok_0.frontmatter.tags[m])).len() > 0);
    } else {
        let k = choose|k: int|
            0 <= k < page.resources().len() && g(#[trigger] page.resources()[k]) == Some(edge);
        assert(page.parsed->Ok_0.frontmatter.sources[k].resource == page.resources()[k]);
    }
}

proof fn lemma_edge_is_there(
    manifest: Manifest,
    files: Seq<RawFile>,
    page: PageModel,
    target: Seq<char>,
    kind: Seq<char>,
) -> (edge: EdgeView)
    requires
        page_leads_to(page, target, kind),
    ensures
        page_edges(manifest, files, page).contains(edge),
        edge.target == target,
        edge.kind == kind,
{
    assert(linked_text(page) == text_with_links(page));
    let found = links(text_with_links(page));
    let front = page.parsed->Ok_0.frontmatter;
    let a = wikilink_edges(page.slug(), found);
    let b = tag_edges(page_tags(page));
    let c = source_edges(manifest, files, page.resources());
    let f = |link: LinkView| wikilink_edge(page.slug(), link);
    let g = |resource: Seq<char>| source_edge(manifest, files, resource);
    lemma_wikilink_edges(page.slug(), found);
    lemma_source_edges(manifest, files, page.resources());
    let edge = if kind == "wikilink"@ && target.len() > 0 && target != file_stem(page.path)
        && exists|name: Seq<char>| #[trigger]
        found.contains(LinkView::Local(name)) && target == link_target(name) {
        let name = choose|name: Seq<char>| #[trigger]
            found.contains(LinkView::Local(name)) && target == link_target(name);
        let k = choose|k: int| 0 <= k < found.len() && found[k] == LinkView::Local(name);
        let edge = f(found[k])->0;
        law_gathered_values_are_those_that_are_made(found, f, edge);
        assert(f(found[k]) == Some(edge));
        edge
    } else if kind == "cross_vault"@ && exists|vault: Seq<char>, concept: Seq<char>|
        #![trigger found.contains(LinkView::CrossVault { vault, concept })]
        found.contains((LinkView::CrossVault { vault, concept })) && target == vault + "::"@
            + link_target(concept) {
        let (vault, concept) = choose|vault: Seq<char>, concept: Seq<char>|
            #![trigger found.contains(LinkView::CrossVault { vault, concept })]
            found.contains((LinkView::CrossVault { vault, concept })) && target == vault + "::"@
                + link_target(concept);
        let k = choose|k: int|
            0 <= k < found.len() && found[k] == (LinkView::CrossVault { vault, concept });
        let edge = f(found[k])->0;
        law_gathered_values_are_those_that_are_made(found, f, edge);
        assert(f(found[k]) == Some(edge));
        edge
    } else if kind == "tag"@ && page.parsed is Ok && exists|k: int|
        0 <= k < front.tags.len() && without_hashes(trim(#[trigger] front.tags[k])).len() > 0
            && target == "#"@ + without_hashes(trim(front.tags[k])) {
        let k = choose|k: int|
            0 <= k < front.tags.len() && without_hashes(trim(#[trigger] front.tags[k])).len() > 0
                && target == "#"@ + without_hashes(trim(front.tags[k]));
        let tag = without_hashes(trim(front.tags[k]));
        lemma_clean_tags(front.tags, tag);
        let tags = page_tags(page);
        let m = choose|m: int| 0 <= m < tags.len() && tags[m] == tag;
        assert(b[m] == tag_edge(tag));
        tag_edge(tag)
    } else {
        let k = choose|k: int|
            0 <= k < front.sources.len() && raw_identity((#[trigger] front.sources[k]).resource)
                is Some && target == "raw:"@ + raw_identity(front.sources[k].resource)->0;
        assert(page.resources()[k] == front.sources[k].resource);
        let edge = g(page.resources()[k])->0;
        law_gathered_values_are_those_that_are_made(page.resources(), g, edge);
        assert(g(page.resources()[k]) == Some(edge));
        edge
    };
    lemma_contained_in_either(a, b, edge);
    lemma_contained_in_either(a + b, c, edge);
    edge
}

proof fn lemma_all_rows(
    manifest: Manifest,
    files: Seq<RawFile>,
    pages: Seq<PageModel>,
    row: LinkRow,
)
    ensures
        all_rows(manifest, files, pages).contains(row) <==> exists|i: int|
            0 <= i < pages.len() && file_name((#[trigger] pages[i]).path) is Some && row.source
                == file_stem(pages[i].path) && page_leads_to(pages[i], row.target, row.kind),
    decreases pages.len(),
{
    if pages.len() > 0 {
        let front = pages.drop_last();
        let last = pages.last();
        let edges = page_edges(manifest, files, last);
        let more = rows_from(last.slug(), edges);
        lemma_all_rows(manifest, files, front, row);
        lemma_contained_in_either(all_rows(manifest, files, front), more, row);
        if more.contains(row) {
            let k = choose|k: int| 0 <= k < more.len() && more[k] == row;
            assert(edges.contains(edges[k]));
            lemma_edge_of_page(manifest, files, last, edges[k]);
        }
        if row.source == last.slug() && page_leads_to(last, row.target, row.kind) {
            let edge = lemma_edge_is_there(manifest, files, last, row.target, row.kind);
            let k = choose|k: int| 0 <= k < edges.len() && edges[k] == edge;
            assert(more[k] == row);
        }
        if exists|i: int|
            0 <= i < front.len() && file_name((#[trigger] front[i]).path) is Some && row.source
                == file_stem(front[i].path) && page_leads_to(front[i], row.target, row.kind) {
            let i = choose|i: int|
                0 <= i < front.len() && file_name((#[trigger] front[i]).path) is Some && row.source
                    == file_stem(front[i].path) && page_leads_to(front[i], row.target, row.kind);
            assert(pages[i] == front[i]);
        }
        if file_name(last.path) is Some && row.source == last.slug() && page_leads_to(
            last,
            row.target,
            row.kind,
        ) {
            assert(pages[pages.len() - 1] == last);
        }
        if exists|i: int|
            0 <= i < pages.len() && file_name((#[trigger] pages[i]).path) is Some && row.source
                == file_stem(pages[i].path) && page_leads_to(pages[i], row.target, row.kind) {
            let i = choose|i: int|
                0 <= i < pages.len() && file_name((#[trigger] pages[i]).path) is Some && row.source
                    == file_stem(pages[i].path) && page_leads_to(pages[i], row.target, row.kind);
            if i < front.len() {
                assert(front[i] == pages[i]);
            }
        }
    }
}

/// Whether `graph` is the link graph of a vault with these concept and entity pages.
pub open spec fn is_graph_of(
    graph: Graph,
    concepts: Seq<PageModel>,
    entities: Seq<PageModel>,
    manifest: Manifest,
    files: Seq<RawFile>,
) -> bool {
    let pages = page_order(concepts, entities);
    let start = page_nodes(pages, concepts.len() as int);
    &&& views(graph.links@) == graph_rows(manifest, files, pages)
    &&& nodes_are(
        graph.nodes@,
        all_nodes(manifest, files, start, pages),
        views(graph.links@),
    )
    &&& graph.unparsed_pages == unparsed(pages)
}

/// Whether a page is one of the vault's and has a file name to go by.
pub open spec fn is_page_of(
    page: PageModel,
    concepts: Seq<PageModel>,
    entities: Seq<PageModel>,
) -> bool {
    (concepts.contains(page) || entities.contains(page)) && file_name(page.path) is Some
}

proof fn lemma_page_order(
    concepts: Seq<PageModel>,
    entities: Seq<PageModel>,
    page: PageModel,
)
    ensures
        page_order(concepts, entities).contains(page) <==> concepts.contains(page)
            || entities.contains(page),
{
    lemma_sorted::<PageFile>(concepts);
    lemma_sorted::<PageFile>(entities);
    lemma_contained_in_either(
        sorted::<PageFile>(concepts),
        sorted::<PageFile>(entities),
        page,
    );
}

/// Every link of the graph comes from a page that goes by the name of its source and leads
/// to its target by a link of its kind.
pub proof fn law_every_link_comes_from_a_page(
    graph: Graph,
    concepts: Seq<PageModel>,
    entities: Seq<PageModel>,
    manifest: Manifest,
    files: Seq<RawFile>,
    row: LinkRow,
)
    requires
        is_graph_of(graph, concepts, entities, manifest, files),
        views(graph.links@).contains(row),
    ensures
        exists|page: PageModel| #[trigger]
            is_page_of(page, concepts, entities) && row.source == file_stem(page.path)
                && page_leads_to(page, row.target, row.kind),
{
    let pages = page_order(concepts, entities);
    law_links_are_distinct(manifest, files, pages);
    lemma_all_rows(manifest, files, pages, row);
    let i = choose|i: int|
        0 <= i < pages.len() && file_name((#[trigger] pages[i]).path) is Some && row.source
            == file_stem(pages[i].path) && page_leads_to(pages[i], row.target, row.kind);
    assert(pages.contains(pages[i]));
    lemma_page_order(concepts, entities, pages[i]);
    assert(is_page_of(pages[i], concepts, entities));
}

/// Whatever a page leads to, the graph has a link from the page to it, and both are nodes.
/// The link is of the kind by which the page leads there, unless a page of that name leads
/// there in another way too.
pub proof fn law_the_graph_has_every_link_of_every_page(
    graph: Graph,
    concepts: Seq<PageModel>,
    entities: Seq<PageModel>,
    manifest: Manifest,
    files: Seq<RawFile>,
    page: PageModel,
    target: Seq<char>,
    kind: Seq<char>,
)
    requires
        is_graph_of(graph, concepts, entities, manifest, files),
        is_page_of(page, concepts, entities),
        page_leads_to(page, target, kind),
    ensures
        ids_of(graph.nodes@).contains(file_stem(page.path)),
        ids_of(graph.nodes@).contains(target),
        exists|k: int|
            0 <= k < graph.links@.len() && (#[trigger] graph.links@[k]).source@ == file_stem(
                page.path,
            ) && graph.links@[k].target@ == target,
        (forall|other: PageModel, way: Seq<char>|
            is_page_of(other, concepts, entities) && file_stem(other.path) == file_stem(page.path)
                && #[trigger] page_leads_to(other, target, way) ==> way == kind) ==> views(
            graph.links@,
        ).contains(LinkRow { source: file_stem(page.path), target, kind }),
{
    let pages = page_order(concepts, entities);
    let split = concepts.len() as int;
    let start = page_nodes(pages, split);
    let map = all_nodes(manifest, files, start, pages);
    let rows = views(graph.links@);
    let all = all_rows(manifest, files, pages);
    let row = LinkRow { source: file_stem(page.path), target, kind };
    lemma_page_order(concepts, entities, page);
    let i = choose|i: int| 0 <= i < pages.len() && pages[i] == page;
    assert(pages[i].path == page.path);
    lemma_all_rows(manifest, files, pages, row);
    assert(all.contains(row));
    law_links_are_distinct(manifest, files, pages);
    let m = choose|m: int| 0 <= m < all.len() && all[m] == row;
    assert(covered(rows, all[m]));
    let k = choose|k: int| 0 <= k < rows.len() && #[trigger] same_ends(rows[k], row);
    assert(rows[k] == graph.links@[k]@);
    assert(graph.links@[k].source@ == file_stem(page.path));
    law_links_run_between_nodes(manifest, files, pages, split);
    assert(map.contains_key(rows[k].source));
    assert(map.contains_key(rows[k].target));
    if forall|other: PageModel, way: Seq<char>|
        is_page_of(other, concepts, entities) && file_stem(other.path) == file_stem(page.path)
            && #[trigger] page_leads_to(other, target, way) ==> way == kind {
        assert(rows.contains(rows[k]));
        law_every_link_comes_from_a_page(graph, concepts, entities, manifest, files, rows[k]);
        let other = choose|other: PageModel| #[trigger]
            is_page_of(other, concepts, entities) && rows[k].source == file_stem(other.path)
                && page_leads_to(other, rows[k].target, rows[k].kind);
        assert(page_leads_to(other, target, rows[k].kind));
        assert(rows[k] =~= row);
    }
}

proof fn lemma_no_hash_in_target(text: Seq<char>)
    ensures
        !link_target(text).contains('#'),
{
    let name = before_any(text, '|', '|');
    let front = before_any(name, '#', '^');
    lemma_nothing_behind(name, '#', '^');
    law_trimming_takes_white_space_off_the_ends(front);
    let (a, b) = choose|a: int, b: int|
        0 <= a <= b <= front.len() && #[trigger] front.subrange(a, b) == trim(front);
    if link_target(text).contains('#') {
        let k = choose|k: int| 0 <= k < trim(front).len() && trim(front)[k] == '#';
        assert(front[a + k] == '#');
    }
}

proof fn lemma_nothing_behind(s: Seq<char>, a: char, b: char)
    ensures
        !before_any(s, a, b).contains(a),
    decreases s.len(),
{
    if !(s.len() == 0 || s[0] == a || s[0] == b) {
        lemma_nothing_behind(s.skip(1), a, b);
        lemma_contained_in_either(seq![s[0]], before_any(s.skip(1), a, b), a);
    }
}

/// Whether a page has a link to the page `id` of another vault.
pub open spec fn page_crosses_to(page: PageModel, id: Seq<char>) -> bool {
    exists|vault: Seq<char>, concept: Seq<char>|
        #![trigger links(text_with_links(page)).contains(LinkView::CrossVault { vault, concept })]
        links(text_with_links(page)).contains((LinkView::CrossVault { vault, concept })) && id
            == vault + "::"@ + link_target(concept)
}

/// For every tag on a page that can be read that is not empty once the white space around
/// it and the hash signs in front are gone, the graph has a node under `#` and the tag, and
/// a link from the page to it. The link is of the kind `tag`, unless a page of that name has
/// a link to another vault that reads just the same. The page's node lists the tag, as long
/// as the page shares its name with no other.
pub proof fn law_every_tag_is_a_node_and_a_link(
    graph: Graph,
    concepts: Seq<PageModel>,
    entities: Seq<PageModel>,
    manifest: Manifest,
    files: Seq<RawFile>,
    page: PageModel,
    k: int,
    tag: Seq<char>,
)
    requires
        is_graph_of(graph, concepts, entities, manifest, files),
        is_page_of(page, concepts, entities),
        page.parsed is Ok,
        0 <= k < page.parsed->Ok_0.frontmatter.tags.len(),
        tag == without_hashes(trim(page.parsed->Ok_0.frontmatter.tags[k])),
        tag.len() > 0,
    ensures
        ids_of(graph.nodes@).contains("#"@ + tag),
        exists|m: int|
            0 <= m < graph.links@.len() && (#[trigger] graph.links@[m]).source@ == file_stem(
                page.path,
            ) && graph.links@[m].target@ == "#"@ + tag,
        (forall|other: PageModel| #[trigger]
            is_page_of(other, concepts, entities) && file_stem(other.path) == file_stem(page.path)
                ==> !page_crosses_to(other, "#"@ + tag)) ==> views(graph.links@).contains(
            LinkRow { source: file_stem(page.path), target: "#"@ + tag, kind: "tag"@ },
        ),
        (forall|other: PageModel| #[trigger]
            is_page_of(other, concepts, entities) && file_stem(other.path) == file_stem(page.path)
                ==> other == page) ==> exists|i: int|
            0 <= i < graph.nodes@.len() && (#[trigger] graph.nodes@[i]).id@ == file_stem(page.path)
                && views(graph.nodes@[i].tags@).contains(tag),
{
    let target = "#"@ + tag;
    assert(without_hashes(trim(page.parsed->Ok_0.frontmatter.tags[k])).len() > 0);
    assert(page_leads_to(page, target, "tag"@));
    if forall|other: PageModel| #[trigger]
        is_page_of(other, concepts, entities) && file_stem(other.path) == file_stem(page.path)
            ==> !page_crosses_to(other, target) {
        assert forall|other: PageModel, way: Seq<char>|
            is_page_of(other, concepts, entities) && file_stem(other.path) == file_stem(page.path)
                && #[trigger] page_leads_to(other, target, way) implies way == "tag"@ by {
            lemma_tag_target(other, tag, way);
        }
    }
    law_the_graph_has_every_link_of_every_page(
        graph,
        concepts,
        entities,
        manifest,
        files,
        page,
        target,
        "tag"@,
    );
    if forall|other: PageModel| #[trigger]
        is_page_of(other, concepts, entities) && file_stem(other.path) == file_stem(page.path)
            ==> other == page {
        law_a_page_is_a_node_that_says_what_the_page_says(
            graph,
            concepts,
            entities,
            manifest,
            files,
            page,
            tag,
        );
    }
}

proof fn lemma_tag_target(page: PageModel, tag: Seq<char>, kind: Seq<char>)
    requires
        page_leads_to(page, "#"@ + tag, kind),
        !page_crosses_to(page, "#"@ + tag),
    ensures
        kind == "tag"@,
{
    let target = "#"@ + tag;
    let text = text_with_links(page);
    reveal_strlit("#");
    reveal_strlit("raw:");
    assert(target[0] == '#');
    if exists|name: Seq<char>| #[trigger]
        links(text).contains(LinkView::Local(name)) && target == link_target(name) {
        let name = choose|name: Seq<char>| #[trigger]
            links(text).contains(LinkView::Local(name)) && target == link_target(name);
        lemma_no_hash_in_target(name);
        assert(target.contains('#'));
    }
    if page.parsed is Ok && exists|k: int|
        0 <= k < page.parsed->Ok_0.frontmatter.sources.len() && raw_identity(
            (#[trigger] page.parsed->Ok_0.frontmatter.sources[k]).resource,
        ) is Some && target == "raw:"@ + raw_identity(
            page.parsed->Ok_0.frontmatter.sources[k].resource,
        )->0 {
        let k = choose|k: int|
            0 <= k < page.parsed->Ok_0.frontmatter.sources.len() && raw_identity(
                (#[trigger] page.parsed->Ok_0.frontmatter.sources[k]).resource,
            ) is Some && target == "raw:"@ + raw_identity(
                page.parsed->Ok_0.frontmatter.sources[k].resource,
            )->0;
        assert(("raw:"@ + raw_identity(
            page.parsed->Ok_0.frontmatter.sources[k].resource,
        )->0)[0] == 'r');
    }
}

/// Every link of the kind `tag` comes from a tag on a page that can be read.
pub proof fn law_every_tag_link_comes_from_a_tag(
    graph: Graph,
    concepts: Seq<PageModel>,
    entities: Seq<PageModel>,
    manifest: Manifest,
    files: Seq<RawFile>,
    row: LinkRow,
)
    requires
        is_graph_of(graph, concepts, entities, manifest, files),
        views(graph.links@).contains(row),
        row.kind == "tag"@,
    ensures
        exists|page: PageModel, k: int|
            #![trigger is_page_of(page, concepts, entities), page.parsed->Ok_0.frontmatter.tags[k]]
            is_page_of(page, concepts, entities) && row.source == file_stem(page.path)
                && page.parsed is Ok && 0 <= k < page.parsed->Ok_0.frontmatter.tags.len()
                && without_hashes(trim(page.parsed->Ok_0.frontmatter.tags[k])).len() > 0
                && row.target == "#"@ + without_hashes(
                trim(page.parsed->Ok_0.frontmatter.tags[k]),
            ),
{
    law_every_link_comes_from_a_page(graph, concepts, entities, manifest, files, row);
    let page = choose|page: PageModel| #[trigger]
        is_page_of(page, concepts, entities) && row.source == file_stem(page.path)
            && page_leads_to(page, row.target, row.kind);
    reveal_strlit("wikilink");
    reveal_strlit("cross_vault");
    reveal_strlit("tag");
    reveal_strlit("source");
    assert("tag"@.len() == 3 && "wikilink"@.len() == 8 && "cross_vault"@.len() == 11
        && "source"@.len() == 6);
    let front = page.parsed->Ok_0.frontmatter;
    let k = choose|k: int|
        0 <= k < front.tags.len() && without_hashes(trim(#[trigger] front.tags[k])).len() > 0
            && row.target == "#"@ + without_hashes(trim(front.tags[k]));
    assert(without_hashes(trim(page.parsed->Ok_0.frontmatter.tags[k])).len() > 0);
}

proof fn lemma_node_of_page(pages: Seq<PageModel>, split: int, page: PageModel) -> (i: int)
    requires
        pages.contains(page),
        file_name(page.path) is Some,
        forall|j: int|
            0 <= j < pages.len() && (#[trigger] pages[j]).slug() == page.slug() && file_name(
                pages[j].path,
            ) is Some ==> pages[j] == page,
    ensures
        0 <= i < pages.len(),
        pages[i] == page,
        forall|j: int| i < j < pages.len() ==> #[trigger] pages[j] != page,
        page_nodes(pages, split).contains_key(page.slug()),
        page_nodes(pages, split)[page.slug()] == page_node(page, kind_at(split, i)),
    decreases pages.len(),
{
    let front = pages.drop_last();
    if pages.last() == page {
        pages.len() - 1
    } else {
        let k = choose|k: int| 0 <= k < pages.len() && pages[k] == page;
        assert(front[k] == page);
        assert forall|j: int|
            0 <= j < front.len() && (#[trigger] front[j]).slug() == page.slug() && file_name(
                front[j].path,
            ) is Some implies front[j] == page by {
            assert(front[j] == pages[j]);
        }
        let i = lemma_node_of_page(front, split, page);
        assert(pages[pages.len() - 1] == pages.last());
        assert forall|j: int| i < j < pages.len() implies #[trigger] pages[j] != page by {
            if j < front.len() {
                assert(front[j] == pages[j]);
            }
        }
        i
    }
}

/// A page that shares its name with no other is a node under that name, of the kind of the
/// directory it stands in. The node says where the page stands, and what its frontmatter
/// says, if it can be read; it lists exactly the tags of the frontmatter that are not empty
/// without the hash signs in front.
pub proof fn law_a_page_is_a_node_that_says_what_the_page_says(
    graph: Graph,
    concepts: Seq<PageModel>,
    entities: Seq<PageModel>,
    manifest: Manifest,
    files: Seq<RawFile>,
    page: PageModel,
    tag: Seq<char>,
)
    requires
        is_graph_of(graph, concepts, entities, manifest, files),
        is_page_of(page, concepts, entities),
        forall|other: PageModel| #[trigger]
            is_page_of(other, concepts, entities) && file_stem(other.path) == file_stem(page.path)
                ==> other == page,
    ensures
        exists|i: int|
            {
                &&& 0 <= i < graph.nodes@.len()
                &&& (#[trigger] graph.nodes@[i]).id@ == file_stem(page.path)
                &&& opt_view(graph.nodes@[i].path) == Some(page.path)
                &&& entities.contains(page) ==> graph.nodes@[i].kind@ == "entity"@
                &&& !entities.contains(page) ==> graph.nodes@[i].kind@ == "concept"@
                &&& page.parsed is Ok ==> {
                    let front = page.parsed->Ok_0.frontmatter;
                    &&& graph.nodes@[i].title@ == front.title
                    &&& opt_view(graph.nodes@[i].page_type) == Some(front.page_type)
                    &&& opt_view(graph.nodes@[i].description) == front.description
                    &&& views(graph.nodes@[i].tags@).contains(tag) <==> exists|k: int|
                        0 <= k < front.tags.len() && without_hashes(trim(#[trigger] front.tags[k]))
                            == tag && tag.len() > 0
                }
                &&& page.parsed is Err ==> {
                    &&& graph.nodes@[i].title@ == file_stem(page.path)
                    &&& graph.nodes@[i].page_type is None
                    &&& graph.nodes@[i].description is None
                    &&& graph.nodes@[i].tags@.len() == 0
                }
            },
{
    let pages = page_order(concepts, entities);
    let split = concepts.len() as int;
    let start = page_nodes(pages, split);
    let map = all_nodes(manifest, files, start, pages);
    let slug = file_stem(page.path);
    let first = sorted::<PageFile>(concepts);
    let second = sorted::<PageFile>(entities);
    lemma_sorted::<PageFile>(concepts);
    lemma_sorted::<PageFile>(entities);
    lemma_page_order(concepts, entities, page);
    assert forall|j: int|
        0 <= j < pages.len() && (#[trigger] pages[j]).slug() == page.slug() && file_name(
            pages[j].path,
        ) is Some implies pages[j] == page by {
        assert(pages.contains(pages[j]));
        lemma_page_order(concepts, entities, pages[j]);
        assert(is_page_of(pages[j], concepts, entities));
    }
    let at = lemma_node_of_page(pages, split, page);
    if entities.contains(page) {
        let e = choose|e: int| 0 <= e < second.len() && second[e] == page;
        assert(pages[first.len() + e] == page);
    } else if at >= split {
        assert(pages[at] == second[at - split]);
        assert(second.contains(page));
    }
    law_links_run_between_nodes(manifest, files, pages, split);
    assert(map.contains_key(slug));
    let ids = ids_of(graph.nodes@);
    let i = choose|i: int| 0 <= i < ids.len() && ids[i] == slug;
    assert(graph.nodes@[i].id@ == slug);
    assert(data_of(graph.nodes@[i]) == page_node(page, kind_at(split, at)));
    if page.parsed is Ok {
        lemma_clean_tags(page.parsed->Ok_0.frontmatter.tags, tag);
        assert(data_of(graph.nodes@[i]).tags == views(graph.nodes@[i].tags@));
    } else {
        assert(data_of(graph.nodes@[i]).tags == views(graph.nodes@[i].tags@));
        assert(views(graph.nodes@[i].tags@).len() == graph.nodes@[i].tags@.len());
        assert(data_of(graph.nodes@[i]).page_type == opt_view(graph.nodes@[i].page_type));
        assert(data_of(graph.nodes@[i]).description == opt_view(graph.nodes@[i].description));
    }
}

proof fn lemma_unparsed_insert(pages: Seq<PageModel>, k: int, page: PageModel)
    requires
        0 <= k <= pages.len(),
    ensures
        unparsed(pages.insert(k, page)) == unparsed(pages) + (if file_name(page.path) is Some
            && page.parsed is Err {
            1nat
        } else {
            0nat
        }),
    decreases pages.len(),
{
    let all = pages.insert(k, page);
    if k == pages.len() {
        assert(all.drop_last() =~= pages);
    } else {
        lemma_unparsed_insert(pages.drop_last(), k, page);
        assert(all.drop_last() =~= pages.drop_last().insert(k, page));
        assert(all.last() == pages.last());
    }
}

proof fn lemma_unparsed_sorted(pages: Seq<PageModel>)
    ensures
        unparsed(sorted::<PageFile>(pages)) == unparsed(pages),
    decreases pages.len(),
{
    if pages.len() > 0 {
        let rest = sorted::<PageFile>(pages.drop_last());
        lemma_unparsed_sorted(pages.drop_last());
        lemma_sorted::<PageFile>(pages.drop_last());
        lemma_insert_at::<PageFile>(rest, pages.last());
        lemma_unparsed_insert(rest, insert_at::<PageFile>(rest, pages.last()), pages.last());
    }
}

proof fn lemma_unparsed_added(a: Seq<PageModel>, b: Seq<PageModel>)
    ensures
        unparsed(a + b) == unparsed(a) + unparsed(b),
    decreases b.len(),
{
    if b.len() == 0 {
        assert(a + b =~= a);
    } else {
        lemma_unparsed_added(a, b.drop_last());
        assert((a + b).drop_last() =~= a + b.drop_last());
    }
}

/// The graph says how many pages could not be read: each concept and each entity that has a
/// file name and cannot be read counts once.
pub proof fn law_pages_that_cannot_be_read_are_counted(
    graph: Graph,
    concepts: Seq<PageModel>,
    entities: Seq<PageModel>,
    manifest: Manifest,
    files: Seq<RawFile>,
    page: PageModel,
)
    requires
        is_graph_of(graph, concepts, entities, manifest, files),
    ensures
        graph.unparsed_pages == unparsed(concepts) + unparsed(entities),
        unparsed(concepts + entities) == unparsed(concepts) + unparsed(entities),
        unparsed(seq![page]) == (if file_name(page.path) is Some && page.parsed is Err {
            1nat
        } else {
            0nat
        }),
{
    lemma_unparsed_sorted(concepts);
    lemma_unparsed_sorted(entities);
    lemma_unparsed_added(sorted::<PageFile>(concepts), sorted::<PageFile>(entities));
    lemma_unparsed_added(concepts, entities);
    assert(unparsed(seq![page].drop_last()) == 0);
}

/// The backlinks of a node are the nodes that have a link to it, and its outlinks those that
/// it has a link to, in the order of the nodes.
pub proof fn law_backlinks_and_outlinks_follow_the_links(
    nodes: Seq<GraphNode>,
    rows: Seq<LinkRow>,
    id: Seq<char>,
    node: GraphNode,
)
    ensures
        linking_to(nodes, rows, id).contains(node) <==> nodes.contains(node) && exists|k: int|
            0 <= k < rows.len() && (#[trigger] rows[k]).source == node.id@ && rows[k].target == id,
        linked_from(nodes, rows, id).contains(node) <==> nodes.contains(node) && exists|k: int|
            0 <= k < rows.len() && (#[trigger] rows[k]).source == id && rows[k].target == node.id@,
{
    lemma_filtered(nodes, |n: GraphNode| linked(rows, n.id@, id), node);
    lemma_filtered(nodes, |n: GraphNode| linked(rows, id, n.id@), node);
}

proof fn lemma_filtered<A>(s: Seq<A>, f: spec_fn(A) -> bool, x: A)
    ensures
        s.filter(f).contains(x) <==> s.contains(x) && f(x),
    decreases s.len(),
{
    reveal(Seq::filter);
    if s.len() > 0 {
        let front = s.drop_last();
        lemma_filtered(front, f, x);
        lemma_contained_in_either(front, seq![s.last()], x);
        lemma_contained_in_either(front.filter(f), seq![s.last()], x);
        assert(s =~= front + seq![s.last()]);
        assert(front.filter(f).push(s.last()) =~= front.filter(f) + seq![s.last()]);
        assert(seq![s.last()].contains(x) <==> s.last() == x) by {
            assert(seq![s.last()][0] == s.last());
        }
    }
}

/// A node is found by its identifier exactly if there is one with it, and it is the first.
pub proof fn law_a_node_is_found_by_its_identifier(
    nodes: Seq<GraphNode>,
    id: Seq<char>,
    from: int,
)
    requires
        0 <= from,
    ensures
        match node_named(nodes, id, from) {
            Some(node) => exists|i: int|
                from <= i < nodes.len() && #[trigger] nodes[i] == node && node.id@ == id && forall|
                    j: int,
                |
                    from <= j < i ==> (#[trigger] nodes[j]).id@ != id,
            None => forall|j: int| from <= j < nodes.len() ==> (#[trigger] nodes[j]).id@ != id,
        },
    decreases nodes.len() - from,
{
    if from < nodes.len() {
        if nodes[from].id@ == id {
            assert(nodes[from] == node_named(nodes, id, from)->0);
        } else {
            law_a_node_is_found_by_its_identifier(nodes, id, from + 1);
            if node_named(nodes, id, from) is Some {
                let node = node_named(nodes, id, from)->0;
                let i = choose|i: int|
                    from + 1 <= i < nodes.len() && #[trigger] nodes[i] == node && node.id@ == id
                        && forall|j: int| from + 1 <= j < i ==> (#[trigger] nodes[j]).id@ != id;
                assert(nodes[i] == node);
            }
        }
    }
}

/// Links are counted one by one at both of their ends.
pub proof fn law_links_are_counted_at_both_ends(
    a: Seq<LinkRow>,
    b: Seq<LinkRow>,
    row: LinkRow,
    id: Seq<char>,
)
    ensures
        count_in(a + b, id) == count_in(a, id) + count_in(b, id),
        count_out(a + b, id) == count_out(a, id) + count_out(b, id),
        count_in(seq![row], id) == (if row.target == id {
            1nat
        } else {
            0nat
        }),
        count_out(seq![row], id) == (if row.source == id {
            1nat
        } else {
            0nat
        }),
    decreases b.len(),
{
    assert(count_in(seq![row].drop_last(), id) == 0);
    assert(count_out(seq![row].drop_last(), id) == 0);
    if b.len() == 0 {
        assert(a + b =~= a);
    } else {
        law_links_are_counted_at_both_ends(a, b.drop_last(), row, id);
        assert((a + b).drop_last() =~= a + b.drop_last());
    }
}

/// Whether `node` is what the graph shows where a link of the kind `kind` leads and no page
/// stands: a page that is not there, a page of another vault, a tag or a raw source.
pub open spec fn stands_for_target(
    node: NodeView,
    target: Seq<char>,
    kind: Seq<char>,
    manifest: Manifest,
    files: Seq<RawFile>,
) -> bool {
    &&& node.page_type is None
    &&& node.tags.len() == 0
    &&& kind == "wikilink"@ ==> node.kind == "missing"@ && node.title == target && node.path
        is None && node.description is None
    &&& kind == "cross_vault"@ ==> node.kind == "cross_vault"@ && node.title == target && node.path
        is None && node.description is Some && exists|vault: Seq<char>, concept: Seq<char>|
        target == #[trigger] (vault + "::"@ + concept) && node.description == Some(
            "in vault '"@ + vault + "'"@,
        )
    &&& kind == "tag"@ ==> node.kind == "tag"@ && node.title == target && node.path is None
        && node.description is None
    &&& kind == "source"@ ==> exists|raw_id: Seq<char>|
        {
            &&& target == "raw:"@ + raw_id
            &&& node.kind == "raw"@
            &&& node.path == #[trigger] raw_path(manifest, files, raw_id)
            &&& node.path is None ==> node.title == raw_id && node.description == Some(
                "raw file not found"@,
            )
            &&& node.path is Some ==> node.description is None
        }
}

proof fn lemma_edge_node(manifest: Manifest, files: Seq<RawFile>, page: PageModel, edge: EdgeView)
    requires
        page_edges(manifest, files, page).contains(edge),
    ensures
        stands_for_target(edge.node, edge.target, edge.kind, manifest, files),
{
    reveal_strlit("wikilink");
    reveal_strlit("cross_vault");
    reveal_strlit("tag");
    reveal_strlit("source");
    assert("tag"@.len() == 3 && "wikilink"@.len() == 8 && "cross_vault"@.len() == 11
        && "source"@.len() == 6);
    let found = links(linked_text(page));
    let a = wikilink_edges(page.slug(), found);
    let b = tag_edges(page_tags(page));
    let c = source_edges(manifest, files, page.resources());
    let f = |link: LinkView| wikilink_edge(page.slug(), link);
    let g = |resource: Seq<char>| source_edge(manifest, files, resource);
    lemma_contained_in_either(a, b, edge);
    lemma_contained_in_either(a + b, c, edge);
    lemma_wikilink_edges(page.slug(), found);
    lemma_source_edges(manifest, files, page.resources());
    law_gathered_values_are_those_that_are_made(found, f, edge);
    law_gathered_values_are_those_that_are_made(page.resources(), g, edge);
    if a.contains(edge) {
        let k = choose|k: int| 0 <= k < found.len() && f(#[trigger] found[k]) == Some(edge);
        assert(wikilink_edge(page.slug(), found[k]) == Some(edge));
        if found[k] is CrossVault {
            let vault = found[k]->vault;
            let concept = link_target(found[k]->concept);
            assert(edge.target == vault + "::"@ + concept);
        }
    } else if b.contains(edge) {
        let k = choose|k: int| 0 <= k < b.len() && b[k] == edge;
        assert(edge == tag_edge(page_tags(page)[k]));
    } else {
        let k = choose|k: int|
            0 <= k < page.resources().len() && g(#[trigger] page.resources()[k]) == Some(edge);
        let raw_id = raw_identity(page.resources()[k])->0;
        assert(edge.node.path == raw_path(manifest, files, raw_id));
    }
}

proof fn lemma_target_node(nodes: Map<Seq<char>, NodeView>, edges: Seq<EdgeView>, id: Seq<char>)
    requires
        with_targets(nodes, edges).contains_key(id),
        !nodes.contains_key(id),
    ensures
        exists|k: int|
            0 <= k < edges.len() && (#[trigger] edges[k]).target == id && edges[k].node
                == with_targets(nodes, edges)[id],
    decreases edges.len(),
{
    if edges.len() > 0 {
        let front = edges.drop_last();
        if with_targets(nodes, front).contains_key(id) {
            lemma_target_node(nodes, front, id);
            let k = choose|k: int|
                0 <= k < front.len() && (#[trigger] front[k]).target == id && front[k].node
                    == with_targets(nodes, front)[id];
            assert(edges[k] == front[k]);
        } else {
            assert(edges[edges.len() - 1].target == id);
        }
    }
}

proof fn lemma_linked_node(
    manifest: Manifest,
    files: Seq<RawFile>,
    start: Map<Seq<char>, NodeView>,
    pages: Seq<PageModel>,
    id: Seq<char>,
) -> (r: (int, EdgeView))
    requires
        all_nodes(manifest, files, start, pages).contains_key(id),
        !start.contains_key(id),
    ensures
        0 <= r.0 < pages.len(),
        file_name(pages[r.0].path) is Some,
        page_edges(manifest, files, pages[r.0]).contains(r.1),
        r.1.target == id,
        r.1.node == all_nodes(manifest, files, start, pages)[id],
    decreases pages.len(),
{
    let front = pages.drop_last();
    let rest = all_nodes(manifest, files, start, front);
    let edges = page_edges(manifest, files, pages.last());
    if rest.contains_key(id) {
        let r = lemma_linked_node(manifest, files, start, front, id);
        lemma_targets_kept(rest, edges);
        assert(pages[r.0] == front[r.0]);
        r
    } else {
        lemma_target_node(rest, edges, id);
        let k = choose|k: int|
            0 <= k < edges.len() && (#[trigger] edges[k]).target == id && edges[k].node
                == with_targets(rest, edges)[id];
        (pages.len() - 1, edges[k])
    }
}

proof fn lemma_name_of_page_node(pages: Seq<PageModel>, split: int, id: Seq<char>)
    requires
        page_nodes(pages, split).contains_key(id),
    ensures
        exists|i: int|
            0 <= i < pages.len() && (#[trigger] pages[i]).slug() == id && file_name(pages[i].path)
                is Some,
    decreases pages.len(),
{
    if pages.len() > 0 {
        let front = pages.drop_last();
        if file_name(pages.last().path) is Some && pages.last().slug() == id {
            assert(pages[pages.len() - 1].slug() == id);
        } else {
            lemma_name_of_page_node(front, split, id);
            let i = choose|i: int|
                0 <= i < front.len() && (#[trigger] front[i]).slug() == id && file_name(
                    front[i].path,
                ) is Some;
            assert(pages[i] == front[i]);
        }
    }
}

/// A node under whose name there is no page is what some page leads to, and it is shown as
/// what that link leads to: a page that is not there, a page of another vault, a tag, or a
/// raw source, which stands where it is found.
pub proof fn law_a_node_that_is_no_page_is_what_a_page_leads_to(
    graph: Graph,
    concepts: Seq<PageModel>,
    entities: Seq<PageModel>,
    manifest: Manifest,
    files: Seq<RawFile>,
    i: int,
)
    requires
        is_graph_of(graph, concepts, entities, manifest, files),
        0 <= i < graph.nodes@.len(),
        forall|page: PageModel| #[trigger]
            is_page_of(page, concepts, entities) ==> file_stem(page.path) != graph.nodes@[i].id@,
    ensures
        exists|page: PageModel, kind: Seq<char>|
            #![trigger page_leads_to(page, graph.nodes@[i].id@, kind)]
            is_page_of(page, concepts, entities) && page_leads_to(page, graph.nodes@[i].id@, kind)
                && stands_for_target(
                data_of(graph.nodes@[i]),
                graph.nodes@[i].id@,
                kind,
                manifest,
                files,
            ),
{
    let pages = page_order(concepts, entities);
    let split = concepts.len() as int;
    let start = page_nodes(pages, split);
    let map = all_nodes(manifest, files, start, pages);
    let id = graph.nodes@[i].id@;
    assert(ids_of(graph.nodes@)[i] == id);
    assert(ids_of(graph.nodes@).contains(id));
    assert(map.contains_key(id));
    if start.contains_key(id) {
        lemma_name_of_page_node(pages, split, id);
        let j = choose|j: int|
            0 <= j < pages.len() && (#[trigger] pages[j]).slug() == id && file_name(pages[j].path)
                is Some;
        assert(pages.contains(pages[j]));
        lemma_page_order(concepts, entities, pages[j]);
        assert(is_page_of(pages[j], concepts, entities));
    }
    let (at, edge) = lemma_linked_node(manifest, files, start, pages, id);
    let page = pages[at];
    assert(pages.contains(page));
    lemma_page_order(concepts, entities, page);
    assert(is_page_of(page, concepts, entities));
    lemma_edge_of_page(manifest, files, page, edge);
    lemma_edge_node(manifest, files, page, edge);
    assert(data_of(graph.nodes@[i]) == map[id]);
    assert(page_leads_to(page, id, edge.kind));
}

/// What reading the file at `path` came to is what reading the first file there came to.
pub proof fn lemma_content_at(files: Seq<RawFile>, path: Seq<char>, from: int, i: int)
    requires
        0 <= from <= i < files.len(),
        files[i].path@ == path,
        forall|j: int| 0 <= j < i ==> (#[trigger] files[j]).path@ != path,
    ensures
        content_at(files, path, from) == Some(read_view(files[i].content)),
    decreases i - from,
{
    if from < i {
        lemma_content_at(files, path, from + 1, i);
    }
}

/// A raw source is shown where it is found, under the address in the frontmatter of the
/// first file there, if it has one; under its raw id, if it has none or cannot be read.
pub proof fn law_a_raw_source_goes_by_its_address(
    manifest: Manifest,
    files: Seq<RawFile>,
    raw_id: Seq<char>,
    yaml: Seq<char>,
    i: int,
)
    requires
        0 <= i < files.len(),
        raw_path(manifest, files, raw_id) == Some(files[i].path@),
        forall|j: int| 0 <= j < i ==> (#[trigger] files[j]).path@ != files[i].path@,
    ensures
        raw_source(manifest, files, raw_id).1 == Some(files[i].path@),
        files[i].content is Err ==> raw_source(manifest, files, raw_id).0 == raw_id,
        files[i].content is Ok && cut(files[i].content->Ok_0@) is Err ==> raw_source(
            manifest,
            files,
            raw_id,
        ).0 == raw_id,
        files[i].content is Ok && cut(files[i].content->Ok_0@) is Ok && cut(
            files[i].content->Ok_0@,
        )->Ok_0.0 == yaml ==> raw_source(manifest, files, raw_id).0 == (if yaml_text_field(
            yaml,
            "source_url"@,
        ) is Some {
            yaml_text_field(yaml, "source_url"@)->0
        } else {
            raw_id
        }),
{
    lemma_content_at(files, files[i].path@, 0, i);
}

/// Whether a link of the graph runs between two different nodes of it, in either direction.
pub open spec fn is_linked(graph: Graph, i: int, j: int) -> bool {
    &&& 0 <= i < graph.nodes@.len()
    &&& 0 <= j < graph.nodes@.len()
    &&& i != j
    &&& exists|k: int|
        0 <= k < graph.links@.len() && {
            let link = #[trigger] graph.links@[k];
            ||| link.source@ == graph.nodes@[i].id@ && link.target@ == graph.nodes@[j].id@
            ||| link.source@ == graph.nodes@[j].id@ && link.target@ == graph.nodes@[i].id@
        }
}

/// A node of the graph tells how many other nodes a link runs to or from, and whether two of
/// them are held together by nothing but it.
pub proof fn law_a_node_tells_how_the_graph_hangs_together(
    graph: Graph,
    concepts: Seq<PageModel>,
    entities: Seq<PageModel>,
    manifest: Manifest,
    files: Seq<RawFile>,
    i: int,
)
    requires
        is_graph_of(graph, concepts, entities, manifest, files),
        0 <= i < graph.nodes@.len(),
    ensures
        graph.nodes@[i].degree == Set::new(|j: int| is_linked(graph, i, j)).len(),
        graph.nodes@[i].articulation <==> exists|a: int, b: int|
            #![trigger is_linked(graph, i, a), is_linked(graph, i, b)]
            is_linked(graph, i, a) && is_linked(graph, i, b) && !joined(
                graph.nodes@.len() as int,
                |x: int, y: int| is_linked(graph, x, y),
                i,
                a,
                b,
            ),
{
    let ids = ids_of(graph.nodes@);
    let rows = views(graph.links@);
    let n = graph.nodes@.len() as int;
    let rel = |x: int, y: int| is_linked(graph, x, y);
    assert forall|x: int, y: int| #[trigger] is_linked(graph, x, y) <==> related(ids, rows, x, y) by {
        if is_linked(graph, x, y) {
            let k = choose|k: int|
                0 <= k < graph.links@.len() && {
                    let link = #[trigger] graph.links@[k];
                    ||| link.source@ == graph.nodes@[x].id@ && link.target@ == graph.nodes@[y].id@
                    ||| link.source@ == graph.nodes@[y].id@ && link.target@ == graph.nodes@[x].id@
                };
            assert(rows[k] == graph.links@[k]@);
            assert(touches(rows[k], ids[x], ids[y]));
        }
        if related(ids, rows, x, y) {
            let k = choose|k: int|
                0 <= k < rows.len() && #[trigger] touches(rows[k], ids[x], ids[y]);
            assert(rows[k] == graph.links@[k]@);
        }
    }
    assert(rel =~= link_relation(ids, rows));
    assert(Set::new(|j: int| is_linked(graph, i, j)) =~= neighbours(ids, rows, i));
    assert(undirected(n, rel)) by {
        assert forall|x: int, y: int| #[trigger] rel(x, y) implies rel(y, x) && x != y && 0 <= x < n
            && 0 <= y < n by {
            assert(is_linked(graph, x, y));
            assert(is_linked(graph, y, x));
        }
    }
    law_an_articulation_point_parts_its_neighbours(n, rel, i);
    if graph.nodes@[i].articulation {
        let (a, b) = choose|a: int, b: int|
            #![trigger rel(i, a), rel(i, b)]
            rel(i, a) && rel(i, b) && !joined(n, rel, i, a, b);
        assert(is_linked(graph, i, a) && is_linked(graph, i, b));
    }
    if exists|a: int, b: int|
        #![trigger is_linked(graph, i, a), is_linked(graph, i, b)]
        is_linked(graph, i, a) && is_linked(graph, i, b) && !joined(n, rel, i, a, b) {
        let (a, b) = choose|a: int, b: int|
            #![trigger is_linked(graph, i, a), is_linked(graph, i, b)]
            is_linked(graph, i, a) && is_linked(graph, i, b) && !joined(n, rel, i, a, b);
        assert(rel(i, a) && rel(i, b));
    }
}

} // verus!
