//! One file of a vault, rendered for reading: Markdown as HTML with the wikilinks
//! turned into anchors, and the links into and out of the page.

use pulldown_cmark::Event::{self, End, Html, InlineHtml, Start, Text};
use pulldown_cmark::LinkType::{self, WikiLink};
use pulldown_cmark::{CowStr, Options, Parser, Tag, TagEnd};
use vstd::prelude::*;

use crate::validator::wikilink::{link_of, vault_separator, LinkView};
use crate::explorer::graph::{
    before_any, data_of, is_graph_of, is_page_of, law_a_node_is_found_by_its_identifier,
    law_a_node_that_is_no_page_is_what_a_page_leads_to,
    law_a_page_is_a_node_that_says_what_the_page_says, link_target, linked_from, linking_to,
    node_named, page_leads_to, raw_source, raw_source_title, stands_for_target, strip_anchor,
    without_anchor, Graph, GraphNode,
};
use crate::ingest::frontmatter::{find_raw_path, raw_path, RawFile};
use crate::manifest::model::Manifest;
use crate::paths::file_stem;
use crate::text::{
    chars_of, find_from, has_char, has_prefix, json_or_null, lemma_find_from,
    lemma_found_at_first_char, lowercase_ascii, lowered, opt_view, or_null, split_at_first,
    split_once, strip_prefix, text_eq, trim, trimmed, views,
};
use crate::validator::frontmatter::{
    cut, is_made_of, law_a_document_is_cut_at_its_delimiters, split_frontmatter, PageModel,
};

verus! {

// ---------------------------------------------------------------------------
// Escaping and addresses
// ---------------------------------------------------------------------------

/// What stands for a character in HTML text and attribute values.
pub open spec fn escaped_char(c: char) -> Seq<char> {
    if c == '&' {
        "&amp;"@
    } else if c == '<' {
        "&lt;"@
    } else if c == '>' {
        "&gt;"@
    } else if c == '"' {
        "&quot;"@
    } else if c == '\'' {
        "&#39;"@
    } else {
        seq![c]
    }
}

/// `s` as it stands in HTML text and attribute values.
pub open spec fn escaped(s: Seq<char>) -> Seq<char>
    decreases s.len(),
{
    if s.len() == 0 {
        seq![]
    } else {
        escaped(s.drop_last()) + escaped_char(s.last())
    }
}

/// `s` as it stands in HTML text and attribute values.
pub fn escape_html(s: &str) -> (r: String)
    ensures
        r@ == escaped(s@),
{
    let cs = chars_of(s);
    let mut out = String::new();
    let mut i: usize = 0;
    while i < cs.len()
        invariant
            i <= cs@.len(),
            cs@ == s@,
            out@ == escaped(s@.take(i as int)),
        decreases cs@.len() - i,
    {
        proof {
            assert(s@.take(i + 1).drop_last() =~= s@.take(i as int));
        }
        let c: char = cs[i];
        if c == '&' {
            out.append("&amp;");
        } else if c == '<' {
            out.append("&lt;");
        } else if c == '>' {
            out.append("&gt;");
        } else if c == '"' {
            out.append("&quot;");
        } else if c == '\'' {
            out.append("&#39;");
        } else {
            out.push(c);
        }
        assert(out@ =~= escaped(s@.take(i + 1)));
        i += 1;
    }
    assert(s@.take(s@.len() as int) =~= s@);
    out
}

/// Escaped text holds no bracket and no quotation mark, so it can end neither a tag
/// nor an attribute value.
pub proof fn law_escaped_text_is_inert(s: Seq<char>)
    ensures
        forall|i: int|
            0 <= i < escaped(s).len() ==> #[trigger] escaped(s)[i] != '<' && escaped(s)[i] != '>'
                && escaped(s)[i] != '"' && escaped(s)[i] != '\'',
    decreases s.len(),
{
    reveal_strlit("&amp;");
    reveal_strlit("&lt;");
    reveal_strlit("&gt;");
    reveal_strlit("&quot;");
    reveal_strlit("&#39;");
    if s.len() > 0 {
        law_escaped_text_is_inert(s.drop_last());
        let front = escaped(s.drop_last());
        let c = escaped_char(s.last());
        assert forall|i: int| 0 <= i < c.len() implies #[trigger] c[i] != '<' && c[i] != '>' && c[i]
            != '"' && c[i] != '\'' by {}
        assert forall|i: int| 0 <= i < escaped(s).len() implies #[trigger] escaped(s)[i] != '<'
            && escaped(s)[i] != '>' && escaped(s)[i] != '"' && escaped(s)[i] != '\'' by {
            if i < front.len() {
                assert(escaped(s)[i] == front[i]);
            } else {
                assert(escaped(s)[i] == c[i - front.len()]);
            }
        }
    }
}

/// The node that the destination of a wikilink names.
pub open spec fn wikilink_node(dest: Seq<char>) -> Seq<char> {
    match split_once(dest, "::"@) {
        Some((vault, concept)) => vault + "::"@ + without_anchor(concept),
        None => without_anchor(dest),
    }
}

/// The node that the destination of a wikilink names: `beta`, `beta#Heading`,
/// `beta^block` and `vault::concept#x` name pages, whatever the place in them.
pub fn wikilink_target(dest: &str) -> (r: String)
    ensures
        r@ == wikilink_node(dest@),
{
    match split_at_first(dest, "::") {
        Some((vault, concept)) => {
            let mut out = vault;
            out.append("::");
            let name = strip_anchor(concept.as_str());
            out.append(name.as_str());
            out
        },
        None => strip_anchor(dest),
    }
}

/// Whether `s` can stand only behind the scheme of an address: it holds a slash, a
/// question mark or a hash.
pub open spec fn past_scheme(s: Seq<char>) -> bool {
    s.contains('/') || s.contains('?') || s.contains('#')
}

/// Whether an address may be followed: it has a harmless scheme, or is relative to the
/// page. A colon behind a slash, a question mark or a hash ends no scheme, nor does one
/// in an address that begins with a dot.
pub open spec fn is_safe_url(url: Seq<char>) -> bool {
    let lower = lowered(trim(url));
    match split_once(lower, ":"@) {
        None => true,
        Some((scheme, rest)) => {
            ||| scheme == "http"@
            ||| scheme == "https"@
            ||| scheme == "mailto"@
            ||| scheme == "ftp"@
            ||| scheme == "file"@
            ||| past_scheme(scheme)
            ||| has_prefix(lower, "."@)
        },
    }
}

/// Whether an address may be followed. Of those with a scheme only `http`, `https`,
/// `mailto`, `ftp` and `file` pass; relative addresses and fragments pass.
pub fn safe_url(url: &str) -> (r: bool)
    ensures
        r == is_safe_url(url@),
{
    let whole = trimmed(url);
    let lower = lowercase_ascii(whole.as_str());
    match split_at_first(lower.as_str(), ":") {
        None => true,
        Some((scheme, _)) => {
            let s = scheme.as_str();
            text_eq(s, "http") || text_eq(s, "https") || text_eq(s, "mailto") || text_eq(s, "ftp")
                || text_eq(s, "file") || has_char(s, '/') || has_char(s, '?') || has_char(s, '#')
                || strip_prefix(lower.as_str(), ".").is_some()
        },
    }
}

// ---------------------------------------------------------------------------
// Markdown
// ---------------------------------------------------------------------------

/// The Markdown extensions that are on: tables, footnotes, struck-out text, task
/// lists, heading attributes and wikilinks.
pub const MARKDOWN_OPTIONS: u32 = 0x2 + 0x4 + 0x8 + 0x10 + 0x40 + 0x8000;

/// An event of a Markdown document as `pulldown_cmark` has it, carried through.
#[verifier::external_type_specification]
#[verifier::external_body]
pub struct ExEvent<'a>(Event<'a>);

/// The kind of a Markdown link as `pulldown_cmark` has it, carried through.
#[verifier::external_type_specification]
#[verifier::external_body]
pub struct ExLinkType(LinkType);

/// A piece of text as `pulldown_cmark` has it, carried through.
#[verifier::external_type_specification]
#[verifier::external_body]
pub struct ExCowStr<'a>(CowStr<'a>);

/// One event of a Markdown document, as it is read.
#[derive(Debug)]
pub enum Mark {
    /// Text.
    Text(String),
    /// A line of an HTML block.
    Html(String),
    /// An HTML tag within a line.
    InlineHtml(String),
    /// A wikilink begins.
    WikiLink(String),
    /// Any other link begins.
    Link { link_type: LinkType, dest: String, title: CowStr<'static>, id: CowStr<'static> },
    /// A link ends.
    LinkEnd,
    /// An image begins.
    Image { link_type: LinkType, dest: String, title: CowStr<'static>, id: CowStr<'static> },
    /// Any other event.
    Other(Event<'static>),
}

pub enum MarkView {
    Text(Seq<char>),
    Html(Seq<char>),
    InlineHtml(Seq<char>),
    WikiLink(Seq<char>),
    Link { link_type: LinkType, dest: Seq<char>, title: CowStr<'static>, id: CowStr<'static> },
    LinkEnd,
    Image { link_type: LinkType, dest: Seq<char>, title: CowStr<'static>, id: CowStr<'static> },
    Other(Event<'static>),
}

impl View for Mark {
    type V = MarkView;

    open spec fn view(&self) -> MarkView {
        match *self {
            Mark::Text(s) => MarkView::Text(s@),
            Mark::Html(s) => MarkView::Html(s@),
            Mark::InlineHtml(s) => MarkView::InlineHtml(s@),
            Mark::WikiLink(s) => MarkView::WikiLink(s@),
            Mark::Link { link_type, dest, title, id } => MarkView::Link {
                link_type,
                dest: dest@,
                title,
                id,
            },
            Mark::LinkEnd => MarkView::LinkEnd,
            Mark::Image { link_type, dest, title, id } => MarkView::Image {
                link_type,
                dest: dest@,
                title,
                id,
            },
            Mark::Other(event) => MarkView::Other(event),
        }
    }
}

/// One event of a Markdown document, as it is written.
#[derive(Debug)]
pub enum Piece {
    /// Text, which is escaped.
    Text(String),
    /// HTML, which is not.
    Html(String),
    /// A link begins.
    Link { link_type: LinkType, dest: String, title: CowStr<'static>, id: CowStr<'static> },
    /// A link ends.
    LinkEnd,
    /// An image begins.
    Image { link_type: LinkType, dest: String, title: CowStr<'static>, id: CowStr<'static> },
    /// Any other event.
    Other(Event<'static>),
}

pub enum PieceView {
    Text(Seq<char>),
    Html(Seq<char>),
    Link { link_type: LinkType, dest: Seq<char>, title: CowStr<'static>, id: CowStr<'static> },
    LinkEnd,
    Image { link_type: LinkType, dest: Seq<char>, title: CowStr<'static>, id: CowStr<'static> },
    Other(Event<'static>),
}

impl View for Piece {
    type V = PieceView;

    open spec fn view(&self) -> PieceView {
        match *self {
            Piece::Text(s) => PieceView::Text(s@),
            Piece::Html(s) => PieceView::Html(s@),
            Piece::Link { link_type, dest, title, id } => PieceView::Link {
                link_type,
                dest: dest@,
                title,
                id,
            },
            Piece::LinkEnd => PieceView::LinkEnd,
            Piece::Image { link_type, dest, title, id } => PieceView::Image {
                link_type,
                dest: dest@,
                title,
                id,
            },
            Piece::Other(event) => PieceView::Other(event),
        }
    }
}

/// The events of a Markdown document, read with the extensions whose bits are set
/// in `options`.
pub uninterp spec fn markdown_marks(body: Seq<char>, options: u32) -> Seq<MarkView>;

/// Calls `pulldown_cmark::Parser::new_ext` and hands out its events, one mark for each.
/// The events are a function of the text and the options.
#[verifier::external_body]
fn parse_markdown(body: &str, options: u32) -> (r: Vec<Mark>)
    ensures
        views(r@) == markdown_marks(body@, options),
{
    Parser::new_ext(body, Options::from_bits_truncate(options)).map(|event| match event.into_static() {
        Text(text) => Mark::Text(text.to_string()),
        Html(raw) => Mark::Html(raw.to_string()),
        InlineHtml(raw) => Mark::InlineHtml(raw.to_string()),
        Start(Tag::Link { link_type: WikiLink { .. }, dest_url, .. }) => Mark::WikiLink(dest_url.to_string()),
        Start(Tag::Link { link_type, dest_url, title, id }) => Mark::Link { link_type, dest: dest_url.to_string(), title, id },
        Start(Tag::Image { link_type, dest_url, title, id }) => Mark::Image { link_type, dest: dest_url.to_string(), title, id },
        End(TagEnd::Link) => Mark::LinkEnd,
        other => Mark::Other(other),
    }).collect()
}

/// The angle brackets of `s`, in order.
pub open spec fn brackets(s: Seq<char>) -> Seq<char> {
    s.filter(|c: char| c == '<' || c == '>')
}

/// `piece`, emptied if it is text.
pub open spec fn emptied(piece: PieceView) -> PieceView {
    match piece {
        PieceView::Text(s) => PieceView::Text(seq![]),
        _ => piece,
    }
}

/// `pieces` with every text in them empty.
pub open spec fn without_text(pieces: Seq<PieceView>) -> Seq<PieceView> {
    pieces.map_values(|piece: PieceView| emptied(piece))
}

/// The HTML of a list of events.
pub uninterp spec fn markdown_html(pieces: Seq<PieceView>) -> Seq<char>;

/// Calls `pulldown_cmark::html::push_html` on the events that the pieces are, one for
/// each. The HTML is a function of the events. Text is written escaped wherever it
/// stands, so its angle brackets are those of the same events with all text empty.
#[verifier::external_body]
fn write_html(pieces: Vec<Piece>) -> (r: String)
    ensures
        r@ == markdown_html(views(pieces@)),
        brackets(r@) == brackets(markdown_html(without_text(views(pieces@)))),
{
    let mut out = String::new();
    pulldown_cmark::html::push_html(&mut out, pieces.into_iter().map(|piece| match piece {
        Piece::Text(s) => Text(s.into()),
        Piece::Html(s) => Html(s.into()),
        Piece::Link { link_type, dest, title, id } => Start(Tag::Link { link_type, dest_url: dest.into(), title, id }),
        Piece::LinkEnd => End(TagEnd::Link),
        Piece::Image { link_type, dest, title, id } => Start(Tag::Image { link_type, dest_url: dest.into(), title, id }),
        Piece::Other(event) => event,
    }));
    out
}

/// Which nodes are missing.
pub type Missing = spec_fn(Seq<char>) -> bool;

/// Whether the function `f` says of every node what `missing` says.
pub open spec fn decides<F: Fn(&str) -> bool>(f: F, missing: Missing) -> bool {
    forall|id: &str, b: bool| #[trigger] call_ensures(f, (id,), b) ==> b == missing(id@)
}

/// The anchor that a wikilink to `id` opens with.
pub open spec fn anchor(id: Seq<char>, missing: bool) -> Seq<char> {
    "<a class=\""@ + (if missing {
        "wikilink missing"@
    } else {
        "wikilink"@
    }) + "\" href=\"#/note/"@ + escaped(id) + "\" data-slug=\""@ + escaped(id) + "\">"@
}

/// Where an event that leads to `dest` leads when it is written.
pub open spec fn led(dest: Seq<char>) -> Seq<char> {
    if is_safe_url(dest) {
        dest
    } else {
        "#"@
    }
}

/// What becomes of an event, where `open` says of each link that is open, the
/// innermost last, whether it is a wikilink.
pub open spec fn piece_for(mark: MarkView, open: Seq<bool>, missing: Missing) -> PieceView {
    match mark {
        MarkView::Text(text) => PieceView::Text(text),
        MarkView::Html(raw) => PieceView::Text(raw),
        MarkView::InlineHtml(raw) => PieceView::Text(raw),
        MarkView::WikiLink(dest) => {
            let id = wikilink_node(dest);
            PieceView::Html(anchor(id, missing(id)))
        },
        MarkView::Link { link_type, dest, title, id } => PieceView::Link {
            link_type,
            dest: led(dest),
            title,
            id,
        },
        MarkView::LinkEnd => if open.len() > 0 && open.last() {
            PieceView::Html("</a>"@)
        } else {
            PieceView::LinkEnd
        },
        MarkView::Image { link_type, dest, title, id } => PieceView::Image {
            link_type,
            dest: led(dest),
            title,
            id,
        },
        MarkView::Other(event) => PieceView::Other(event),
    }
}

/// The links that are open after an event.
pub open spec fn open_after(mark: MarkView, open: Seq<bool>) -> Seq<bool> {
    match mark {
        MarkView::WikiLink(dest) => open.push(true),
        MarkView::Link { link_type, dest, title, id } => open.push(false),
        MarkView::LinkEnd => if open.len() > 0 {
            open.drop_last()
        } else {
            open
        },
        _ => open,
    }
}

/// The links that are open after all of `marks`.
pub open spec fn open_links(marks: Seq<MarkView>) -> Seq<bool>
    decreases marks.len(),
{
    if marks.len() == 0 {
        seq![]
    } else {
        open_after(marks.last(), open_links(marks.drop_last()))
    }
}

/// What becomes of each event.
pub open spec fn rewritten(marks: Seq<MarkView>, missing: Missing) -> Seq<PieceView>
    decreases marks.len(),
{
    if marks.len() == 0 {
        seq![]
    } else {
        rewritten(marks.drop_last(), missing).push(
            piece_for(marks.last(), open_links(marks.drop_last()), missing),
        )
    }
}

fn lead(dest: String) -> (r: String)
    ensures
        r@ == led(dest@),
{
    if safe_url(dest.as_str()) {
        dest
    } else {
        "#".to_string()
    }
}

fn anchor_text(id: &str, missing: bool) -> (r: String)
    ensures
        r@ == anchor(id@, missing),
{
    let safe = escape_html(id);
    let mut out = "<a class=\"".to_string();
    if missing {
        out.append("wikilink missing");
    } else {
        out.append("wikilink");
    }
    out.append("\" href=\"#/note/");
    out.append(safe.as_str());
    out.append("\" data-slug=\"");
    out.append(safe.as_str());
    out.append("\">");
    out
}

/// Turns the events of a Markdown document that are read into those that are written.
/// Literal HTML becomes text, wikilinks become anchors of the reader's own, and a link or
/// image that leads to an address which may not be followed leads nowhere.
pub fn rewrite_marks<F: Fn(&str) -> bool>(marks: Vec<Mark>, is_missing: &F) -> (r: Vec<Piece>)
    requires
        forall|id: &str| call_requires(*is_missing, (id,)),
    ensures
        forall|missing: Missing| #[trigger]
            decides(*is_missing, missing) ==> views(r@) == rewritten(views(marks@), missing),
{
    let ghost all = marks@;
    let mut open: Vec<bool> = Vec::new();
    let mut out: Vec<Piece> = Vec::new();
    assert(views(out@) =~= seq![]);
    assert(open@ =~= seq![]);
    assert(views(all).take(0) =~= seq![]);
    for mark in it: marks
        invariant
            forall|id: &str| call_requires(*is_missing, (id,)),
            it.seq() == all,
            open@ == open_links(views(all).take(it.index())),
            forall|missing: Missing| #[trigger]
                decides(*is_missing, missing) ==> views(out@) == rewritten(
                    views(all).take(it.index()),
                    missing,
                ),
    {
        let ghost before = out@;
        let ghost opened = open@;
        let ghost read = mark@;
        proof {
            let now = views(all).take(it.index() + 1);
            assert(now.drop_last() =~= views(all).take(it.index()));
            assert(now.last() == read);
        }
        let piece: Piece = match mark {
            Mark::Text(text) => Piece::Text(text),
            Mark::Html(raw) => Piece::Text(raw),
            Mark::InlineHtml(raw) => Piece::Text(raw),
            Mark::WikiLink(dest) => {
                let id = wikilink_target(dest.as_str());
                let missing: bool = is_missing(id.as_str());
                open.push(true);
                Piece::Html(anchor_text(id.as_str(), missing))
            },
            Mark::Link { link_type, dest, title, id } => {
                open.push(false);
                Piece::Link { link_type, dest: lead(dest), title, id }
            },
            Mark::LinkEnd => match open.pop() {
                Some(true) => Piece::Html("</a>".to_string()),
                _ => Piece::LinkEnd,
            },
            Mark::Image { link_type, dest, title, id } => Piece::Image {
                link_type,
                dest: lead(dest),
                title,
                id,
            },
            Mark::Other(event) => Piece::Other(event),
        };
        let ghost what = piece@;
        out.push(piece);
        proof {
            assert(views(out@) =~= views(before).push(what));
            assert(open@ =~= open_after(read, opened));
        }
    }
    assert(views(all).take(all.len() as int) =~= views(all));
    out
}

/// The HTML of a Markdown text.
pub open spec fn rendered(body: Seq<char>, missing: Missing) -> Seq<char> {
    markdown_html(rewritten(markdown_marks(body, MARKDOWN_OPTIONS), missing))
}

/// Markdown as HTML. `is_missing` says which nodes do not exist; links to them are
/// marked. What the text and the literal HTML of the document hold adds no angle bracket
/// to the outcome.
pub fn render_markdown<F: Fn(&str) -> bool>(body: &str, is_missing: &F) -> (r: String)
    requires
        forall|id: &str| call_requires(*is_missing, (id,)),
    ensures
        forall|missing: Missing| #[trigger]
            decides(*is_missing, missing) ==> r@ == rendered(body@, missing) && brackets(r@)
                == brackets(
                markdown_html(
                    without_text(rewritten(markdown_marks(body@, MARKDOWN_OPTIONS), missing)),
                ),
            ),
{
    let marks = parse_markdown(body, MARKDOWN_OPTIONS);
    let pieces = rewrite_marks(marks, is_missing);
    write_html(pieces)
}

proof fn lemma_rewritten(marks: Seq<MarkView>, missing: Missing)
    ensures
        rewritten(marks, missing).len() == marks.len(),
        forall|i: int|
            0 <= i < marks.len() ==> #[trigger] rewritten(marks, missing)[i] == piece_for(
                marks[i],
                open_links(marks.take(i)),
                missing,
            ),
    decreases marks.len(),
{
    if marks.len() > 0 {
        let front = marks.drop_last();
        lemma_rewritten(front, missing);
        assert forall|i: int| 0 <= i < marks.len() implies #[trigger] rewritten(marks, missing)[i]
            == piece_for(marks[i], open_links(marks.take(i)), missing) by {
            if i < front.len() {
                assert(rewritten(marks, missing)[i] == rewritten(front, missing)[i]);
                assert(front[i] == marks[i]);
                assert(front.take(i) =~= marks.take(i));
            } else {
                assert(marks.take(i) =~= front);
            }
        }
    }
}

proof fn lemma_nowhere_is_safe()
    ensures
        is_safe_url("#"@),
{
    reveal_strlit("#");
    reveal_strlit(":");
    let lower = lowered(trim("#"@));
    lemma_find_from(lower, ":"@, 0);
    if let Some((scheme, rest)) = split_once(lower, ":"@) {
        let k = find_from(lower, ":"@, 0)->0;
        assert(lower.subrange(k, k + 1)[0] == ':');
    }
}

/// Whatever a document holds, its literal HTML is written as text, the only HTML written
/// is that of the reader's own anchors, and no link or image that is written leads to an
/// address that may not be followed.
pub proof fn law_rendering_is_inert(marks: Seq<MarkView>, missing: Missing, i: int)
    requires
        0 <= i < marks.len(),
    ensures
        rewritten(marks, missing).len() == marks.len(),
        match marks[i] {
            MarkView::Html(raw) => rewritten(marks, missing)[i] == PieceView::Text(raw),
            MarkView::InlineHtml(raw) => rewritten(marks, missing)[i] == PieceView::Text(raw),
            _ => true,
        },
        match rewritten(marks, missing)[i] {
            PieceView::Html(html) => (marks[i] is LinkEnd && html == "</a>"@) || (marks[i] matches
                MarkView::WikiLink(dest) && html == anchor(
                wikilink_node(dest),
                missing(wikilink_node(dest)),
            )),
            PieceView::Link { link_type, dest, title, id } => is_safe_url(dest),
            PieceView::Image { link_type, dest, title, id } => is_safe_url(dest),
            _ => true,
        },
{
    lemma_rewritten(marks, missing);
    lemma_nowhere_is_safe();
}

/// Whether an event is text or literal HTML.
pub open spec fn is_words(mark: MarkView) -> bool {
    mark is Text || mark is Html || mark is InlineHtml
}

proof fn lemma_open_links_alike(a: Seq<MarkView>, b: Seq<MarkView>)
    requires
        a.len() == b.len(),
        forall|i: int|
            0 <= i < a.len() ==> #[trigger] a[i] == b[i] || (is_words(a[i]) && is_words(b[i])),
    ensures
        open_links(a) == open_links(b),
    decreases a.len(),
{
    if a.len() > 0 {
        assert forall|i: int| 0 <= i < a.drop_last().len() implies #[trigger] a.drop_last()[i]
            == b.drop_last()[i] || (is_words(a.drop_last()[i]) && is_words(b.drop_last()[i])) by {
            assert(a[i] == b[i] || (is_words(a[i]) && is_words(b[i])));
        }
        lemma_open_links_alike(a.drop_last(), b.drop_last());
        assert(a[a.len() - 1] == b[a.len() - 1] || (is_words(a.last()) && is_words(b.last())));
    }
}

/// Documents that differ only in what their text and their literal HTML hold are written
/// alike but for the text, so neither can bring in a tag.
pub proof fn law_words_bring_in_no_tag(a: Seq<MarkView>, b: Seq<MarkView>, missing: Missing)
    requires
        a.len() == b.len(),
        forall|i: int|
            0 <= i < a.len() ==> #[trigger] a[i] == b[i] || (is_words(a[i]) && is_words(b[i])),
    ensures
        without_text(rewritten(a, missing)) == without_text(rewritten(b, missing)),
{
    lemma_rewritten(a, missing);
    lemma_rewritten(b, missing);
    let x = without_text(rewritten(a, missing));
    let y = without_text(rewritten(b, missing));
    assert forall|i: int| 0 <= i < x.len() implies x[i] == y[i] by {
        assert(a[i] == b[i] || (is_words(a[i]) && is_words(b[i])));
        let f = a.take(i);
        let g = b.take(i);
        assert forall|j: int| 0 <= j < f.len() implies #[trigger] f[j] == g[j] || (is_words(f[j])
            && is_words(g[j])) by {
            assert(a[j] == b[j] || (is_words(a[j]) && is_words(b[j])));
        }
        lemma_open_links_alike(f, g);
        assert(rewritten(a, missing)[i] == piece_for(a[i], open_links(f), missing));
        assert(rewritten(b, missing)[i] == piece_for(b[i], open_links(g), missing));
    }
    assert(x =~= y);
}

// ---------------------------------------------------------------------------
// Pages
// ---------------------------------------------------------------------------

/// A node at the other end of a link.
#[derive(Debug, Clone)]
pub struct LinkedNode {
    pub id: String,
    pub title: String,
    pub kind: &'static str,
}

pub struct LinkedView {
    pub id: Seq<char>,
    pub title: Seq<char>,
    pub kind: Seq<char>,
}

impl View for LinkedNode {
    type V = LinkedView;

    open spec fn view(&self) -> LinkedView {
        LinkedView { id: self.id@, title: self.title@, kind: self.kind@ }
    }
}

/// What is shown of a node at the other end of a link.
pub open spec fn linked_view(node: GraphNode) -> LinkedView {
    LinkedView { id: node.id@, title: node.title@, kind: node.kind@ }
}

/// What is shown of each of `nodes`.
pub open spec fn linked_views(nodes: Seq<GraphNode>) -> Seq<LinkedView> {
    nodes.map_values(|n: GraphNode| linked_view(n))
}

/// A node with a file that can be rendered.
#[derive(Debug, Clone)]
pub struct RenderTarget {
    pub id: String,
    pub title: String,
    pub kind: &'static str,
    /// The vault-relative path of its file.
    pub path: String,
}

/// A rendered page.
#[derive(Debug, Clone)]
pub struct PageView {
    pub id: String,
    pub title: String,
    pub kind: &'static str,
    pub path: String,
    /// The frontmatter as JSON: `null` if the file has none, or one that cannot be read.
    pub frontmatter: String,
    pub html: String,
    pub backlinks: Vec<LinkedNode>,
    pub outlinks: Vec<LinkedNode>,
}

/// Why a node cannot be rendered.
#[derive(Debug, Clone, PartialEq, Eq)]
pub enum RenderError {
    /// There is no such node, and no raw source of that name.
    NoNode,
    /// The node is not a file.
    NoFile { kind: &'static str },
}

impl RenderError {
    /// The message for a person.
    pub fn message(&self, id: &str) -> (r: String)
        ensures
            r@ == match self {
                RenderError::NoNode => "no node '"@ + id@ + "' in this vault"@,
                RenderError::NoFile { kind } => "'"@ + id@ + "' is a "@ + kind@
                    + " node with no file to render"@,
            },
    {
        match self {
            RenderError::NoNode => {
                let mut s = "no node '".to_string();
                s.append(id);
                s.append("' in this vault");
                s
            },
            RenderError::NoFile { kind } => {
                let mut s = "'".to_string();
                s.append(id);
                s.append("' is a ");
                s.append(kind);
                s.append(" node with no file to render");
                s
            },
        }
    }
}

/// The raw id that `id` names where it is not a node: what follows `raw:`, if that
/// is a plain name.
pub open spec fn uncited_raw_id(id: Seq<char>) -> Option<Seq<char>> {
    if has_prefix(id, "raw:"@) {
        let raw_id = id.skip("raw:"@.len() as int);
        if raw_id.len() > 0 && !raw_id.contains('/') && !raw_id.contains('\\') {
            Some(raw_id)
        } else {
            None
        }
    } else {
        None
    }
}

fn uncited_raw(id: &str) -> (r: Option<String>)
    ensures
        opt_view(r) == uncited_raw_id(id@),
{
    match strip_prefix(id, "raw:") {
        Some(raw_id) => if !raw_id.as_str().is_empty() && !has_char(raw_id.as_str(), '/')
            && !has_char(raw_id.as_str(), '\\') {
            Some(raw_id)
        } else {
            None
        },
        None => None,
    }
}

/// Whether `r` is what there is to render for `id`.
pub open spec fn is_target(
    graph: Graph,
    manifest: Manifest,
    files: Seq<RawFile>,
    id: Seq<char>,
    r: Result<RenderTarget, RenderError>,
) -> bool {
    match node_named(graph.nodes@, id, 0) {
        Some(node) => match node.path {
            Some(path) => r is Ok && r->Ok_0.id@ == node.id@ && r->Ok_0.title@ == node.title@
                && r->Ok_0.kind@ == node.kind@ && r->Ok_0.path@ == path@,
            None => r == Err::<RenderTarget, RenderError>(RenderError::NoFile { kind: node.kind }),
        },
        None => match uncited_raw_id(id) {
            None => r == Err::<RenderTarget, RenderError>(RenderError::NoNode),
            Some(raw_id) => match raw_path(manifest, files, raw_id) {
                None => r == Err::<RenderTarget, RenderError>(RenderError::NoNode),
                Some(path) => r is Ok && r->Ok_0.id@ == id && r->Ok_0.title@ == raw_source(
                    manifest,
                    files,
                    raw_id,
                ).0 && r->Ok_0.kind@ == "raw"@ && r->Ok_0.path@ == path,
            },
        },
    }
}

/// What there is to render for `id`: a node with a file, or a raw source that no
/// page cites yet.
pub fn render_target(graph: &Graph, manifest: &Manifest, files: &Vec<RawFile>, id: &str) -> (r:
    Result<RenderTarget, RenderError>)
    ensures
        is_target(*graph, *manifest, files@, id@, r),
{
    match graph.node(id) {
        Some(node) => {
            match &node.path {
                Some(path) => Ok(
                    RenderTarget {
                        id: node.id.clone(),
                        title: node.title.clone(),
                        kind: node.kind,
                        path: path.clone(),
                    },
                ),
                None => Err(RenderError::NoFile { kind: node.kind }),
            }
        },
        None => {
            match uncited_raw(id) {
                None => Err(RenderError::NoNode),
                Some(raw_id) => match find_raw_path(manifest, files, raw_id.as_str()) {
                    None => Err(RenderError::NoNode),
                    Some(path) => {
                        let (title, _) = raw_source_title(manifest, files, raw_id.as_str());
                        Ok(RenderTarget { id: id.to_string(), title, kind: "raw", path })
                    },
                },
            }
        },
    }
}

/// Whether `id` is a node that is not missing.
pub open spec fn is_known(nodes: Seq<GraphNode>, id: Seq<char>) -> bool {
    exists|i: int|
        0 <= i < nodes.len() && (#[trigger] nodes[i]).id@ == id && nodes[i].kind@ != "missing"@
}

fn known(nodes: &Vec<GraphNode>, id: &str) -> (r: bool)
    ensures
        r == is_known(nodes@, id@),
{
    let mut i: usize = 0;
    while i < nodes.len()
        invariant
            i <= nodes@.len(),
            forall|j: int|
                0 <= j < i ==> !((#[trigger] nodes@[j]).id@ == id@ && nodes@[j].kind@
                    != "missing"@),
        decreases nodes@.len() - i,
    {
        if text_eq(nodes[i].id.as_str(), id) && !text_eq(nodes[i].kind, "missing") {
            return true;
        }
        i += 1;
    }
    false
}

fn show_links(nodes: &Vec<&GraphNode>) -> (r: Vec<LinkedNode>)
    ensures
        views(r@) == linked_views(nodes@.map_values(|n: &GraphNode| *n)),
{
    let mut out: Vec<LinkedNode> = Vec::new();
    let mut i: usize = 0;
    while i < nodes.len()
        invariant
            i <= nodes@.len(),
            out@.len() == i,
            forall|j: int| 0 <= j < i ==> (#[trigger] out@[j])@ == linked_view(*nodes@[j]),
        decreases nodes@.len() - i,
    {
        out.push(
            LinkedNode {
                id: nodes[i].id.clone(),
                title: nodes[i].title.clone(),
                kind: nodes[i].kind,
            },
        );
        i += 1;
    }
    assert(views(out@) =~= linked_views(nodes@.map_values(|n: &GraphNode| *n)));
    out
}

/// What a YAML text holds, as JSON without white space, if it can be read and written so.
pub uninterp spec fn yaml_json(yaml: Seq<char>) -> Option<Seq<char>>;

/// Calls `serde_yaml::from_str` for a `serde_yaml::Value`, turns the value into a
/// `serde_json::Value` with `serde_json::to_value`, and writes that with its `Display`,
/// where each of them succeeds. The result is a function of the text alone.
#[verifier::external_body]
fn yaml_as_json(yaml: &str) -> (r: Option<String>)
    ensures
        opt_view(r) == yaml_json(yaml@),
{
    let value = serde_yaml::from_str::<serde_yaml::Value>(yaml).ok()?;
    serde_json::to_value(value).ok().map(|json| json.to_string())
}

/// The body of a file: all of it where it has no frontmatter.
pub open spec fn shown_body(content: Seq<char>) -> Seq<char> {
    match cut(content) {
        Ok((yaml, body)) => body,
        Err(_) => content,
    }
}

/// Renders `target`, whose file holds `content`. A file with a broken frontmatter is
/// shown all the same.
pub fn render_page(graph: &Graph, target: RenderTarget, content: &str) -> (r: PageView)
    ensures
        r.id@ == target.id@,
        r.title@ == target.title@,
        r.kind@ == target.kind@,
        r.path@ == target.path@,
        r.frontmatter@ == json_or_null(
            match cut(content@) {
                Ok((yaml, body)) => yaml_json(yaml),
                Err(_) => None,
            },
        ),
        r.html@ == rendered(shown_body(content@), |id: Seq<char>| !is_known(graph.nodes@, id)),
        views(r.backlinks@) == linked_views(
            linking_to(graph.nodes@, views(graph.links@), target.id@),
        ),
        views(r.outlinks@) == linked_views(
            linked_from(graph.nodes@, views(graph.links@), target.id@),
        ),
{
    let (found, body): (Option<String>, String) = match split_frontmatter(content) {
        Ok((yaml, body)) => (yaml_as_json(yaml.as_str()), body),
        Err(_) => (None, content.to_string()),
    };
    let frontmatter = or_null(found);
    let nodes = &graph.nodes;
    let is_missing = |id: &str| -> (b: bool)
        ensures
            b == !is_known(nodes@, id@),
        { !known(nodes, id) };
    let html = render_markdown(body.as_str(), &is_missing);
    proof {
        let missing = |id: Seq<char>| !is_known(graph.nodes@, id);
        assert(decides(is_missing, missing));
    }
    let into = graph.backlinks_of(target.id.as_str());
    let out = graph.outlinks_of(target.id.as_str());
    let backlinks = show_links(&into);
    let outlinks = show_links(&out);
    PageView {
        id: target.id,
        title: target.title,
        kind: target.kind,
        path: target.path,
        frontmatter,
        html,
        backlinks,
        outlinks,
    }
}

// ---------------------------------------------------------------------------
// Laws
// ---------------------------------------------------------------------------

/// Escaping goes character by character: the five that mean something in HTML are written
/// as what stands for them, and every other one as it is.
pub proof fn law_escaping_goes_character_by_character(a: Seq<char>, b: Seq<char>, c: char)
    ensures
        escaped(a + b) == escaped(a) + escaped(b),
        escaped(seq!['&']) == "&amp;"@,
        escaped(seq!['<']) == "&lt;"@,
        escaped(seq!['>']) == "&gt;"@,
        escaped(seq!['"']) == "&quot;"@,
        escaped(seq!['\'']) == "&#39;"@,
        c != '&' && c != '<' && c != '>' && c != '"' && c != '\'' ==> escaped(seq![c]) == seq![c],
    decreases b.len(),
{
    lemma_one_escaped('&');
    lemma_one_escaped('<');
    lemma_one_escaped('>');
    lemma_one_escaped('"');
    lemma_one_escaped('\'');
    lemma_one_escaped(c);
    if b.len() == 0 {
        assert(a + b =~= a);
        assert(escaped(a) + escaped(b) =~= escaped(a));
    } else {
        law_escaping_goes_character_by_character(a, b.drop_last(), c);
        assert((a + b).drop_last() =~= a + b.drop_last());
        assert(escaped(a + b) =~= escaped(a) + escaped(b));
    }
}

proof fn lemma_one_escaped(c: char)
    ensures
        escaped(seq![c]) == escaped_char(c),
{
    assert(escaped(seq![c].drop_last()) =~= seq![]);
    assert(seq![c].last() == c);
    assert(escaped(seq![c]) =~= escaped_char(c));
}

/// An address with a scheme may be followed exactly if the scheme is one of the five that
/// are harmless, in whatever case; one without a colon always may.
pub proof fn law_only_harmless_schemes_are_followed(
    url: Seq<char>,
    scheme: Seq<char>,
    rest: Seq<char>,
)
    requires
        !scheme.contains(':') && !scheme.contains('/') && !scheme.contains('?')
            && !scheme.contains('#'),
        scheme.len() > 0 && scheme[0] != '.',
    ensures
        lowered(trim(url)) == scheme + seq![':'] + rest ==> (is_safe_url(url) <==> scheme
            == "http"@ || scheme == "https"@ || scheme == "mailto"@ || scheme == "ftp"@ || scheme
            == "file"@),
        !lowered(trim(url)).contains(':') ==> is_safe_url(url),
{
    reveal_strlit(":");
    reveal_strlit(".");
    let colon = seq![':'];
    let lower = lowered(trim(url));
    assert(":"@ =~= colon);
    if lower == scheme + colon + rest {
        let n = scheme.len() as int;
        assert(lower.subrange(n, n + 1) =~= colon);
        assert forall|j: int| 0 <= j < n implies #[trigger] lower[j] != ':' by {
            assert(lower[j] == scheme[j]);
        }
        lemma_found_at_first_char(lower, colon, 0, n);
        assert(lower.take(n) =~= scheme);
        assert(!has_prefix(lower, "."@)) by {
            if has_prefix(lower, "."@) {
                assert(lower.subrange(0, 1)[0] == '.');
                assert(lower[0] == scheme[0]);
            }
        }
    }
    if !lower.contains(':') {
        assert forall|j: int| 0 <= j < lower.len() implies #[trigger] lower[j] != ':' by {
            assert(lower.contains(lower[j]));
        }
        lemma_found_at_first_char(lower, colon, 0, lower.len() as int);
    }
}

proof fn lemma_no_bar(s: Seq<char>)
    requires
        !s.contains('|'),
    ensures
        before_any(s, '|', '|') == s,
    decreases s.len(),
{
    if s.len() > 0 {
        let rest = s.skip(1);
        assert(s.contains(s[0]));
        assert(!rest.contains('|')) by {
            if rest.contains('|') {
                let k = choose|k: int| 0 <= k < rest.len() && rest[k] == '|';
                assert(s[k + 1] == '|');
            }
        }
        lemma_no_bar(rest);
        assert(seq![s[0]] + rest =~= s);
    } else {
        assert(before_any(s, '|', '|') =~= s);
    }
}

/// A wikilink is written so that it leads to the very node that the graph links the page to.
pub proof fn law_a_wikilink_leads_to_its_node(inner: Seq<char>)
    requires
        !inner.contains('|'),
    ensures
        match link_of(inner) {
            LinkView::Local(name) => wikilink_node(inner) == link_target(name),
            LinkView::CrossVault { vault, concept } => wikilink_node(inner) == vault + "::"@
                + link_target(concept),
        },
{
    reveal_strlit("::");
    assert("::"@ =~= vault_separator());
    match link_of(inner) {
        LinkView::Local(name) => {
            lemma_no_bar(inner);
        },
        LinkView::CrossVault { vault, concept } => {
            assert(!concept.contains('|')) by {
                if concept.contains('|') {
                    let k = choose|k: int| 0 <= k < concept.len() && concept[k] == '|';
                    lemma_find_from(inner, vault_separator(), 0);
                    let at = find_from(inner, vault_separator(), 0)->0;
                    assert(inner[at + 2 + k] == '|');
                }
            }
            lemma_no_bar(concept);
        },
    }
}

/// Whatever is harmless is written as it stands: text as text, a link or an image with an
/// address that may be followed as it is, and everything that is neither. A link or an image
/// with another address leads nowhere, and keeps the rest of it.
pub proof fn law_rendering_keeps_what_is_harmless(marks: Seq<MarkView>, missing: Missing, i: int)
    requires
        0 <= i < marks.len(),
    ensures
        match marks[i] {
            MarkView::Text(text) => rewritten(marks, missing)[i] == PieceView::Text(text),
            MarkView::Link { link_type, dest, title, id } => rewritten(marks, missing)[i] == (
            PieceView::Link {
                link_type,
                dest: if is_safe_url(dest) {
                    dest
                } else {
                    "#"@
                },
                title,
                id,
            }),
            MarkView::Image { link_type, dest, title, id } => rewritten(marks, missing)[i] == (
            PieceView::Image {
                link_type,
                dest: if is_safe_url(dest) {
                    dest
                } else {
                    "#"@
                },
                title,
                id,
            }),
            MarkView::WikiLink(dest) => rewritten(marks, missing)[i] == PieceView::Html(
                "<a class=\""@ + (if missing(wikilink_node(dest)) {
                    "wikilink missing"@
                } else {
                    "wikilink"@
                }) + "\" href=\"#/note/"@ + escaped(wikilink_node(dest)) + "\" data-slug=\""@
                    + escaped(wikilink_node(dest)) + "\">"@,
            ),
            MarkView::Other(event) => rewritten(marks, missing)[i] == PieceView::Other(event),
            _ => true,
        },
{
    lemma_rewritten(marks, missing);
}

/// Whether an event neither opens nor closes a link.
pub open spec fn is_between(mark: MarkView) -> bool {
    !(mark is WikiLink || mark is Link || mark is LinkEnd)
}

proof fn lemma_open_between(a: Seq<MarkView>, between: Seq<MarkView>)
    requires
        forall|i: int| 0 <= i < between.len() ==> is_between(#[trigger] between[i]),
    ensures
        open_links(a + between) == open_links(a),
    decreases between.len(),
{
    if between.len() == 0 {
        assert(a + between =~= a);
    } else {
        let front = between.drop_last();
        assert forall|i: int| 0 <= i < front.len() implies is_between(#[trigger] front[i]) by {
            assert(is_between(between[i]));
        }
        lemma_open_between(a, front);
        assert((a + between).drop_last() =~= a + front);
        assert(is_between(between[between.len() - 1]));
    }
}

/// The end of a link closes what its beginning opened: that of a wikilink the anchor that was
/// written for it, and that of any other link that link; and what was open before is open
/// again.
pub proof fn law_links_are_closed_as_they_were_opened(
    before: Seq<MarkView>,
    begin: MarkView,
    between: Seq<MarkView>,
    missing: Missing,
)
    requires
        begin is WikiLink || begin is Link,
        forall|i: int| 0 <= i < between.len() ==> is_between(#[trigger] between[i]),
    ensures
        ({
            let marks = before.push(begin) + between;
            &&& open_links(marks.push(MarkView::LinkEnd)) == open_links(before)
            &&& rewritten(marks.push(MarkView::LinkEnd), missing).last() == (if begin is WikiLink {
                PieceView::Html("</a>"@)
            } else {
                PieceView::LinkEnd
            })
        }),
{
    let opened = before.push(begin);
    let marks = opened + between;
    let all = marks.push(MarkView::LinkEnd);
    assert(opened.drop_last() =~= before);
    lemma_open_between(opened, between);
    assert(all.drop_last() =~= marks);
    assert(open_links(opened) == open_links(before).push(begin is WikiLink));
    assert(open_links(opened).drop_last() =~= open_links(before));
}

/// What is shown of a file is all that follows its frontmatter, or all of it where it has
/// none.
pub proof fn law_shown_body_follows_the_frontmatter(
    content: Seq<char>,
    yaml: Seq<char>,
    body: Seq<char>,
)
    ensures
        is_made_of(content, yaml, body) ==> shown_body(content) == body,
        !(exists|y: Seq<char>, b: Seq<char>| is_made_of(content, y, b)) ==> shown_body(content)
            == content,
{
    law_a_document_is_cut_at_its_delimiters(content, yaml, body);
}

/// A name that is no node is taken for a raw source exactly if it is `raw:` and a plain name.
pub proof fn law_uncited_sources_go_by_their_raw_id(id: Seq<char>, raw_id: Seq<char>)
    ensures
        uncited_raw_id(id) == Some(raw_id) <==> id == "raw:"@ + raw_id && raw_id.len() > 0
            && !raw_id.contains('/') && !raw_id.contains('\\'),
{
    reveal_strlit("raw:");
    if has_prefix(id, "raw:"@) {
        assert(id.subrange(0, 4) == "raw:"@);
        assert(id =~= "raw:"@ + id.skip(4));
    }
    if id == "raw:"@ + raw_id {
        assert(id.subrange(0, 4) =~= "raw:"@);
        assert(id.skip(4) =~= raw_id);
    }
}

/// A node is rendered from its own file, under its own title; one without a file is not. What
/// is no node is rendered only if it is a raw source that is found.
pub proof fn law_a_node_is_rendered_from_its_file(
    graph: Graph,
    manifest: Manifest,
    files: Seq<RawFile>,
    id: Seq<char>,
    r: Result<RenderTarget, RenderError>,
    i: int,
)
    requires
        is_target(graph, manifest, files, id, r),
    ensures
        0 <= i < graph.nodes@.len() && graph.nodes@[i].id@ == id && (forall|j: int|
            0 <= j < i ==> (#[trigger] graph.nodes@[j]).id@ != id) ==> {
            let node = graph.nodes@[i];
            &&& r is Ok <==> node.path is Some
            &&& r is Ok ==> r->Ok_0.path@ == node.path->0@ && r->Ok_0.id@ == id && r->Ok_0.title@
                == node.title@ && r->Ok_0.kind@ == node.kind@
        },
        (forall|j: int| 0 <= j < graph.nodes@.len() ==> (#[trigger] graph.nodes@[j]).id@ != id)
            && r is Ok ==> exists|raw_id: Seq<char>|
            id == "raw:"@ + raw_id && Some(r->Ok_0.path@) == #[trigger] raw_path(
                manifest,
                files,
                raw_id,
            ) && r->Ok_0.id@ == id && r->Ok_0.kind@ == "raw"@,
{
    law_a_node_is_found_by_its_identifier(graph.nodes@, id, 0);
    if node_named(graph.nodes@, id, 0) is None && r is Ok {
        let raw_id = uncited_raw_id(id)->0;
        law_uncited_sources_go_by_their_raw_id(id, raw_id);
        assert(Some(r->Ok_0.path@) == raw_path(manifest, files, raw_id));
    }
}

/// Every node at the other end of a link is shown, in order, by its identifier, its title and
/// its kind.
pub proof fn law_every_linked_node_is_shown(nodes: Seq<GraphNode>, i: int)
    requires
        0 <= i < nodes.len(),
    ensures
        linked_views(nodes).len() == nodes.len(),
        linked_views(nodes)[i].id == nodes[i].id@,
        linked_views(nodes)[i].title == nodes[i].title@,
        linked_views(nodes)[i].kind == nodes[i].kind@,
{
}

/// A wikilink to a page that is there is not marked as missing, as long as the page shares
/// its name with no other; one to a page that is not there is, as long as nothing but
/// wikilinks leads there.
pub proof fn law_only_links_to_missing_pages_are_marked(
    graph: Graph,
    concepts: Seq<PageModel>,
    entities: Seq<PageModel>,
    manifest: Manifest,
    files: Seq<RawFile>,
    page: PageModel,
    id: Seq<char>,
)
    requires
        is_graph_of(graph, concepts, entities, manifest, files),
    ensures
        is_page_of(page, concepts, entities) && file_stem(page.path) == id && (forall|
            other: PageModel,
        | #[trigger]
            is_page_of(other, concepts, entities) && file_stem(other.path) == id ==> other == page)
            ==> is_known(graph.nodes@, id),
        (forall|other: PageModel| #[trigger]
            is_page_of(other, concepts, entities) ==> file_stem(other.path) != id) && (forall|
            other: PageModel,
            kind: Seq<char>,
        | #[trigger]
            page_leads_to(other, id, kind) && is_page_of(other, concepts, entities) ==> kind
                == "wikilink"@) ==> !is_known(graph.nodes@, id),
{
    reveal_strlit("missing");
    reveal_strlit("entity");
    reveal_strlit("concept");
    assert("missing"@[0] == 'm' && "entity"@[0] == 'e' && "concept"@[0] == 'c');
    if is_page_of(page, concepts, entities) && file_stem(page.path) == id && (forall|
        other: PageModel,
    | #[trigger]
        is_page_of(other, concepts, entities) && file_stem(other.path) == id ==> other == page) {
        law_a_page_is_a_node_that_says_what_the_page_says(
            graph,
            concepts,
            entities,
            manifest,
            files,
            page,
            seq![],
        );
        assert(exists|i: int|
            0 <= i < graph.nodes@.len() && (#[trigger] graph.nodes@[i]).id@ == id
                && graph.nodes@[i].kind@ != "missing"@);
    }
    if (forall|other: PageModel| #[trigger]
        is_page_of(other, concepts, entities) ==> file_stem(other.path) != id) && (forall|
        other: PageModel,
        kind: Seq<char>,
    | #[trigger]
        page_leads_to(other, id, kind) && is_page_of(other, concepts, entities) ==> kind
            == "wikilink"@) && is_known(graph.nodes@, id) {
        let i = choose|i: int|
            0 <= i < graph.nodes@.len() && (#[trigger] graph.nodes@[i]).id@ == id
                && graph.nodes@[i].kind@ != "missing"@;
        law_a_node_that_is_no_page_is_what_a_page_leads_to(
            graph,
            concepts,
            entities,
            manifest,
            files,
            i,
        );
        let (other, kind) = choose|other: PageModel, kind: Seq<char>|
            #![trigger page_leads_to(other, graph.nodes@[i].id@, kind)]
            is_page_of(other, concepts, entities) && page_leads_to(
                other,
                graph.nodes@[i].id@,
                kind,
            ) && stands_for_target(
                data_of(graph.nodes@[i]),
                graph.nodes@[i].id@,
                kind,
                manifest,
                files,
            );
        assert(page_leads_to(other, id, kind));
    }
}

} // verus!
