//! The YAML frontmatter of compiled wiki pages.

use vstd::prelude::*;

use crate::order::{list_not_after, Sortable};
use crate::paths::{file_stem, file_stem_of, steps, steps_of};
use crate::text::{
    chars_of, find_at, find_from, has_prefix, lemma_find_from, lemma_find_in_front,
    lemma_found_first, occurs_at, opt_view, stands_at, text_slice, views,
};

verus! {

/// A raw source that a page was compiled from.
#[derive(Debug, Clone)]
pub struct SourceRef {
    pub resource: String,
    pub id: Option<String>,
    pub title: Option<String>,
}

pub struct SourceView {
    pub resource: Seq<char>,
    pub id: Option<Seq<char>>,
    pub title: Option<Seq<char>>,
}

/// The resources of these sources.
pub open spec fn resources_of(sources: Seq<SourceView>) -> Seq<Seq<char>> {
    sources.map_values(|s: SourceView| s.resource)
}

impl View for SourceRef {
    type V = SourceView;

    open spec fn view(&self) -> SourceView {
        SourceView {
            resource: self.resource@,
            id: opt_view(self.id),
            title: opt_view(self.title),
        }
    }
}

/// The frontmatter of a wiki page.
#[derive(Debug, Clone)]
pub struct WikiFrontmatter {
    pub okf_version: Option<String>,
    /// The page's `type:`, such as `Concept` or `Person`.
    pub page_type: String,
    /// A name for the page that older pages still carry; the others go by their
    /// path.
    pub id: Option<String>,
    pub title: String,
    pub description: Option<String>,
    pub sources: Vec<SourceRef>,
    pub tags: Vec<String>,
    pub timestamp: Option<String>,
}

pub struct FrontmatterView {
    pub okf_version: Option<Seq<char>>,
    pub page_type: Seq<char>,
    pub id: Option<Seq<char>>,
    pub title: Seq<char>,
    pub description: Option<Seq<char>>,
    pub sources: Seq<SourceView>,
    pub tags: Seq<Seq<char>>,
    pub timestamp: Option<Seq<char>>,
}

impl View for WikiFrontmatter {
    type V = FrontmatterView;

    open spec fn view(&self) -> FrontmatterView {
        FrontmatterView {
            okf_version: opt_view(self.okf_version),
            page_type: self.page_type@,
            id: opt_view(self.id),
            title: self.title@,
            description: opt_view(self.description),
            sources: views(self.sources@),
            tags: views(self.tags@),
            timestamp: opt_view(self.timestamp),
        }
    }
}

/// A page cut into its frontmatter and its body.
#[derive(Debug, Clone)]
pub struct ParsedPage {
    pub frontmatter: WikiFrontmatter,
    pub body: String,
}

pub struct ParsedView {
    pub frontmatter: FrontmatterView,
    pub body: Seq<char>,
}

impl View for ParsedPage {
    type V = ParsedView;

    open spec fn view(&self) -> ParsedView {
        ParsedView { frontmatter: self.frontmatter@, body: self.body@ }
    }
}

/// Why a page could not be read.
#[derive(Debug, Clone, PartialEq, Eq)]
pub enum PageError {
    /// The page does not begin with `---` on a line of its own.
    MissingOpening,
    /// No later line is `---`.
    MissingClosing,
    /// What stands between them is not the YAML of a frontmatter.
    InvalidYaml { reason: String },
}

impl PageError {
    /// What the message says.
    pub open spec fn text(&self) -> Seq<char> {
        match self {
            PageError::MissingOpening => "missing opening '---' frontmatter delimiter"@,
            PageError::MissingClosing => "missing closing '---' frontmatter delimiter"@,
            PageError::InvalidYaml { reason } => "invalid frontmatter YAML: "@ + reason@,
        }
    }

    /// The message for a person.
    pub fn message(&self) -> (r: String)
        ensures
            r@ == self.text(),
    {
        match self {
            PageError::MissingOpening => "missing opening '---' frontmatter delimiter".to_string(),
            PageError::MissingClosing => "missing closing '---' frontmatter delimiter".to_string(),
            PageError::InvalidYaml { reason } => {
                let mut s = "invalid frontmatter YAML: ".to_string();
                s.append(reason.as_str());
                s
            },
        }
    }
}

/// What opens a frontmatter: `---` and a line feed.
pub open spec fn opening_line() -> Seq<char> {
    seq!['-', '-', '-', '\n']
}

/// What closes a frontmatter: a line feed, `---` and a line feed.
pub open spec fn closing_line() -> Seq<char> {
    seq!['\n', '-', '-', '-', '\n']
}

/// A document cut at its frontmatter delimiters into the YAML between them and
/// the body behind them.
pub open spec fn cut(content: Seq<char>) -> Result<(Seq<char>, Seq<char>), PageError> {
    if !has_prefix(content, opening_line()) {
        Err(PageError::MissingOpening)
    } else {
        let rest = content.skip(4);
        match find_from(rest, closing_line(), 0) {
            Some(k) => Ok((rest.take(k), rest.skip(k + 5))),
            None => Err(PageError::MissingClosing),
        }
    }
}

/// Cuts a document at its frontmatter delimiters into the YAML between them and
/// the body behind them.
pub fn split_frontmatter(content: &str) -> (r: Result<(String, String), PageError>)
    ensures
        match r {
            Ok((yaml, body)) => cut(content@) == Ok::<(Seq<char>, Seq<char>), PageError>(
                (yaml@, body@),
            ),
            Err(e) => cut(content@) == Err::<(Seq<char>, Seq<char>), PageError>(e),
        },
{
    let cs = chars_of(content);
    let n: usize = cs.len();
    let open: Vec<char> = vec!['-', '-', '-', '\n'];
    let close: Vec<char> = vec!['\n', '-', '-', '-', '\n'];
    assert(open@ =~= opening_line());
    assert(close@ =~= closing_line());
    if !stands_at(&cs, &open, 0) {
        return Err(PageError::MissingOpening);
    }
    proof {
        lemma_find_in_rest(content@, 4, 4, closing_line());
    }
    match find_at(&cs, &close, 4) {
        Some(k) => {
            let yaml = text_slice(&cs, 4, k);
            let body = text_slice(&cs, k + 5, n);
            proof {
                let rest = content@.skip(4);
                assert(yaml@ =~= rest.take(k - 4));
                assert(body@ =~= rest.skip(k + 1));
            }
            Ok((yaml, body))
        },
        None => Err(PageError::MissingClosing),
    }
}

/// A search that starts behind the first `skip` characters finds the same places
/// as one in what follows them.
pub proof fn lemma_find_in_rest(s: Seq<char>, skip: int, from: int, pat: Seq<char>)
    requires
        0 <= skip <= from,
        skip <= s.len(),
    ensures
        match find_from(s, pat, from) {
            Some(k) => find_from(s.skip(skip), pat, from - skip) == Some(k - skip),
            None => find_from(s.skip(skip), pat, from - skip) is None,
        },
    decreases s.len() + 1 - from,
{
    let rest = s.skip(skip);
    if from + pat.len() <= s.len() {
        assert(s.subrange(from, from + pat.len()) =~= rest.subrange(
            from - skip,
            from - skip + pat.len(),
        ));
        if s.subrange(from, from + pat.len()) != pat {
            lemma_find_in_rest(s, skip, from + 1, pat);
        }
    }
}

/// What reading a page comes to, given what its YAML was read as: an error where
/// the delimiters or the YAML are malformed, never an empty frontmatter.
pub open spec fn page_of(
    content: Seq<char>,
    frontmatter: Result<WikiFrontmatter, String>,
    page: Result<ParsedPage, PageError>,
) -> bool {
    match cut(content) {
        Err(e) => page == Err::<ParsedPage, PageError>(e),
        Ok((yaml, body)) => match frontmatter {
            Ok(f) => page is Ok && page->Ok_0.frontmatter == f && page->Ok_0.body@ == body,
            Err(reason) => page == Err::<ParsedPage, PageError>(PageError::InvalidYaml { reason }),
        },
    }
}

/// Reads a page. `frontmatter` is what the YAML between its delimiters (see
/// `split_frontmatter`) deserialises to, or the reason why it does not; where the
/// page has no such delimiters it does not matter.
pub fn parse_wiki_page(content: &str, frontmatter: Result<WikiFrontmatter, String>) -> (r: Result<
    ParsedPage,
    PageError,
>)
    ensures
        page_of(content@, frontmatter, r),
{
    match split_frontmatter(content) {
        Err(e) => Err(e),
        Ok((_, body)) => match frontmatter {
            Ok(frontmatter) => Ok(ParsedPage { frontmatter, body }),
            Err(reason) => Err(PageError::InvalidYaml { reason }),
        },
    }
}

/// A page on disk: where it stands in its vault, what it holds, and what reading
/// it came to.
#[derive(Debug)]
pub struct PageFile {
    /// The vault-relative path, such as `wiki/concepts/microservices.md`.
    pub path: String,
    pub content: String,
    pub parsed: Result<ParsedPage, PageError>,
}

/// What there is to know of a page on disk; where it could not be read, what the
/// error says.
pub struct PageModel {
    pub path: Seq<char>,
    pub content: Seq<char>,
    pub parsed: Result<ParsedView, Seq<char>>,
}

impl PageModel {
    /// What other pages call this one by: its file name without the extension.
    pub open spec fn slug(&self) -> Seq<char> {
        file_stem(self.path)
    }

    /// The resources that the page says it was compiled from.
    pub open spec fn resources(&self) -> Seq<Seq<char>> {
        match self.parsed {
            Ok(page) => resources_of(page.frontmatter.sources),
            Err(_) => seq![],
        }
    }
}

impl View for PageFile {
    type V = PageModel;

    open spec fn view(&self) -> PageModel {
        PageModel {
            path: self.path@,
            content: self.content@,
            parsed: match self.parsed {
                Ok(page) => Ok(page@),
                Err(e) => Err(e.text()),
            },
        }
    }
}

impl Sortable for PageFile {
    /// Pages are ordered by the steps of their paths.
    open spec fn sort_key(v: PageModel) -> Seq<Seq<char>> {
        steps(v.path)
    }

    fn not_after(&self, other: &Self) -> (r: bool) {
        let a = steps_of(self.path.as_str());
        let b = steps_of(other.path.as_str());
        list_not_after(&a, &b)
    }
}

impl PageFile {
    /// What other pages call this one by: its file name without the extension.
    pub fn slug(&self) -> (r: String)
        ensures
            r@ == self@.slug(),
    {
        file_stem_of(self.path.as_str())
    }

    /// The resources that the page says it was compiled from.
    pub fn resources(&self) -> (r: Vec<String>)
        ensures
            views(r@) == self@.resources(),
    {
        let mut out: Vec<String> = Vec::new();
        match &self.parsed {
            Ok(page) => {
                let mut i: usize = 0;
                while i < page.frontmatter.sources.len()
                    invariant
                        i <= page.frontmatter.sources@.len(),
                        views(out@) == resources_of(
                            views(page.frontmatter.sources@).take(i as int),
                        ),
                    decreases page.frontmatter.sources@.len() - i,
                {
                    let ghost before = out@;
                    out.push(page.frontmatter.sources[i].resource.clone());
                    proof {
                        let all = views(page.frontmatter.sources@);
                        assert(views(out@) =~= views(before).push(all[i as int].resource));
                        assert(resources_of(all.take(i + 1)) =~= resources_of(
                            all.take(i as int),
                        ).push(all[i as int].resource));
                    }
                    i += 1;
                }
                proof {
                    let all = views(page.frontmatter.sources@);
                    assert(all.take(all.len() as int) =~= all);
                }
            },
            Err(_) => {},
        }
        proof {
            if self.parsed is Err {
                assert(views(out@) =~= seq![]);
            }
        }
        out
    }
}

/// A frontmatter and a body, written out between the delimiters, are read back as
/// they were, as long as the frontmatter itself holds no closing delimiter.
pub proof fn law_frontmatter_is_read_back(yaml: Seq<char>, body: Seq<char>)
    requires
        find_from(yaml + closing_line(), closing_line(), 0) == Some(yaml.len() as int),
    ensures
        cut(opening_line() + yaml + closing_line() + body) == Ok::<
            (Seq<char>, Seq<char>),
            PageError,
        >((yaml, body)),
{
    let content = opening_line() + yaml + closing_line() + body;
    let short = yaml + closing_line();
    let rest = content.skip(4);
    assert(content.subrange(0, 4) =~= opening_line());
    assert(rest =~= short + body);
    lemma_find_in_front(short, body, closing_line(), 0);
    assert(rest.take(yaml.len() as int) =~= yaml);
    assert(rest.skip(yaml.len() as int + 5) =~= body);
}

/// Whether a document is made of an opening delimiter, `yaml`, the first closing delimiter
/// behind it, and `body`.
pub open spec fn is_made_of(content: Seq<char>, yaml: Seq<char>, body: Seq<char>) -> bool {
    let close = seq!['\n', '-', '-', '-', '\n'];
    let rest = yaml + close + body;
    &&& content == seq!['-', '-', '-', '\n'] + rest
    &&& forall|j: int| 0 <= j < yaml.len() ==> !#[trigger] occurs_at(rest, close, j)
}

/// A document is cut exactly where its delimiters stand: nothing of it is lost, and nothing
/// is added.
pub proof fn law_a_document_is_cut_at_its_delimiters(
    content: Seq<char>,
    yaml: Seq<char>,
    body: Seq<char>,
)
    ensures
        cut(content) == Ok::<(Seq<char>, Seq<char>), PageError>((yaml, body)) <==> is_made_of(
            content,
            yaml,
            body,
        ),
        cut(content) is Err <==> !exists|y: Seq<char>, b: Seq<char>| is_made_of(content, y, b),
{
    lemma_cut_is_made_of(content, yaml, body);
    lemma_made_of_is_cut(content, yaml, body);
    if cut(content) is Ok {
        let (y, b) = cut(content)->Ok_0;
        lemma_cut_is_made_of(content, y, b);
        assert(is_made_of(content, y, b));
    }
    if exists|y: Seq<char>, b: Seq<char>| is_made_of(content, y, b) {
        let (y, b) = choose|y: Seq<char>, b: Seq<char>| is_made_of(content, y, b);
        lemma_made_of_is_cut(content, y, b);
    }
}

proof fn lemma_cut_is_made_of(content: Seq<char>, yaml: Seq<char>, body: Seq<char>)
    ensures
        cut(content) == Ok::<(Seq<char>, Seq<char>), PageError>((yaml, body)) ==> is_made_of(
            content,
            yaml,
            body,
        ),
{
    if cut(content) == Ok::<(Seq<char>, Seq<char>), PageError>((yaml, body)) {
        let rest = content.skip(4);
        let close = seq!['\n', '-', '-', '-', '\n'];
        assert(close =~= closing_line());
        lemma_find_from(rest, closing_line(), 0);
        let k = find_from(rest, closing_line(), 0)->0;
        assert(rest.subrange(k, k + 5) =~= closing_line());
        assert(rest =~= yaml + close + body);
        assert(content.subrange(0, 4) =~= opening_line());
        assert(content =~= seq!['-', '-', '-', '\n'] + (yaml + close + body));
    }
}

proof fn lemma_made_of_is_cut(content: Seq<char>, yaml: Seq<char>, body: Seq<char>)
    ensures
        is_made_of(content, yaml, body) ==> cut(content) == Ok::<
            (Seq<char>, Seq<char>),
            PageError,
        >((yaml, body)),
{
    if is_made_of(content, yaml, body) {
        let rest = content.skip(4);
        let close = seq!['\n', '-', '-', '-', '\n'];
        let k = yaml.len() as int;
        assert(close =~= closing_line());
        assert(content.subrange(0, 4) =~= opening_line());
        assert(rest =~= yaml + close + body);
        assert(rest.subrange(k, k + 5) =~= closing_line());
        lemma_found_first(rest, closing_line(), 0, k);
        assert(rest.take(k) =~= yaml);
        assert(rest.skip(k + 5) =~= body);
    }
}

} // verus!
