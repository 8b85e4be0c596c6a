//! `[[concept-slug]]` and `[[vault::concept-slug]]` links in the body of a wiki
//! page.

use vstd::prelude::*;

use crate::text::{
    chars_of, find_at, find_from, has_char, has_part, lemma_find_from, lemma_found_at_first_char,
    occurs_at, split_at_first, split_once, text_slice, views,
};
use crate::validator::frontmatter::lemma_find_in_rest;

verus! {

/// A link from one wiki page to another.
#[derive(Debug, Clone, PartialEq, Eq)]
pub enum WikiLink {
    /// `[[concept-slug]]`, which names a page of the same vault.
    Local(String),
    /// `[[vault::concept-slug]]`, which names a page of another vault. Nothing
    /// follows such a link by itself.
    CrossVault { vault: String, concept: String },
}

/// What a link says.
pub enum LinkView {
    Local(Seq<char>),
    CrossVault { vault: Seq<char>, concept: Seq<char> },
}

impl View for WikiLink {
    type V = LinkView;

    open spec fn view(&self) -> LinkView {
        match self {
            WikiLink::Local(slug) => LinkView::Local(slug@),
            WikiLink::CrossVault { vault, concept } => LinkView::CrossVault {
                vault: vault@,
                concept: concept@,
            },
        }
    }
}

/// `[[`
pub open spec fn opening() -> Seq<char> {
    seq!['[', '[']
}

/// `]]`
pub open spec fn closing() -> Seq<char> {
    seq![']', ']']
}

/// `::`
pub open spec fn vault_separator() -> Seq<char> {
    seq![':', ':']
}

/// The text between the brackets of a link.
pub open spec fn inner_text(link: LinkView) -> Seq<char> {
    match link {
        LinkView::Local(slug) => slug,
        LinkView::CrossVault { vault, concept } => vault + vault_separator() + concept,
    }
}

/// The link whose brackets hold `inner`: the first `::`, if there is one, parts
/// the vault from the concept.
pub open spec fn link_of(inner: Seq<char>) -> LinkView {
    match split_once(inner, vault_separator()) {
        Some((vault, concept)) => LinkView::CrossVault { vault, concept },
        None => LinkView::Local(inner),
    }
}

/// Whether brackets around `inner` make a link: it is not empty and stays on one
/// line.
pub open spec fn linkable(inner: Seq<char>) -> bool {
    inner.len() > 0 && !inner.contains('\n')
}

/// The links of `body` from position `from` on. Each `[[` pairs with the first
/// `]]` after it, and the search goes on behind that.
pub open spec fn links_from(body: Seq<char>, from: int) -> Seq<LinkView>
    decreases body.len() - from,
    when 0 <= from
    via links_from_decreases
{
    match find_from(body, opening(), from) {
        None => seq![],
        Some(open) => match find_from(body, closing(), open + 2) {
            None => seq![],
            Some(close) => {
                let inner = body.subrange(open + 2, close);
                let rest = links_from(body, close + 2);
                if linkable(inner) {
                    seq![link_of(inner)] + rest
                } else {
                    rest
                }
            },
        },
    }
}

#[via_fn]
proof fn links_from_decreases(body: Seq<char>, from: int) {
    lemma_find_from(body, opening(), from);
    if let Some(open) = find_from(body, opening(), from) {
        lemma_find_from(body, closing(), open + 2);
    }
}

/// Every link of `body`, in the order in which they stand.
pub open spec fn links(body: Seq<char>) -> Seq<LinkView> {
    links_from(body, 0)
}

/// Scans `body` for every `[[...]]`. A pair of brackets around nothing, or around
/// a line break, is no link.
pub fn extract_wikilinks(body: &str) -> (r: Vec<WikiLink>)
    ensures
        views(r@) == links(body@),
{
    let cs = chars_of(body);
    let n: usize = cs.len();
    let open_mark: Vec<char> = vec!['[', '['];
    let close_mark: Vec<char> = vec![']', ']'];
    let mut out: Vec<WikiLink> = Vec::new();
    let mut from: usize = 0;
    assert(open_mark@ =~= opening());
    assert(close_mark@ =~= closing());
    assert(views(out@) + links_from(body@, 0) =~= links(body@));
    while from <= n
        invariant
            from <= n == cs@.len(),
            cs@ == body@,
            open_mark@ == opening(),
            close_mark@ == closing(),
            views(out@) + links_from(body@, from as int) == links(body@),
        decreases n + 1 - from,
    {
        let ghost before = out@;
        let open: usize = match find_at(&cs, &open_mark, from) {
            Some(k) => k,
            None => {
                assert(views(out@) + seq![] =~= views(out@));
                return out;
            },
        };
        let close: usize = match find_at(&cs, &close_mark, open + 2) {
            Some(k) => k,
            None => {
                assert(views(out@) + seq![] =~= views(out@));
                return out;
            },
        };
        let inner = text_slice(&cs, open + 2, close);
        if !inner.as_str().is_empty() && !has_char(inner.as_str(), '\n') {
            let link = parse_link(inner.as_str());
            let ghost what = link@;
            out.push(link);
            proof {
                assert(views(out@) =~= views(before).push(what));
                assert(views(before) + (seq![what] + links_from(body@, close + 2)) =~= views(out@)
                    + links_from(body@, close + 2));
            }
        }
        from = close + 2;
    }
    out
}

/// Reads what stands between the brackets of a link.
pub fn parse_link(inner: &str) -> (r: WikiLink)
    ensures
        r@ == link_of(inner@),
{
    proof {
        reveal_strlit("::");
        assert("::"@ =~= vault_separator());
    }
    match split_at_first(inner, "::") {
        Some((vault, concept)) => WikiLink::CrossVault { vault, concept },
        None => WikiLink::Local(inner.to_string()),
    }
}

/// A link read back from its brackets is the text that stood in them.
pub proof fn law_link_keeps_its_text(inner: Seq<char>)
    ensures
        inner_text(link_of(inner)) == inner,
{
    lemma_find_from(inner, vault_separator(), 0);
    if let Some(k) = find_from(inner, vault_separator(), 0) {
        assert(occurs_at(inner, vault_separator(), k));
        assert(inner.take(k) + vault_separator() + inner.skip(k + 2) =~= inner);
    }
}

/// No link is empty or spans a line break.
pub proof fn law_links_stay_on_one_line(body: Seq<char>, from: int)
    requires
        0 <= from,
    ensures
        forall|i: int|
            0 <= i < links_from(body, from).len() ==> linkable(
                inner_text(#[trigger] links_from(body, from)[i]),
            ),
    decreases body.len() - from,
{
    lemma_find_from(body, opening(), from);
    if let Some(open) = find_from(body, opening(), from) {
        lemma_find_from(body, closing(), open + 2);
        if let Some(close) = find_from(body, closing(), open + 2) {
            let inner = body.subrange(open + 2, close);
            law_link_keeps_its_text(inner);
            law_links_stay_on_one_line(body, close + 2);
            let rest = links_from(body, close + 2);
            assert forall|i: int| 0 <= i < links_from(body, from).len() implies linkable(
                inner_text(#[trigger] links_from(body, from)[i]),
            ) by {
                if linkable(inner) {
                    if i > 0 {
                        assert(links_from(body, from)[i] == rest[i - 1]);
                    }
                } else {
                    assert(links_from(body, from)[i] == rest[i]);
                }
            }
        }
    }
}

/// A link names a page of another vault exactly if its text has a `::`; the vault is what
/// precedes the first one, and the concept all that follows it.
pub proof fn law_two_colons_part_the_vault_from_the_concept(
    inner: Seq<char>,
    vault: Seq<char>,
    concept: Seq<char>,
)
    ensures
        link_of(inner) is CrossVault <==> has_part(inner, seq![':', ':']),
        link_of(inner) is Local ==> link_of(inner) == LinkView::Local(inner),
        !vault.contains(':') ==> link_of(vault + seq![':', ':'] + concept)
            == (LinkView::CrossVault { vault, concept }),
{
    assert(vault_separator() =~= seq![':', ':']);
    assert(link_of(inner) is CrossVault <==> has_part(inner, seq![':', ':'])) by {
        lemma_find_from(inner, vault_separator(), 0);
    }
    if !vault.contains(':') {
        let whole = vault + seq![':', ':'] + concept;
        let n = vault.len() as int;
        assert(whole.subrange(n, n + 2) =~= vault_separator());
        assert forall|j: int| 0 <= j < n implies #[trigger] whole[j] != ':' by {
            assert(whole[j] == vault[j]);
        }
        lemma_found_at_first_char(whole, vault_separator(), 0, n);
        assert(whole.take(n) =~= vault);
        assert(whole.skip(n + 2) =~= concept);
    }
}

proof fn lemma_links_of_rest(body: Seq<char>, skip: int, from: int)
    requires
        0 <= skip <= from,
        skip <= body.len(),
    ensures
        links_from(body.skip(skip), from - skip) == links_from(body, from),
    decreases body.len() - from,
{
    let rest = body.skip(skip);
    lemma_find_in_rest(body, skip, from, opening());
    lemma_find_from(body, opening(), from);
    if let Some(open) = find_from(body, opening(), from) {
        lemma_find_in_rest(body, skip, open + 2, closing());
        lemma_find_from(body, closing(), open + 2);
        if let Some(close) = find_from(body, closing(), open + 2) {
            lemma_links_of_rest(body, skip, close + 2);
            assert(rest.subrange(open - skip + 2, close - skip) =~= body.subrange(open + 2, close));
        }
    }
}

/// A text without an opening bracket has no link. Behind such a text, double brackets around
/// something on one line are a link, and the links that follow are those of what follows: so
/// every link is found, in order, as often as it stands.
pub proof fn law_links_are_found_one_after_another(
    before: Seq<char>,
    inner: Seq<char>,
    after: Seq<char>,
)
    requires
        !before.contains('['),
        !inner.contains(']'),
    ensures
        links(before) == Seq::<LinkView>::empty(),
        links(before + seq!['[', '['] + inner + seq![']', ']'] + after) == (if inner.len() > 0
            && !inner.contains('\n') {
            seq![link_of(inner)]
        } else {
            Seq::<LinkView>::empty()
        }) + links(after),
{
    let body = before + seq!['[', '['] + inner + seq![']', ']'] + after;
    let n = before.len() as int;
    let m = n + 2 + inner.len();
    assert forall|j: int| 0 <= j < n implies #[trigger] before[j] != '[' && body[j] != '[' by {
        assert(body[j] == before[j]);
    }
    lemma_found_at_first_char(before, opening(), 0, n);
    assert(body.subrange(n, n + 2) =~= opening());
    lemma_found_at_first_char(body, opening(), 0, n);
    assert(body.subrange(m, m + 2) =~= closing());
    assert forall|j: int| n + 2 <= j < m implies #[trigger] body[j] != ']' by {
        assert(body[j] == inner[j - n - 2]);
    }
    lemma_found_at_first_char(body, closing(), n + 2, m);
    assert(body.subrange(n + 2, m) =~= inner);
    assert(body.skip(m + 2) =~= after);
    lemma_links_of_rest(body, m + 2, m + 2);
    assert(Seq::<LinkView>::empty() + links(after) =~= links(after));
}

} // verus!
