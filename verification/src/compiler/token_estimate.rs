//! How large a prompt will be, and how it is cut to size. A token is taken to be four
//! characters.

use vstd::prelude::*;

use crate::compiler::prompts::{BlobView, PageRefView, RawBlob, WikiPageRef};
use crate::text::{chars_of, decimal, decimal_text, text_slice, views};

verus! {

/// The token budget of a prompt unless another one is asked for.
pub const DEFAULT_PROMPT_TOKEN_BUDGET: usize = 100_000;

/// How many characters count as one token.
pub const CHARS_PER_TOKEN: usize = 4;

/// The number of tokens of a text: one for every four characters, and one for what
/// is left over.
pub open spec fn tokens(text: Seq<char>) -> nat {
    ((text.len() + 3) / 4) as nat
}

/// The number of tokens of all pages together.
pub open spec fn page_tokens(pages: Seq<PageRefView>) -> nat
    decreases pages.len(),
{
    if pages.len() == 0 {
        0
    } else {
        page_tokens(pages.drop_last()) + tokens(pages.last().content)
    }
}

/// The number of tokens of a source that may not be there.
pub open spec fn opt_tokens(blob: Option<BlobView>) -> nat {
    match blob {
        Some(b) => tokens(b.content),
        None => 0,
    }
}

/// The number of tokens of a text.
pub fn estimate_tokens(text: &str) -> (r: usize)
    ensures
        r == tokens(text@),
{
    let n: usize = text.unicode_len();
    if n % CHARS_PER_TOKEN == 0 {
        n / CHARS_PER_TOKEN
    } else {
        n / CHARS_PER_TOKEN + 1
    }
}

/// The number of tokens of everything in a compile prompt that is not fixed.
pub fn estimate_prompt_tokens(
    active_raw: &RawBlob,
    superseded_raw: Option<&RawBlob>,
    related: &Vec<WikiPageRef>,
) -> (r: usize)
    requires
        tokens(active_raw@.content) + opt_tokens(
            match superseded_raw {
                Some(b) => Some(b@),
                None => None,
            },
        ) + page_tokens(views(related@)) <= usize::MAX,
    ensures
        r == tokens(active_raw@.content) + opt_tokens(
            match superseded_raw {
                Some(b) => Some(b@),
                None => None,
            },
        ) + page_tokens(views(related@)),
{
    let mut total: usize = estimate_tokens(active_raw.content.as_str());
    match superseded_raw {
        Some(b) => {
            total += estimate_tokens(b.content.as_str());
        },
        None => {},
    }
    let ghost base = total as nat;
    let mut i: usize = 0;
    assert(views(related@).take(0) =~= seq![]);
    while i < related.len()
        invariant
            i <= related@.len(),
            total == base + page_tokens(views(related@).take(i as int)),
            base + page_tokens(views(related@)) <= usize::MAX,
        decreases related@.len() - i,
    {
        proof {
            let now = views(related@).take(i + 1);
            assert(now.drop_last() =~= views(related@).take(i as int));
            assert(now.last() == related@[i as int]@);
            lemma_page_tokens_grow(views(related@), i + 1);
        }
        total += estimate_tokens(related[i].content.as_str());
        i += 1;
    }
    assert(views(related@).take(related@.len() as int) =~= views(related@));
    total
}

proof fn lemma_page_tokens_grow(pages: Seq<PageRefView>, k: int)
    requires
        0 <= k <= pages.len(),
    ensures
        page_tokens(pages.take(k)) <= page_tokens(pages),
    decreases pages.len(),
{
    if k < pages.len() {
        lemma_page_tokens_grow(pages.drop_last(), k);
        assert(pages.drop_last().take(k) =~= pages.take(k));
    } else {
        assert(pages.take(k) =~= pages);
    }
}

/// The most pages from the front that fit a budget beside `base` tokens.
pub open spec fn fitting(pages: Seq<PageRefView>, base: nat, budget: nat) -> Seq<PageRefView>
    decreases pages.len(),
{
    if pages.len() == 0 || base + page_tokens(pages) <= budget {
        pages
    } else {
        fitting(pages.drop_last(), base, budget)
    }
}

/// Whether `base` tokens and those of `pages` fit a budget.
fn pages_fit(pages: &Vec<WikiPageRef>, base: usize, budget: usize) -> (r: bool)
    ensures
        r == (base + page_tokens(views(pages@)) <= budget),
{
    if base > budget {
        return false;
    }
    let mut left: usize = budget - base;
    let mut i: usize = 0;
    assert(views(pages@).take(0) =~= seq![]);
    while i < pages.len()
        invariant
            i <= pages@.len(),
            base <= budget,
            left == budget - base - page_tokens(views(pages@).take(i as int)),
        decreases pages@.len() - i,
    {
        proof {
            let now = views(pages@).take(i + 1);
            assert(now.drop_last() =~= views(pages@).take(i as int));
            assert(now.last() == pages@[i as int]@);
            lemma_page_tokens_grow(views(pages@), i + 1);
        }
        let n = estimate_tokens(pages[i].content.as_str());
        if n > left {
            return false;
        }
        left -= n;
        i += 1;
    }
    assert(views(pages@).take(pages@.len() as int) =~= views(pages@));
    true
}

/// Drops pages from the end, where the least relevant ones stand, until the prompt
/// fits the budget or no page is left. The sources themselves are not touched.
pub fn trim_related_pages(
    related: Vec<WikiPageRef>,
    active_raw: &RawBlob,
    superseded_raw: Option<&RawBlob>,
    budget_tokens: usize,
) -> (r: Vec<WikiPageRef>)
    ensures
        views(r@) == fitting(
            views(related@),
            tokens(active_raw@.content) + opt_tokens(
                match superseded_raw {
                    Some(b) => Some(b@),
                    None => None,
                },
            ),
            budget_tokens as nat,
        ),
{
    let ghost all = views(related@);
    let active: usize = estimate_tokens(active_raw.content.as_str());
    let old_tokens: usize = match superseded_raw {
        Some(b) => estimate_tokens(b.content.as_str()),
        None => 0,
    };
    let ghost base = (active + old_tokens) as nat;
    let mut related = related;
    let too_much: bool = active > budget_tokens || old_tokens > budget_tokens - active;
    while related.len() > 0 && (too_much || !pages_fit(&related, active + old_tokens, budget_tokens))
        invariant
            base == active + old_tokens,
            too_much == (base > budget_tokens),
            fitting(all, base, budget_tokens as nat) == fitting(
                views(related@),
                base,
                budget_tokens as nat,
            ),
        decreases related@.len(),
    {
        let ghost was = views(related@);
        let _ = related.pop();
        assert(views(related@) =~= was.drop_last());
    }
    related
}

/// A text cut to a budget, with a note of how many characters were cut; unchanged
/// where it fits.
pub open spec fn truncated(content: Seq<char>, budget: nat) -> Seq<char> {
    if content.len() <= 4 * budget {
        content
    } else {
        content.take((4 * budget) as int) + "\n\n[... truncated "@ + decimal(
            (content.len() - 4 * budget) as nat,
        ) + " chars over budget ...]"@
    }
}

/// Cuts `content` to a budget. What is cut is never cut silently.
pub fn truncate_to_budget(content: &str, budget_tokens: usize) -> (r: String)
    ensures
        r@ == truncated(content@, budget_tokens as nat),
{
    let cs = chars_of(content);
    let total: usize = cs.len();
    if budget_tokens > total / CHARS_PER_TOKEN || budget_tokens * CHARS_PER_TOKEN >= total {
        return content.to_string();
    }
    let budget_chars: usize = budget_tokens * CHARS_PER_TOKEN;
    let mut out = text_slice(&cs, 0, budget_chars);
    assert(out@ =~= content@.take(4 * budget_tokens));
    out.append("\n\n[... truncated ");
    let over = decimal_text((total - budget_chars) as u64);
    out.append(over.as_str());
    out.append(" chars over budget ...]");
    out
}

/// How a budget is shared between two sources of `a` and `b` tokens: each gets what
/// it needs where both fit; else one that needs no more than half gets what it needs
/// and the other the rest; else each gets half.
pub open spec fn shares(a: nat, b: nat, budget: nat) -> (nat, nat) {
    if a + b <= budget {
        (a, b)
    } else if a <= budget / 2 {
        (a, (budget - a) as nat)
    } else if b <= budget / 2 {
        ((budget - b) as nat, b)
    } else {
        (budget / 2, (budget - budget / 2) as nat)
    }
}

/// Cuts the active source and the one it replaced so that together they fit a
/// budget, but for the notes of what was cut.
pub fn truncate_raw_blobs_to_shared_budget(
    active: RawBlob,
    superseded: Option<RawBlob>,
    budget_tokens: usize,
) -> (r: (RawBlob, Option<RawBlob>))
    ensures
        r.0.id@ == active.id@,
        match superseded {
            None => r.1 is None && r.0.content@ == truncated(
                active.content@,
                budget_tokens as nat,
            ),
            Some(old_raw) => {
                let (a, b) = shares(
                    tokens(active.content@),
                    tokens(old_raw.content@),
                    budget_tokens as nat,
                );
                &&& r.0.content@ == truncated(active.content@, a)
                &&& r.1 is Some
                &&& r.1->0.id@ == old_raw.id@
                &&& r.1->0.content@ == truncated(old_raw.content@, b)
            },
        },
{
    match superseded {
        None => {
            let content = truncate_to_budget(active.content.as_str(), budget_tokens);
            (RawBlob { id: active.id, content }, None)
        },
        Some(old_raw) => {
            let a: usize = estimate_tokens(active.content.as_str());
            let b: usize = estimate_tokens(old_raw.content.as_str());
            let half: usize = budget_tokens / 2;
            let (x, y): (usize, usize) = if a <= budget_tokens && b <= budget_tokens - a {
                (a, b)
            } else if a <= half {
                (a, budget_tokens - a)
            } else if b <= half {
                (budget_tokens - b, b)
            } else {
                (half, budget_tokens - half)
            };
            let first = truncate_to_budget(active.content.as_str(), x);
            let second = truncate_to_budget(old_raw.content.as_str(), y);
            (
                RawBlob { id: active.id, content: first },
                Some(RawBlob { id: old_raw.id, content: second }),
            )
        },
    }
}

// ---------------------------------------------------------------------------
// Laws
// ---------------------------------------------------------------------------

/// A text that fits its budget stays as it is, and one that does not keeps as much
/// of its front as fits, followed by a note.
pub proof fn law_truncation(content: Seq<char>, budget: nat)
    ensures
        tokens(content) <= budget ==> truncated(content, budget) == content,
        tokens(content) > budget ==> truncated(content, budget).take((4 * budget) as int)
            == content.take((4 * budget) as int) && truncated(content, budget).len() > 4 * budget,
{
    reveal_strlit("\n\n[... truncated ");
    if tokens(content) > budget {
        assert(content.len() > 4 * budget);
        assert(truncated(content, budget).take((4 * budget) as int) =~= content.take(
            (4 * budget) as int,
        ));
    }
}

/// The two shares of a budget never exceed it, use all of it where the sources need
/// more than it, and give no source more than it needs.
pub proof fn law_shares_fit_the_budget(a: nat, b: nat, budget: nat)
    ensures
        ({
            let (x, y) = shares(a, b, budget);
            &&& x + y <= budget
            &&& a + b > budget ==> x + y == budget
            &&& a + b <= budget ==> x == a && y == b
            &&& x <= a && y <= b
        }),
{
}

/// The pages that are kept are the longest run from the front that fits; where even
/// the sources alone do not fit, none is kept.
pub proof fn law_kept_pages_are_the_most_that_fit(
    pages: Seq<PageRefView>,
    base: nat,
    budget: nat,
)
    ensures
        ({
            let kept = fitting(pages, base, budget);
            &&& kept.len() <= pages.len()
            &&& kept == pages.take(kept.len() as int)
            &&& kept.len() > 0 ==> base + page_tokens(kept) <= budget
            &&& forall|k: int|
                kept.len() < k <= pages.len() ==> base + #[trigger] page_tokens(pages.take(k))
                    > budget
            &&& base > budget ==> kept.len() == 0
        }),
    decreases pages.len(),
{
    let kept = fitting(pages, base, budget);
    assert(pages.take(pages.len() as int) =~= pages);
    if !(pages.len() == 0 || base + page_tokens(pages) <= budget) {
        let front = pages.drop_last();
        law_kept_pages_are_the_most_that_fit(front, base, budget);
        assert(front.take(kept.len() as int) =~= pages.take(kept.len() as int));
        assert forall|k: int| kept.len() < k <= pages.len() implies base + #[trigger] page_tokens(
            pages.take(k),
        ) > budget by {
            if k < pages.len() {
                assert(front.take(k) =~= pages.take(k));
            }
        }
    }
}

/// A token is four characters, the last one perhaps fewer; and the pages of two lists take
/// as many tokens together as apart.
pub proof fn law_a_token_is_four_characters(
    text: Seq<char>,
    page: PageRefView,
    a: Seq<PageRefView>,
    b: Seq<PageRefView>,
)
    ensures
        4 * tokens(text) - 4 < text.len() <= 4 * tokens(text),
        page_tokens(seq![page]) == tokens(page.content),
        page_tokens(a + b) == page_tokens(a) + page_tokens(b),
    decreases b.len(),
{
    assert(page_tokens(seq![page].drop_last()) == 0);
    if b.len() == 0 {
        assert(a + b =~= a);
    } else {
        law_a_token_is_four_characters(text, page, a, b.drop_last());
        assert((a + b).drop_last() =~= a + b.drop_last());
    }
}

/// Each of two sources gets what it needs or at least half of the budget, and they are
/// treated alike, but for the token that is left of an odd budget.
pub proof fn law_no_source_is_crowded_out(a: nat, b: nat, budget: nat)
    ensures
        ({
            let (x, y) = shares(a, b, budget);
            &&& x < a ==> x >= budget / 2
            &&& y < b ==> y >= budget / 2
            &&& budget % 2 == 0 ==> shares(b, a, budget) == (y, x)
        }),
{
}

/// What is cut off is said in characters: the kept and the missing ones add up.
pub proof fn law_a_cut_says_how_much_is_missing(content: Seq<char>, missing: nat, budget: nat)
    requires
        content.len() == 4 * budget + missing,
        missing > 0,
    ensures
        truncated(content, budget) == content.take((4 * budget) as int) + "\n\n[... truncated "@
            + decimal(missing) + " chars over budget ...]"@,
{
}

} // verus!
