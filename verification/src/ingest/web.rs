//! Web pages, as a scraping service hands them over.

use vstd::prelude::*;

use crate::text::{
    has_part, has_suffix, json_or_null, lemma_part, lemma_part_of_itself, opt_view, or_null,
};

verus! {

/// The text under `inner` in the object under `outer` in a JSON object, if it holds
/// one.
pub uninterp spec fn json_text_member(json: Seq<char>, outer: Seq<char>, inner: Seq<char>) -> Option<
    Seq<char>,
>;

/// Calls `serde_json::from_str` for a `serde_json::Value` and, where that succeeds,
/// `Value::get` twice and `Value::as_str`. The result is a function of the three texts
/// alone.
#[verifier::external_body]
fn json_member(json: &str, outer: &str, inner: &str) -> (r: Option<String>)
    ensures
        opt_view(r) == json_text_member(json@, outer@, inner@),
{
    let value = serde_json::from_str::<serde_json::Value>(json).ok()?;
    value.get(outer)?.get(inner)?.as_str().map(str::to_string)
}

/// What a JSON text holds, written without white space, if it is one.
pub uninterp spec fn json_text(json: Seq<char>) -> Option<Seq<char>>;

/// Calls `serde_json::from_str` for a `serde_json::Value` and, where that succeeds, writes
/// the value with its `Display`. The result is a function of the text alone.
#[verifier::external_body]
fn compact_json(json: &str) -> (r: Option<String>)
    ensures
        opt_view(r) == json_text(json@),
{
    serde_json::from_str::<serde_json::Value>(json).ok().map(|value| value.to_string())
}

/// What is said of an answer without Markdown. What is no JSON counts as `null`.
pub open spec fn no_markdown(url: Seq<char>, answer: Option<Seq<char>>) -> Seq<char> {
    "Firecrawl scrape response for '"@ + url + "' had no data.markdown field: "@ + json_or_null(
        answer,
    )
}

/// The Markdown of the page at `url`, if the service's answer has it. `answer` is the
/// answer itself, if it is JSON.
pub fn scraped_page(url: &str, markdown: Option<String>, answer: Option<String>) -> (r: Result<
    String,
    String,
>)
    ensures
        match markdown {
            Some(text) => r == Ok::<String, String>(text),
            None => r is Err && r->Err_0@ == no_markdown(url@, opt_view(answer)),
        },
{
    match markdown {
        Some(text) => Ok(text),
        None => {
            let mut s = "Firecrawl scrape response for '".to_string();
            s.append(url);
            s.append("' had no data.markdown field: ");
            let text = or_null(answer);
            s.append(text.as_str());
            Err(s)
        },
    }
}

/// The Markdown of the page at `url`, out of the service's answer to a request to
/// scrape it.
pub fn clean_scrape(url: &str, response: &str) -> (r: Result<String, String>)
    ensures
        match json_text_member(response@, "data"@, "markdown"@) {
            Some(text) => r is Ok && r->Ok_0@ == text,
            None => r is Err && r->Err_0@ == no_markdown(url@, json_text(response@)),
        },
{
    let markdown = json_member(response, "data", "markdown");
    let answer = compact_json(response);
    scraped_page(url, markdown, answer)
}

/// An answer without Markdown is told by the address that was asked for and, if it is JSON,
/// by what it holds.
pub proof fn law_an_answer_without_text_is_told(url: Seq<char>, answer: Seq<char>)
    ensures
        has_part(no_markdown(url, Some(answer)), url),
        has_part(no_markdown(url, None), url),
        has_suffix(no_markdown(url, Some(answer)), answer),
        has_suffix(no_markdown(url, None), "null"@),
{
    let head = "Firecrawl scrape response for '"@;
    let middle = "' had no data.markdown field: "@;
    let with = no_markdown(url, Some(answer));
    let without = no_markdown(url, None);
    lemma_part_of_itself(url);
    lemma_part(head, url, middle + answer, url);
    lemma_part(head, url, middle + "null"@, url);
    assert(with =~= head + url + (middle + answer));
    assert(without =~= head + url + (middle + "null"@));
    assert(with.subrange(with.len() - answer.len(), with.len() as int) =~= answer);
    assert(without.subrange(without.len() - "null"@.len(), without.len() as int) =~= "null"@);
}

} // verus!
