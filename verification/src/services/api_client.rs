//! Requests to the scraping service.

use vstd::prelude::*;

use crate::text::{chars_of, text_slice};

verus! {

/// A text without the slashes at its end.
pub open spec fn without_end_slashes(s: Seq<char>) -> Seq<char>
    decreases s.len(),
{
    if s.len() > 0 && s.last() == '/' {
        without_end_slashes(s.drop_last())
    } else {
        s
    }
}

/// The address to ask for a page to be scraped, at the service whose address is `base`.
pub fn scrape_request_url(base: &str) -> (r: String)
    ensures
        r@ == without_end_slashes(base@) + "/v2/scrape"@,
{
    let cs = chars_of(base);
    let mut n: usize = cs.len();
    assert(base@.take(n as int) =~= base@);
    while n > 0 && cs[n - 1] == '/'
        invariant
            cs@ == base@,
            n <= cs@.len(),
            without_end_slashes(base@.take(n as int)) == without_end_slashes(base@),
        decreases n,
    {
        assert(base@.take(n as int).drop_last() =~= base@.take(n - 1));
        n -= 1;
    }
    let mut s = text_slice(&cs, 0, n);
    assert(s@ =~= base@.take(n as int));
    s.append("/v2/scrape");
    s
}

/// What the service is told about who asks.
pub const USER_AGENT: &'static str = "okf-mcp/0.1.0 (+https://github.com/guercheLE/okf-mcp-rs)";

/// Whether a request that could not be sent is tried again: how many attempts have failed
/// then, or nothing once more have failed than may be.
pub fn after_failed_attempt(failed_before: u32, retry_attempts: u32) -> (r: Option<u32>)
    ensures
        r == (if failed_before + 1 > retry_attempts {
            None
        } else {
            Some((failed_before + 1) as u32)
        }),
{
    if failed_before >= retry_attempts {
        None
    } else {
        Some(failed_before + 1)
    }
}

/// Only slashes are taken off the end of a text, and all of them.
pub proof fn law_slashes_are_taken_off_the_end(s: Seq<char>)
    ensures
        without_end_slashes(s).len() <= s.len(),
        without_end_slashes(s) == s.take(without_end_slashes(s).len() as int),
        forall|i: int| without_end_slashes(s).len() <= i < s.len() ==> #[trigger] s[i] == '/',
        without_end_slashes(s).len() > 0 ==> without_end_slashes(s).last() != '/',
    decreases s.len(),
{
    if s.len() > 0 && s.last() == '/' {
        let front = s.drop_last();
        law_slashes_are_taken_off_the_end(front);
        assert(without_end_slashes(s) =~= s.take(without_end_slashes(s).len() as int));
        assert forall|i: int| without_end_slashes(s).len() <= i < s.len() implies #[trigger] s[i]
            == '/' by {
            if i < front.len() {
                assert(front[i] == '/');
            }
        }
    } else {
        assert(s.take(s.len() as int) =~= s);
    }
}

} // verus!
