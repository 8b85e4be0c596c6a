//! Saved keys: which there are, and which are cleared. A key itself is never shown.

use vstd::prelude::*;

use crate::compiler::provider::provider_row;
use crate::cli::config::{law_every_provider_with_a_key_has_an_account, shown_accounts};
use crate::text::{copy_texts, decimal, has_prefix, text_eq, views};
use crate::validator::report::counted;

verus! {

/// The account under which a provider's key is saved.
pub open spec fn account_name(provider: Seq<char>) -> Seq<char> {
    if provider == "firecrawl"@ {
        provider
    } else {
        "llm-"@ + provider
    }
}

/// The account under which a provider's key is saved.
pub fn account_for_provider(provider: &str) -> (r: String)
    ensures
        r@ == account_name(provider@),
{
    if text_eq(provider, "firecrawl") {
        "firecrawl".to_string()
    } else {
        let mut s = "llm-".to_string();
        s.append(provider);
        s
    }
}

/// What is said of an account.
pub open spec fn status_line(account: Seq<char>, saved: bool) -> Seq<char> {
    account + ": "@ + (if saved {
        "saved"@
    } else {
        "not saved"@
    })
}

/// Whether `answer` is what may be answered of `account`.
pub open spec fn may_answer<F: Fn(&str) -> Result<bool, String>>(
    lookup: F,
    account: Seq<char>,
    answer: Result<bool, String>,
) -> bool {
    exists|a: &str| a@ == account && #[trigger] call_ensures(lookup, (a,), answer)
}

/// Whether `line` says what may be answered of `account`.
pub open spec fn is_status_of<F: Fn(&str) -> Result<bool, String>>(
    lookup: F,
    account: Seq<char>,
    line: Seq<char>,
) -> bool {
    exists|saved: bool|
        #[trigger] may_answer(lookup, account, Ok(saved)) && line == status_line(account, saved)
}

/// Whether it may be answered of `account` if a key is saved under it.
pub open spec fn has_answer<F: Fn(&str) -> Result<bool, String>>(
    lookup: F,
    account: Seq<char>,
) -> bool {
    exists|saved: bool| #[trigger] may_answer(lookup, account, Ok(saved))
}

/// A line for each account: whether a key is saved under it. `lookup` says so of an
/// account; the first time that it cannot, its error is returned.
pub fn credential_status_lines<F: Fn(&str) -> Result<bool, String>>(
    accounts: &Vec<String>,
    lookup: &F,
) -> (r: Result<Vec<String>, String>)
    requires
        forall|a: &str| call_requires(*lookup, (a,)),
    ensures
        match r {
            Ok(lines) => {
                &&& lines@.len() == accounts@.len()
                &&& forall|i: int|
                    0 <= i < lines@.len() ==> is_status_of(
                        *lookup,
                        accounts@[i]@,
                        (#[trigger] lines@[i])@,
                    )
            },
            Err(e) => exists|i: int|
                {
                    &&& 0 <= i < accounts@.len()
                    &&& may_answer(*lookup, (#[trigger] accounts@[i])@, Err(e))
                    &&& forall|j: int| 0 <= j < i ==> has_answer(*lookup, (#[trigger] accounts@[j])@)
                },
        },
{
    let mut out: Vec<String> = Vec::new();
    while out.len() < accounts.len()
        invariant
            forall|a: &str| call_requires(*lookup, (a,)),
            out@.len() <= accounts@.len(),
            forall|i: int|
                0 <= i < out@.len() ==> is_status_of(
                    *lookup,
                    accounts@[i]@,
                    (#[trigger] out@[i])@,
                ),
        decreases accounts@.len() - out@.len(),
    {
        let i: usize = out.len();
        let answer = lookup(accounts[i].as_str());
        assert(may_answer(*lookup, accounts@[i as int]@, answer));
        match answer {
            Err(e) => {
                proof {
                    assert forall|j: int| 0 <= j < i implies has_answer(
                        *lookup,
                        (#[trigger] accounts@[j])@,
                    ) by {
                        assert(is_status_of(*lookup, accounts@[j]@, out@[j]@));
                    }
                }
                return Err(e);
            },
            Ok(saved) => {
                let mut s = accounts[i].clone();
                s.append(": ");
                if saved {
                    s.append("saved");
                } else {
                    s.append("not saved");
                }
                assert(s@ =~= status_line(accounts@[i as int]@, saved));
                assert(is_status_of(*lookup, accounts@[i as int]@, s@));
                out.push(s);
            },
        }
    }
    Ok(out)
}

/// The accounts whose keys are cleared: that of one provider, which need not be known any
/// more, or all that are known. It has to be said which.
pub fn accounts_to_clear(known_accounts: &Vec<String>, provider: Option<&str>, all: bool) -> (r:
    Result<Vec<String>, String>)
    ensures
        match (provider, all) {
            (Some(_), true) => r is Err && r->Err_0@
                == "--provider and --all cannot both be given"@,
            (None, false) => r is Err && r->Err_0@
                == "specify either --provider <name> or --all"@,
            (Some(name), false) => r is Ok && views(r->Ok_0@) == seq![account_name(name@)],
            (None, true) => r is Ok && r->Ok_0@ == known_accounts@,
        },
{
    match provider {
        Some(name) => {
            if all {
                return Err("--provider and --all cannot both be given".to_string());
            }
            let mut v: Vec<String> = Vec::new();
            v.push(account_for_provider(name));
            assert(views(v@) =~= seq![account_name(name@)]);
            Ok(v)
        },
        None => {
            if all {
                Ok(copy_texts(known_accounts))
            } else {
                Err("specify either --provider <name> or --all".to_string())
            }
        },
    }
}

/// The accounts as they are shown, and what a person is asked before they are cleared.
pub fn build_clear_summary(accounts: &Vec<String>) -> (r: (Vec<String>, String))
    ensures
        r.0@.len() == accounts@.len(),
        forall|i: int| 0 <= i < r.0@.len() ==> (#[trigger] r.0@[i])@ == "  "@ + accounts@[i]@,
        r.1@ == "Clear "@ + decimal(accounts@.len())
            + " credential(s)? This cannot be undone."@,
{
    let mut lines: Vec<String> = Vec::new();
    while lines.len() < accounts.len()
        invariant
            lines@.len() <= accounts@.len(),
            forall|i: int|
                0 <= i < lines@.len() ==> (#[trigger] lines@[i])@ == "  "@ + accounts@[i]@,
        decreases accounts@.len() - lines@.len(),
    {
        let mut s = "  ".to_string();
        s.append(accounts[lines.len()].as_str());
        lines.push(s);
    }
    (
        lines,
        counted("Clear ", accounts.len(), " credential(s)? This cannot be undone."),
    )
}

/// The key of every provider in the table that needs one is saved under an account that is
/// shown, and two providers never share an account.
pub proof fn law_keys_are_saved_where_they_are_shown(provider: Seq<char>, other: Seq<char>)
    ensures
        provider_row(provider) is Some && provider_row(provider)->0.api_key_env is Some && provider
            != "firecrawl"@ ==> shown_accounts().contains(account_name(provider)),
        shown_accounts().contains(account_name("firecrawl"@)),
        account_name(provider) == account_name(other) ==> provider == other,
{
    law_every_provider_with_a_key_has_an_account(account_name(provider), seq![]);
    law_every_provider_with_a_key_has_an_account("firecrawl"@, seq![]);
    reveal_strlit("firecrawl");
    reveal_strlit("llm-");
    if account_name(provider) == account_name(other) {
        let a = "llm-"@ + provider;
        let b = "llm-"@ + other;
        assert(a[0] == 'l' && b[0] == 'l' && "firecrawl"@[0] == 'f');
        assert(a.skip(4) =~= provider);
        assert(b.skip(4) =~= other);
    }
}

/// Whether a key is saved is told by the account and by one of two words, so that a saved key
/// is never told as one that is not.
pub proof fn law_a_saved_key_is_told_apart(account: Seq<char>, other: Seq<char>)
    ensures
        has_prefix(status_line(account, true), account),
        has_prefix(status_line(account, false), account),
        status_line(account, true) != status_line(account, false),
        status_line(account, true) == status_line(other, true) ==> account == other,
        status_line(account, false) == status_line(other, false) ==> account == other,
{
    reveal_strlit("saved");
    reveal_strlit("not saved");
    let yes = status_line(account, true);
    let no = status_line(account, false);
    assert(yes.subrange(0, account.len() as int) =~= account);
    assert(no.subrange(0, account.len() as int) =~= account);
    assert(yes.len() != no.len());
    assert(status_line(other, true).subrange(0, other.len() as int) =~= other);
    assert(status_line(other, false).subrange(0, other.len() as int) =~= other);
}

} // verus!
