//! What the configuration is shown to hold.

use vstd::prelude::*;

use crate::compiler::provider::{
    known_names, known_providers, law_known_providers_are_those_in_the_table, provider_row,
    provider_spec,
};
use crate::order::{
    gathered, law_gathered_values_are_those_that_are_made, lemma_contained_in_either,
};
use crate::text::views;

verus! {

/// The variable that holds a provider's key, if it needs one.
pub open spec fn key_variable_of(provider: Seq<char>) -> Option<Seq<char>> {
    match provider_row(provider) {
        Some(row) => row.api_key_env,
        None => None,
    }
}

/// The account of a provider; none of one that needs no key.
pub open spec fn shown_account(provider: Seq<char>) -> Option<Seq<char>> {
    if key_variable_of(provider) is Some {
        Some("llm-"@ + provider)
    } else {
        None
    }
}

/// The accounts that are shown: that of the scraping service, and those of the known
/// providers that need a key.
pub open spec fn shown_accounts() -> Seq<Seq<char>> {
    seq!["firecrawl"@] + gathered(known_names(), |p: Seq<char>| shown_account(p))
}

/// The accounts that are shown. Whether a key is saved under them is, never the key.
pub fn credential_accounts() -> (r: Vec<String>)
    ensures
        views(r@) == shown_accounts(),
{
    let providers = known_providers();
    let ghost all = known_names();
    let ghost f = |p: Seq<char>| shown_account(p);
    let ghost head = seq!["firecrawl"@];
    let mut out: Vec<String> = Vec::new();
    out.push("firecrawl".to_string());
    let mut i: usize = 0;
    assert(all.take(0) =~= seq![]);
    assert(views(out@) =~= head + gathered(all.take(0), f));
    while i < providers.len()
        invariant
            all == known_names(),
            views(providers@) == all,
            f == (|p: Seq<char>| shown_account(p)),
            i <= providers@.len(),
            views(out@) == head + gathered(all.take(i as int), f),
        decreases providers@.len() - i,
    {
        let ghost before = out@;
        proof {
            assert(all.take(i + 1).drop_last() =~= all.take(i as int));
            assert(all.take(i + 1).last() == providers@[i as int]@);
        }
        let keyed: bool = match provider_spec(providers[i].as_str()) {
            Ok(spec) => spec.api_key_env.is_some(),
            Err(_) => false,
        };
        if keyed {
            let mut s = "llm-".to_string();
            s.append(providers[i].as_str());
            let ghost what = s@;
            out.push(s);
            assert(views(out@) =~= views(before).push(what));
            assert(views(out@) =~= head + gathered(all.take(i + 1), f));
        }
        i += 1;
    }
    assert(all.take(all.len() as int) =~= all);
    out
}

/// The variables that hold the keys of the known providers.
pub fn provider_key_variables() -> (r: Vec<&'static str>)
    ensures
        views(r@) == gathered(known_names(), |p: Seq<char>| key_variable_of(p)),
{
    let providers = known_providers();
    let ghost all = known_names();
    let ghost f = |p: Seq<char>| key_variable_of(p);
    let mut out: Vec<&'static str> = Vec::new();
    let mut i: usize = 0;
    assert(all.take(0) =~= seq![]);
    assert(views(out@) =~= gathered(all.take(0), f));
    while i < providers.len()
        invariant
            all == known_names(),
            views(providers@) == all,
            f == (|p: Seq<char>| key_variable_of(p)),
            i <= providers@.len(),
            views(out@) == gathered(all.take(i as int), f),
        decreases providers@.len() - i,
    {
        let ghost before = out@;
        proof {
            assert(all.take(i + 1).drop_last() =~= all.take(i as int));
            assert(all.take(i + 1).last() == providers@[i as int]@);
        }
        match provider_spec(providers[i].as_str()) {
            Ok(spec) => match spec.api_key_env {
                Some(name) => {
                    out.push(name);
                    assert(views(out@) =~= views(before).push(name@));
                },
                None => {},
            },
            Err(_) => {},
        }
        i += 1;
    }
    assert(all.take(all.len() as int) =~= all);
    out
}

/// An account is shown exactly if it is that of the scraping service or that of a provider in
/// the table that needs a key; and a variable holds a key exactly if a provider in the table
/// has it for its key.
pub proof fn law_every_provider_with_a_key_has_an_account(account: Seq<char>, variable: Seq<char>)
    ensures
        shown_accounts().contains(account) <==> account == "firecrawl"@ || exists|
            provider: Seq<char>,
        |
            (#[trigger] provider_row(provider)) is Some && provider_row(provider)->0.api_key_env
                is Some && account == "llm-"@ + provider,
        gathered(known_names(), |p: Seq<char>| key_variable_of(p)).contains(variable) <==> exists|
            provider: Seq<char>,
        |
            (#[trigger] provider_row(provider)) is Some && provider_row(provider)->0.api_key_env
                == Some(variable),
{
    let names = known_names();
    let f = |p: Seq<char>| shown_account(p);
    let g = |p: Seq<char>| key_variable_of(p);
    let rest = gathered(names, f);
    law_gathered_values_are_those_that_are_made(names, f, account);
    law_gathered_values_are_those_that_are_made(names, g, variable);
    lemma_contained_in_either(seq!["firecrawl"@], rest, account);
    assert(seq!["firecrawl"@].contains(account) <==> account == "firecrawl"@) by {
        assert(seq!["firecrawl"@][0] == "firecrawl"@);
    }
    if rest.contains(account) {
        let i = choose|i: int| 0 <= i < names.len() && f(#[trigger] names[i]) == Some(account);
        assert(provider_row(names[i]) is Some);
    }
    if exists|provider: Seq<char>|
        (#[trigger] provider_row(provider)) is Some && provider_row(provider)->0.api_key_env
            is Some && account == "llm-"@ + provider {
        let provider = choose|provider: Seq<char>|
            (#[trigger] provider_row(provider)) is Some && provider_row(provider)->0.api_key_env
                is Some && account == "llm-"@ + provider;
        law_known_providers_are_those_in_the_table(provider);
        let i = choose|i: int| 0 <= i < names.len() && names[i] == provider;
        assert(f(names[i]) == Some(account));
    }
    if gathered(names, g).contains(variable) {
        let i = choose|i: int| 0 <= i < names.len() && g(#[trigger] names[i]) == Some(variable);
        assert(provider_row(names[i]) is Some);
    }
    if exists|provider: Seq<char>|
        (#[trigger] provider_row(provider)) is Some && provider_row(provider)->0.api_key_env
            == Some(variable) {
        let provider = choose|provider: Seq<char>|
            (#[trigger] provider_row(provider)) is Some && provider_row(provider)->0.api_key_env
                == Some(variable);
        law_known_providers_are_those_in_the_table(provider);
        let i = choose|i: int| 0 <= i < names.len() && names[i] == provider;
        assert(g(names[i]) == Some(variable));
    }
}

} // verus!
