//! Which language model a prompt goes to. A model is always named as
//! `<provider>/<model>`; the provider is never guessed.

use vstd::prelude::*;

use crate::text::{
    alnum, chars_of, contains_text, find_from, has_part, has_prefix, has_suffix, is_alnum, is_blank,
    is_white, join, joined, law_joined_parts_are_there, law_trimming_takes_white_space_off_the_ends,
    lemma_find_from, lemma_found_at_first_char, lemma_part, lemma_part_of_itself, occurs_at,
    opt_view, replace_char, replaced, split_at_first, split_once, starts_with, text_eq, trim,
    trimmed, views,
};

verus! {

/// The protocols that providers speak.
#[derive(Debug, Clone, Copy, PartialEq, Eq, Structural)]
pub enum AdapterKind {
    Anthropic,
    OpenAI,
    Groq,
    Gemini,
    OpenRouter,
    DeepSeek,
    Xai,
    Together,
    OllamaCloud,
    Moonshot,
    Ollama,
}

/// How a provider is reached.
#[derive(Debug, Clone, Copy)]
pub struct ProviderSpec {
    pub adapter_kind: AdapterKind,
    /// The environment variable that holds the key, for a provider that needs one.
    pub api_key_env: Option<&'static str>,
    /// The environment variable that, if set, goes before `default_base_url`.
    pub base_url_env: Option<&'static str>,
    /// Where the provider is, unless said otherwise. A provider without one has to be
    /// told.
    pub default_base_url: Option<&'static str>,
}

pub struct ProviderView {
    pub adapter_kind: AdapterKind,
    pub api_key_env: Option<Seq<char>>,
    pub base_url_env: Option<Seq<char>>,
    pub default_base_url: Option<Seq<char>>,
}

/// The text behind an optional reference.
pub open spec fn opt_str(o: Option<&str>) -> Option<Seq<char>> {
    match o {
        Some(s) => Some(s@),
        None => None,
    }
}

impl View for ProviderSpec {
    type V = ProviderView;

    open spec fn view(&self) -> ProviderView {
        ProviderView {
            adapter_kind: self.adapter_kind,
            api_key_env: opt_str(self.api_key_env),
            base_url_env: opt_str(self.base_url_env),
            default_base_url: opt_str(self.default_base_url),
        }
    }
}

/// The name of the proxy for a logged-in subscription: that of its variable, with dashes.
pub open spec fn proxy_name() -> Seq<char> {
    replaced("claude_max_api_proxy"@, '_', "-"@)
}

fn proxy_name_text() -> (r: String)
    ensures
        r@ == proxy_name(),
{
    replace_char("claude_max_api_proxy", '_', "-")
}

/// The names of the providers that are known.
pub open spec fn known_names() -> Seq<Seq<char>> {
    seq![
        "anthropic"@,
        "openai"@,
        "groq"@,
        "gemini"@,
        "openrouter"@,
        "deepseek"@,
        "xai"@,
        "together"@,
        "ollama-cloud"@,
        "moonshot"@,
        "ollama"@,
        "foundry-local"@,
        proxy_name(),
        "custom"@,
    ]
}

/// The names of the providers that are known.
pub fn known_providers() -> (r: Vec<String>)
    ensures
        views(r@) == known_names(),
{
    let mut out: Vec<String> = Vec::new();
    out.push("anthropic".to_string());
    out.push("openai".to_string());
    out.push("groq".to_string());
    out.push("gemini".to_string());
    out.push("openrouter".to_string());
    out.push("deepseek".to_string());
    out.push("xai".to_string());
    out.push("together".to_string());
    out.push("ollama-cloud".to_string());
    out.push("moonshot".to_string());
    out.push("ollama".to_string());
    out.push("foundry-local".to_string());
    out.push(proxy_name_text());
    out.push("custom".to_string());
    assert(views(out@) =~= known_names());
    out
}

/// A row of the table of providers.
pub open spec fn row(
    adapter_kind: AdapterKind,
    api_key_env: Option<Seq<char>>,
    base_url_env: Option<Seq<char>>,
    default_base_url: Option<Seq<char>>,
) -> ProviderView {
    ProviderView { adapter_kind, api_key_env, base_url_env, default_base_url }
}

/// The table of providers.
pub open spec fn provider_row(name: Seq<char>) -> Option<ProviderView> {
    if name == "anthropic"@ {
        Some(row(AdapterKind::Anthropic, Some("ANTHROPIC_API_KEY"@), None, Some("https://api.anthropic.com/v1/"@)))
    } else if name == "openai"@ {
        Some(row(AdapterKind::OpenAI, Some("OPENAI_API_KEY"@), None, Some("https://api.openai.com/v1"@)))
    } else if name == "groq"@ {
        Some(row(AdapterKind::Groq, Some("GROQ_API_KEY"@), None, Some("https://api.groq.com/openai/v1"@)))
    } else if name == "gemini"@ {
        Some(row(AdapterKind::Gemini, Some("GEMINI_API_KEY"@), None, Some("https://generativelanguage.googleapis.com/v1beta/"@)))
    } else if name == "openrouter"@ {
        Some(row(AdapterKind::OpenRouter, Some("OPEN_ROUTER_API_KEY"@), None, Some("https://openrouter.ai/api/v1/"@)))
    } else if name == "deepseek"@ {
        Some(row(AdapterKind::DeepSeek, Some("DEEPSEEK_API_KEY"@), None, Some("https://api.deepseek.com/v1/"@)))
    } else if name == "xai"@ {
        Some(row(AdapterKind::Xai, Some("XAI_API_KEY"@), None, Some("https://api.x.ai/v1/"@)))
    } else if name == "together"@ {
        Some(row(AdapterKind::Together, Some("TOGETHER_API_KEY"@), None, Some("https://api.together.xyz/v1/"@)))
    } else if name == "ollama-cloud"@ {
        Some(row(AdapterKind::OllamaCloud, Some("OLLAMA_API_KEY"@), None, Some("https://ollama.com/"@)))
    } else if name == "moonshot"@ {
        Some(row(AdapterKind::Moonshot, Some("MOONSHOT_API_KEY"@), None, Some("https://api.moonshot.cn/v1/"@)))
    } else if name == "ollama"@ {
        Some(row(AdapterKind::Ollama, None, Some("OLLAMA_HOST"@), Some("http://localhost:11434/"@)))
    } else if name == "foundry-local"@ {
        Some(row(AdapterKind::OpenAI, None, Some("FOUNDRY_LOCAL_ENDPOINT"@), None))
    } else if name == proxy_name() {
        Some(row(AdapterKind::OpenAI, None, Some("CLAUDE_MAX_API_PROXY_ENDPOINT"@), Some("http://localhost:11434/v1"@)))
    } else if name == "custom"@ {
        Some(row(AdapterKind::OpenAI, Some("CUSTOM_LLM_API_KEY"@), Some("CUSTOM_LLM_BASE_URL"@), None))
    } else {
        None
    }
}

/// What is said of a provider that is not known.
pub open spec fn unknown_provider(name: Seq<char>) -> Seq<char> {
    "unknown LLM provider '"@ + name + "' — supported: "@ + joined(known_names(), ", "@)
}

fn unknown_provider_text(name: &str) -> (r: String)
    ensures
        r@ == unknown_provider(name@),
{
    let names = known_providers();
    let mut s = "unknown LLM provider '".to_string();
    s.append(name);
    s.append("' — supported: ");
    let list = join(&names, ", ");
    s.append(list.as_str());
    s
}

/// How the provider of this name is reached.
pub fn provider_spec(provider: &str) -> (r: Result<ProviderSpec, String>)
    ensures
        match r {
            Ok(spec) => provider_row(provider@) == Some(spec@),
            Err(e) => provider_row(provider@) is None && e@ == unknown_provider(provider@),
        },
{
    if text_eq(provider, "anthropic") {
        // The adapter appends its route to the base URL, so `/v1` must be part of it.
        return Ok(
            ProviderSpec {
                adapter_kind: AdapterKind::Anthropic,
                api_key_env: Some("ANTHROPIC_API_KEY"),
                base_url_env: None,
                default_base_url: Some("https://api.anthropic.com/v1/"),
            },
        );
    }
    if text_eq(provider, "openai") {
        return Ok(
            ProviderSpec {
                adapter_kind: AdapterKind::OpenAI,
                api_key_env: Some("OPENAI_API_KEY"),
                base_url_env: None,
                default_base_url: Some("https://api.openai.com/v1"),
            },
        );
    }
    if text_eq(provider, "groq") {
        return Ok(
            ProviderSpec {
                adapter_kind: AdapterKind::Groq,
                api_key_env: Some("GROQ_API_KEY"),
                base_url_env: None,
                default_base_url: Some("https://api.groq.com/openai/v1"),
            },
        );
    }
    if text_eq(provider, "gemini") {
        return Ok(
            ProviderSpec {
                adapter_kind: AdapterKind::Gemini,
                api_key_env: Some("GEMINI_API_KEY"),
                base_url_env: None,
                default_base_url: Some("https://generativelanguage.googleapis.com/v1beta/"),
            },
        );
    }
    if text_eq(provider, "openrouter") {
        // A gateway to many providers; its model names begin with the provider they
        // come from.
        return Ok(
            ProviderSpec {
                adapter_kind: AdapterKind::OpenRouter,
                api_key_env: Some("OPEN_ROUTER_API_KEY"),
                base_url_env: None,
                default_base_url: Some("https://openrouter.ai/api/v1/"),
            },
        );
    }
    if text_eq(provider, "deepseek") {
        return Ok(
            ProviderSpec {
                adapter_kind: AdapterKind::DeepSeek,
                api_key_env: Some("DEEPSEEK_API_KEY"),
                base_url_env: None,
                default_base_url: Some("https://api.deepseek.com/v1/"),
            },
        );
    }
    if text_eq(provider, "xai") {
        return Ok(
            ProviderSpec {
                adapter_kind: AdapterKind::Xai,
                api_key_env: Some("XAI_API_KEY"),
                base_url_env: None,
                default_base_url: Some("https://api.x.ai/v1/"),
            },
        );
    }
    if text_eq(provider, "together") {
        return Ok(
            ProviderSpec {
                adapter_kind: AdapterKind::Together,
                api_key_env: Some("TOGETHER_API_KEY"),
                base_url_env: None,
                default_base_url: Some("https://api.together.xyz/v1/"),
            },
        );
    }
    if text_eq(provider, "ollama-cloud") {
        // The hosted sibling of `ollama`, which needs a key.
        return Ok(
            ProviderSpec {
                adapter_kind: AdapterKind::OllamaCloud,
                api_key_env: Some("OLLAMA_API_KEY"),
                base_url_env: None,
                default_base_url: Some("https://ollama.com/"),
            },
        );
    }
    if text_eq(provider, "moonshot") {
        return Ok(
            ProviderSpec {
                adapter_kind: AdapterKind::Moonshot,
                api_key_env: Some("MOONSHOT_API_KEY"),
                base_url_env: None,
                default_base_url: Some("https://api.moonshot.cn/v1/"),
            },
        );
    }
    if text_eq(provider, "ollama") {
        return Ok(
            ProviderSpec {
                adapter_kind: AdapterKind::Ollama,
                api_key_env: None,
                base_url_env: Some("OLLAMA_HOST"),
                default_base_url: Some("http://localhost:11434/"),
            },
        );
    }
    if text_eq(provider, "foundry-local") {
        // Its port differs from machine to machine, so there is no default.
        return Ok(
            ProviderSpec {
                adapter_kind: AdapterKind::OpenAI,
                api_key_env: None,
                base_url_env: Some("FOUNDRY_LOCAL_ENDPOINT"),
                default_base_url: None,
            },
        );
    }
    let proxy = proxy_name_text();
    if text_eq(provider, proxy.as_str()) {
        // A local server that speaks for a logged-in subscription; it needs no key.
        return Ok(
            ProviderSpec {
                adapter_kind: AdapterKind::OpenAI,
                api_key_env: None,
                base_url_env: Some("CLAUDE_MAX_API_PROXY_ENDPOINT"),
                default_base_url: Some("http://localhost:11434/v1"),
            },
        );
    }
    if text_eq(provider, "custom") {
        // Any other endpoint that speaks the same protocol.
        return Ok(
            ProviderSpec {
                adapter_kind: AdapterKind::OpenAI,
                api_key_env: Some("CUSTOM_LLM_API_KEY"),
                base_url_env: Some("CUSTOM_LLM_BASE_URL"),
                default_base_url: None,
            },
        );
    }
    Err(unknown_provider_text(provider))
}

/// The providers that are known are exactly those in the table.
pub proof fn law_known_providers_are_those_in_the_table(name: Seq<char>)
    ensures
        known_names().contains(name) <==> provider_row(name) is Some,
{
    let names = known_names();
    assert(names[0] == "anthropic"@);
    assert(names[1] == "openai"@);
    assert(names[2] == "groq"@);
    assert(names[3] == "gemini"@);
    assert(names[4] == "openrouter"@);
    assert(names[5] == "deepseek"@);
    assert(names[6] == "xai"@);
    assert(names[7] == "together"@);
    assert(names[8] == "ollama-cloud"@);
    assert(names[9] == "moonshot"@);
    assert(names[10] == "ollama"@);
    assert(names[11] == "foundry-local"@);
    assert(names[12] == proxy_name());
    assert(names[13] == "custom"@);
}

/// The provider and the model that `spec` names: the two sides of its first slash,
/// neither of them empty.
pub open spec fn model_parts(spec: Seq<char>) -> Option<(Seq<char>, Seq<char>)> {
    match split_once(spec, "/"@) {
        Some((provider, model)) => if provider.len() > 0 && model.len() > 0 {
            Some((provider, model))
        } else {
            None
        },
        None => None,
    }
}

/// What is said of a text that does not name a provider and a model.
pub open spec fn bad_model(spec: Seq<char>) -> Seq<char> {
    "model must be '<provider>/<model_name>' (e.g. 'anthropic/"@ + replaced(
        "claude_3_5_sonnet"@,
        '_',
        "-"@,
    ) + "'), got '"@ + spec + "'"@
}

/// Splits `<provider>/<model>`.
pub fn parse_model_spec(spec: &str) -> (r: Result<(String, String), String>)
    ensures
        match r {
            Ok((provider, model)) => model_parts(spec@) == Some((provider@, model@)),
            Err(e) => model_parts(spec@) is None && e@ == bad_model(spec@),
        },
{
    match split_at_first(spec, "/") {
        Some((provider, model)) => {
            if !provider.as_str().is_empty() && !model.as_str().is_empty() {
                return Ok((provider, model));
            }
        },
        None => {},
    }
    let mut e = "model must be '<provider>/<model_name>' (e.g. 'anthropic/".to_string();
    let model = replace_char("claude_3_5_sonnet", '_', "-");
    e.append(model.as_str());
    e.append("'), got '");
    e.append(spec);
    e.append("'");
    Err(e)
}

/// Whether a variable is set to something other than white space.
pub open spec fn meaningful(value: Option<Seq<char>>) -> bool {
    match value {
        Some(v) => trim(v).len() > 0,
        None => false,
    }
}

/// Whether an environment variable with this value counts as set: one that holds
/// nothing but white space does not.
pub fn env_var_is_meaningfully_set(value: Option<&str>) -> (r: bool)
    ensures
        r == meaningful(opt_str(value)),
{
    match value {
        Some(v) => !is_blank(v),
        None => false,
    }
}

/// What an environment variable is to be set to, given its value and the key that is
/// saved for the provider: nothing where it counts as set or no key is saved.
pub fn seed_env_from_credential_storage(current: Option<&str>, saved: Option<&str>) -> (r: Option<
    String,
>)
    ensures
        opt_view(r) == (if meaningful(opt_str(current)) {
            None
        } else {
            match saved {
                Some(key) => Some(trim(key@)),
                None => None,
            }
        }),
{
    if env_var_is_meaningfully_set(current) {
        return None;
    }
    match saved {
        Some(key) => Some(trimmed(key)),
        None => None,
    }
}

/// A text in capitals.
pub uninterp spec fn uppercase_of(s: Seq<char>) -> Seq<char>;

/// Calls `str::to_uppercase`, whose result is a function of the text alone.
#[verifier::external_body]
fn uppercase(s: &str) -> (r: String)
    ensures
        r@ == uppercase_of(s@),
{
    s.to_uppercase()
}

/// A text in small letters.
pub uninterp spec fn lowercase_of(s: Seq<char>) -> Seq<char>;

/// Calls `str::to_lowercase`, whose result is a function of the text alone.
#[verifier::external_body]
fn lowercase(s: &str) -> (r: String)
    ensures
        r@ == lowercase_of(s@),
{
    s.to_lowercase()
}

/// `s` with an underscore for everything but ASCII letters and digits.
pub open spec fn underscored(s: Seq<char>) -> Seq<char> {
    s.map_values(
        |c: char|
            if is_alnum(c) {
                c
            } else {
                '_'
            },
    )
}

/// The environment variable for a provider whose name in capitals is `capitals`.
pub fn key_variable(capitals: &str) -> (r: String)
    ensures
        r@ == "OKF_CUSTOM_PROVIDER_API_KEY__"@ + underscored(capitals@),
{
    let cs = chars_of(capitals);
    let mut out = "OKF_CUSTOM_PROVIDER_API_KEY__".to_string();
    let ghost had = out@;
    let mut i: usize = 0;
    assert(out@ =~= had + underscored(capitals@.take(0)));
    while i < cs.len()
        invariant
            i <= cs@.len(),
            cs@ == capitals@,
            out@ == had + underscored(capitals@.take(i as int)),
        decreases cs@.len() - i,
    {
        if alnum(cs[i]) {
            out.push(cs[i]);
        } else {
            out.push('_');
        }
        assert(out@ =~= had + underscored(capitals@.take(i + 1)));
        i += 1;
    }
    assert(capitals@.take(capitals@.len() as int) =~= capitals@);
    out
}

/// The environment variable that holds the key of a provider that is not in the
/// table.
pub open spec fn synthetic_env(provider: Seq<char>) -> Seq<char> {
    "OKF_CUSTOM_PROVIDER_API_KEY__"@ + underscored(uppercase_of(provider))
}

/// The environment variable that holds the key of a provider that is not in the
/// table.
pub fn synthetic_api_key_env_name(provider: &str) -> (r: String)
    ensures
        r@ == synthetic_env(provider@),
{
    let capitals = uppercase(provider);
    key_variable(capitals.as_str())
}

/// What a request authenticates with.
#[derive(Debug, Clone)]
pub enum Auth {
    /// The value of this environment variable.
    FromEnv(String),
    /// This value.
    Single(String),
    /// Nothing.
    Nothing,
}

pub enum AuthView {
    FromEnv(Seq<char>),
    Single(Seq<char>),
    Nothing,
}

impl View for Auth {
    type V = AuthView;

    open spec fn view(&self) -> AuthView {
        match self {
            Auth::FromEnv(name) => AuthView::FromEnv(name@),
            Auth::Single(value) => AuthView::Single(value@),
            Auth::Nothing => AuthView::Nothing,
        }
    }
}

/// Where a request goes.
#[derive(Debug, Clone)]
pub struct ProviderTarget {
    pub adapter_kind: AdapterKind,
    pub base_url: String,
    pub auth: Auth,
}

/// The row of a provider; one that is not in the table is taken to speak the most
/// common protocol.
pub open spec fn row_or_custom(provider: Seq<char>) -> ProviderView {
    match provider_row(provider) {
        Some(known) => known,
        None => row(AdapterKind::OpenAI, None, None, None),
    }
}

/// The environment variable that holds a provider's key: the one that is asked for,
/// else that of the table, else, for a provider that is not in the table, one made
/// from its name.
pub open spec fn key_env(provider: Seq<char>, asked: Option<Seq<char>>) -> Option<Seq<char>> {
    match asked {
        Some(name) => Some(name),
        None => match provider_row(provider) {
            Some(known) => known.api_key_env,
            None => Some(synthetic_env(provider)),
        },
    }
}

/// What a request to a provider authenticates with. Without a key, a placeholder
/// stands in for it where the protocol demands one.
pub open spec fn auth_for(adapter_kind: AdapterKind, key_env: Option<Seq<char>>) -> AuthView {
    match key_env {
        Some(name) => AuthView::FromEnv(name),
        None => if adapter_kind == AdapterKind::OpenAI {
            AuthView::Single("not-needed"@)
        } else {
            AuthView::Nothing
        },
    }
}

/// Where a provider is: where it is asked for, else where its environment variable
/// says, else where the table says.
pub open spec fn base_url(
    asked: Option<Seq<char>>,
    from_env: Option<Seq<char>>,
    from_table: Option<Seq<char>>,
) -> Option<Seq<char>> {
    match asked {
        Some(url) => Some(url),
        None => match from_env {
            Some(url) => Some(url),
            None => from_table,
        },
    }
}

/// Whether an address begins with `http://` or `https://`.
pub open spec fn has_scheme(url: Seq<char>) -> bool {
    has_prefix(url, "http://"@) || has_prefix(url, "https://"@)
}

/// An address with a scheme in front and a slash at the end.
pub open spec fn normal_url(url: Seq<char>) -> Seq<char> {
    let full = if has_scheme(url) {
        url
    } else {
        "http://"@ + url
    };
    if full.len() > 0 && full.last() == '/' {
        full
    } else {
        full.push('/')
    }
}

fn normalize_url(url: String) -> (r: String)
    ensures
        r@ == normal_url(url@),
{
    let mut full: String = if starts_with(url.as_str(), "http://") || starts_with(
        url.as_str(),
        "https://",
    ) {
        url
    } else {
        let mut s = "http://".to_string();
        s.append(url.as_str());
        s
    };
    let cs = chars_of(full.as_str());
    if cs.len() == 0 || cs[cs.len() - 1] != '/' {
        full.push('/');
    }
    full
}

fn first_of(a: Option<&str>, b: Option<&str>, c: Option<&'static str>) -> (r: Option<String>)
    ensures
        opt_view(r) == base_url(opt_str(a), opt_str(b), opt_str(c)),
{
    match a {
        Some(s) => Some(s.to_string()),
        None => match b {
            Some(s) => Some(s.to_string()),
            None => match c {
                Some(s) => Some(s.to_string()),
                None => None,
            },
        },
    }
}

/// Where a request to `provider` goes and what it authenticates with.
/// `base_url_from_env` is the value of the environment variable that the provider's
/// row names for its address, if it names one and it is set. A provider that is not
/// in the table is refused unless an address is asked for.
pub fn resolve_provider_target(
    provider: &str,
    base_url_override: Option<&str>,
    api_key_env_override: Option<&str>,
    base_url_from_env: Option<&str>,
) -> (r: Result<ProviderTarget, String>)
    ensures
        ({
            let known = row_or_custom(provider@);
            let from_env = if known.base_url_env is Some {
                opt_str(base_url_from_env)
            } else {
                None
            };
            let url = base_url(opt_str(base_url_override), from_env, known.default_base_url);
            if provider_row(provider@) is None && base_url_override is None {
                r is Err && r->Err_0@ == unknown_provider(provider@)
            } else {
                match url {
                    None => r is Err && r->Err_0@ == "provider '"@ + provider@
                        + "' has no default base URL — set "@ + (match known.base_url_env {
                        Some(name) => name,
                        None => "its base URL"@,
                    }) + " or pass a base URL override"@,
                    Some(u) => r is Ok && r->Ok_0.adapter_kind == known.adapter_kind
                        && r->Ok_0.base_url@ == normal_url(u) && r->Ok_0.auth@ == auth_for(
                        known.adapter_kind,
                        key_env(provider@, opt_str(api_key_env_override)),
                    ),
                }
            }
        }),
{
    let (spec, in_table): (ProviderSpec, bool) = match provider_spec(provider) {
        Ok(spec) => (spec, true),
        Err(e) => {
            if base_url_override.is_none() {
                return Err(e);
            }
            (
                ProviderSpec {
                    adapter_kind: AdapterKind::OpenAI,
                    api_key_env: None,
                    base_url_env: None,
                    default_base_url: None,
                },
                false,
            )
        },
    };
    assert(spec@ == row_or_custom(provider@));
    let key: Option<String> = match api_key_env_override {
        Some(name) => Some(name.to_string()),
        None => match spec.api_key_env {
            Some(name) => Some(name.to_string()),
            None => if in_table {
                None
            } else {
                Some(synthetic_api_key_env_name(provider))
            },
        },
    };
    assert(opt_view(key) == key_env(provider@, opt_str(api_key_env_override)));
    let auth: Auth = match key {
        Some(name) => Auth::FromEnv(name),
        None => if spec.adapter_kind == AdapterKind::OpenAI {
            Auth::Single("not-needed".to_string())
        } else {
            Auth::Nothing
        },
    };
    let from_env: Option<&str> = if spec.base_url_env.is_some() {
        base_url_from_env
    } else {
        None
    };
    match first_of(base_url_override, from_env, spec.default_base_url) {
        Some(url) => Ok(
            ProviderTarget {
                adapter_kind: spec.adapter_kind,
                base_url: normalize_url(url),
                auth,
            },
        ),
        None => {
            let mut e = "provider '".to_string();
            e.append(provider);
            e.append("' has no default base URL — set ");
            match spec.base_url_env {
                Some(name) => {
                    e.append(name);
                },
                None => {
                    e.append("its base URL");
                },
            }
            e.append(" or pass a base URL override");
            Err(e)
        },
    }
}

/// Every address that a request goes to begins with a scheme and ends with a slash.
pub proof fn law_target_addresses_are_complete(url: Seq<char>)
    ensures
        has_scheme(normal_url(url)),
        normal_url(url).len() > 0 && normal_url(url).last() == '/',
        normal_url(normal_url(url)) == normal_url(url),
        has_scheme(url) <==> has_prefix(url, "http://"@) || has_prefix(url, "https://"@),
        has_scheme(url) ==> has_prefix(normal_url(url), url),
        !has_scheme(url) ==> has_prefix(normal_url(url), "http://"@ + url),
        normal_url(url).len() <= url.len() + "http://"@.len() + 1,
{
    let full = if has_scheme(url) {
        url
    } else {
        "http://"@ + url
    };
    let n = normal_url(url);
    if !has_scheme(url) {
        assert(full.subrange(0, "http://"@.len() as int) =~= "http://"@);
        assert(has_prefix(full, "http://"@));
    }
    assert(has_scheme(full));
    assert(n.subrange(0, full.len() as int) =~= full);
    if has_prefix(full, "http://"@) {
        assert(n.subrange(0, "http://"@.len() as int) =~= full.subrange(
            0,
            "http://"@.len() as int,
        ));
    } else {
        assert(n.subrange(0, "https://"@.len() as int) =~= full.subrange(
            0,
            "https://"@.len() as int,
        ));
    }
}

// ---------------------------------------------------------------------------
// Failures
// ---------------------------------------------------------------------------

/// How long a request may take, in seconds, before it counts as failed.
pub const LLM_REQUEST_TIMEOUT_SECS: u64 = 300;

/// Whether a failed request with this status, whose body in small letters is
/// `lowered_body`, was refused because of the model's name.
pub fn names_the_model(status: u16, lowered_body: &str) -> (r: bool)
    ensures
        r == ((status == 404 || status == 400) && has_part(lowered_body@, "model"@)),
{
    (status == 404 || status == 400) && contains_text(lowered_body, "model")
}

/// Whether a request was refused because of the model's name: its status is 404 or
/// 400 and its body speaks of a model, in whatever case. `failure` is the status and
/// the body, where there was an answer.
pub fn looks_like_model_not_found(failure: Option<(u16, &str)>) -> (r: bool)
    ensures
        r == match failure {
            Some((status, body)) => (status == 404 || status == 400) && has_part(
                lowercase_of(body@),
                "model"@,
            ),
            None => false,
        },
{
    match failure {
        Some((status, body)) => {
            let lowered_body = lowercase(body);
            names_the_model(status, lowered_body.as_str())
        },
        None => false,
    }
}

/// The message of a failed request, with the models that the provider has where the
/// model's name was the reason. `listing` is what asking for them came to.
pub fn failure_message(
    message: String,
    provider: &str,
    listing: Option<Result<Vec<String>, String>>,
) -> (r: String)
    ensures
        r@ == match listing {
            None => message@,
            Some(Ok(models)) => message@ + "\n\navailable models for '"@ + provider@ + "': "@
                + joined(views(models@), ", "@),
            Some(Err(e)) => message@ + "\n\n(could not list available models for '"@ + provider@
                + "': "@ + e@ + ")"@,
        },
{
    let mut out = message;
    match listing {
        None => {},
        Some(Ok(models)) => {
            out.append("\n\navailable models for '");
            out.append(provider);
            out.append("': ");
            let list = join(&models, ", ");
            out.append(list.as_str());
        },
        Some(Err(e)) => {
            out.append("\n\n(could not list available models for '");
            out.append(provider);
            out.append("': ");
            out.append(e.as_str());
            out.append(")");
        },
    }
    out
}

// ---------------------------------------------------------------------------
// Laws
// ---------------------------------------------------------------------------

/// A text names a provider and a model exactly if something stands on both sides of its
/// first slash; the provider is all that precedes it, and the model all that follows.
pub proof fn law_the_first_slash_parts_provider_and_model(
    spec: Seq<char>,
    provider: Seq<char>,
    model: Seq<char>,
)
    ensures
        model_parts(spec) == Some((provider, model)) <==> spec == provider + seq!['/'] + model
            && provider.len() > 0 && model.len() > 0 && !provider.contains('/'),
{
    reveal_strlit("/");
    let slash = seq!['/'];
    assert("/"@ =~= slash);
    lemma_find_from(spec, slash, 0);
    if model_parts(spec) == Some((provider, model)) {
        let k = find_from(spec, slash, 0)->0;
        assert(spec.subrange(k, k + 1)[0] == '/');
        assert(spec =~= provider + slash + model);
        if provider.contains('/') {
            let j = choose|j: int| 0 <= j < provider.len() && provider[j] == '/';
            assert(spec[j] == '/');
            assert(spec.subrange(j, j + 1) =~= slash);
            assert(occurs_at(spec, slash, j));
        }
    }
    if spec == provider + slash + model && !provider.contains('/') {
        let n = provider.len() as int;
        assert(spec.subrange(n, n + 1) =~= slash);
        assert forall|j: int| 0 <= j < n implies #[trigger] spec[j] != '/' by {
            assert(spec[j] == provider[j]);
        }
        lemma_found_at_first_char(spec, slash, 0, n);
        assert(spec.take(n) =~= provider);
        assert(spec.skip(n + 1) =~= model);
    }
}

/// The variable for the key of a provider that is not in the table is as long as its name in
/// capitals and keeps the letters and digits of it where they are.
pub proof fn law_key_variables_keep_letters_and_digits(capitals: Seq<char>, i: int)
    requires
        0 <= i < capitals.len(),
    ensures
        underscored(capitals).len() == capitals.len(),
        is_alnum(capitals[i]) ==> underscored(capitals)[i] == capitals[i],
        !is_alnum(capitals[i]) ==> underscored(capitals)[i] == '_',
{
}

/// A provider of the table that needs no key, or has no address of its own, has a variable
/// for its address; and only those that speak the most common protocol have no address.
pub proof fn law_every_provider_can_be_reached(name: Seq<char>)
    requires
        provider_row(name) is Some,
    ensures
        ({
            let known = provider_row(name)->0;
            &&& known.api_key_env is None ==> known.base_url_env is Some
            &&& known.default_base_url is None ==> known.base_url_env is Some
                && known.adapter_kind == AdapterKind::OpenAI
        }),
{
}

/// What is asked for comes before all else: the address and the variable for the key that a
/// request names are used, whatever the environment and the table say. The environment comes
/// before the table, and the table is used where nothing else is said.
pub proof fn law_what_is_asked_for_comes_first(
    provider: Seq<char>,
    asked: Seq<char>,
    from_env: Option<Seq<char>>,
    from_table: Option<Seq<char>>,
)
    ensures
        base_url(Some(asked), from_env, from_table) == Some(asked),
        base_url(None, Some(asked), from_table) == Some(asked),
        base_url(None, None, from_table) == from_table,
        key_env(provider, Some(asked)) == Some(asked),
        provider_row(provider) is Some ==> key_env(provider, None) == provider_row(
            provider,
        )->0.api_key_env,
        provider_row(provider) is None ==> key_env(provider, None) is Some && has_prefix(
            key_env(provider, None)->0,
            "OKF_CUSTOM_PROVIDER_API_KEY__"@,
        ),
{
    if provider_row(provider) is None {
        let head = "OKF_CUSTOM_PROVIDER_API_KEY__"@;
        let name = key_env(provider, None)->0;
        assert(name.subrange(0, head.len() as int) =~= head);
    }
}

/// A key that is named is always sent. Without one, nothing of a person's is: a placeholder,
/// where the protocol demands one, and nothing elsewhere.
pub proof fn law_a_key_that_is_named_is_sent(kind: AdapterKind, name: Seq<char>)
    ensures
        auth_for(kind, Some(name)) == AuthView::FromEnv(name),
        kind == AdapterKind::OpenAI ==> auth_for(kind, None) == AuthView::Single("not-needed"@),
        kind != AdapterKind::OpenAI ==> auth_for(kind, None) == AuthView::Nothing,
{
}

/// A variable counts as set exactly if it holds a character that is no white space.
pub proof fn law_a_blank_variable_is_not_set(value: Seq<char>)
    ensures
        meaningful(Some(value)) <==> exists|i: int|
            0 <= i < value.len() && !is_white(#[trigger] value[i]),
        !meaningful(None),
{
    law_trimming_takes_white_space_off_the_ends(value);
    let (a, b) = choose|a: int, b: int|
        0 <= a <= b <= value.len() && #[trigger] value.subrange(a, b) == trim(value) && (forall|
            i: int,
        |
            0 <= i < a || b <= i < value.len() ==> is_white(#[trigger] value[i]));
    if trim(value).len() > 0 {
        assert(value.subrange(a, b)[0] == value[a]);
    }
}

/// Whoever names a provider that is not known is told of every one that is.
pub proof fn law_every_known_provider_is_named(name: Seq<char>, i: int)
    requires
        0 <= i < known_names().len(),
    ensures
        has_part(unknown_provider(name), known_names()[i]),
        has_part(unknown_provider(name), name),
{
    let head = "unknown LLM provider '"@;
    let middle = "' — supported: "@;
    let names = joined(known_names(), ", "@);
    law_joined_parts_are_there(known_names(), ", "@, i);
    lemma_part(head + name + middle, names, seq![], known_names()[i]);
    lemma_part_of_itself(name);
    lemma_part(head, name, middle + names, name);
    assert(unknown_provider(name) =~= head + name + (middle + names));
}

/// A provider of the table is reached as the table says; one that is not in it is taken to
/// speak the most common protocol, with no address and no key of its own.
pub proof fn law_unknown_providers_speak_the_common_protocol(provider: Seq<char>)
    ensures
        provider_row(provider) is Some ==> row_or_custom(provider) == provider_row(provider)->0,
        provider_row(provider) is None ==> row_or_custom(provider).adapter_kind
            == AdapterKind::OpenAI && row_or_custom(provider).api_key_env is None
            && row_or_custom(provider).base_url_env is None && row_or_custom(
            provider,
        ).default_base_url is None,
{
}

/// Whoever names no provider and model is told how to, and what was given instead.
pub proof fn law_a_bad_model_is_told_back(spec: Seq<char>)
    ensures
        has_suffix(bad_model(spec), "got '"@ + spec + "'"@),
        has_prefix(bad_model(spec), "model must be '<provider>/<model_name>'"@),
{
    let text = bad_model(spec);
    let last = "got '"@ + spec + "'"@;
    let first = "model must be '<provider>/<model_name>'"@;
    reveal_strlit("got '");
    reveal_strlit("'), got '");
    reveal_strlit("model must be '<provider>/<model_name>'");
    reveal_strlit("model must be '<provider>/<model_name>' (e.g. 'anthropic/");
    assert(text.subrange(text.len() - last.len(), text.len() as int) =~= last);
    assert(text.subrange(0, first.len() as int) =~= first);
}

} // verus!
