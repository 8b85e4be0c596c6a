use okf_mcp::compiler::provider::{
    env_var_is_meaningfully_set, failure_message, known_providers, looks_like_model_not_found,
    parse_model_spec, provider_spec, resolve_provider_target, seed_env_from_credential_storage,
    synthetic_api_key_env_name, AdapterKind, Auth, LLM_REQUEST_TIMEOUT_SECS,
};

fn dashed(text: &str) -> String {
    text.replace('_', "-")
}

#[test]
fn looks_like_model_not_found_matches_a_404_mentioning_model() {
    assert!(looks_like_model_not_found(Some((404, &dashed("model: claude_bogus not found")))));
}

#[test]
fn looks_like_model_not_found_matches_a_400_mentioning_model_case_insensitively() {
    assert!(looks_like_model_not_found(Some((400, &dashed("The Model 'claude_bogus' does not exist")))));
}

#[test]
fn looks_like_model_not_found_does_not_match_an_unrelated_404() {
    assert!(!looks_like_model_not_found(Some((404, "route not found"))));
}

#[test]
fn looks_like_model_not_found_does_not_match_a_500() {
    assert!(!looks_like_model_not_found(Some((500, "model unavailable"))));
}

#[test]
fn looks_like_model_not_found_does_not_match_a_non_web_call_error() {
    assert!(!looks_like_model_not_found(None));
}

#[test]
fn llm_compiler_driver_builds_with_a_bounded_request_timeout() {
    assert_eq!(LLM_REQUEST_TIMEOUT_SECS, 300);
}

#[test]
fn resolve_provider_target_treats_an_unrecognized_name_with_an_override_as_openai_compatible() {
    let target = resolve_provider_target(
        "totally-unknown-provider",
        Some("https://example.com/v1"),
        None,
        None,
    )
    .unwrap();
    assert_eq!(target.adapter_kind, AdapterKind::OpenAI);
    assert_eq!(target.base_url, "https://example.com/v1/");
    match target.auth {
        Auth::FromEnv(env_name) => {
            assert_eq!(env_name, synthetic_api_key_env_name("totally-unknown-provider"));
        }
        _ => panic!("expected a key from the environment"),
    }
}

#[test]
fn resolve_provider_target_prefers_an_explicit_api_key_env_override_over_the_synthetic_name() {
    let target = resolve_provider_target(
        "another-unrecognized-provider",
        Some("https://example.com/v1"),
        Some("SOME_EXPLICIT_ENV_VAR"),
        None,
    )
    .unwrap();
    match target.auth {
        Auth::FromEnv(env_name) => assert_eq!(env_name, "SOME_EXPLICIT_ENV_VAR"),
        _ => panic!("expected a key from the environment"),
    }
}

#[test]
fn resolve_provider_target_still_rejects_a_genuinely_unknown_provider_with_no_override() {
    let err = resolve_provider_target("not-a-real-provider", None, None, None).unwrap_err();
    assert!(err.contains("unknown LLM provider"));
}

#[test]
fn resolve_provider_target_gives_a_no_key_openai_adapter_provider_a_resolvable_auth_value() {
    let target =
        resolve_provider_target("foundry-local", None, None, Some("http://localhost:5272/v1/"))
            .unwrap();
    assert_eq!(target.adapter_kind, AdapterKind::OpenAI);
    assert!(matches!(target.auth, Auth::Single(_)));
}

#[test]
fn claude_max_api_proxy_default_base_url_matches_the_ollama_port_convention() {
    let spec = provider_spec(&dashed("claude_max_api_proxy")).unwrap();
    assert_eq!(spec.default_base_url, Some("http://localhost:11434/v1"));
    assert_eq!(spec.api_key_env, None);
    assert_eq!(spec.base_url_env, Some("CLAUDE_MAX_API_PROXY_ENDPOINT"));
}

#[test]
fn resolve_provider_target_resolves_claude_max_api_proxy_default_and_override() {
    let target = resolve_provider_target(&dashed("claude_max_api_proxy"), None, None, None).unwrap();
    assert_eq!(target.adapter_kind, AdapterKind::OpenAI);
    assert_eq!(target.base_url, "http://localhost:11434/v1/");
    assert!(matches!(target.auth, Auth::Single(_)));
    let target = resolve_provider_target(
        &dashed("claude_max_api_proxy"),
        None,
        None,
        Some("http://localhost:3456/v1"),
    )
    .unwrap();
    assert_eq!(target.base_url, "http://localhost:3456/v1/");
}

#[test]
fn resolve_provider_target_leaves_ollamas_no_key_auth_data_as_none() {
    let target = resolve_provider_target("ollama", None, None, None).unwrap();
    assert_eq!(target.adapter_kind, AdapterKind::Ollama);
    assert!(matches!(target.auth, Auth::Nothing));
}

#[test]
fn list_models_for_custom_without_a_base_url_fails_clearly() {
    let err = resolve_provider_target("custom", None, None, None).unwrap_err();
    assert!(err.contains("no default base URL"));
}

#[test]
fn parse_model_spec_splits_provider_and_model() {
    assert_eq!(
        parse_model_spec(&dashed("anthropic/claude_3_5_sonnet")).unwrap(),
        ("anthropic".to_string(), dashed("claude_3_5_sonnet"))
    );
}

#[test]
fn parse_model_spec_rejects_a_bare_model_name() {
    assert!(parse_model_spec("gpt-4o").is_err());
}

#[test]
fn parse_model_spec_rejects_an_empty_provider_or_model() {
    assert!(parse_model_spec(&dashed("/claude_3_5_sonnet")).is_err());
    assert!(parse_model_spec("anthropic/").is_err());
}

#[test]
fn parse_model_spec_allows_a_model_name_that_itself_contains_a_slash() {
    assert_eq!(
        parse_model_spec("custom/my-org/my-model").unwrap(),
        ("custom".to_string(), "my-org/my-model".to_string())
    );
}

#[test]
fn provider_spec_rejects_an_unknown_provider() {
    assert!(provider_spec("not-a-real-provider").is_err());
}

#[test]
fn provider_spec_covers_every_documented_provider() {
    for provider in known_providers() {
        assert!(provider_spec(&provider).is_ok(), "{provider} should resolve");
    }
}

#[test]
fn ollama_default_base_url_ends_with_slash() {
    let spec = provider_spec("ollama").unwrap();
    assert_eq!(spec.default_base_url, Some("http://localhost:11434/"));
}

#[test]
fn anthropic_default_base_url_includes_the_v1_path_segment() {
    let spec = provider_spec("anthropic").unwrap();
    assert_eq!(spec.default_base_url, Some("https://api.anthropic.com/v1/"));
}

#[test]
fn new_providers_default_base_urls_match_genais_own_adapter_defaults() {
    let cases = [
        ("gemini", "https://generativelanguage.googleapis.com/v1beta/"),
        ("openrouter", "https://openrouter.ai/api/v1/"),
        ("deepseek", "https://api.deepseek.com/v1/"),
        ("xai", "https://api.x.ai/v1/"),
        ("together", "https://api.together.xyz/v1/"),
        ("ollama-cloud", "https://ollama.com/"),
        ("moonshot", "https://api.moonshot.cn/v1/"),
    ];
    for (provider, expected_url) in cases {
        let spec = provider_spec(provider).unwrap();
        assert_eq!(spec.default_base_url, Some(expected_url), "{provider}'s default_base_url");
    }
}

#[test]
fn new_providers_use_their_documented_api_key_env_var() {
    let cases = [
        ("gemini", "GEMINI_API_KEY"),
        ("openrouter", "OPEN_ROUTER_API_KEY"),
        ("deepseek", "DEEPSEEK_API_KEY"),
        ("xai", "XAI_API_KEY"),
        ("together", "TOGETHER_API_KEY"),
        ("ollama-cloud", "OLLAMA_API_KEY"),
        ("moonshot", "MOONSHOT_API_KEY"),
    ];
    for (provider, expected_env) in cases {
        let spec = provider_spec(provider).unwrap();
        assert_eq!(spec.api_key_env, Some(expected_env), "{provider}'s api_key_env");
    }
}

#[test]
fn seed_env_from_credential_storage_does_not_overwrite_an_already_set_var() {
    assert_eq!(seed_env_from_credential_storage(Some("already-set"), Some("saved")), None);
    assert_eq!(
        seed_env_from_credential_storage(None, Some("saved")).as_deref(),
        Some("saved")
    );
    assert_eq!(
        seed_env_from_credential_storage(Some("  "), Some("saved")).as_deref(),
        Some("saved")
    );
    assert_eq!(seed_env_from_credential_storage(None, None), None);
}

#[test]
fn env_var_is_meaningfully_set_treats_blank_and_whitespace_only_as_unset() {
    assert!(!env_var_is_meaningfully_set(None));
    assert!(!env_var_is_meaningfully_set(Some("")));
    assert!(!env_var_is_meaningfully_set(Some("   ")));
    assert!(env_var_is_meaningfully_set(Some("real-value")));
}

#[test]
fn a_synthetic_key_variable_is_in_capitals() {
    assert_eq!(synthetic_api_key_env_name("my-vllm"), "OKF_CUSTOM_PROVIDER_API_KEY__MY_VLLM");
    assert_eq!(synthetic_api_key_env_name("straße"), "OKF_CUSTOM_PROVIDER_API_KEY__STRASSE");
}

#[test]
fn a_failure_lists_the_models_where_the_name_was_the_reason() {
    assert_eq!(failure_message("no".to_string(), "p", None), "no");
    assert_eq!(
        failure_message("no".to_string(), "p", Some(Ok(vec!["a".to_string(), "b".to_string()]))),
        "no\n\navailable models for 'p': a, b"
    );
    assert_eq!(
        failure_message("no".to_string(), "p", Some(Err("down".to_string()))),
        "no\n\n(could not list available models for 'p': down)"
    );
}
