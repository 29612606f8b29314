use claw_code::catalog::{
    api_error_from_reply, is_retryable_status, is_success_status, models_user_endpoint,
    read_base_url, sort_models, ApiError, OpenRouterCatalogClient, OpenRouterModel,
    OpenRouterPricing, OpenRouterTopProvider, DEFAULT_BASE_URL,
};

fn model(id: &str, name: &str) -> OpenRouterModel {
    OpenRouterModel {
        id: id.to_string(),
        canonical_slug: String::new(),
        name: name.to_string(),
        description: String::new(),
        pricing: OpenRouterPricing::default(),
        context_length: 0,
        top_provider: OpenRouterTopProvider::default(),
        supported_parameters: Vec::new(),
    }
}

#[test]
fn derives_models_endpoint_from_supported_base_urls() {
    assert_eq!(
        models_user_endpoint("https://openrouter.ai/api/v1"),
        "https://openrouter.ai/api/v1/models/user"
    );
    assert_eq!(
        models_user_endpoint("https://openrouter.ai/api/v1/"),
        "https://openrouter.ai/api/v1/models/user"
    );
    assert_eq!(
        models_user_endpoint("https://openrouter.ai/api/v1/chat/completions"),
        "https://openrouter.ai/api/v1/models/user"
    );
    assert_eq!(
        models_user_endpoint("https://openrouter.ai/api/v1/models/user"),
        "https://openrouter.ai/api/v1/models/user"
    );
}

#[test]
fn models_endpoint_strips_models_suffix_and_many_slashes() {
    assert_eq!(
        models_user_endpoint("https://example.test/v1/models"),
        "https://example.test/v1/models/user"
    );
    assert_eq!(
        models_user_endpoint("https://example.test/v1///"),
        "https://example.test/v1/models/user"
    );
    assert_eq!(models_user_endpoint(""), "/models/user");
}

#[test]
fn models_endpoint_of_a_client_follows_its_base_url() {
    let client = OpenRouterCatalogClient::new("key".to_string(), read_base_url(None))
        .with_base_url("https://proxy.test/api/chat/completions".to_string());
    assert_eq!(client.api_key, "key");
    assert_eq!(client.models_endpoint(), "https://proxy.test/api/models/user");
}

#[test]
fn base_url_defaults_when_not_configured() {
    assert_eq!(read_base_url(None), DEFAULT_BASE_URL);
    assert_eq!(read_base_url(None), "https://openrouter.ai/api/v1");
    assert_eq!(
        read_base_url(Some("https://custom.test/v1".to_string())),
        "https://custom.test/v1"
    );
}

#[test]
fn client_from_env_needs_an_api_key() {
    let missing = OpenRouterCatalogClient::from_env(Ok(None), DEFAULT_BASE_URL.to_string());
    assert_eq!(
        missing,
        Err(ApiError::MissingCredentials {
            provider: "OpenRouter".to_string(),
            env_vars: vec!["OPENROUTER_API_KEY".to_string()],
        })
    );
    let client = OpenRouterCatalogClient::from_env(Ok(Some("sk-or".to_string())), "https://b.test".to_string())
        .expect("client");
    assert_eq!(client.api_key, "sk-or");
    assert_eq!(client.base_url, "https://b.test");
}

#[test]
fn client_from_env_passes_a_failed_lookup_on() {
    let lookup_error = ApiError::EnvVar {
        name: "OPENROUTER_API_KEY".to_string(),
        message: "environment variable was not valid unicode".to_string(),
    };
    assert_eq!(
        OpenRouterCatalogClient::from_env(Err(lookup_error.clone()), DEFAULT_BASE_URL.to_string()),
        Err(lookup_error)
    );
}

#[test]
fn classifies_statuses() {
    assert!(is_success_status(200));
    assert!(is_success_status(204));
    assert!(!is_success_status(301));
    assert!(!is_success_status(404));
    for status in [408u16, 409, 429, 500, 502, 503, 504] {
        assert!(is_retryable_status(status), "{status} should be retryable");
    }
    for status in [400u16, 401, 403, 404, 501, 505] {
        assert!(!is_retryable_status(status), "{status} should not be retryable");
    }
}

#[test]
fn error_reply_carries_body_and_retryability() {
    let error = api_error_from_reply(
        429,
        "{\"error\":{}}".to_string(),
        Some("rate_limit".to_string()),
        Some("slow down".to_string()),
    );
    assert_eq!(
        error,
        ApiError::Api {
            status: 429,
            error_type: Some("rate_limit".to_string()),
            message: Some("slow down".to_string()),
            body: "{\"error\":{}}".to_string(),
            retryable: true,
        }
    );
    let error = api_error_from_reply(401, "denied".to_string(), None, None);
    assert_eq!(
        error,
        ApiError::Api {
            status: 401,
            error_type: None,
            message: None,
            body: "denied".to_string(),
            retryable: false,
        }
    );
}

#[test]
fn sorts_models_by_lowercase_name_then_id() {
    let models = vec![
        model("z/one", "beta"),
        model("b/two", "Alpha"),
        model("a/three", "alpha"),
        model("c/four", "Gamma"),
    ];
    let sorted = sort_models(models);
    let ids: Vec<&str> = sorted.iter().map(|m| m.id.as_str()).collect();
    assert_eq!(ids, vec!["a/three", "b/two", "z/one", "c/four"]);
}

#[test]
fn sorting_models_keeps_the_order_of_equal_keys() {
    let mut first = model("same/id", "Same");
    first.description = "first".to_string();
    let mut second = model("same/id", "same");
    second.description = "second".to_string();
    let sorted = sort_models(vec![first, model("a/x", "Other"), second]);
    let descriptions: Vec<&str> = sorted.iter().map(|m| m.description.as_str()).collect();
    assert_eq!(descriptions, vec!["", "first", "second"]);
    assert_eq!(sorted[0].id, "a/x");
}

#[test]
fn sorting_no_models_gives_none() {
    assert!(sort_models(Vec::new()).is_empty());
}

#[test]
fn pricing_and_top_provider_default_to_empty() {
    let pricing = OpenRouterPricing::default();
    assert!(pricing.prompt.is_empty());
    assert!(pricing.completion.is_empty());
    assert!(pricing.request.is_empty());
    assert!(pricing.image.is_empty());
    let top = OpenRouterTopProvider::default();
    assert_eq!(top.context_length, None);
    assert_eq!(top.max_completion_tokens, None);
    assert_eq!(top.is_moderated, None);
}
