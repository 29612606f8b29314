use claw_code::credentials::{
    clear_oauth_credentials, clear_saved_api_key, credentials_home_dir, credentials_path,
    document_root, is_blank_document, load_oauth_credentials, load_saved_api_key,
    provider_auth_path, removes_file, save_api_key, save_oauth_credentials, CredentialsError,
    HomeEnv, SavedApiKeyProvider,
};
use claw_code::json::{JsonObject, JsonValue};

fn text(s: &str) -> JsonValue {
    JsonValue::Str(s.to_string())
}

fn object(members: Vec<(&str, JsonValue)>) -> JsonObject {
    let mut o = JsonObject::new();
    for (k, v) in members {
        o.insert(k.to_string(), v);
    }
    o
}

fn token_set() -> JsonValue {
    JsonValue::Object(object(vec![
        ("accessToken", text("access-token")),
        ("refreshToken", text("refresh-token")),
        ("expiresAt", JsonValue::Number("123".to_string())),
        ("scopes", JsonValue::Array(vec![text("scope:a")])),
    ]))
}

fn no_env() -> HomeEnv {
    HomeEnv { claw_config_home: None, home: None, userprofile: None, homedrive: None, homepath: None }
}

#[test]
fn credentials_home_dir_uses_userprofile_when_home_is_missing() {
    let env = HomeEnv { userprofile: Some(r"C:\Users\TestUser".to_string()), ..no_env() };
    assert_eq!(
        credentials_path(&env),
        Ok(vec![r"C:\Users\TestUser".to_string(), ".claw".to_string(), "credentials.json".to_string()])
    );
}

#[test]
fn credentials_home_dir_prefers_config_home_then_home_then_drive_and_path() {
    let env = HomeEnv {
        claw_config_home: Some("/cfg".to_string()),
        home: Some("/home/u".to_string()),
        ..no_env()
    };
    assert_eq!(credentials_home_dir(&env), Ok(vec!["/cfg".to_string()]));
    let env = HomeEnv { home: Some("/home/u".to_string()), userprofile: Some("x".to_string()), ..no_env() };
    assert_eq!(credentials_home_dir(&env), Ok(vec!["/home/u".to_string(), ".claw".to_string()]));
    let env = HomeEnv { homedrive: Some("D:".to_string()), homepath: Some(r"\Users\me".to_string()), ..no_env() };
    assert_eq!(
        provider_auth_path(&env),
        Ok(vec![r"D:\Users\me".to_string(), ".claw".to_string(), "provider-auth.json".to_string()])
    );
}

#[test]
fn credentials_home_dir_fails_without_any_home() {
    assert_eq!(credentials_home_dir(&no_env()), Err(CredentialsError::HomeNotFound));
    let env = HomeEnv { homedrive: Some("D:".to_string()), ..no_env() };
    assert_eq!(credentials_path(&env), Err(CredentialsError::HomeNotFound));
    assert_eq!(
        CredentialsError::HomeNotFound.message(),
        "could not determine the user home directory from HOME, USERPROFILE, or HOMEDRIVE/HOMEPATH"
    );
}

#[test]
fn blank_documents_and_document_roots() {
    assert!(is_blank_document(""));
    assert!(is_blank_document("  \n\t "));
    assert!(!is_blank_document("{}"));
    assert_eq!(document_root(JsonValue::Object(JsonObject::new())), Ok(JsonObject::new()));
    assert_eq!(document_root(JsonValue::Array(Vec::new())), Err(CredentialsError::DocumentNotObject));
    assert_eq!(
        CredentialsError::DocumentNotObject.message(),
        "credentials file must contain a JSON object"
    );
}

#[test]
fn oauth_credentials_round_trip_and_clear_preserves_other_fields() {
    let root = object(vec![("other", text("value"))]);
    let saved = save_oauth_credentials(root, token_set());
    assert_eq!(load_oauth_credentials(&saved), Some(&token_set()));
    assert_eq!(saved.get("other"), Some(&text("value")));
    assert!(saved.get("oauth").is_some());

    let cleared = clear_oauth_credentials(saved);
    assert_eq!(load_oauth_credentials(&cleared), None);
    assert_eq!(cleared.get("other"), Some(&text("value")));
    assert!(cleared.get("oauth").is_none());
    assert!(!removes_file(&cleared));
}

#[test]
fn null_oauth_member_loads_as_none() {
    let root = object(vec![("oauth", JsonValue::Null)]);
    assert_eq!(load_oauth_credentials(&root), None);
}

#[test]
fn clearing_last_oauth_credentials_removes_credentials_file() {
    let saved = save_oauth_credentials(JsonObject::new(), token_set());
    assert!(!removes_file(&saved));
    let cleared = clear_oauth_credentials(saved);
    assert!(removes_file(&cleared));
}

fn seeded_provider_auth() -> JsonObject {
    object(vec![
        ("version", JsonValue::Number("1".to_string())),
        (
            "providers",
            JsonValue::Object(object(vec![
                ("openrouter", JsonValue::Object(object(vec![("apiKey", text("or-test"))]))),
                ("xai", JsonValue::Object(object(vec![("note", text("keep"))]))),
            ])),
        ),
    ])
}

#[test]
fn provider_api_keys_round_trip_and_preserve_other_entries() {
    let root = seeded_provider_auth();
    let root = save_api_key(root, SavedApiKeyProvider::Anthropic, "anthropic-test").expect("save anthropic key");
    assert_eq!(
        load_saved_api_key(&root, SavedApiKeyProvider::Anthropic),
        Some("anthropic-test".to_string())
    );
    assert_eq!(load_saved_api_key(&root, SavedApiKeyProvider::OpenRouter), Some("or-test".to_string()));

    let root = clear_saved_api_key(root, SavedApiKeyProvider::Anthropic).expect("providers present");
    assert_eq!(load_saved_api_key(&root, SavedApiKeyProvider::Anthropic), None);
    assert_eq!(load_saved_api_key(&root, SavedApiKeyProvider::OpenRouter), Some("or-test".to_string()));

    let providers = match root.get("providers") {
        Some(JsonValue::Object(o)) => o,
        other => panic!("providers should stay an object, got {other:?}"),
    };
    assert!(providers.get("anthropic").is_none());
    assert_eq!(
        providers.get("xai"),
        Some(&JsonValue::Object(object(vec![("note", text("keep"))])))
    );
}

#[test]
fn clearing_last_saved_api_key_removes_provider_auth_file() {
    let root = save_api_key(JsonObject::new(), SavedApiKeyProvider::OpenRouter, "or-test").expect("save openrouter key");
    assert!(!removes_file(&root));
    assert_eq!(root.get("version"), Some(&JsonValue::Number("1".to_string())));
    let root = clear_saved_api_key(root, SavedApiKeyProvider::OpenRouter).expect("providers present");
    assert!(removes_file(&root), "provider-auth.json should be removed when empty");
}

#[test]
fn saving_api_keys_trims_and_rejects_blank_keys() {
    let root = save_api_key(JsonObject::new(), SavedApiKeyProvider::Xai, "  xai-key \n").expect("save");
    assert_eq!(load_saved_api_key(&root, SavedApiKeyProvider::Xai), Some("xai-key".to_string()));
    assert_eq!(
        save_api_key(JsonObject::new(), SavedApiKeyProvider::Xai, " \t "),
        Err(CredentialsError::EmptyApiKey)
    );
    assert_eq!(CredentialsError::EmptyApiKey.message(), "api key must not be empty");
}

#[test]
fn saving_api_keys_rejects_malformed_documents() {
    let root = object(vec![("providers", text("oops"))]);
    assert_eq!(
        save_api_key(root, SavedApiKeyProvider::OpenAi, "k"),
        Err(CredentialsError::ProvidersNotObject)
    );
    let root = object(vec![("providers", JsonValue::Object(object(vec![("openai", JsonValue::Bool(true))])))]);
    assert_eq!(
        save_api_key(root, SavedApiKeyProvider::OpenAi, "k"),
        Err(CredentialsError::ProviderEntryNotObject)
    );
    assert_eq!(
        CredentialsError::ProvidersNotObject.message(),
        "provider-auth.json field 'providers' must be a JSON object"
    );
    assert_eq!(
        CredentialsError::ProviderEntryNotObject.message(),
        "provider-auth.json provider entry must be a JSON object"
    );
}

#[test]
fn blank_saved_keys_load_as_none() {
    let root = object(vec![(
        "providers",
        JsonValue::Object(object(vec![("openai", JsonValue::Object(object(vec![("apiKey", text("   "))])))])),
    )]);
    assert_eq!(load_saved_api_key(&root, SavedApiKeyProvider::OpenAi), None);
    assert_eq!(load_saved_api_key(&JsonObject::new(), SavedApiKeyProvider::OpenAi), None);
}

#[test]
fn clearing_without_providers_leaves_the_document() {
    assert_eq!(clear_saved_api_key(object(vec![("other", text("x"))]), SavedApiKeyProvider::OpenAi), None);
}

#[test]
fn clearing_keeps_other_members_of_the_provider_entry() {
    let root = object(vec![(
        "providers",
        JsonValue::Object(object(vec![(
            "openai",
            JsonValue::Object(object(vec![("apiKey", text("k")), ("org", text("o"))])),
        )])),
    )]);
    let root = clear_saved_api_key(root, SavedApiKeyProvider::OpenAi).expect("providers present");
    let providers = match root.get("providers") {
        Some(JsonValue::Object(o)) => o,
        other => panic!("providers should stay, got {other:?}"),
    };
    assert_eq!(providers.get("openai"), Some(&JsonValue::Object(object(vec![("org", text("o"))]))));
}

#[test]
fn clearing_keeps_version_beside_other_members() {
    let root = save_api_key(object(vec![("note", text("n"))]), SavedApiKeyProvider::Anthropic, "k").expect("save");
    let root = clear_saved_api_key(root, SavedApiKeyProvider::Anthropic).expect("providers present");
    assert!(root.get("providers").is_none());
    assert_eq!(root.get("version"), Some(&JsonValue::Number("1".to_string())));
    assert_eq!(root.get("note"), Some(&text("n")));
}

#[test]
fn provider_keys_name_each_provider() {
    assert_eq!(SavedApiKeyProvider::Anthropic.key(), "anthropic");
    assert_eq!(SavedApiKeyProvider::OpenAi.key(), "openai");
    assert_eq!(SavedApiKeyProvider::OpenRouter.key(), "openrouter");
    assert_eq!(SavedApiKeyProvider::Xai.key(), "xai");
}

#[test]
fn json_objects_insert_replace_and_remove() {
    let mut o = JsonObject::new();
    assert!(o.is_empty());
    o.insert("a".to_string(), text("1"));
    o.insert("b".to_string(), text("2"));
    o.insert("a".to_string(), text("3"));
    assert_eq!(o.len(), 2);
    assert_eq!(o.get("a"), Some(&text("3")));
    assert_eq!(o.remove("a"), Some(text("3")));
    assert_eq!(o.remove("a"), None);
    assert!(o.has_only_member("b"));
    assert_eq!(o.into_entries(), vec![("b".to_string(), text("2"))]);
}
