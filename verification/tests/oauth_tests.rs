use claw_code::encoding::{base64url_encode, percent_decode, percent_encode};
use claw_code::oauth::{
    code_challenge_s256, encode_query, generate_pkce_pair, generate_random_token, generate_state,
    loopback_redirect_uri, parse_oauth_callback_query, parse_oauth_callback_request_target,
    pkce_pair_from_verifier, OAuthAuthorizationRequest, OAuthConfig, OAuthRefreshRequest,
    OAuthTokenExchangeRequest, PkceChallengeMethod,
};

fn sample_config() -> OAuthConfig {
    OAuthConfig {
        client_id: "runtime-client".to_string(),
        authorize_url: "https://console.test/oauth/authorize".to_string(),
        token_url: "https://console.test/oauth/token".to_string(),
        callback_port: Some(4545),
        manual_redirect_url: Some("https://console.test/oauth/callback".to_string()),
        scopes: vec!["org:read".to_string(), "user:write".to_string()],
    }
}

#[test]
fn s256_challenge_matches_expected_vector() {
    assert_eq!(
        code_challenge_s256("dBjftJeZ4CVP-mB92K27uhbUJU1p1r_wW1gFWFOEjXk"),
        "E9Melhoa2OwvFrEMTJguCHaoeK1t8URWbuGJSstw-cM"
    );
}

#[test]
fn generates_pkce_pair_and_state() {
    let pair = generate_pkce_pair().expect("pkce pair");
    let state = generate_state().expect("state");
    assert!(!pair.verifier.is_empty());
    assert!(!pair.challenge.is_empty());
    assert!(!state.is_empty());
}

#[test]
fn generated_tokens_have_the_stated_lengths() {
    let pair = generate_pkce_pair().expect("pkce pair");
    assert_eq!(pair.verifier.len(), 43);
    assert_eq!(pair.challenge.len(), 43);
    assert_eq!(pair.challenge, code_challenge_s256(&pair.verifier));
    assert_eq!(pair.challenge_method, PkceChallengeMethod::S256);
    assert_eq!(generate_state().expect("state").len(), 43);
    assert_eq!(generate_random_token(0).expect("token"), "");
    assert_eq!(generate_random_token(1).expect("token").len(), 2);
    assert_eq!(generate_random_token(2).expect("token").len(), 3);
}

#[test]
fn pkce_pair_from_verifier_uses_s256() {
    let pair = pkce_pair_from_verifier("dBjftJeZ4CVP-mB92K27uhbUJU1p1r_wW1gFWFOEjXk".to_string());
    assert_eq!(pair.verifier, "dBjftJeZ4CVP-mB92K27uhbUJU1p1r_wW1gFWFOEjXk");
    assert_eq!(pair.challenge, "E9Melhoa2OwvFrEMTJguCHaoeK1t8URWbuGJSstw-cM");
    assert_eq!(pair.challenge_method.as_str(), "S256");
}

#[test]
fn builds_authorize_url_and_form_requests() {
    let config = sample_config();
    let pair = generate_pkce_pair().expect("pkce");
    let url = OAuthAuthorizationRequest::from_config(
        &config,
        &loopback_redirect_uri(4545),
        "state-123",
        &pair,
    )
    .with_extra_param("login_hint", "user@example.com")
    .build_url();
    assert!(url.starts_with("https://console.test/oauth/authorize?"));
    assert!(url.contains("response_type=code"));
    assert!(url.contains("client_id=runtime-client"));
    assert!(url.contains("scope=org%3Aread%20user%3Awrite"));
    assert!(url.contains("login_hint=user%40example.com"));

    let exchange = OAuthTokenExchangeRequest::from_config(
        &config,
        "auth-code",
        "state-123",
        &pair.verifier,
        &loopback_redirect_uri(4545),
    );
    assert_eq!(
        exchange.form_params().get("grant_type").map(String::as_str),
        Some("authorization_code")
    );

    let refresh = OAuthRefreshRequest::from_config(&config, "refresh-token", None);
    assert_eq!(
        refresh.form_params().get("scope").map(String::as_str),
        Some("org:read user:write")
    );
}

#[test]
fn authorize_url_lists_parameters_in_order() {
    let config = sample_config();
    let pair = pkce_pair_from_verifier("verifier".to_string());
    let url = OAuthAuthorizationRequest::from_config(&config, "http://localhost:1/callback", "st", &pair)
        .build_url();
    let expected = format!(
        "https://console.test/oauth/authorize?response_type=code&client_id=runtime-client&redirect_uri=http%3A%2F%2Flocalhost%3A1%2Fcallback&scope=org%3Aread%20user%3Awrite&state=st&code_challenge={}&code_challenge_method=S256",
        pair.challenge
    );
    assert_eq!(url, expected);
}

#[test]
fn authorize_url_appends_to_an_existing_query() {
    let mut config = sample_config();
    config.authorize_url = "https://console.test/oauth/authorize?org=1".to_string();
    let pair = pkce_pair_from_verifier("verifier".to_string());
    let url = OAuthAuthorizationRequest::from_config(&config, "r", "s", &pair).build_url();
    assert!(url.starts_with("https://console.test/oauth/authorize?org=1&response_type=code&"));
}

#[test]
fn extra_params_are_sorted_and_a_later_value_wins() {
    let config = sample_config();
    let pair = pkce_pair_from_verifier("verifier".to_string());
    let url = OAuthAuthorizationRequest::from_config(&config, "r", "s", &pair)
        .with_extra_param("zeta", "1")
        .with_extra_param("alpha", "2")
        .with_extra_param("zeta", "3")
        .build_url();
    assert!(url.ends_with("&code_challenge_method=S256&alpha=2&zeta=3"));
}

#[test]
fn exchange_form_holds_every_field() {
    let config = sample_config();
    let exchange = OAuthTokenExchangeRequest::from_config(&config, "code-1", "state-1", "ver-1", "uri-1");
    let form = exchange.form_params();
    assert_eq!(form.len(), 6);
    assert_eq!(form.get("grant_type").map(String::as_str), Some("authorization_code"));
    assert_eq!(form.get("code").map(String::as_str), Some("code-1"));
    assert_eq!(form.get("redirect_uri").map(String::as_str), Some("uri-1"));
    assert_eq!(form.get("client_id").map(String::as_str), Some("runtime-client"));
    assert_eq!(form.get("code_verifier").map(String::as_str), Some("ver-1"));
    assert_eq!(form.get("state").map(String::as_str), Some("state-1"));
    assert_eq!(form.get("scope"), None);
}

#[test]
fn refresh_form_uses_given_scopes_over_configured_ones() {
    let config = sample_config();
    let refresh = OAuthRefreshRequest::from_config(&config, "rt", Some(vec!["a".to_string(), "b".to_string()]));
    let form = refresh.form_params();
    assert_eq!(form.len(), 4);
    assert_eq!(form.get("grant_type").map(String::as_str), Some("refresh_token"));
    assert_eq!(form.get("refresh_token").map(String::as_str), Some("rt"));
    assert_eq!(form.get("client_id").map(String::as_str), Some("runtime-client"));
    assert_eq!(form.get("scope").map(String::as_str), Some("a b"));
}

#[test]
fn loopback_redirect_uri_names_the_port() {
    assert_eq!(loopback_redirect_uri(4545), "http://localhost:4545/callback");
    assert_eq!(loopback_redirect_uri(0), "http://localhost:0/callback");
    assert_eq!(loopback_redirect_uri(65535), "http://localhost:65535/callback");
}

#[test]
fn parses_callback_query_and_target() {
    let params = parse_oauth_callback_query("code=abc123&state=state-1&error_description=needs%20login")
        .expect("parse query");
    assert_eq!(params.code.as_deref(), Some("abc123"));
    assert_eq!(params.state.as_deref(), Some("state-1"));
    assert_eq!(params.error_description.as_deref(), Some("needs login"));

    let params = parse_oauth_callback_request_target("/callback?code=abc&state=xyz")
        .expect("parse callback target");
    assert_eq!(params.code.as_deref(), Some("abc"));
    assert_eq!(params.state.as_deref(), Some("xyz"));
    assert!(parse_oauth_callback_request_target("/wrong?code=abc").is_err());
}

#[test]
fn callback_target_errors_name_the_path() {
    assert_eq!(
        parse_oauth_callback_request_target("/wrong?code=abc"),
        Err("unexpected callback path: /wrong".to_string())
    );
    let params = parse_oauth_callback_request_target("/callback").expect("no query");
    assert_eq!(params.code, None);
    assert_eq!(params.state, None);
    assert_eq!(params.error, None);
    assert_eq!(params.error_description, None);
}

#[test]
fn callback_query_handles_repeats_blanks_and_bare_keys() {
    let params = parse_oauth_callback_query("&code=a&&code=b&error&state=x+y").expect("parse");
    assert_eq!(params.code.as_deref(), Some("b"));
    assert_eq!(params.error.as_deref(), Some(""));
    assert_eq!(params.state.as_deref(), Some("x y"));
}

#[test]
fn callback_query_rejects_bad_percent_escapes() {
    assert_eq!(
        parse_oauth_callback_query("code=%zz1"),
        Err("invalid percent byte: 122".to_string())
    );
    let utf8_error = String::from_utf8(vec![0xff, 0xfe]).unwrap_err().to_string();
    assert_eq!(parse_oauth_callback_query("code=%FF%FE"), Err(utf8_error.clone()));
    assert_eq!(parse_oauth_callback_request_target("/callback?state=%FF%FE"), Err(utf8_error.clone()));
    assert_eq!(percent_decode("%FF%FE"), Err(utf8_error));
}

#[test]
fn percent_encoding_keeps_unreserved_bytes() {
    assert_eq!(percent_encode("AZaz09-_.~"), "AZaz09-_.~");
    assert_eq!(percent_encode("a b+c/é"), "a%20b%2Bc%2F%C3%A9");
    assert_eq!(percent_encode(""), "");
}

#[test]
fn percent_decoding_undoes_encoding() {
    for text in ["", "hello world", "a+b=c&d", "üñí©ødé ✓", "100% sure"] {
        assert_eq!(percent_decode(&percent_encode(text)), Ok(text.to_string()));
    }
}

#[test]
fn percent_decoding_edge_cases() {
    assert_eq!(percent_decode("a+b"), Ok("a b".to_string()));
    assert_eq!(percent_decode("%41%62"), Ok("Ab".to_string()));
    assert_eq!(percent_decode("50%"), Ok("50%".to_string()));
    assert_eq!(percent_decode("%4"), Ok("%4".to_string()));
    assert_eq!(percent_decode("%G1x"), Err("invalid percent byte: 71".to_string()));
}

#[test]
fn base64url_encodes_without_padding() {
    assert_eq!(base64url_encode(b""), "");
    assert_eq!(base64url_encode(b"f"), "Zg");
    assert_eq!(base64url_encode(b"fo"), "Zm8");
    assert_eq!(base64url_encode(b"foo"), "Zm9v");
    assert_eq!(base64url_encode(b"foobar"), "Zm9vYmFy");
    assert_eq!(base64url_encode(&[0xfb, 0xff, 0xbf]), "-_-_");
}

#[test]
fn generated_tokens_come_from_the_random_source() {
    let first = generate_state().expect("state");
    let second = generate_state().expect("state");
    assert_ne!(first, second);
    assert_ne!(first, "A".repeat(43));
    let pair = generate_pkce_pair().expect("pkce pair");
    assert_ne!(pair.verifier, "A".repeat(43));
}

#[test]
fn authorization_requests_clone_with_their_extra_params() {
    let config = sample_config();
    let pair = pkce_pair_from_verifier("verifier".to_string());
    let request = OAuthAuthorizationRequest::from_config(&config, "r", "s", &pair).with_extra_param("k", "v");
    let copy = request.clone();
    assert_eq!(copy, request);
    assert_eq!(copy.extra_params.get("k").map(String::as_str), Some("v"));
    assert_eq!(copy.build_url(), request.build_url());
}

#[test]
fn callback_parser_reads_back_an_encoded_query() {
    let pairs = vec![
        ("code".to_string(), "a b&c".to_string()),
        ("state".to_string(), "x=y/z".to_string()),
        ("error".to_string(), "".to_string()),
        ("code".to_string(), "\u{fc}n\u{ef}+".to_string()),
    ];
    let query = encode_query(&pairs);
    assert_eq!(query, "code=a%20b%26c&state=x%3Dy%2Fz&error=&code=%C3%BCn%C3%AF%2B");
    let params = parse_oauth_callback_query(&query).expect("parse");
    assert_eq!(params.code.as_deref(), Some("\u{fc}n\u{ef}+"));
    assert_eq!(params.state.as_deref(), Some("x=y/z"));
    assert_eq!(params.error.as_deref(), Some(""));
    assert_eq!(params.error_description, None);
}
