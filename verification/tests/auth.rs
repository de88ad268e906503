use relay_core::auth::{begin_token, finish_token, prepare_token_request, AuthError, TokenStep};
use relay_core::model::RequestAuth;
use relay_core::string_map::StringMap;

fn client_credentials(url: &str) -> RequestAuth {
    RequestAuth {
        auth_type: "oauth2_client_credentials".to_string(),
        token_url: Some(url.to_string()),
        client_id: Some("test_client_id".to_string()),
        client_secret: Some("test_client_secret".to_string()),
    }
}

#[test]
fn test_get_token_success() {
    let auth = client_credentials("http://127.0.0.1:1/token");
    let mut cache = StringMap::new();
    let req = match begin_token(&auth, &cache).unwrap() {
        TokenStep::Fetch(req) => req,
        TokenStep::Cached(_) => panic!("empty cache"),
    };
    assert_eq!(req.token_url, "http://127.0.0.1:1/token");
    assert_eq!(req.client_id, "test_client_id");
    assert_eq!(req.client_secret, "test_client_secret");
    assert_eq!(req.cache_key, "http://127.0.0.1:1/token|test_client_id");
    assert_eq!(req.grant_type, "client_credentials");
    let token = finish_token(&req, r#"{"access_token": "mocked_token_123"}"#, &mut cache).unwrap();
    assert_eq!(token, "mocked_token_123");
}

#[test]
fn cached_token_is_reused() {
    let auth = client_credentials("http://example.test/token");
    let mut cache = StringMap::new();
    let req = prepare_token_request(&auth).unwrap();
    finish_token(&req, r#"{"access_token":"abc","expires_in":3600}"#, &mut cache).unwrap();
    match begin_token(&auth, &cache).unwrap() {
        TokenStep::Cached(t) => assert_eq!(t, "abc"),
        TokenStep::Fetch(_) => panic!("token should be cached"),
    }
}

#[test]
fn unsupported_auth_type_is_refused() {
    let mut auth = client_credentials("u");
    auth.auth_type = "inherit".to_string();
    match prepare_token_request(&auth) {
        Err(AuthError::MissingConfig(m)) => assert_eq!(m, "Unsupported auth type: inherit"),
        other => panic!("unexpected {:?}", other),
    }
}

#[test]
fn missing_fields_are_reported_in_order() {
    let mut auth = client_credentials("u");
    auth.client_secret = None;
    auth.token_url = None;
    match prepare_token_request(&auth) {
        Err(AuthError::MissingConfig(m)) => assert_eq!(m, "token_url is required"),
        other => panic!("unexpected {:?}", other),
    }
    let mut auth = client_credentials("u");
    auth.client_id = None;
    match prepare_token_request(&auth) {
        Err(AuthError::MissingConfig(m)) => assert_eq!(m, "client_id is required"),
        other => panic!("unexpected {:?}", other),
    }
    let mut auth = client_credentials("u");
    auth.client_secret = None;
    match prepare_token_request(&auth) {
        Err(e) => assert_eq!(e.message(), "Missing auth config: client_secret is required"),
        other => panic!("unexpected {:?}", other),
    }
}

#[test]
fn reply_without_token_is_a_parse_error() {
    let req = prepare_token_request(&client_credentials("u")).unwrap();
    let mut cache = StringMap::new();
    match finish_token(&req, r#"{"token":"x"}"#, &mut cache) {
        Err(AuthError::Parse(m)) => {
            assert_eq!(m, r#"Response missing access_token. Body: {"token":"x"}"#)
        }
        other => panic!("unexpected {:?}", other),
    }
    match finish_token(&req, r#"{"access_token":5}"#, &mut cache) {
        Err(AuthError::Parse(m)) => assert!(m.starts_with("Response missing access_token")),
        other => panic!("unexpected {:?}", other),
    }
    assert!(cache.pairs().is_empty());
}

#[test]
fn reply_that_is_not_json_is_a_parse_error() {
    let req = prepare_token_request(&client_credentials("u")).unwrap();
    let mut cache = StringMap::new();
    match finish_token(&req, "not json", &mut cache) {
        Err(AuthError::Parse(m)) => {
            let expected = serde_json::from_str::<serde_json::Value>("not json")
                .unwrap_err()
                .to_string();
            assert_eq!(m, expected);
        }
        other => panic!("unexpected {:?}", other),
    }
    assert!(cache.get("u|test_client_id").is_none());
}
