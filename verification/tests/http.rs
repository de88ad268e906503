use relay_core::auth::AuthError;
use relay_core::http::{plan_request, response_headers, HttpError};
use relay_core::model::{Request, RequestAuth, RequestBody};
use relay_core::string_map::StringMap;

fn request(method: &str) -> Request {
    Request {
        method: method.to_string(),
        url: "http://127.0.0.1:1/api/test".to_string(),
        headers: StringMap::new(),
        body: None,
        auth: None,
    }
}

#[test]
fn plan_for_get_request() {
    let mut req = request("GET");
    req.headers.insert("Accept".to_string(), "text/plain".to_string());
    let plan = plan_request(&req).unwrap();
    assert_eq!(plan.method, "GET");
    assert_eq!(plan.url, "http://127.0.0.1:1/api/test");
    assert_eq!(plan.headers.get("Accept").unwrap(), "text/plain");
    assert!(plan.token_auth.is_none());
    assert!(plan.body.is_none());
}

#[test]
fn invalid_method_is_refused() {
    for m in ["", "GE T", "GÉT", "GET\n", "(GET)"] {
        match plan_request(&request(m)) {
            Err(HttpError::InvalidMethod(got)) => assert_eq!(got, m),
            other => panic!("unexpected {:?}", other),
        }
    }
    assert_eq!(
        plan_request(&request("B@D")).unwrap_err().message(),
        "Invalid HTTP method: B@D"
    );
}

#[test]
fn extension_methods_are_accepted() {
    for m in ["PROPFIND", "get", "X-CUSTOM_1.0", "A!#$%&'*+-.^_`|~"] {
        assert_eq!(plan_request(&request(m)).unwrap().method, m);
    }
}

#[test]
fn invalid_headers_are_dropped() {
    let mut req = request("POST");
    req.headers.insert("Bad Header".to_string(), "x".to_string());
    req.headers.insert("X-Line".to_string(), "a\nb".to_string());
    req.headers.insert("X-Del".to_string(), "a\u{7f}".to_string());
    req.headers.insert("X-Tab".to_string(), "a\tb é".to_string());
    req.headers.insert("".to_string(), "empty name".to_string());
    req.headers.insert("Content-Type".to_string(), "application/json".to_string());
    let plan = plan_request(&req).unwrap();
    assert!(plan.headers.get("Bad Header").is_none());
    assert!(plan.headers.get("X-Line").is_none());
    assert!(plan.headers.get("X-Del").is_none());
    assert!(plan.headers.get("").is_none());
    assert_eq!(plan.headers.get("X-Tab").unwrap(), "a\tb é");
    assert_eq!(plan.headers.get("Content-Type").unwrap(), "application/json");
    assert_eq!(plan.headers.pairs().len(), 2);
}

#[test]
fn body_and_token_are_planned() {
    let mut req = request("POST");
    req.body = Some(RequestBody { body_type: "json".to_string(), content: "{}".to_string() });
    req.auth = Some(RequestAuth {
        auth_type: "oauth2_client_credentials".to_string(),
        token_url: None,
        client_id: None,
        client_secret: None,
    });
    let plan = plan_request(&req).unwrap();
    assert_eq!(plan.body.as_deref(), Some("{}"));
    assert_eq!(plan.token_auth, req.auth);
    assert!(plan.token_auth.is_some());
    req.auth.as_mut().unwrap().auth_type = "inherit".to_string();
    assert!(plan_request(&req).unwrap().token_auth.is_none());
}

#[test]
fn auth_error_messages_are_nested() {
    let e = HttpError::Auth(AuthError::MissingConfig("x".to_string()));
    assert_eq!(e.message(), "Auth error: Missing auth config: x");
    let e = HttpError::Auth(AuthError::Parse("bad".to_string()));
    assert_eq!(e.message(), "Auth error: Auth parsing error: bad");
    assert_eq!(
        HttpError::InvalidMethod("BAD METHOD".to_string()).message(),
        "Invalid HTTP method: BAD METHOD"
    );
}

#[test]
fn response_headers_keep_readable_values() {
    let raw = vec![
        ("content-type".to_string(), b"text/plain".to_vec()),
        ("x-bin".to_string(), vec![0xC3, 0xA9]),
        ("x-tab".to_string(), b"a\tb".to_vec()),
        ("x-ctl".to_string(), vec![b'a', 0x01]),
        ("set-cookie".to_string(), b"a=1".to_vec()),
        ("set-cookie".to_string(), b"b=2".to_vec()),
    ];
    let m = response_headers(&raw);
    assert_eq!(m.get("content-type").unwrap(), "text/plain");
    assert!(m.get("x-bin").is_none());
    assert!(m.get("x-ctl").is_none());
    assert_eq!(m.get("x-tab").unwrap(), "a\tb");
    assert_eq!(m.get("set-cookie").unwrap(), "b=2");
    assert_eq!(m.pairs().len(), 3);
}

#[test]
fn client_error_messages_carry_the_error_text() {
    let err = reqwest::Client::new().get("not a url").build().unwrap_err();
    let text = err.to_string();
    assert_eq!(HttpError::Reqwest(err).message(), format!("Request error: {}", text));
    let err = reqwest::Client::new().get("::").build().unwrap_err();
    let text = err.to_string();
    assert_eq!(
        HttpError::Auth(AuthError::Reqwest(err)).message(),
        format!("Auth error: Auth request error: {}", text)
    );
}
