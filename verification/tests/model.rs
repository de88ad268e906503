use relay_core::model::{CollectionConfig, Environment, Environments, Request};
use relay_core::string_map::StringMap;
use relay_core::vars::apply_variables;

#[test]
fn environment_lookup_by_name() {
    let mut dev = Environment::default();
    dev.variables.insert("base_url".to_string(), "http://dev".to_string());
    let mut environments = Environments::new();
    environments.insert("dev".to_string(), dev);
    environments.insert("prod".to_string(), Environment::default());
    let cfg = CollectionConfig { environments };
    assert_eq!(
        cfg.environment("dev").unwrap().variables.get("base_url").unwrap(),
        "http://dev"
    );
    assert!(cfg.environment("prod").unwrap().variables.pairs().is_empty());
    assert!(cfg.environment("staging").is_none());
    assert!(CollectionConfig::default().environment("dev").is_none());
}

#[test]
fn variables_resolve_url_and_headers_only() {
    let mut vars = StringMap::new();
    vars.insert("base_url".to_string(), "https://api.example.com".to_string());
    vars.insert("auth_token".to_string(), "t0k".to_string());
    let mut req = Request {
        method: "POST".to_string(),
        url: "{{base_url}}/api/users".to_string(),
        headers: StringMap::new(),
        body: Some(relay_core::model::RequestBody {
            body_type: "json".to_string(),
            content: "{{base_url}}".to_string(),
        }),
        auth: None,
    };
    req.headers.insert("Authorization".to_string(), "Bearer {{auth_token}}".to_string());
    req.headers.insert("Content-Type".to_string(), "application/json".to_string());
    apply_variables(&mut req, &vars);
    assert_eq!(req.url, "https://api.example.com/api/users");
    assert_eq!(req.headers.get("Authorization").unwrap(), "Bearer t0k");
    assert_eq!(req.headers.get("Content-Type").unwrap(), "application/json");
    assert_eq!(req.body.unwrap().content, "{{base_url}}");
}

#[test]
fn environments_replace_by_name_and_compare_by_contents() {
    let mut a = Environments::new();
    a.insert("dev".to_string(), Environment::default());
    let mut vars = StringMap::new();
    vars.insert("k".to_string(), "v".to_string());
    a.insert("dev".to_string(), Environment { variables: vars });
    assert_eq!(a.pairs().len(), 1);
    assert_eq!(a.get("dev").unwrap().variables.get("k").unwrap(), "v");
    let mut b = Environments::new();
    let mut vars2 = StringMap::new();
    vars2.insert("k".to_string(), "v".to_string());
    b.insert("dev".to_string(), Environment { variables: vars2 });
    assert!(a == b);
    b.insert("prod".to_string(), Environment::default());
    assert!(a != b);
}
