use relay_core::string_map::StringMap;
use relay_core::vars::{interpolate, resolve_scopes};

#[test]
fn test_interpolate_single_var() {
    let mut vars = StringMap::new();
    vars.insert("base_url".to_string(), "https://api.example.com".to_string());

    let input = "{{base_url}}/users";
    let expected = "https://api.example.com/users";
    assert_eq!(interpolate(input, &vars), expected);
}

#[test]
fn test_interpolate_multiple_vars() {
    let mut vars = StringMap::new();
    vars.insert("greeting".to_string(), "Hello".to_string());
    vars.insert("name".to_string(), "World".to_string());

    let input = "{{greeting}}, {{name}}!";
    let expected = "Hello, World!";
    assert_eq!(interpolate(input, &vars), expected);
}

#[test]
fn test_interpolate_missing_var() {
    let vars = StringMap::new();
    let input = "Bearer {{token}}";
    let expected = "Bearer {{token}}";
    assert_eq!(interpolate(input, &vars), expected);
}

#[test]
fn test_interpolate_with_spaces_inside() {
    let mut vars = StringMap::new();
    vars.insert("token".to_string(), "secret123".to_string());

    let input = "Authorization: Bearer {{ token }}";
    let expected = "Authorization: Bearer secret123";
    assert_eq!(interpolate(input, &vars), expected);
}

#[test]
fn test_interpolate_malformed() {
    let vars = StringMap::new();
    let input = "This has an unclosed {{var";
    let expected = "This has an unclosed {{var";
    assert_eq!(interpolate(input, &vars), expected);
}

#[test]
fn test_resolve_scopes_precedence() {
    let mut global = StringMap::new();
    global.insert("var_a".to_string(), "global_a".to_string());
    global.insert("var_b".to_string(), "global_b".to_string());

    let mut collection = StringMap::new();
    collection.insert("var_b".to_string(), "collection_b".to_string());
    collection.insert("var_c".to_string(), "collection_c".to_string());

    let mut env = StringMap::new();
    env.insert("var_c".to_string(), "env_c".to_string());
    env.insert("var_d".to_string(), "env_d".to_string());

    let mut request = StringMap::new();
    request.insert("var_d".to_string(), "request_d".to_string());
    request.insert("var_e".to_string(), "request_e".to_string());

    let resolved = resolve_scopes(&global, &collection, &env, &request);

    assert_eq!(resolved.get("var_a").unwrap(), "global_a");
    assert_eq!(resolved.get("var_b").unwrap(), "collection_b");
    assert_eq!(resolved.get("var_c").unwrap(), "env_c");
    assert_eq!(resolved.get("var_d").unwrap(), "request_d");
    assert_eq!(resolved.get("var_e").unwrap(), "request_e");
}

#[test]
fn interpolate_unknown_var_with_spaces_keeps_spaces() {
    let vars = StringMap::new();
    assert_eq!(interpolate("a {{ x }} b", &vars), "a {{ x }} b");
}

#[test]
fn interpolate_closes_at_first_double_brace() {
    let mut vars = StringMap::new();
    vars.insert("a".to_string(), "1".to_string());
    assert_eq!(interpolate("{{a}}}", &vars), "1}");
    assert_eq!(interpolate("{{{a}}", &vars), "{{{a}}");
    assert_eq!(interpolate("{a}{{a}}", &vars), "{a}1");
}

#[test]
fn interpolate_empty_and_degenerate_inputs() {
    let mut vars = StringMap::new();
    vars.insert("".to_string(), "EMPTY".to_string());
    assert_eq!(interpolate("", &vars), "");
    assert_eq!(interpolate("{{}}", &vars), "EMPTY");
    assert_eq!(interpolate("{{  }}", &vars), "EMPTY");
    assert_eq!(interpolate("{{", &vars), "{{");
    assert_eq!(interpolate("{", &vars), "{");
    assert_eq!(interpolate("}}", &vars), "}}");
}

#[test]
fn interpolate_trims_unicode_white_space() {
    let mut vars = StringMap::new();
    vars.insert("v".to_string(), "ok".to_string());
    assert_eq!(interpolate("{{\u{3000}v\t\n}}", &vars), "ok");
    assert_eq!(interpolate("{{\u{200B}v}}", &vars), "{{\u{200B}v}}");
}

#[test]
fn interpolate_with_non_ascii_text() {
    let mut vars = StringMap::new();
    vars.insert("nom".to_string(), "héllo wörld".to_string());
    assert_eq!(interpolate("→{{nom}}←", &vars), "→héllo wörld←");
}

#[test]
fn string_map_insert_replaces_value() {
    let mut m = StringMap::new();
    m.insert("k".to_string(), "1".to_string());
    m.insert("k".to_string(), "2".to_string());
    assert_eq!(m.get("k").unwrap(), "2");
    assert_eq!(m.pairs().len(), 1);
    assert!(m.contains_key("k"));
    assert!(!m.contains_key("K"));
    assert!(m.get("missing").is_none());
}

#[test]
fn resolve_scopes_with_empty_scopes() {
    let empty = StringMap::new();
    let mut g = StringMap::new();
    g.insert("x".to_string(), "1".to_string());
    let r = resolve_scopes(&g, &empty, &empty, &empty);
    assert_eq!(r.get("x").unwrap(), "1");
    assert_eq!(r.pairs().len(), 1);
    let r2 = resolve_scopes(&empty, &empty, &empty, &empty);
    assert_eq!(r2.pairs().len(), 0);
}

#[test]
fn string_maps_compare_by_contents() {
    let mut a = StringMap::new();
    a.insert("x".to_string(), "1".to_string());
    a.insert("y".to_string(), "2".to_string());
    let mut b = StringMap::new();
    b.insert("y".to_string(), "2".to_string());
    b.insert("x".to_string(), "1".to_string());
    assert!(a == b);
    assert!(a.clone() == a);
    b.insert("x".to_string(), "3".to_string());
    assert!(a != b);
    let mut c = StringMap::new();
    c.insert("x".to_string(), "1".to_string());
    assert!(a != c);
    assert!(c != a);
    assert!(StringMap::default() == StringMap::new());
}

#[test]
fn text_without_placeholders_is_unchanged() {
    let mut vars = StringMap::new();
    vars.insert("a".to_string(), "X".to_string());
    for s in ["no braces here", "{a}", "a}} {", "{ {a} }", "}}{a}"] {
        assert_eq!(interpolate(s, &vars), s);
    }
}
