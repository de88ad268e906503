use relay_core::parser::{load_secrets, ParseError};

#[test]
fn test_load_secrets_valid() {
    let content = r#"
api_key = "super_secret"
token = "abc123xyz"
"#;
    let secrets = load_secrets(content).unwrap();
    assert_eq!(secrets.get("api_key").unwrap(), "super_secret");
    assert_eq!(secrets.get("token").unwrap(), "abc123xyz");
    assert_eq!(secrets.pairs().len(), 2);
}

#[test]
fn invalid_secrets_are_a_toml_error() {
    for content in ["\n[meta\nname = \"Test\n", "n = 1", "a = \"x\"\na = \"y\""] {
        match load_secrets(content) {
            Err(e @ ParseError::Toml(_)) => assert!(e.message().starts_with("TOML parsing error: ")),
            other => panic!("unexpected {:?}", other.map(|m| m.pairs().len())),
        }
    }
}

#[test]
fn empty_secrets_file_is_an_empty_table() {
    assert_eq!(load_secrets("").unwrap().pairs().len(), 0);
}

#[test]
fn toml_error_message_carries_the_error_text() {
    let content = "n = 1";
    let expected = toml::from_str::<std::collections::HashMap<String, String>>(content)
        .unwrap_err()
        .to_string();
    let e = load_secrets(content).unwrap_err();
    assert_eq!(e.message(), format!("TOML parsing error: {}", expected));
}
