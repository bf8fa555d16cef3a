use tomli_rust::parse;

/// A small valid document parses.
#[test]
fn test_original_valid_documents() {
    let valid_toml = r#"
        [server]
        host = "127.0.0.1"
        port = 8080
    "#;

    let result = parse(valid_toml);
    assert!(
        result.is_ok(),
        "Failed to parse valid TOML document: {:?}",
        result.err()
    );
}

/// A document with an unclosed table header is refused.
#[test]
fn test_original_invalid_documents() {
    let invalid_toml = r#"
        [server
        host = "127.0.0.1"
    "#;

    let result = parse(invalid_toml);
    assert!(
        result.is_err(),
        "Parser incorrectly accepted an invalid TOML document"
    );

    if let Err(e) = result {
        // Rust specific tests for error positional accuracy
        let msg = e.to_string();
        assert!(
            msg.contains("at line"),
            "Error message missing line number formatting"
        );
    }
}
