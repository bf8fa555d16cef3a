use tomli_rust::parser::{Flags, Parser};
use tomli_rust::{parse, parse_bytes, Date, Datetime, Table, Value};

fn refused_at(doc: &str, line: usize, col: usize) {
    assert_eq!(
        parse(doc).unwrap_err().to_string(),
        format!("Invalid or unsupported value (at line {}, column {})", line, col)
    );
}

fn table_of(entries: Vec<(&str, Value)>) -> Table {
    let mut t = Table::new();
    for (k, v) in entries {
        t.insert(k.to_string(), v);
    }
    t
}

#[test]
fn document_keys_hold_their_values() {
    let doc = "title = \"TOML Example\"\n[owner]\nname = 'Tom'\n# comment\n\r\n  dob = 1979-05-27\n";
    let t = parse(doc).unwrap();
    assert_eq!(t.len(), 2);
    assert_eq!(t.get("title"), Some(&Value::String("TOML Example".to_string())));
    let mut owner = Table::new();
    owner.insert("name".to_string(), Value::String("Tom".to_string()));
    owner.insert(
        "dob".to_string(),
        Value::Datetime(Datetime::LocalDate(Date { year: 1979, month: 5, day: 27 })),
    );
    assert_eq!(t.get("owner"), Some(&Value::Table(owner)));
}

#[test]
fn document_reads_booleans_integers_and_strings() {
    let t = parse("a = true\nb = false # c\nc = -42\nd = 1_000\ne = +7\nf = \"x\\ty\"\n").unwrap();
    assert_eq!(t.get("a"), Some(&Value::Boolean(true)));
    assert_eq!(t.get("b"), Some(&Value::Boolean(false)));
    assert_eq!(t.get("c"), Some(&Value::Integer(-42)));
    assert_eq!(t.get("d"), Some(&Value::Integer(1000)));
    assert_eq!(t.get("e"), Some(&Value::Integer(7)));
    assert_eq!(t.get("f"), Some(&Value::String("x\ty".to_string())));
    refused_at("g = 3.5", 1, 5);
    let big = parse("m = -9223372036854775808\nn = 9223372036854775807").unwrap();
    assert_eq!(big.get("m"), Some(&Value::Integer(i64::MIN)));
    assert_eq!(big.get("n"), Some(&Value::Integer(i64::MAX)));
    refused_at("o = 9223372036854775808", 1, 5);
    refused_at("a = 012", 1, 5);
    refused_at("a = 1__0", 1, 5);
    refused_at("a = abc", 1, 5);
}

#[test]
fn document_read_values_end_their_statement() {
    assert_eq!(
        parse("a = true x").unwrap_err().to_string(),
        "Expected newline or end of document after a statement (at line 1, column 10)"
    );
    assert_eq!(
        parse("a = 'x' 'y'").unwrap_err().to_string(),
        "Expected newline or end of document after a statement (at line 1, column 9)"
    );
    assert_eq!(
        parse("a = 'unterminated").unwrap_err().to_string(),
        "Unterminated literal string (at line 1, column 18)"
    );
    assert_eq!(
        parse("a = \"bad\u{1}\"").unwrap_err().to_string(),
        "Invalid character in basic string (at line 1, column 9)"
    );
}

#[test]
fn document_readme_example_parses() {
    let toml_data = r#"
        [server]
        host = "127.0.0.1"
        port = 8080
        active = true
    "#;
    let t = parse(toml_data).unwrap();
    let keys: Vec<&str> = t.entries().iter().map(|(k, _)| k.as_str()).collect();
    assert_eq!(keys, vec!["server"]);
    let mut server = Table::new();
    server.insert("host".to_string(), Value::String("127.0.0.1".to_string()));
    server.insert("port".to_string(), Value::Integer(8080));
    server.insert("active".to_string(), Value::Boolean(true));
    assert_eq!(t.get("server"), Some(&Value::Table(server)));
}

#[test]
fn document_readme_error_example() {
    let err = parse("[unclosed_table").unwrap_err();
    assert_eq!(err.message(), "Expected closing bracket for table header");
    assert_eq!(
        err.to_string(),
        "Expected closing bracket for table header (at line 1, column 16)"
    );
}

#[test]
fn document_errors_name_their_place() {
    assert_eq!(
        parse("a = 1\n  = 2").unwrap_err().to_string(),
        "Invalid statement (at line 2, column 3)"
    );
    assert_eq!(
        parse("key 1").unwrap_err().to_string(),
        "Expected '=' after key (at line 1, column 5)"
    );
    assert_eq!(
        parse("[ ]").unwrap_err().to_string(),
        "Expected valid table key (at line 1, column 3)"
    );
    assert_eq!(
        parse("[[arr]\n").unwrap_err().to_string(),
        "Expected closing bracket for table header (at line 1, column 6)"
    );
    assert_eq!(
        parse("é = 1").unwrap_err().to_string(),
        "Invalid statement (at line 1, column 1)"
    );
}

#[test]
fn document_same_key_under_another_header() {
    let t = parse("a = 1\nb = 2\n[t]\na = 3").unwrap();
    assert_eq!(t.len(), 3);
    assert_eq!(t.get("a"), Some(&Value::Integer(1)));
    let mut inner = Table::new();
    inner.insert("a".to_string(), Value::Integer(3));
    assert_eq!(t.get("t"), Some(&Value::Table(inner)));
}

#[test]
fn document_values_are_not_read() {
    refused_at("[[tables]] # note\nkey = [1, 2] # note\n", 2, 7);
    refused_at("t = { a = 1 }", 1, 5);
    refused_at("s = \"\"\"multi\"\"\"", 1, 5);
}

#[test]
fn document_empty_and_blank_documents() {
    assert!(parse("").unwrap().is_empty());
    assert!(parse(" \t\n\r\n# only a comment").unwrap().is_empty());
}

#[test]
fn document_bytes_must_be_utf8() {
    let err = parse_bytes(&[b'a', b' ', b'=', 0xff]).unwrap_err();
    assert_eq!(err.to_string(), "Input must be valid UTF-8");
    let doc = "k = 1\n";
    assert_eq!(parse_bytes(doc.as_bytes()), parse(doc));
    assert_eq!(parse_bytes(b"[x"), parse("[x"));
}

#[test]
fn document_parser_and_flags() {
    let parser = Parser::new("x = 1");
    let t = parser.parse().unwrap();
    assert!(t.contains_key("x"));

    let mut flags = Flags::new();
    let key = vec!["server".to_string()];
    assert!(!flags.is_frozen(&key));
    flags.set_explicit_nest(key.clone());
    assert!(!flags.is_frozen(&key));
    assert!(flags.is_explicit(&key));
    let inner = vec!["server".to_string(), "inner".to_string()];
    flags.add_pending(inner.clone());
    assert!(!flags.is_explicit(&inner));
    flags.finalize_pending();
    assert!(flags.is_explicit(&inner));
    flags.unset_all(&key);
    assert!(!flags.is_explicit(&key));
    assert!(!flags.is_explicit(&inner));
}

#[test]
fn document_statement_must_end_its_line() {
    assert_eq!(
        parse("[a] x = 1\n").unwrap_err().to_string(),
        "Expected newline or end of document after a statement (at line 1, column 5)"
    );
    assert!(parse("[a]   # comment\nk = 1").is_ok());
    assert!(parse("[a]\t\r\nk = 1").is_ok());
}

#[test]
fn document_key_needs_a_value() {
    assert_eq!(parse("a =\n").unwrap_err().to_string(), "Invalid value (at line 1, column 4)");
    assert_eq!(parse("a = ").unwrap_err().to_string(), "Invalid value (at line 1, column 5)");
    assert_eq!(parse("a = # c").unwrap_err().to_string(), "Invalid value (at line 1, column 5)");
}

#[test]
fn document_refuses_redefinitions() {
    assert_eq!(
        parse("[a]\n[a]\n").unwrap_err().to_string(),
        "Cannot declare ('a',) twice (at line 2, column 3)"
    );
    assert_eq!(
        parse("[[a]]\n[a]\n").unwrap_err().to_string(),
        "Cannot declare ('a',) twice (at line 2, column 3)"
    );
    assert_eq!(
        parse("a = 1\na = 2").unwrap_err().to_string(),
        "Cannot overwrite a value (at line 2, column 6)"
    );
    assert!(parse("[[a]]\nx = 1\n[[a]]\nx = 2\n").is_ok());
    assert!(parse("x = 1\n[t]\nx = 2\n").is_ok());
}

#[test]
fn document_headers_make_tables_and_arrays_of_tables() {
    let t = parse("[[p]]\nx = 1\n[[p]]\nx = 2\n[q]\n").unwrap();
    let mut first = Table::new();
    first.insert("x".to_string(), Value::Integer(1));
    let mut second = Table::new();
    second.insert("x".to_string(), Value::Integer(2));
    assert_eq!(
        t.get("p"),
        Some(&Value::Array(vec![Value::Table(first), Value::Table(second)]))
    );
    assert_eq!(t.get("q"), Some(&Value::Table(Table::new())));
}

#[test]
fn document_headers_may_not_overwrite_values() {
    assert_eq!(
        parse("a = 1\n[a]\n").unwrap_err().to_string(),
        "Cannot overwrite a value (at line 2, column 3)"
    );
    assert_eq!(
        parse("a = 1\n[[a]]\n").unwrap_err().to_string(),
        "Cannot overwrite a value (at line 2, column 4)"
    );
    assert_eq!(
        parse("[a]\n[[a]]\n").unwrap_err().to_string(),
        "Cannot overwrite a value (at line 2, column 4)"
    );
}

#[test]
fn document_quoted_keys() {
    let t = parse("\"quoted key\" = 1\n'lit.key' = 2\n\"\" = 3\n[\"my table\"]\nx = true\n").unwrap();
    assert_eq!(t.get("quoted key"), Some(&Value::Integer(1)));
    assert_eq!(t.get("lit.key"), Some(&Value::Integer(2)));
    assert_eq!(t.get(""), Some(&Value::Integer(3)));
    let mut inner = Table::new();
    inner.insert("x".to_string(), Value::Boolean(true));
    assert_eq!(t.get("my table"), Some(&Value::Table(inner)));
    assert_eq!(parse("\"a\\tb\" = 1").unwrap().get("a\tb"), Some(&Value::Integer(1)));
    assert_eq!(
        parse("\"a\\qb\" = 1").unwrap_err().to_string(),
        "Unescaped '\\' in a string (at line 1, column 2)"
    );
    assert_eq!(
        parse("'open = 1").unwrap_err().to_string(),
        "Unterminated literal string (at line 1, column 10)"
    );
}

#[test]
fn document_reads_datetimes() {
    let t = parse("a = 1979-05-27T07:32:00Z\nb = 07:32:00\n").unwrap();
    assert_eq!(t.get("a"), Datetime::parse("1979-05-27T07:32:00Z").map(Value::Datetime).as_ref());
    assert_eq!(t.get("b"), Datetime::parse("07:32:00").map(Value::Datetime).as_ref());
    let t = parse("c = 1979-05-27 07:32:00\ne = 1979-05-27 07:32:00.5-07:00 # x\nf = 1979-05-27 # y\n").unwrap();
    assert_eq!(t.get("c"), Datetime::parse("1979-05-27T07:32:00").map(Value::Datetime).as_ref());
    assert_eq!(
        t.get("e"),
        Datetime::parse("1979-05-27T07:32:00.5-07:00").map(Value::Datetime).as_ref()
    );
    assert_eq!(t.get("f"), Datetime::parse("1979-05-27").map(Value::Datetime).as_ref());
    refused_at("c = 1979-05-27 7:32\n", 1, 5);
    assert_eq!(
        parse("c = 1979-05-27 07:32:00 x").unwrap_err().to_string(),
        "Expected newline or end of document after a statement (at line 1, column 25)"
    );
    refused_at("d = 2021-13-45\n", 1, 5);
}

#[test]
fn document_basic_string_escapes() {
    let t = parse("s = \"a\\\"b\\\\c\\n\\u00e9\\U0001F600\"\n").unwrap();
    assert_eq!(t.get("s"), Some(&Value::String("a\"b\\c\n\u{e9}\u{1F600}".to_string())));
    assert_eq!(
        parse("s = \"bad \\x\"").unwrap_err().to_string(),
        "Unescaped '\\' in a string (at line 1, column 6)"
    );
    assert_eq!(
        parse("s = \"\\uD800\"").unwrap_err().to_string(),
        "Unescaped '\\' in a string (at line 1, column 6)"
    );
}

#[test]
fn document_dotted_header_makes_nested_tables() {
    let t = parse("[a.b]\n").unwrap();
    let expected = table_of(vec![("a", Value::Table(table_of(vec![("b", Value::Table(Table::new()))])))]);
    assert_eq!(t, expected);
    let t = parse("[ a . \"b c\" . 'd' ]\nx = 1\n").unwrap();
    let d = table_of(vec![("x", Value::Integer(1))]);
    let bc = table_of(vec![("d", Value::Table(d))]);
    let a = table_of(vec![("b c", Value::Table(bc))]);
    assert_eq!(t, table_of(vec![("a", Value::Table(a))]));
}

#[test]
fn document_dotted_keys_make_nested_tables() {
    let t = parse("a.b = 1\na.c = 'x'\n[t]\nu.v.w = true\n").unwrap();
    let a = table_of(vec![("b", Value::Integer(1)), ("c", Value::String("x".to_string()))]);
    let v = table_of(vec![("w", Value::Boolean(true))]);
    let tt = table_of(vec![("u", Value::Table(table_of(vec![("v", Value::Table(v))])))]);
    assert_eq!(t, table_of(vec![("a", Value::Table(a)), ("t", Value::Table(tt))]));
    assert_eq!(
        parse("a.b = 1\na.b.c = 2\n").unwrap_err().to_string(),
        "Cannot overwrite a value (at line 2, column 10)"
    );
    assert_eq!(
        parse("a = 1\na.b = 2\n").unwrap_err().to_string(),
        "Cannot overwrite a value (at line 2, column 8)"
    );
    assert_eq!(
        parse("a. = 1").unwrap_err().to_string(),
        "Invalid initial character for a key part (at line 1, column 4)"
    );
}

#[test]
fn document_dotted_keys_and_declared_tables() {
    assert_eq!(
        parse("[a.b]\n[a]\nb.c = 1\n").unwrap_err().to_string(),
        "Cannot redefine namespace ('a', 'b') (at line 3, column 8)"
    );
    assert_eq!(
        parse("[a]\nb.c = 1\n[a.b]\n").unwrap_err().to_string(),
        "Cannot declare ('a', 'b') twice (at line 3, column 5)"
    );
    assert_eq!(
        parse("[a.b]\n[a.b]\n").unwrap_err().to_string(),
        "Cannot declare ('a', 'b') twice (at line 2, column 5)"
    );
    let t = parse("[a.b]\nx = 1\n[a]\ny = 2\n").unwrap();
    let b = table_of(vec![("x", Value::Integer(1))]);
    let a = table_of(vec![("b", Value::Table(b)), ("y", Value::Integer(2))]);
    assert_eq!(t, table_of(vec![("a", Value::Table(a))]));
}

#[test]
fn document_arrays_of_tables_reopen_their_namespaces() {
    let t = parse("[[a]]\nb.c = 1\n[[a]]\nb.c = 2\n[a.d]\n").unwrap();
    let first = table_of(vec![("b", Value::Table(table_of(vec![("c", Value::Integer(1))])))]);
    let second = table_of(vec![
        ("b", Value::Table(table_of(vec![("c", Value::Integer(2))]))),
        ("d", Value::Table(Table::new())),
    ]);
    assert_eq!(
        t,
        table_of(vec![("a", Value::Array(vec![Value::Table(first), Value::Table(second)]))])
    );
    let t = parse("[[a.b]]\nx = 1\n").unwrap();
    let inner = table_of(vec![("x", Value::Integer(1))]);
    let a = table_of(vec![("b", Value::Array(vec![Value::Table(inner)]))]);
    assert_eq!(t, table_of(vec![("a", Value::Table(a))]));
}

#[test]
fn document_parse_bytes_agrees_with_parse() {
    for doc in ["[a.b]\nx = 1\n", "a.b = 1\na.b = 2\n", "k = 'v'\n[[t]]\n"] {
        assert_eq!(parse_bytes(doc.as_bytes()), parse(doc));
    }
}

#[test]
fn document_reads_integers_in_other_bases() {
    let t = parse("h = 0x1F\no = 0o17\nb = 0b101\nw = 0xdead_BEEF\nm = 0x7fffffffffffffff\n").unwrap();
    assert_eq!(t.get("h"), Some(&Value::Integer(31)));
    assert_eq!(t.get("o"), Some(&Value::Integer(15)));
    assert_eq!(t.get("b"), Some(&Value::Integer(5)));
    assert_eq!(t.get("w"), Some(&Value::Integer(0xdead_beef)));
    assert_eq!(t.get("m"), Some(&Value::Integer(i64::MAX)));
    refused_at("x = 0x", 1, 5);
    refused_at("x = 0x_1", 1, 5);
    refused_at("x = 0x1_", 1, 5);
    refused_at("x = 0o8", 1, 5);
    refused_at("x = 0b102", 1, 5);
    refused_at("x = +0x1", 1, 5);
    refused_at("x = 0X1", 1, 5);
    refused_at("x = 0x8000000000000000", 1, 5);
}

#[test]
fn document_reads_multi_line_literal_strings() {
    let t = parse("a = '''abc'''\nb = '''\nline 1\n  line 2\\n'''\nc = '''it's'''\nd = '''x''''\ne = '''x'''''\n").unwrap();
    assert_eq!(t.get("a"), Some(&Value::String("abc".to_string())));
    assert_eq!(t.get("b"), Some(&Value::String("line 1\n  line 2\\n".to_string())));
    assert_eq!(t.get("c"), Some(&Value::String("it's".to_string())));
    assert_eq!(t.get("d"), Some(&Value::String("x'".to_string())));
    assert_eq!(t.get("e"), Some(&Value::String("x''".to_string())));
    let t = parse("a = '''\r\nx'''\r\n").unwrap();
    assert_eq!(t.get("a"), Some(&Value::String("x".to_string())));
    assert_eq!(
        parse("a = '''abc").unwrap_err().to_string(),
        "Unterminated literal string (at line 1, column 11)"
    );
    assert_eq!(
        parse("a = '''a\u{1}'''").unwrap_err().to_string(),
        "Invalid character in literal string (at line 1, column 9)"
    );
    assert_eq!(
        parse("a = '''x''''''").unwrap_err().to_string(),
        "Expected newline or end of document after a statement (at line 1, column 14)"
    );
}
