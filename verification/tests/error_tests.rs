use tomli_rust::TomlError;

#[test]
fn error_at_pos_counts_lines_and_columns() {
    let src = "a = 1\nbé = 2\n";
    let e = TomlError::at_pos("bad", 9, src);
    assert_eq!(e.message(), "bad");
    assert_eq!(e.to_string(), "bad (at line 2, column 3)");
}

#[test]
fn error_at_pos_at_start_and_past_the_end() {
    let src = "x\n";
    assert_eq!(TomlError::at_pos("m", 0, src).to_string(), "m (at line 1, column 1)");
    assert_eq!(TomlError::at_pos("m", 2, src).to_string(), "m (at line 2, column 1)");
    assert_eq!(TomlError::at_pos("m", 100, src).to_string(), "m (at line 2, column 1)");
}

#[test]
fn error_without_position_is_only_the_message() {
    let e = TomlError::new("Input must be valid UTF-8");
    assert_eq!(e.to_string(), "Input must be valid UTF-8");
    assert_eq!(e.message(), "Input must be valid UTF-8");
}

#[test]
fn error_numbers_have_several_digits() {
    let mut src = String::new();
    for _ in 0..120 {
        src.push('\n');
    }
    src.push_str("0123456789");
    let e = TomlError::at_pos("m", 130, &src);
    assert_eq!(e.to_string(), "m (at line 121, column 11)");
}
