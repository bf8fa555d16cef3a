use tomli_rust::lexer::Lexer;
use tomli_rust::tokenizer::{Token, Tokenizer};

#[test]
fn tokenizer_bare_key_takes_the_longest_run() {
    let mut t = Tokenizer::new(Lexer::new("server_name-2 = 1"));
    assert_eq!(t.parse_bare_key(), Some(Token::BareKey("server_name-2")));
    assert_eq!(t.lexer_mut().pos(), 13);
    assert_eq!(t.parse_bare_key(), None);
    assert_eq!(t.lexer_mut().pos(), 13);
}

#[test]
fn tokenizer_bare_key_rejects_non_ascii_letters() {
    let mut t = Tokenizer::new(Lexer::new("é"));
    assert_eq!(t.parse_bare_key(), None);
    assert_eq!(t.lexer_mut().pos(), 0);
}

#[test]
fn tokenizer_peek_punct_skips_blanks() {
    let mut t = Tokenizer::new(Lexer::new("  \t= x"));
    assert_eq!(t.peek_punct(), Some('='));
    assert_eq!(t.lexer_mut().pos(), 3);
    assert!(t.consume_char('='));
    assert!(!t.consume_char('='));
    assert_eq!(t.peek_punct(), Some('x'));
    let mut empty = Tokenizer::new(Lexer::new("   "));
    assert_eq!(empty.peek_punct(), None);
}

#[test]
fn tokenizer_literal_strings() {
    let mut ok = Tokenizer::new(Lexer::new("'C:\\path é' rest"));
    assert_eq!(ok.parse_literal_string(), Ok(Token::LiteralString("C:\\path é")));
    assert_eq!(ok.lexer_mut().peek(), Some(' '));

    let mut newline = Tokenizer::new(Lexer::new("'abc\ndef'"));
    assert_eq!(newline.parse_literal_string(), Err("Invalid character in literal string"));
    assert_eq!(newline.lexer_mut().pos(), 4);

    let mut control = Tokenizer::new(Lexer::new("'a\u{1}'"));
    assert_eq!(control.parse_literal_string(), Err("Invalid character in literal string"));

    let mut tab = Tokenizer::new(Lexer::new("'a\tb'"));
    assert_eq!(tab.parse_literal_string(), Ok(Token::LiteralString("a\tb")));

    let mut open = Tokenizer::new(Lexer::new("'abc"));
    assert_eq!(open.parse_literal_string(), Err("Unterminated literal string"));
    assert!(open.lexer_mut().is_eof());
}

#[test]
fn tokenizer_basic_strings() {
    let mut ok = Tokenizer::new(Lexer::new("\"a \\\" b\" tail"));
    assert_eq!(ok.parse_basic_string(), Ok(Token::BasicString("a \\\" b")));
    assert_eq!(ok.lexer_mut().pos(), 8);

    let mut escaped_newline = Tokenizer::new(Lexer::new("\"a\\\nb\""));
    assert_eq!(escaped_newline.parse_basic_string(), Ok(Token::BasicString("a\\\nb")));

    let mut newline = Tokenizer::new(Lexer::new("\"ab\ncd\""));
    assert_eq!(newline.parse_basic_string(), Err("Invalid character in basic string"));
    assert_eq!(newline.lexer_mut().pos(), 3);

    let mut trailing_escape = Tokenizer::new(Lexer::new("\"abc\\"));
    assert_eq!(trailing_escape.parse_basic_string(), Err("Unterminated basic string"));

    let mut open = Tokenizer::new(Lexer::new("\"abc"));
    assert_eq!(open.parse_basic_string(), Err("Unterminated basic string"));
}

#[test]
fn tokenizer_strings_refuse_control_characters() {
    let mut del = Tokenizer::new(Lexer::new("'a\x7fb'"));
    assert_eq!(del.parse_literal_string(), Err("Invalid character in literal string"));
    let mut unit_sep = Tokenizer::new(Lexer::new("'a\x1fb'"));
    assert_eq!(unit_sep.parse_literal_string(), Err("Invalid character in literal string"));
    let mut basic_us = Tokenizer::new(Lexer::new("\"a\x1fb\""));
    assert_eq!(basic_us.parse_basic_string(), Err("Invalid character in basic string"));
    let mut basic_del = Tokenizer::new(Lexer::new("\"a\x7fb\""));
    assert_eq!(basic_del.parse_basic_string(), Err("Invalid character in basic string"));
    let mut basic_tab = Tokenizer::new(Lexer::new("\"a\tb\""));
    assert_eq!(basic_tab.parse_basic_string(), Ok(Token::BasicString("a\tb")));
}
