use tomli_rust::lexer::Lexer;

#[test]
fn lexer_steps_over_multibyte_characters() {
    let mut lx = Lexer::new("hé€x");
    assert_eq!(lx.pos(), 0);
    assert_eq!(lx.peek(), Some('h'));
    assert_eq!(lx.next_char(), Some('h'));
    assert_eq!(lx.pos(), 1);
    assert_eq!(lx.next_char(), Some('é'));
    assert_eq!(lx.pos(), 3);
    assert_eq!(lx.next_char(), Some('€'));
    assert_eq!(lx.pos(), 6);
    assert_eq!(lx.next_char(), Some('x'));
    assert!(lx.is_eof());
    assert_eq!(lx.next_char(), None);
    assert_eq!(lx.pos(), 7);
    assert_eq!(lx.src(), "hé€x");
}

#[test]
fn lexer_peek_str_respects_char_boundaries() {
    let lx = Lexer::new("aé b");
    assert_eq!(lx.peek_str(1), Some("a"));
    assert_eq!(lx.peek_str(2), None);
    assert_eq!(lx.peek_str(3), Some("aé"));
    assert_eq!(lx.peek_str(5), Some("aé b"));
    assert_eq!(lx.peek_str(6), None);
    assert_eq!(lx.peek_str(0), Some(""));
}

#[test]
fn lexer_starts_with_and_advance() {
    let mut lx = Lexer::new("[[table]]");
    assert!(lx.starts_with("[["));
    assert!(lx.starts_with(""));
    assert!(!lx.starts_with("[[table]]x"));
    lx.advance(2);
    assert!(lx.starts_with("table"));
    assert!(!lx.starts_with("["));
    assert_eq!(lx.pos(), 2);
}

#[test]
fn lexer_skip_ws_stops_at_newline() {
    let mut lx = Lexer::new(" \t \nkey");
    lx.skip_ws();
    assert_eq!(lx.pos(), 3);
    assert_eq!(lx.peek(), Some('\n'));
    lx.skip_ws();
    assert_eq!(lx.pos(), 3);
}

#[test]
fn lexer_skip_ws_and_newline_takes_crlf_pairs_only() {
    let mut lx = Lexer::new(" \n\t\r\n x");
    lx.skip_ws_and_newline();
    assert_eq!(lx.peek(), Some('x'));
    assert_eq!(lx.pos(), 6);

    let mut lone_cr = Lexer::new(" \rx");
    lone_cr.skip_ws_and_newline();
    assert_eq!(lone_cr.pos(), 1);
    assert_eq!(lone_cr.peek(), Some('\r'));
}

#[test]
fn lexer_skip_comment_keeps_the_newline() {
    let mut lx = Lexer::new("# note é\nnext");
    assert!(lx.skip_comment());
    assert_eq!(lx.peek(), Some('\n'));
    assert_eq!(lx.pos(), 9);

    let mut not_comment = Lexer::new("key # note");
    assert!(!not_comment.skip_comment());
    assert_eq!(not_comment.pos(), 0);

    let mut at_end = Lexer::new("#");
    assert!(at_end.skip_comment());
    assert!(at_end.is_eof());
}

#[test]
fn lexer_skip_comments_and_ws_skips_everything_before_a_statement() {
    let mut lx = Lexer::new("  # one\n\r\n\t# two\n  key = 1");
    lx.skip_comments_and_ws();
    assert_eq!(lx.peek(), Some('k'));
    let at = lx.pos();
    lx.skip_comments_and_ws();
    assert_eq!(lx.pos(), at);
}

#[test]
fn lexer_slice_from_returns_consumed_text() {
    let mut lx = Lexer::new("añb c");
    let start = lx.pos();
    lx.next_char();
    lx.next_char();
    lx.next_char();
    assert_eq!(lx.slice_from(start), "añb");
    assert_eq!(lx.slice_from(1), "ñb");
    assert_eq!(lx.slice_from(lx.pos()), "");
}
