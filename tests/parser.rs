use render_core::parser::Parser;

#[test]
fn cursor_reads_characters_and_literals() {
    let mut p = Parser::new("ab\ncé x".into());
    assert!(p.starts_with("ab"));
    assert!(!p.starts_with("abd"));
    assert_eq!(p.next_char(), 'a');
    assert_eq!(p.consume_char(), 'a');
    p.consume_string("b\n");
    let pos = p.pos();
    assert_eq!((pos.pos, pos.line, pos.column), (3, 1, 0));
    assert_eq!(p.consume_while(|c| c.is_alphabetic()), "cé");
    let pos = p.pos();
    assert_eq!((pos.pos, pos.line, pos.column), (6, 1, 2));
    p.consume_whitespace();
    assert_eq!(p.consume_char(), 'x');
    assert!(p.eof());
    assert_eq!(p.consume_while(|_| true), "");
}

#[test]
fn cursor_reads_numbers() {
    let mut p = Parser::new("255 256 4294967296 x".into());
    assert_eq!(p.consume_byte(), Some(255));
    p.consume_whitespace();
    assert_eq!(p.consume_byte(), None);
    p.consume_whitespace();
    assert_eq!(p.consume_number(), None);
    p.consume_whitespace();
    assert_eq!(p.consume_number(), None);
    assert_eq!(p.next_char(), 'x');
    let mut q = Parser::new("4294967295px".into());
    assert_eq!(q.consume_number(), Some(4294967295));
    assert!(q.starts_with("px"));
}
