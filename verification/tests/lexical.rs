use kdl::space::{
    escline, linespace, linespaces, multi_line_comment, newline, node_space,
    single_line_comment, whitespace, whitespaces,
};
use kdl::text::chars_of;

/// What is left of `text` behind position `next`.
fn rest(text: &[char], next: usize) -> String {
    text[next..].iter().collect()
}

/// Where the rule stops in `text`: what is left behind the match, if any.
fn left(text: &str, rule: fn(&[char], usize) -> kdl::attempt::Parsed<()>) -> Option<String> {
    let chars = chars_of(text);
    rule(&chars, 0).result.map(|(_, next)| rest(&chars, next))
}

fn ok(s: &str) -> Option<String> {
    Some(String::from(s))
}

#[test]
fn test_node_space() {
    assert_eq!(left(" ", node_space), ok(""));
    assert_eq!(left("\t ", node_space), ok(""));
    assert_eq!(left("\t \\ // hello\n ", node_space), ok(""));
    assert!(left("blah", node_space).is_none());
}

#[test]
fn test_single_line_comment() {
    assert_eq!(left("//hello", single_line_comment), ok(""));
    assert_eq!(left("// \thello", single_line_comment), ok(""));
    assert_eq!(left("//hello\n", single_line_comment), ok(""));
    assert_eq!(left("//hello\r\n", single_line_comment), ok(""));
    assert_eq!(left("//hello\n\r", single_line_comment), ok("\r"));
    assert_eq!(left("//hello\rworld", single_line_comment), ok(""));
}

#[test]
fn test_multi_line_comment() {
    assert_eq!(left("/*hello*/", multi_line_comment), ok(""));
    assert_eq!(left("/*hello*/\n", multi_line_comment), ok("\n"));
    assert_eq!(left("/*\nhello\r\n*/", multi_line_comment), ok(""));
    assert_eq!(left("/*\nhello** /\n*/", multi_line_comment), ok(""));
    assert_eq!(left("/**\nhello** /\n*/", multi_line_comment), ok(""));
    assert_eq!(left("/*hello*/world", multi_line_comment), ok("world"));
}

#[test]
fn test_escline() {
    assert_eq!(left("\\\nfoo", escline), ok("foo"));
    assert_eq!(left("\\\n  foo", escline), ok("  foo"));
    assert_eq!(left("\\  \t \nfoo", escline), ok("foo"));
    assert_eq!(left("\\ // test \nfoo", escline), ok("foo"));
    assert_eq!(left("\\ // test \n  foo", escline), ok("  foo"));
}

#[test]
fn test_whitespace() {
    assert_eq!(left(" ", whitespace), ok(""));
    assert_eq!(left("\t", whitespace), ok(""));
    assert_eq!(left("/* \nfoo\r\n */ etc", whitespace), ok(" etc"));
    assert!(left("hi", whitespace).is_none())
}

#[test]
fn test_newline() {
    assert_eq!(left("\n", newline), ok(""));
    assert_eq!(left("\r\n", newline), ok(""));
    assert_eq!(left("\n\n", newline), ok("\n"));
    assert!(left("\r", newline).is_none());
    assert!(left("blah", newline).is_none());
}

#[test]
fn comment_without_text_is_a_comment() {
    assert_eq!(left("//\nfoo", single_line_comment), ok("foo"));
    assert_eq!(left("//", single_line_comment), ok(""));
    assert_eq!(left("/**/x", multi_line_comment), ok("x"));
}

#[test]
fn comment_ends_at_the_first_line_end() {
    assert_eq!(left("//a\nb\r\nc", single_line_comment), ok("b\r\nc"));
}

#[test]
fn comment_closes_at_the_first_close() {
    assert_eq!(left("/* a /* b */ c */", multi_line_comment), ok(" c */"));
}

#[test]
fn unclosed_comment_fails_at_the_end() {
    let chars = chars_of("/* never");
    let r = multi_line_comment(&chars, 0);
    assert!(r.is_err());
    assert_eq!(r.deepest.unwrap().offset, 8);
    let r = whitespace(&chars, 0);
    assert!(r.is_err());
    assert_eq!(r.deepest.unwrap().offset, 8);
}

#[test]
fn mismatch_lies_at_the_start() {
    let chars = chars_of("ab");
    assert_eq!(newline(&chars, 1).deepest.unwrap().offset, 1);
    assert_eq!(escline(&chars, 1).deepest.unwrap().offset, 1);
    assert_eq!(linespace(&chars, 0).deepest.unwrap().offset, 0);
    assert_eq!(node_space(&chars, 2).deepest.unwrap().offset, 2);
}

#[test]
fn runs_take_every_unit() {
    assert_eq!(left(" \t/* a */ \tx", whitespaces), ok("x"));
    assert_eq!(left("x", whitespaces), ok("x"));
    assert_eq!(left("\n \r\n// c\n\t/* d */\nx", linespaces), ok("x"));
    assert_eq!(left("", linespaces), ok(""));
}

#[test]
fn line_continuation_needs_a_line_end() {
    assert!(left("\\ foo", escline).is_none());
    assert_eq!(left(" \\ foo", node_space), ok("\\ foo"));
}

#[test]
fn rules_start_at_the_given_position() {
    let chars = chars_of("ab \n");
    assert_eq!(whitespace(&chars, 2).result, Some(((), 3)));
    assert_eq!(newline(&chars, 3).result, Some(((), 4)));
    assert_eq!(newline(&chars, 4).result, None);
}
