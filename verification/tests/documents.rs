use kdl::document::{arguments, assemble, node, node_arg, node_children, nodes, property, NodeArg, MAX_DEPTH};
use kdl::text::chars_of;
use kdl::{parse_document, KdlError, KdlErrorKind, KdlNode, KdlNodeValue, KdlProperties};
use kdl::error::NumberCause;

fn num(i: i64) -> KdlNodeValue {
    KdlNodeValue::Int(i)
}

fn string(s: &str) -> KdlNodeValue {
    KdlNodeValue::String(String::from(s))
}

fn key(s: &str) -> String {
    String::from(s)
}

/// A node with the given name and nothing else.
fn bare(name: &str) -> KdlNode {
    KdlNode {
        name: String::from(name),
        values: vec![],
        properties: KdlProperties::new(),
        children: vec![],
    }
}

fn error_of(text: &str) -> KdlError {
    parse_document(text).unwrap_err()
}

#[test]
fn empty_text_is_an_empty_document() {
    assert_eq!(parse_document(""), Ok(vec![]));
}

#[test]
fn bare_node() {
    assert_eq!(parse_document("foo\n"), Ok(vec![bare("foo")]));
    assert_eq!(parse_document("foo\r\n"), Ok(vec![bare("foo")]));
    assert_eq!(parse_document("\"foo bar\"\n"), Ok(vec![bare("foo bar")]));
}

#[test]
fn name_values_properties_and_children() {
    let nodes = parse_document("foo \"bar\" baz=1 {\nqux\n}\n").unwrap();
    assert_eq!(nodes.len(), 1);
    let foo = &nodes[0];
    assert_eq!(foo.name, "foo");
    assert_eq!(foo.values, vec![string("bar")]);
    assert_eq!(foo.properties.len(), 1);
    assert_eq!(foo.properties.get(&key("baz")), Some(&num(1)));
    assert_eq!(foo.properties.get(&key("bar")), None);
    assert_eq!(foo.children, vec![bare("qux")]);
}

#[test]
fn nodes_come_in_document_order() {
    let nodes = parse_document("a 1\nb 2\n\n// note\n  c 3\n").unwrap();
    let names: Vec<&str> = nodes.iter().map(|n| n.name.as_str()).collect();
    assert_eq!(names, vec!["a", "b", "c"]);
    assert_eq!(nodes[2].values, vec![num(3)]);
}

#[test]
fn values_keep_their_order_and_their_kind() {
    let nodes = parse_document("n 1 \"1\" r#\"1\"# 0x1 1.0 true false null 1\n").unwrap();
    assert_eq!(
        nodes[0].values,
        vec![
            num(1),
            string("1"),
            string("1"),
            num(1),
            KdlNodeValue::Float(String::from("1.0")),
            KdlNodeValue::Boolean(true),
            KdlNodeValue::Boolean(false),
            KdlNodeValue::Null,
            num(1),
        ]
    );
    assert_eq!(nodes[0].properties.len(), 0);
}

#[test]
fn every_argument_is_a_value_or_a_property() {
    let nodes = parse_document("n 1 a=2 3 b=4 \"c\"=5 6\n").unwrap();
    let n = &nodes[0];
    assert_eq!(n.values, vec![num(1), num(3), num(6)]);
    assert_eq!(n.properties.len(), 3);
    assert_eq!(n.values.len() + n.properties.len(), 6);
    assert_eq!(n.properties.get(&key("a")), Some(&num(2)));
    assert_eq!(n.properties.get(&key("b")), Some(&num(4)));
    assert_eq!(n.properties.get(&key("c")), Some(&num(5)));
}

#[test]
fn later_property_replaces_earlier() {
    let nodes = parse_document("n k=1 j=2 k=3\n").unwrap();
    let n = &nodes[0];
    assert_eq!(n.properties.len(), 2);
    assert_eq!(n.properties.get(&key("k")), Some(&num(3)));
    assert_eq!(n.properties.get(&key("j")), Some(&num(2)));
}

#[test]
fn word_before_equals_is_a_key() {
    let nodes = parse_document("n true=false null=null r=r\"x\"\n").unwrap();
    let n = &nodes[0];
    assert!(n.values.is_empty());
    assert_eq!(n.properties.get(&key("true")), Some(&KdlNodeValue::Boolean(false)));
    assert_eq!(n.properties.get(&key("null")), Some(&KdlNodeValue::Null));
    assert_eq!(n.properties.get(&key("r")), Some(&string("x")));
}

#[test]
fn line_continuation_joins_lines() {
    let nodes = parse_document("n 1 \\\n  2 \\ // more\n  k=3\n").unwrap();
    assert_eq!(nodes[0].values, vec![num(1), num(2)]);
    assert_eq!(nodes[0].properties.get(&key("k")), Some(&num(3)));
}

#[test]
fn comments_are_space() {
    let nodes = parse_document("/* a */n /* b */1/* c */{\n/* d */m\n}\n").unwrap();
    assert_eq!(nodes[0].name, "n");
    assert_eq!(nodes[0].values, vec![num(1)]);
    assert_eq!(nodes[0].children, vec![bare("m")]);
}

#[test]
fn children_nest() {
    let nodes = parse_document("a {\nb {\nc 1\n}\nd\n}\ne\n").unwrap();
    assert_eq!(nodes.len(), 2);
    assert_eq!(nodes[0].children.len(), 2);
    assert_eq!(nodes[0].children[0].name, "b");
    assert_eq!(nodes[0].children[0].children[0].name, "c");
    assert_eq!(nodes[0].children[0].children[0].values, vec![num(1)]);
    assert_eq!(nodes[0].children[1], bare("d"));
    assert_eq!(nodes[1], bare("e"));
}

#[test]
fn empty_block_is_no_children() {
    assert_eq!(parse_document("a {}\n"), Ok(vec![bare("a")]));
}

#[test]
fn block_closes_right_behind_its_last_node() {
    assert!(parse_document("a {\n  b\n}\n").is_ok());
    assert!(parse_document("a {\n}\n").is_err());
    assert!(parse_document("a {\n  b\n  }\n").is_err());
}

#[test]
fn symbols_belong_to_a_bare_name() {
    let nodes = parse_document("n/*x*/ 1\n").unwrap();
    assert_eq!(nodes[0].name, "n/*x*/");
}

#[test]
fn node_needs_its_line_end() {
    let e = error_of("foo");
    assert_eq!(e.kind, KdlErrorKind::IncompleteInput);
    assert_eq!(e.offset, 2);
    assert_eq!(e.input, "foo");
    assert!(parse_document("a { b }\n").is_err());
}

#[test]
fn anything_behind_the_last_node_is_an_error() {
    assert!(parse_document("foo\n}").is_err());
    assert!(parse_document("foo\n@").is_err());
    assert!(parse_document("foo\nbar").is_err());
    assert!(parse_document("foo\n1\n").is_err());
    assert!(parse_document("foo\n\n").is_err());
    assert!(parse_document("foo\n// end").is_err());
    let e = error_of("foo\n}\n");
    assert_eq!(e.offset, 4);
    assert_eq!(e.kind, KdlErrorKind::Context("node name"));
}

#[test]
fn malformed_property_value_is_located() {
    let e = error_of("foo bar=@\n");
    assert_eq!(e.offset, 8);
    assert_eq!(e.kind, KdlErrorKind::Context("argument"));
    assert_eq!(e.input, "foo bar=@\n");
    let e = error_of("a 1\nfoo bar=@\n");
    assert_eq!(e.offset, 12);
}

#[test]
fn offsets_count_bytes() {
    let e = error_of("\"\u{e9}\" @\n");
    assert_eq!(e.offset, 5);
    let e = error_of("n \"\u{1F600}\u{e9}\" k=@\n");
    assert_eq!(e.offset, 13);
    let e = error_of("n \"\u{1F600}");
    assert_eq!(e.kind, KdlErrorKind::IncompleteInput);
    assert_eq!(e.offset, 6);
}

#[test]
fn too_large_integer_is_reported_as_such() {
    let e = error_of("foo 99999999999999999999\n");
    assert_eq!(e.kind, KdlErrorKind::ParseIntError(NumberCause::Overflow));
    assert_eq!(e.offset, 4);
    let e = error_of("foo k=-9223372036854775808 {\n}\n");
    assert_eq!(e.kind, KdlErrorKind::ParseIntError(NumberCause::Overflow));
    assert_eq!(e.offset, 7);
    let e = error_of("foo 0o7777777777777777777777\n");
    assert_eq!(e.kind, KdlErrorKind::ParseIntError(NumberCause::Overflow));
    assert_eq!(e.offset, 4);
}

#[test]
fn text_that_ends_too_early_is_incomplete() {
    for text in ["foo \"abc", "foo r#\"abc\"", "foo /* abc", "foo {\nbar\n", "foo k=", "foo \\"] {
        let e = error_of(text);
        assert_eq!(e.kind, KdlErrorKind::IncompleteInput, "{}", text);
        assert_eq!(e.offset, text.len() - 1, "{}", text);
    }
}

#[test]
fn unclosed_block_is_located() {
    let e = error_of("a {\nb\n@\n");
    assert_eq!(e.offset, 6);
    let e = error_of("a {\nb\n  }\n");
    assert_eq!(e.offset, 8);
}

#[test]
fn bare_word_is_no_value() {
    let e = error_of("foo bar\n");
    assert_eq!(e.offset, 7);
    assert_eq!(e.kind, KdlErrorKind::Context("argument"));
}

#[test]
fn missing_digits_are_located() {
    let e = error_of("foo 0xg\n");
    assert_eq!(e.offset, 6);
    let e = error_of("foo 1.5e+ \n");
    assert_eq!(e.offset, 9);
}

/// `depth` blocks inside one another, the innermost one empty.
fn nested(depth: usize) -> String {
    let mut text = String::new();
    for _ in 0..depth {
        text.push_str("n {\n");
    }
    text.push_str("leaf\n");
    for _ in 0..depth {
        text.push_str("}\n");
    }
    text
}

#[test]
fn nesting_is_bounded() {
    let nodes = parse_document(&nested(MAX_DEPTH)).unwrap();
    let mut n = &nodes[0];
    let mut depth = 0;
    while !n.children.is_empty() {
        n = &n.children[0];
        depth += 1;
    }
    assert_eq!(depth, MAX_DEPTH);
    assert_eq!(n.name, "leaf");

    let e = error_of(&nested(MAX_DEPTH + 1));
    assert_eq!(e.kind, KdlErrorKind::Other);
    assert_eq!(e.offset, 4 * MAX_DEPTH + 2);
}

#[test]
fn depth_is_counted_from_the_call() {
    let chars = chars_of("a {\nb {\nc\n}\n}\n");
    assert!(nodes(&chars, 0, 2).result.unwrap().1 == chars.len());
    let r = nodes(&chars, 0, 1);
    assert_eq!(r.result.unwrap().1, 0);
    assert_eq!(r.deepest.unwrap().offset, 6);
    assert_eq!(r.deepest.unwrap().kind, Some(KdlErrorKind::Other));
    let r = node_children(&chars, 2, 0);
    assert!(r.is_err());
    assert_eq!(r.deepest.unwrap().offset, 2);
}

#[test]
fn property_is_a_key_and_a_value() {
    let chars = chars_of("key=\"v\" rest");
    assert_eq!(property(&chars, 0).result, Some(((key("key"), string("v")), 7)));
    assert_eq!(
        node_arg(&chars, 0).result,
        Some((NodeArg::Property(key("key"), string("v")), 7))
    );
    let chars = chars_of("true=@");
    assert!(property(&chars, 0).is_err());
    assert_eq!(
        node_arg(&chars, 0).result,
        Some((NodeArg::Value(KdlNodeValue::Boolean(true)), 4))
    );
    assert_eq!(node_arg(&chars, 0).deepest.unwrap().offset, 5);
}

#[test]
fn arguments_stop_at_what_is_none() {
    let chars = chars_of(" 1 k=2 bare 3");
    let r = arguments(&chars, 0);
    assert_eq!(
        r.result,
        Some((vec![NodeArg::Value(num(1)), NodeArg::Property(key("k"), num(2))], 6))
    );
    let chars = chars_of("1");
    assert_eq!(arguments(&chars, 0).result, Some((vec![], 0)));
}

#[test]
fn assemble_sorts_arguments() {
    let (values, properties) = assemble(vec![
        NodeArg::Property(key("a"), num(1)),
        NodeArg::Value(num(2)),
        NodeArg::Property(key("b"), num(3)),
        NodeArg::Value(num(4)),
        NodeArg::Property(key("a"), num(5)),
    ]);
    assert_eq!(values, vec![num(2), num(4)]);
    assert_eq!(properties.len(), 2);
    assert_eq!(properties.get(&key("a")), Some(&num(5)));
    assert_eq!(properties.get(&key("b")), Some(&num(3)));
    assert_eq!(properties.entries[0].0, "a");
}

#[test]
fn node_stops_before_its_line_end() {
    let chars = chars_of("n 1 {\nm\n}\nx\n");
    let (n, next) = node(&chars, 0, 3).result.unwrap();
    assert_eq!(n.name, "n");
    assert_eq!(n.values, vec![num(1)]);
    assert_eq!(n.children, vec![bare("m")]);
    assert_eq!(next, 9);
}

#[test]
fn properties_hold_one_value_for_a_key() {
    let mut p = KdlProperties::new();
    assert_eq!(p.len(), 0);
    p.insert(key("a"), num(1));
    p.insert(key("b"), num(2));
    p.insert(key("a"), num(3));
    assert_eq!(p.len(), 2);
    assert_eq!(p.get(&key("a")), Some(&num(3)));
    assert_eq!(p.position(&key("b")), Some(1));
    assert_eq!(p.position(&key("c")), None);
    assert_eq!(p.get(&key("c")), None);
}
