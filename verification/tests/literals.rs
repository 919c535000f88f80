use kdl::attempt::Parsed;
use kdl::error::{KdlErrorKind, NumberCause};
use kdl::node::KdlNodeValue;
use kdl::number::{binary, float, hexadecimal, integer, octal};
use kdl::strings::{bare_identifier, identifier, raw_string, string};
use kdl::text::chars_of;
use kdl::value::{boolean, node_value, null, number};

/// What is left of `text` behind position `next`.
fn rest(text: &[char], next: usize) -> String {
    text[next..].iter().collect()
}

/// The value that the rule finds at the start of `text`, and what is left.
fn run<T>(text: &str, rule: fn(&[char], usize) -> Parsed<T>) -> Option<(T, String)> {
    let chars = chars_of(text);
    rule(&chars, 0).result.map(|(v, next)| (v, rest(&chars, next)))
}

/// The float that the rule finds at the start of `text`, and what is left.
fn run_float(text: &str) -> Option<(f64, String)> {
    run(text, float).map(|(t, left)| (t.parse::<f64>().unwrap(), left))
}

fn all<T>(v: T) -> Option<(T, String)> {
    Some((v, String::new()))
}

fn text(s: &str) -> Option<(String, String)> {
    Some((String::from(s), String::new()))
}

#[test]
fn test_float() {
    assert_eq!(run_float("1.0"), all(1.0f64));
    assert_eq!(run_float("0.0"), all(0.0f64));
    assert_eq!(run_float("-1.0"), all(-1.0f64));
    assert_eq!(run_float("+1.0"), all(1.0f64));
    assert_eq!(run_float("1.0e10"), all(1.0e10f64));
    assert_eq!(run_float("1.0e-10"), all(1.0e-10f64));
    assert_eq!(run_float("-1.0e-10"), all(-1.0e-10f64));
    assert_eq!(run_float("123_456_789.0"), all(123456789.0f64));
    assert_eq!(run_float("123_456_789.0_"), all(123456789.0f64));
    assert!(run_float("?1.0").is_none());
    assert!(run_float("_1.0").is_none());
    assert!(run_float("1._0").is_none());
    assert!(run_float("1.").is_none());
    assert!(run_float(".0").is_none());
}

#[test]
fn test_integer() {
    assert_eq!(run("0123456789", integer), all(123456789));
    assert_eq!(run("0123_456_789", integer), all(123456789));
    assert_eq!(run("0123_456_789_", integer), all(123456789));
    assert_eq!(run("+0123456789", integer), all(123456789));
    assert_eq!(run("-0123456789", integer), all(-123456789));
    assert!(run("?0123456789", integer).is_none());
    assert!(run("_0123456789", integer).is_none());
    assert!(run("a", integer).is_none());
    assert!(run("--", integer).is_none());
}

#[test]
fn test_hexadecimal() {
    assert_eq!(run("0x0123456789abcdef", hexadecimal), all(0x0123456789abcdef));
    assert_eq!(run("0x01234567_89abcdef", hexadecimal), all(0x0123456789abcdef));
    assert_eq!(run("0x01234567_89abcdef_", hexadecimal), all(0x0123456789abcdef));
    assert!(run("0x_123", hexadecimal).is_none());
    assert!(run("0xg", hexadecimal).is_none());
    assert!(run("0xx", hexadecimal).is_none());
}

#[test]
fn test_octal() {
    assert_eq!(run("0o01234567", octal), all(0o01234567));
    assert_eq!(run("0o0123_4567", octal), all(0o01234567));
    assert_eq!(run("0o01234567_", octal), all(0o01234567));
    assert!(run("0o_123", octal).is_none());
    assert!(run("0o8", octal).is_none());
    assert!(run("0oo", octal).is_none());
}

#[test]
fn test_binary() {
    assert_eq!(run("0b0101", binary), all(0b0101));
    assert_eq!(run("0b01_10", binary), all(0b0110));
    assert_eq!(run("0b01___10", binary), all(0b0110));
    assert_eq!(run("0b0110_", binary), all(0b0110));
    assert!(run("0b_0110", binary).is_none());
    assert!(run("0b20", binary).is_none());
    assert!(run("0bb", binary).is_none());
}

#[test]
fn test_raw_string() {
    assert_eq!(run(r#"r"foo""#, raw_string), text("foo"));
    assert_eq!(run("r\"foo\nbar\"", raw_string), text("foo\nbar"));
    assert_eq!(run(r##"r#"foo"#"##, raw_string), text("foo"));
    assert_eq!(run(r###"r##"foo"##"###, raw_string), text("foo"));
    assert_eq!(run(r#"r"\nfoo\r""#, raw_string), text(r"\nfoo\r"));
    assert!(run(r###"r##"foo"#"###, raw_string).is_none());
}

#[test]
fn test_boolean() {
    assert_eq!(run("true", boolean), all(KdlNodeValue::Boolean(true)));
    assert_eq!(run("false", boolean), all(KdlNodeValue::Boolean(false)));
    assert!(run("blah", boolean).is_none());
}

#[test]
fn octal_value_is_exact() {
    assert_eq!(run("0o01234567", octal), all(342391));
    assert_eq!(run("0b01_10", binary), all(6));
    assert_eq!(run("0XFF", hexadecimal), all(255));
    assert_eq!(run("0O17", octal), all(15));
    assert_eq!(run("0B11", binary), all(3));
}

#[test]
fn separators_do_not_change_an_integer() {
    for (with, without) in [
        ("0123_456_789", "0123456789"),
        ("1_", "1"),
        ("-9__9", "-99"),
        ("+1_2_3_", "+123"),
    ] {
        let a = run(with, integer).unwrap();
        let b = run(without, integer).unwrap();
        assert_eq!(a, b);
        assert_eq!(a.1, "");
    }
}

#[test]
fn largest_integer_is_read() {
    assert_eq!(run("9223372036854775807", integer), all(i64::MAX));
    assert_eq!(run("-9223372036854775807", integer), all(-i64::MAX));
    assert_eq!(run("0x7fffffffffffffff", hexadecimal), all(i64::MAX));
}

#[test]
fn too_large_integer_is_malformed() {
    let overflow = Some(KdlErrorKind::ParseIntError(NumberCause::Overflow));
    let chars = chars_of("9223372036854775808");
    let r = integer(&chars, 0);
    assert!(r.is_err());
    assert_eq!(r.deepest.unwrap().kind, overflow);
    assert_eq!(r.deepest.unwrap().offset, 0);

    let chars = chars_of("-9223372036854775808");
    let r = integer(&chars, 0);
    assert!(r.is_err());
    assert_eq!(r.deepest.unwrap().kind, overflow);
    assert_eq!(r.deepest.unwrap().offset, 1);

    let chars = chars_of("0x8000000000000000");
    let r = hexadecimal(&chars, 0);
    assert!(r.is_err());
    assert_eq!(r.deepest.unwrap().kind, overflow);
    assert_eq!(r.deepest.unwrap().offset, 0);

    let chars = chars_of("99999999999999999999999999999999999999999999");
    assert_eq!(integer(&chars, 0).deepest.unwrap().kind, overflow);
}

#[test]
fn radix_forms_take_no_sign() {
    assert!(run("-0x10", hexadecimal).is_none());
    assert!(run("+0o7", octal).is_none());
    assert!(run("-0b1", binary).is_none());
}

#[test]
fn float_keeps_its_text_without_separators() {
    assert_eq!(run("1_0.2_5e1_0", float), text("10.25e10"));
    assert_eq!(run("+1e5", float), text("+1e5"));
    assert_eq!(run("-2E+3x", float), Some((String::from("-2E+3"), String::from("x"))));
}

#[test]
fn float_needs_fraction_or_exponent() {
    assert!(run("1", float).is_none());
    assert!(run("1e", float).is_none());
    assert!(run("1e+", float).is_none());
    assert_eq!(run("1.5e", float), Some((String::from("1.5"), String::from("e"))));
    let chars = chars_of("1.5e+");
    assert_eq!(float(&chars, 0).deepest.unwrap().offset, 5);
    let chars = chars_of("12.x");
    assert_eq!(float(&chars, 0).deepest.unwrap().offset, 3);
}

#[test]
fn number_picks_the_form() {
    assert_eq!(run("0x10", number), all(KdlNodeValue::Int(16)));
    assert_eq!(run("0o10", number), all(KdlNodeValue::Int(8)));
    assert_eq!(run("0b10", number), all(KdlNodeValue::Int(2)));
    assert_eq!(run("10", number), all(KdlNodeValue::Int(10)));
    assert_eq!(run("-10", number), all(KdlNodeValue::Int(-10)));
    assert_eq!(run("1.5", number), all(KdlNodeValue::Float(String::from("1.5"))));
    assert_eq!(run("1e3", number), all(KdlNodeValue::Float(String::from("1e3"))));
    assert_eq!(
        run("0xg", number),
        Some((KdlNodeValue::Int(0), String::from("xg")))
    );
}

#[test]
fn number_does_not_reread_a_malformed_literal() {
    let chars = chars_of("0x8000000000000000");
    let r = number(&chars, 0);
    assert!(r.is_err());
    assert_eq!(
        r.deepest.unwrap().kind,
        Some(KdlErrorKind::ParseIntError(NumberCause::Overflow))
    );
    let chars = chars_of("99999999999999999999");
    let r = number(&chars, 0);
    assert!(r.is_err());
    assert_eq!(
        r.deepest.unwrap().kind,
        Some(KdlErrorKind::ParseIntError(NumberCause::Overflow))
    );
    assert_eq!(
        run("99999999999999999999.5", number),
        all(KdlNodeValue::Float(String::from("99999999999999999999.5")))
    );
}

#[test]
fn string_decodes_escapes() {
    assert_eq!(run(r#""foo""#, string), text("foo"));
    assert_eq!(run(r#""""#, string), text(""));
    assert_eq!(run(r#""a\"b\\c""#, string), text("a\"b\\c"));
    assert_eq!(run(r#""a\nb\rc\td""#, string), text("a\nb\rc\td"));
    assert_eq!(run("\"a\nb\"", string), text("a\nb"));
    assert_eq!(run("\"h\u{e9}llo \u{1F600}\"x", string), Some((String::from("h\u{e9}llo \u{1F600}"), String::from("x"))));
}

#[test]
fn string_refuses_other_escapes() {
    let chars = chars_of(r#""a\qb""#);
    let r = string(&chars, 0);
    assert!(r.is_err());
    assert_eq!(r.deepest.unwrap().offset, 3);
    assert!(run(r#""a\u{41}""#, string).is_none());
    assert!(run(r#""a\/""#, string).is_none());
}

#[test]
fn unclosed_string_fails_at_the_end() {
    let chars = chars_of("\"abc");
    let r = string(&chars, 0);
    assert!(r.is_err());
    assert_eq!(r.deepest.unwrap().offset, 4);
    let chars = chars_of("\"abc\\");
    assert_eq!(string(&chars, 0).deepest.unwrap().offset, 5);
    let chars = chars_of("r#\"abc\"");
    assert_eq!(raw_string(&chars, 0).deepest.unwrap().offset, 7);
}

#[test]
fn raw_string_closes_at_the_first_close() {
    assert_eq!(
        run(r###"r#"a"b"#c"#"###, raw_string),
        Some((String::from("a\"b"), String::from("c\"#")))
    );
    assert_eq!(
        run(r###"r"a"##"###, raw_string),
        Some((String::from("a"), String::from("##")))
    );
    assert_eq!(run(r###"r#"a"##"###, raw_string), Some((String::from("a"), String::from("#"))));
}

#[test]
fn identifiers() {
    assert_eq!(run("foo", identifier), text("foo"));
    assert_eq!(run("_f0o-bar.baz", identifier), text("_f0o-bar.baz"));
    assert_eq!(run("a~!@#$%^&*-_+./:<>?", identifier), text("a~!@#$%^&*-_+./:<>?"));
    assert_eq!(run("foo bar", identifier), Some((String::from("foo"), String::from(" bar"))));
    assert_eq!(run("foo=1", identifier), Some((String::from("foo"), String::from("=1"))));
    assert_eq!(run(r#""foo bar""#, identifier), text("foo bar"));
    assert!(run("1foo", identifier).is_none());
    assert!(run("-foo", identifier).is_none());
    assert!(run("", identifier).is_none());
    assert!(run("\u{e9}t\u{e9}", identifier).is_none());
    assert!(run(r#""foo""#, bare_identifier).is_none());
}

#[test]
fn values() {
    assert_eq!(run(r#""a""#, node_value), all(KdlNodeValue::String(String::from("a"))));
    assert_eq!(run(r#"r"a""#, node_value), all(KdlNodeValue::String(String::from("a"))));
    assert_eq!(run("12", node_value), all(KdlNodeValue::Int(12)));
    assert_eq!(run("true", node_value), all(KdlNodeValue::Boolean(true)));
    assert_eq!(run("null", node_value), all(KdlNodeValue::Null));
    assert_eq!(run("null", null), all(KdlNodeValue::Null));
    assert!(run("nul", null).is_none());
    assert!(run("bare", node_value).is_none());
    assert!(run("", node_value).is_none());
}
