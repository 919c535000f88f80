use kdl::attempt::{after, keep_deeper, label_failure, Parsed};
use kdl::error::{KdlParseError, NumberCause};
use kdl::text::{byte_offset_of, chars_of, string_of, width_of};
use kdl::{parse_document, KdlErrorKind};

fn plain(offset: usize) -> KdlParseError {
    KdlParseError::from_error_kind(offset)
}

fn overflow(offset: usize) -> KdlParseError {
    KdlParseError::from_external_error(offset, KdlErrorKind::ParseIntError(NumberCause::Overflow))
}

#[test]
fn failures_are_built_as_told() {
    assert_eq!(plain(3), KdlParseError { offset: 3, context: None, kind: None });
    assert_eq!(
        overflow(3),
        KdlParseError {
            offset: 3,
            context: None,
            kind: Some(KdlErrorKind::ParseIntError(NumberCause::Overflow)),
        }
    );
}

#[test]
fn nearest_label_stays() {
    let inner = KdlParseError::add_context("inner", plain(1));
    assert_eq!(inner.context, Some("inner"));
    let outer = KdlParseError::add_context("outer", inner);
    assert_eq!(outer.context, Some("inner"));
    assert_eq!(outer.offset, 1);
}

#[test]
fn deeper_failure_is_kept() {
    assert_eq!(plain(1).append(plain(2)), plain(2));
    assert_eq!(plain(2).append(plain(1)), plain(2));
}

#[test]
fn cause_goes_before_depth() {
    assert_eq!(plain(9).append(overflow(2)), overflow(2));
    assert_eq!(overflow(2).append(plain(9)), overflow(2));
    assert_eq!(overflow(2).append(overflow(5)), overflow(5));
}

#[test]
fn label_breaks_a_tie() {
    let labelled = KdlParseError::add_context("value", plain(4));
    assert_eq!(plain(4).append(labelled), labelled);
    assert_eq!(labelled.append(plain(4)), labelled);
    let other = KdlParseError::add_context("other", plain(4));
    assert_eq!(labelled.append(other), labelled);
}

#[test]
fn keep_deeper_takes_what_is_there() {
    assert_eq!(keep_deeper(None, None), None);
    assert_eq!(keep_deeper(Some(plain(1)), None), Some(plain(1)));
    assert_eq!(keep_deeper(None, Some(plain(1))), Some(plain(1)));
    assert_eq!(keep_deeper(Some(plain(1)), Some(plain(3))), Some(plain(3)));
}

#[test]
fn report_picks_the_cause() {
    assert_eq!(
        overflow(2).report(5),
        KdlErrorKind::ParseIntError(NumberCause::Overflow)
    );
    assert_eq!(plain(5).report(5), KdlErrorKind::IncompleteInput);
    assert_eq!(
        KdlParseError::add_context("value", plain(5)).report(5),
        KdlErrorKind::IncompleteInput
    );
    assert_eq!(
        KdlParseError::add_context("value", plain(4)).report(5),
        KdlErrorKind::Context("value")
    );
    assert_eq!(plain(4).report(5), KdlErrorKind::Other);
}

#[test]
fn outcomes_are_built_as_told() {
    let hit: Parsed<i64> = Parsed::matched(7, 2);
    assert_eq!(hit, Parsed { result: Some((7, 2)), deepest: None });
    assert!(hit.is_ok());
    assert!(!hit.is_err());
    let miss: Parsed<i64> = Parsed::refused(2);
    assert_eq!(miss, Parsed { result: None, deepest: Some(plain(2)) });
    assert!(miss.is_err());
    let late: Parsed<i64> = Parsed::matched_after(7, 2, Some(plain(5)));
    assert_eq!(late.deepest, Some(plain(5)));
    let none: Parsed<i64> = Parsed::refused_after(None);
    assert_eq!(none, Parsed { result: None, deepest: None });
}

#[test]
fn labels_go_on_failures_only() {
    let hit: Parsed<i64> = Parsed::matched_after(7, 2, Some(plain(5)));
    assert_eq!(label_failure(hit.clone(), "value"), hit);
    let miss: Parsed<i64> = Parsed::refused(2);
    assert_eq!(
        label_failure(miss, "value").deepest,
        Some(KdlParseError::add_context("value", plain(2)))
    );
}

#[test]
fn earlier_failures_are_taken_into_account() {
    let hit: Parsed<i64> = Parsed::matched_after(7, 2, Some(plain(5)));
    assert_eq!(after(hit.clone(), Some(plain(6))).deepest, Some(plain(6)));
    assert_eq!(after(hit.clone(), Some(plain(4))).deepest, Some(plain(5)));
    assert_eq!(after(hit.clone(), None), hit);
}

#[test]
fn characters_and_bytes() {
    let chars = chars_of("a\u{e9}\u{20ac}\u{1F600}z");
    assert_eq!(chars, vec!['a', '\u{e9}', '\u{20ac}', '\u{1F600}', 'z']);
    assert_eq!(width_of('a'), 1);
    assert_eq!(width_of('\u{e9}'), 2);
    assert_eq!(width_of('\u{20ac}'), 3);
    assert_eq!(width_of('\u{1F600}'), 4);
    assert_eq!(byte_offset_of(&chars, 0), 0);
    assert_eq!(byte_offset_of(&chars, 1), 1);
    assert_eq!(byte_offset_of(&chars, 2), 3);
    assert_eq!(byte_offset_of(&chars, 3), 6);
    assert_eq!(byte_offset_of(&chars, 4), 10);
    assert_eq!(byte_offset_of(&chars, 5), 11);
    assert_eq!(string_of(&chars, 1, 4), "\u{e9}\u{20ac}\u{1F600}");
    assert_eq!(string_of(&chars, 2, 2), "");
}

#[test]
fn offset_lies_inside_the_text() {
    for text in ["a", "a b", "\u{e9}", "a \"\u{1F600}", "a {\nb\n", "a 1 2 @\n", "a\n\n"] {
        let e = parse_document(text).unwrap_err();
        assert!(e.offset < text.len(), "{}", text);
        assert_eq!(e.input, text);
    }
}

#[test]
fn clone_copies_the_tree() {
    let nodes = parse_document("a 1 k=\"v\" 2.5 {\nb true {\nc null\n}\n}\n").unwrap();
    let copy = nodes[0].clone();
    assert_eq!(copy, nodes[0]);
    assert_eq!(copy.children[0].children[0].name, "c");
    assert_eq!(copy.properties.clone(), nodes[0].properties);
}
