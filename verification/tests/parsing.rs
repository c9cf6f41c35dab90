//! Argument-string and operation-name parsing, and the text utilities
//! underneath them.

use sysunit::operation::Operation;
use sysunit::text::{i32_to_string, is_blank, split_char};

#[test]
fn parse_empty_yields_empty() {
    let args = sysunit::unit::ArgSet::parse("").unwrap();
    assert_eq!(args.vec.len(), 0);
}

#[test]
fn parse_two_pairs_in_order() {
    let args = sysunit::unit::ArgSet::parse("a=1,b=2").unwrap();
    assert_eq!(args.vec.len(), 2);
    assert_eq!(args.vec[0].name, "a");
    assert_eq!(args.vec[0].value, "1");
    assert_eq!(args.vec[1].name, "b");
    assert_eq!(args.vec[1].value, "2");
}

#[test]
fn parse_malformed_pair_fails() {
    let err = sysunit::unit::ArgSet::parse("a=1,bad").unwrap_err();
    assert_eq!(err.msg, "Args parse error: bad should be in form of key=value");
}

#[test]
fn parse_too_many_equals_fails() {
    assert!(sysunit::unit::ArgSet::parse("a==b").is_err());
}

#[test]
fn parse_blank_pieces_are_skipped() {
    let args = sysunit::unit::ArgSet::parse("a=1, ,b=2,").unwrap();
    assert_eq!(args.vec.len(), 2);
    assert_eq!(args.vec[1].name, "b");
}

#[test]
fn operation_from_str_accepts_the_four_operations() {
    assert!(matches!(Operation::from_str("check").unwrap(), Operation::Check));
    assert!(matches!(Operation::from_str("apply").unwrap(), Operation::Apply));
    assert!(matches!(Operation::from_str("rollback").unwrap(), Operation::Rollback));
    assert!(matches!(Operation::from_str("deps").unwrap(), Operation::Deps));
}

#[test]
fn operation_from_str_rejects_unknown_names() {
    let err = Operation::from_str("frobnicate").unwrap_err();
    assert_eq!(err.msg, "Unknown operation frobnicate");
}

#[test]
fn operation_to_str_names() {
    assert_eq!(Operation::Check.to_str(), "check");
    assert_eq!(Operation::Apply.to_str(), "apply");
    assert_eq!(Operation::Rollback.to_str(), "rollback");
    assert_eq!(Operation::Deps.to_str(), "deps");
}

#[test]
fn split_char_matches_std_split() {
    let pieces = split_char("a,b,,c", ',');
    assert_eq!(pieces, vec!["a", "b", "", "c"]);
    assert_eq!(split_char("", ','), vec![""]);
    assert_eq!(split_char(",", ','), vec!["", ""]);
}

#[test]
fn split_lines_matches_std_lines() {
    let text = "one\r\ntwo\n\nthree\n";
    let ours = sysunit::text::split_lines(text);
    let std_lines: Vec<&str> = text.lines().collect();
    assert_eq!(ours, std_lines);
    assert_eq!(sysunit::text::split_lines(""), Vec::<String>::new());
    assert_eq!(sysunit::text::split_lines("a"), vec!["a"]);
}

#[test]
fn trim_end_ws_strips_trailing_whitespace() {
    assert_eq!(sysunit::text::trim_end_ws("ok\n"), "ok");
    assert_eq!(sysunit::text::trim_end_ws("drift detected \t\r\n"), "drift detected");
    assert_eq!(sysunit::text::trim_end_ws("  x"), "  x");
    assert_eq!(sysunit::text::trim_end_ws(""), "");
}

#[test]
fn is_blank_on_whitespace_only() {
    assert!(is_blank(""));
    assert!(is_blank(" \t"));
    assert!(!is_blank(" x "));
}

#[test]
fn i32_to_string_decimal_notation() {
    assert_eq!(i32_to_string(0), "0");
    assert_eq!(i32_to_string(7), "7");
    assert_eq!(i32_to_string(-5), "-5");
    assert_eq!(i32_to_string(2147483647), "2147483647");
    assert_eq!(i32_to_string(-2147483648), "-2147483648");
}
