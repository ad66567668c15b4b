use ubq::order::{holds, insert, position_in, side, Side};
use ubq::text::{
    decimal_text, fold, join, parse_unsigned, replace, split_on, starts_with, strip_prefix,
    to_ascii_lowercase, trim,
};
use ubq::tooling::options::{match_option, OptionMatch};

#[test]
fn texts_are_trimmed_folded_and_split() {
    assert_eq!(trim("  a b\t\n"), "a b");
    assert_eq!(trim("\u{a0}x\u{3000}"), "x");
    assert_eq!(fold("  AbC "), "abc");
    assert_eq!(to_ascii_lowercase("\u{c4}BC"), "\u{c4}bc");
    assert_eq!(
        split_on("a,,b", ','),
        vec!["a".to_string(), "".to_string(), "b".to_string()]
    );
    assert_eq!(
        join(&vec!["a".to_string(), "b".to_string()], ", "),
        "a, b"
    );
    assert_eq!(replace("a'b", '\'', "\\'"), "a\\'b");
    assert!(starts_with("abc", "ab"));
    assert_eq!(strip_prefix("abc", "ab"), Some("c".to_string()));
    assert_eq!(strip_prefix("abc", "b"), None);
}

#[test]
fn numbers_are_written_and_read() {
    assert_eq!(decimal_text(0), "0");
    assert_eq!(decimal_text(u128::MAX), u128::MAX.to_string());
    assert_eq!(parse_unsigned("0042", 100), Some(42));
    assert_eq!(parse_unsigned("+7", 100), Some(7));
    assert_eq!(parse_unsigned("101", 100), None);
    assert_eq!(parse_unsigned("", 100), None);
    assert_eq!(parse_unsigned("1 ", 100), None);
}

#[test]
fn lists_stay_sorted_without_repeats() {
    let mut list = Vec::new();
    assert!(insert(&mut list, "b".to_string()));
    assert!(insert(&mut list, "a".to_string()));
    assert!(!insert(&mut list, "b".to_string()));
    assert_eq!(list, vec!["a".to_string(), "b".to_string()]);
    assert!(holds(&list, "a"));
    assert_eq!(position_in(&list, "b"), Some(1));
    assert_eq!(position_in(&list, "c"), None);
    assert!(matches!(side("a", "b"), Side::Before));
}

#[test]
fn options_may_have_their_value_joined() {
    let names = ["--out", "--mode"];
    assert!(matches!(match_option("--mode", &names), OptionMatch::Bare(1)));
    match match_option("--out=x", &names) {
        OptionMatch::Joined(0, value) => assert_eq!(value, "x"),
        _ => panic!("a joined value"),
    }
    assert!(matches!(match_option("--other", &names), OptionMatch::No));
}
