use indexer::chars::chars_of;
use indexer::text::{has_content, join_first, strip_brackets, trim, trim_bounds};

fn strings(words: &[&str]) -> Vec<String> {
    words.iter().map(|w| w.to_string()).collect()
}

#[test]
fn trim_takes_white_space_from_both_ends() {
    assert_eq!(trim(&chars_of("  a b \t\n")), chars_of("a b"));
    assert_eq!(trim(&chars_of("a")), chars_of("a"));
    assert_eq!(trim(&chars_of(" \u{a0} ")), chars_of(""));
    assert_eq!(trim(&chars_of("")), chars_of(""));
    assert_eq!(trim_bounds(&chars_of("  ab ")), (2, 4));
    assert_eq!(trim_bounds(&chars_of("   ")), (3, 0));
}

#[test]
fn has_content_sees_through_white_space() {
    assert!(has_content(&chars_of(" x ")));
    assert!(!has_content(&chars_of(" \n\t ")));
    assert!(!has_content(&chars_of("")));
}

#[test]
fn join_puts_one_space_between_parts() {
    let parts = strings(&["a", "bc", "", "d"]);
    assert_eq!(join_first(&parts, 4), chars_of("a bc  d"));
    assert_eq!(join_first(&parts, 2), chars_of("a bc"));
    assert_eq!(join_first(&parts, 1), chars_of("a"));
    assert_eq!(join_first(&parts, 0), chars_of(""));
}

#[test]
fn a_bracketed_span_becomes_one_space() {
    assert_eq!(strip_brackets(&chars_of("Hello [1] world")), chars_of("Hello   world"));
    assert_eq!(strip_brackets(&chars_of("a[]b")), chars_of("a b"));
    assert_eq!(strip_brackets(&chars_of("[x][y]")), chars_of("  "));
}

#[test]
fn a_span_ends_at_the_first_closing_bracket() {
    assert_eq!(strip_brackets(&chars_of("a[b[c]d]e")), chars_of("a d]e"));
    assert_eq!(strip_brackets(&chars_of("a]b[c")), chars_of("a]b[c"));
}

#[test]
fn a_span_holds_no_line_feed() {
    assert_eq!(strip_brackets(&chars_of("a [b\nc] d")), chars_of("a [b\nc] d"));
    assert_eq!(strip_brackets(&chars_of("[a\n[b]")), chars_of("[a\n "));
    assert_eq!(strip_brackets(&chars_of("[a\rb]")), chars_of(" "));
}
