use scanner::scan::parse_i64;
use scanner::scanner::NumberPredicate;
use scanner::scanner::Scanner;
use scanner::scanner::WordPredicate;

#[test]
fn test_expression_scenario() {
    let mut scanner = Scanner::new("8 + 9");
    let x = scanner.next_number();
    assert_eq!(x, Some(8));
    assert_eq!(scanner.get_remaining(), " + 9");
    let op = scanner.next_word();
    assert_eq!(op, Some("+"));
    assert_eq!(scanner.get_remaining(), " 9");
    let y = scanner.next_number();
    assert_eq!(y, Some(9));
    assert_eq!(scanner.get_remaining(), "");
    assert_eq!(x.unwrap() + y.unwrap(), 17);
}

#[test]
fn test_next_line_consumes_trailing_newline() {
    let mut scanner = Scanner::new("line one   \nline two   \n");
    assert_eq!(scanner.next_line(), Some("line one"));
    assert_eq!(scanner.get_remaining(), "line two   \n");
    assert_eq!(scanner.next_line(), Some("line two"));
    assert_eq!(scanner.get_remaining(), "");
    assert_eq!(scanner.next_line(), None);
}

#[test]
fn test_empty_input_all_operations() {
    let mut scanner = Scanner::new("");
    assert_eq!(scanner.next_number(), None);
    assert_eq!(scanner.next_word(), None);
    assert_eq!(scanner.next_line(), None);
    assert_eq!(scanner.get_remaining(), "");
}

#[test]
fn test_consumed_prefix_concatenation() {
    // the consumed prefix plus the new remainder is the old remainder
    let input = "  abc def";
    let mut scanner = Scanner::new(input);
    let before = scanner.get_remaining();
    let word = scanner.next_word().unwrap();
    let after = scanner.get_remaining();
    assert_eq!(word, "abc");
    assert_eq!(after, " def");
    let consumed = &before[..before.len() - after.len()];
    assert_eq!(format!("{consumed}{after}"), before);
    // the offset never decreases: the remainder never grows
    assert!(after.len() <= before.len());
}

#[test]
fn test_lone_minus_rollback() {
    // "-" matches the number predicate but does not parse: the cursor
    // must be restored
    let mut scanner = Scanner::new("-");
    assert_eq!(scanner.next_number(), None);
    assert_eq!(scanner.get_remaining(), "-");
    let mut scanner = Scanner::new("- 12");
    assert_eq!(scanner.next_number(), None);
    assert_eq!(scanner.get_remaining(), "- 12");
}

#[test]
fn test_failure_is_idempotent() {
    let mut scanner = Scanner::new("only words");
    assert_eq!(scanner.next_number(), None);
    assert_eq!(scanner.next_number(), None);
    assert_eq!(scanner.next_number(), None);
    assert_eq!(scanner.get_remaining(), "only words");
}

#[test]
fn test_skips_tabs_and_newlines() {
    let mut scanner = Scanner::new(" \t\n 7!");
    assert_eq!(scanner.next_number(), Some(7));
    assert_eq!(scanner.get_remaining(), "!");
}

#[test]
fn test_skips_unicode_whitespace() {
    let mut scanner = Scanner::new("\u{00A0}\u{2003}42");
    assert_eq!(scanner.next_number(), Some(42));
    assert_eq!(scanner.get_remaining(), "");
}

#[test]
fn test_plus_sign_reaches_the_parse() {
    // '+' never matches the predicate, but like any non-whitespace
    // character before the first digit it stays in the token, and a
    // token of the shape +digits parses
    let mut scanner = Scanner::new(" +5");
    assert_eq!(scanner.next_number(), Some(5));
    assert_eq!(scanner.get_remaining(), "");
}

#[test]
fn test_number_overflow_rolls_back() {
    let mut scanner = Scanner::new("99999999999999999999 x");
    assert_eq!(scanner.next_number(), None);
    assert_eq!(scanner.get_remaining(), "99999999999999999999 x");
}

#[test]
fn test_number_extremes() {
    let mut scanner = Scanner::new("-9223372036854775808 9223372036854775807");
    assert_eq!(scanner.next_number(), Some(i64::MIN));
    assert_eq!(scanner.next_number(), Some(i64::MAX));
    let mut scanner = Scanner::new("-9223372036854775809");
    assert_eq!(scanner.next_number(), None);
    assert_eq!(scanner.get_remaining(), "-9223372036854775809");
}

#[test]
fn test_next_token_with_predicates() {
    let mut scanner = Scanner::new("Hello, world!");
    assert_eq!(scanner.next_token(&WordPredicate), Some("Hello,"));
    assert_eq!(scanner.get_remaining(), " world!");

    let mut scanner = Scanner::new("123 456 789");
    assert_eq!(scanner.next_token(&NumberPredicate), Some("123"));
    assert_eq!(scanner.get_remaining(), " 456 789");
}

#[test]
fn test_line_trim_does_not_change_consumption() {
    let mut scanner = Scanner::new("ab   \ncd");
    assert_eq!(scanner.next_line(), Some("ab"));
    assert_eq!(scanner.get_remaining(), "cd");
    let mut scanner = Scanner::new("   \n");
    assert_eq!(scanner.next_line(), Some(""));
    assert_eq!(scanner.get_remaining(), "");
}

#[test]
fn test_parse_i64_shapes() {
    assert_eq!(parse_i64("007"), Some(7));
    assert_eq!(parse_i64("-0"), Some(0));
    assert_eq!(parse_i64("+12"), Some(12));
    assert_eq!(parse_i64(""), None);
    assert_eq!(parse_i64("-"), None);
    assert_eq!(parse_i64("+"), None);
    assert_eq!(parse_i64("12 3"), None);
    assert_eq!(parse_i64("1x"), None);
    assert_eq!(parse_i64("9223372036854775807"), Some(i64::MAX));
    assert_eq!(parse_i64("9223372036854775808"), None);
    assert_eq!(parse_i64("-9223372036854775808"), Some(i64::MIN));
}

#[test]
fn test_word_after_failed_number() {
    // a failed number extraction leaves the word intact for next_word
    let mut scanner = Scanner::new("x1 9");
    assert_eq!(scanner.next_number(), None);
    assert_eq!(scanner.next_word(), Some("x1"));
    assert_eq!(scanner.next_number(), Some(9));
    assert_eq!(scanner.get_remaining(), "");
}
