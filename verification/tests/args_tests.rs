use y1_clipboard::args::{has_flag, is_option, matches_option, parse_range, parse_range_in_bounds, RangeSelection};

fn s(x: &str) -> String {
    x.to_string()
}

#[test]
fn option_prefix() {
    assert!(is_option("-R"));
    assert!(is_option("--raw"));
    assert!(!is_option("list"));
    assert!(!is_option(""));
    assert!(!is_option(" -x"));
}

#[test]
fn option_matching() {
    assert!(matches_option("--raw", "--raw", "-R"));
    assert!(matches_option("-R", "--raw", "-R"));
    assert!(!matches_option("-r", "--raw", "-R"));
}

#[test]
fn flag_lookup() {
    let args = vec![s("y1-clip"), s("list"), s("-A")];
    assert!(has_flag(&args, "--full", "-A"));
    assert!(!has_flag(&args, "--raw", "-R"));
    assert!(!has_flag(&[], "--raw", "-R"));
}

#[test]
fn range_single_and_default() {
    assert_eq!(parse_range(Some(&s("7")), 25), RangeSelection::Single(7));
    assert_eq!(parse_range(Some(&s(" 7 ")), 25), RangeSelection::Single(7));
    assert_eq!(parse_range(Some(&s("+7")), 25), RangeSelection::Single(7));
    assert_eq!(parse_range(None, 25), RangeSelection::Latest(25));
    assert_eq!(parse_range(Some(&s("   ")), 25), RangeSelection::Latest(25));
    assert_eq!(parse_range(Some(&s("abc")), 25), RangeSelection::Latest(25));
    assert_eq!(parse_range(Some(&s("--raw")), 25), RangeSelection::Latest(25));
}

#[test]
fn range_bounds() {
    assert_eq!(parse_range(Some(&s("0-50")), 25), RangeSelection::Range(0, 50));
    assert_eq!(parse_range(Some(&s("50-10")), 25), RangeSelection::Range(10, 50));
    assert_eq!(parse_range(Some(&s("5-")), 25), RangeSelection::Range(5, 30));
    assert_eq!(parse_range(Some(&s(" 3 - 9 ")), 25), RangeSelection::Range(3, 9));
    assert_eq!(parse_range(Some(&s("1-2-3")), 25), RangeSelection::Latest(25));
    assert_eq!(parse_range(Some(&s("x-5")), 25), RangeSelection::Latest(25));
    assert_eq!(parse_range(Some(&s("5-x")), 25), RangeSelection::Latest(25));
    assert_eq!(parse_range(Some(&s("-")), 25), RangeSelection::Latest(25));
    assert_eq!(parse_range(Some(&s(" - ")), 25), RangeSelection::Latest(25));
    assert_eq!(parse_range(Some(&s("x-y")), 25), RangeSelection::Latest(25));
}

#[test]
fn range_leading_dash_after_blank() {
    // Only an argument that itself starts with '-' is an option; " -5" is a range up to 5.
    assert_eq!(parse_range(Some(&s(" -5")), 25), RangeSelection::Range(0, 5));
    assert_eq!(parse_range(Some(&s("-5")), 25), RangeSelection::Latest(25));
}

#[test]
fn range_overflow_detection() {
    let big = format!("{}-", usize::MAX);
    assert!(!parse_range_in_bounds(Some(&big), 25));
    assert!(parse_range_in_bounds(Some(&s("5-")), 25));
    assert!(parse_range_in_bounds(Some(&format!("{}", usize::MAX)), 25));
    assert_eq!(parse_range(Some(&format!("{}", usize::MAX)), 25), RangeSelection::Single(usize::MAX));
    assert_eq!(parse_range(Some(&s("99999999999999999999999")), 25), RangeSelection::Latest(25));
}
