use y1_clipboard::listing::{format_time, get_label, list_lines, listing_preview, preview_content, to_decimal};

#[test]
fn decimal_formatting() {
    assert_eq!(to_decimal(0), "0");
    assert_eq!(to_decimal(1234), "1234");
    assert_eq!(to_decimal(-56), "-56");
    assert_eq!(to_decimal(i64::MIN), i64::MIN.to_string());
    assert_eq!(to_decimal(i64::MAX), i64::MAX.to_string());
}

#[test]
fn listing_text() {
    assert_eq!(listing_preview("image/png", 2048, None), "[png] - 2048 bytes");
    assert_eq!(listing_preview("image/svg+xml/x", 5, None), "[svg+xml] - 5 bytes");
    let p = "hello".to_string();
    assert_eq!(listing_preview("text/plain", 5, Some(&p)), "hello");
    assert_eq!(listing_preview("application/octet-stream", 5, None), "");
}

#[test]
fn labels() {
    assert_eq!(get_label("image/png"), "[IMG]");
    assert_eq!(get_label("text/plain"), "[TXT]");
    assert_eq!(get_label("UTF8_STRING"), "[TXT]");
    assert_eq!(get_label("application/pdf"), "[BIN]");
}

#[test]
fn fitted_previews() {
    assert_eq!(preview_content("a\tb", 10), "a b");
    assert_eq!(preview_content("abcdefghijkl", 10), "abcdefg...");
    assert_eq!(preview_content("abcdefghij", 10), "abcdefghij");
}

#[test]
fn clock_times() {
    assert_eq!(format_time(0), "00:00:00");
    assert_eq!(format_time(3_723_000), "01:02:03");
    assert_eq!(format_time(86_400_000 + 59_000), "00:00:59");
}

fn items() -> Vec<(i64, i64, String, i64, Option<String>)> {
    vec![
        (7, 3_723_000, "text/plain".to_string(), 5, Some("hello".to_string())),
        (3, 1_000, "image/png".to_string(), 2048, None),
    ]
}

#[test]
fn raw_list_lines() {
    let lines = list_lines("Clipboard History", &items(), 2, true);
    assert_eq!(lines, vec!["   0 [TXT] hello".to_string(), "   1 [IMG] [png] - 2048 bytes".to_string()]);
    let first_field = lines[1].split_whitespace().next().unwrap();
    assert_eq!(first_field, "1");
}

#[test]
fn table_list_lines() {
    let lines = list_lines("Clipboard History", &items(), 9, false);
    let rule = "-".repeat(101);
    assert_eq!(
        lines,
        vec![
            "".to_string(),
            "--- Clipboard History ---".to_string(),
            "    ID |       WHEN |       SIZE | CONTENT".to_string(),
            rule.clone(),
            "[   0] |   01:02:03 |        5 B | [TXT] hello".to_string(),
            "[   1] |   00:00:01 |     2048 B | [IMG] [png] - 2048 bytes".to_string(),
            rule,
            "[y1-clip] shown 2 items | history: 9 / 256 entries".to_string(),
        ]
    );
    assert!(list_lines("t", &[], 0, true).is_empty());
}
