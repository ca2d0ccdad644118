use y1_clipboard::constants::MAX_HISTORY;
use y1_clipboard::history::{ClipEntry, ClipboardDb, DbError, StoreOutcome};

fn db() -> ClipboardDb {
    ClipboardDb::new("/tmp/h.sqlite".to_string())
}

#[test]
fn empty_history() {
    let d = db();
    assert_eq!(d.get_total_count(), 0);
    assert!(d.get_latest_data().is_none());
    assert!(d.fetch_metadata(10).is_empty());
    assert_eq!(d.path(), "/tmp/h.sqlite");
}

#[test]
fn insert_then_latest() {
    let mut d = db();
    let r = d.insert_raw("text/plain", b"hello\nworld", 100).unwrap();
    assert_eq!(r.outcome, StoreOutcome::Inserted(1));
    assert!(r.evicted.is_empty());
    assert_eq!(d.get_latest_data().unwrap(), b"hello\nworld".to_vec());
    let m = d.fetch_metadata(10);
    assert_eq!(m.len(), 1);
    assert_eq!(m[0], (1, 100, "text/plain".to_string(), 11, Some("hello world".to_string())));
    let e = &d.entries()[0];
    assert_eq!(e.hash, format!("{:x}", md5::compute(b"hello\nworld")));
}

#[test]
fn md5_hash_of_known_value() {
    let mut d = db();
    d.insert_raw("image/png", b"abc", 1).unwrap();
    assert_eq!(d.entries()[0].hash, "900150983cd24fb0d6963f7d28e17f72");
    assert_eq!(d.entries()[0].preview, None);
}

#[test]
fn skip_empty_and_sensitive() {
    let mut d = db();
    assert_eq!(d.insert_raw("text/plain", b"", 5).unwrap().outcome, StoreOutcome::Skipped);
    assert_eq!(d.insert_raw("x-kde-passwordmanagerhint", b"pw", 5).unwrap().outcome, StoreOutcome::Skipped);
    assert_eq!(d.insert_raw("application/secret", b"pw", 5).unwrap().outcome, StoreOutcome::Skipped);
    assert_eq!(d.get_total_count(), 0);
}

#[test]
fn duplicate_refreshes_timestamp() {
    let mut d = db();
    d.insert_raw("text/plain", b"one", 10).unwrap();
    d.insert_raw("text/plain", b"two", 20).unwrap();
    let r = d.insert_raw("text/plain", b"one", 30).unwrap();
    assert_eq!(r.outcome, StoreOutcome::Refreshed(1));
    assert_eq!(d.get_total_count(), 2);
    let m = d.fetch_metadata(10);
    assert_eq!(m[0].0, 1);
    assert_eq!(m[0].1, 30);
    assert_eq!(m[1].0, 2);
    assert_eq!(d.get_latest_data().unwrap(), b"one".to_vec());
}

#[test]
fn ordering_by_time_then_id() {
    let mut d = db();
    d.insert_with_hash("text/plain", b"a", "h1", 50).unwrap();
    d.insert_with_hash("text/plain", b"b", "h2", 10).unwrap();
    d.insert_with_hash("text/plain", b"c", "h3", 50).unwrap();
    let ids: Vec<i64> = d.fetch_metadata(10).iter().map(|m| m.0).collect();
    assert_eq!(ids, vec![3, 1, 2]);
    assert_eq!(d.fetch_metadata(2).len(), 2);
}

#[test]
fn capacity_evicts_oldest() {
    let mut d = db();
    for i in 0..MAX_HISTORY as i64 {
        let r = d.insert_with_hash("text/plain", b"x", &format!("h{}", i), i).unwrap();
        assert!(r.evicted.is_empty());
    }
    assert_eq!(d.get_total_count(), MAX_HISTORY);
    let r = d.insert_with_hash("text/plain", b"x", "new", 1000).unwrap();
    assert_eq!(r.outcome, StoreOutcome::Inserted(MAX_HISTORY as i64 + 1));
    assert_eq!(r.evicted, vec![1]);
    assert_eq!(d.get_total_count(), MAX_HISTORY);
}

#[test]
fn eviction_keeps_the_newest_rows() {
    let mut d = db();
    for i in 0..MAX_HISTORY as i64 {
        d.insert_with_hash("text/plain", b"x", &format!("h{}", i), 100 + i).unwrap();
    }
    let r = d.insert_with_hash("text/plain", b"old", "old", 5).unwrap();
    assert_eq!(r.outcome, StoreOutcome::Inserted(MAX_HISTORY as i64 + 1));
    assert_eq!(r.evicted, vec![MAX_HISTORY as i64 + 1]);
    assert_eq!(d.get_total_count(), MAX_HISTORY);
    let m = d.fetch_metadata(MAX_HISTORY);
    assert_eq!(m[0].1, 100 + MAX_HISTORY as i64 - 1);
    assert_eq!(m[MAX_HISTORY - 1].1, 100);
}

#[test]
fn reinserting_a_payload_renews_it() {
    let mut d = db();
    d.insert_raw("text/plain", b"first", 10).unwrap();
    d.insert_raw("image/png", b"blob", 20).unwrap();
    assert_eq!(d.get_total_count(), 2);
    let r = d.insert_raw("image/png", b"blob", 30).unwrap();
    assert_eq!(r.outcome, StoreOutcome::Refreshed(2));
    assert!(r.evicted.is_empty());
    assert_eq!(d.get_total_count(), 2);
    assert_eq!(d.sequence(), 2);
    assert_eq!(d.entries()[0].hash, format!("{:x}", md5::compute(b"blob")));
    assert_eq!(d.entries()[0].timestamp, 30);
}

#[test]
fn reinserting_with_an_earlier_clock_renews_in_place() {
    let mut d = db();
    d.insert_raw("text/plain", b"first", 10).unwrap();
    d.insert_raw("text/plain", b"second", 20).unwrap();
    let r = d.insert_raw("text/plain", b"first", 5).unwrap();
    assert_eq!(r.outcome, StoreOutcome::Refreshed(1));
    assert!(r.evicted.is_empty());
    assert_eq!(d.get_total_count(), 2);
    let m = d.fetch_metadata(10);
    assert_eq!((m[0].0, m[0].1), (2, 20));
    assert_eq!((m[1].0, m[1].1), (1, 5));
}

#[test]
fn lookups_and_deletes() {
    let mut d = db();
    d.insert_raw("text/plain", b"a", 1).unwrap();
    d.insert_raw("image/png", b"b", 2).unwrap();
    assert_eq!(d.get_content_by_id(2), Some(("image/png".to_string(), b"b".to_vec())));
    assert_eq!(d.get_content_by_id(9), None);
    assert!(d.delete_by_id(2));
    assert!(!d.delete_by_id(2));
    assert_eq!(d.get_content_by_id(2), None);
    assert_eq!(d.get_total_count(), 1);
    // Ids are not reused after a delete.
    let r = d.insert_raw("text/plain", b"c", 3).unwrap();
    assert_eq!(r.outcome, StoreOutcome::Inserted(3));
}

#[test]
fn delete_by_display_index() {
    let mut d = db();
    d.insert_raw("text/plain", b"a", 1).unwrap();
    d.insert_raw("text/plain", b"b", 2).unwrap();
    assert!(!d.delete_by_index(2));
    assert!(d.delete_by_index(0));
    assert_eq!(d.get_latest_data().unwrap(), b"a".to_vec());
}

#[test]
fn wipe_keeps_sequence() {
    let mut d = db();
    d.insert_raw("text/plain", b"a", 1).unwrap();
    d.wipe();
    assert_eq!(d.get_total_count(), 0);
    assert_eq!(d.sequence(), 1);
    assert_eq!(d.insert_raw("text/plain", b"a", 2).unwrap().outcome, StoreOutcome::Inserted(2));
}

#[test]
fn update_timestamp_moves_entry() {
    let mut d = db();
    d.insert_raw("text/plain", b"a", 1).unwrap();
    d.insert_raw("text/plain", b"b", 2).unwrap();
    d.update_timestamp(1, 5);
    assert_eq!(d.fetch_metadata(10)[0].0, 1);
    d.update_timestamp(42, 9);
    assert_eq!(d.fetch_metadata(10)[0].1, 5);
}

#[test]
fn search_finds_keywords() {
    let mut d = db();
    d.insert_raw("text/plain", b"Hello World", 1).unwrap();
    d.insert_raw("image/png", b"hello", 2).unwrap();
    d.insert_raw("UTF8_STRING", b"say HELLO again", 3).unwrap();
    let r = d.search_metadata("hello", 10);
    let ids: Vec<i64> = r.iter().map(|m| m.0).collect();
    assert_eq!(ids, vec![3, 1]);
    assert_eq!(d.search_metadata("hello", 1).len(), 1);
    assert_eq!(d.search_metadata("h_llo", 10).len(), 2);
    assert!(d.search_metadata("absent", 10).is_empty());
}

fn raw_row(id: i64, ts: i64, content: &[u8]) -> ClipEntry {
    ClipEntry {
        id,
        timestamp: ts,
        mime: "UTF8_STRING".to_string(),
        size: content.len() as i64,
        preview: None,
        content: content.to_vec(),
        hash: format!("r{}", id),
    }
}

#[test]
fn search_reads_content_as_sqlite_does() {
    let d = ClipboardDb::from_rows(
        "/tmp/h.sqlite".to_string(),
        vec![
            raw_row(4, 40, b"ab\0cd"),
            raw_row(3, 30, &[b'x', 0xC0, 0x80, b'y']),
            raw_row(2, 20, &[b'a', 0x80, b'b']),
            raw_row(1, 10, &[b'q', 0xE2, 0x82, 0xAC, b'r']),
        ],
        4,
    )
    .unwrap();
    let ids = |q: &str| -> Vec<i64> { d.search_metadata(q, 10).iter().map(|m| m.0).collect() };
    assert_eq!(ids("\u{80}"), vec![2]);
    assert_eq!(ids("a\u{80}b"), vec![2]);
    assert_eq!(ids("x_y"), vec![3]);
    assert_eq!(ids("ab"), vec![4]);
    assert!(ids("cd").is_empty());
    assert_eq!(ids("q\u{20ac}r"), vec![1]);
    assert_eq!(ids("Q_R"), vec![1]);
}

#[test]
fn search_refuses_overlong_patterns() {
    let mut d = db();
    d.insert_raw("text/plain", b"aaaa", 1).unwrap();
    assert_eq!(d.search_metadata(&"a".repeat(49998), 10).len(), 0);
    assert_eq!(d.search_metadata(&"%".repeat(49998), 10).len(), 1);
    assert!(d.search_metadata(&"%".repeat(49999), 10).is_empty());
}

#[test]
fn capture_path_and_uri_preview() {
    let mut d = db();
    let r = d.record_capture("text/uri-list", b"file:///tmp/a.png\r\n", 7).unwrap();
    assert_eq!(r.outcome, StoreOutcome::Inserted(1));
    assert_eq!(d.fetch_metadata(1)[0].4, Some("file:///tmp/a.png\r ".to_string()));
    let again = d.record_capture("text/uri-list", b"file:///tmp/a.png\r\n", 8).unwrap();
    assert_eq!(again.outcome, StoreOutcome::Refreshed(1));
    assert_eq!(d.record_capture("x-kde-passwordmanagerhint", b"", 9).unwrap().outcome, StoreOutcome::Skipped);
}

#[test]
fn rows_are_checked() {
    let e = |id: i64, ts: i64| ClipEntry {
        id,
        timestamp: ts,
        mime: "text/plain".to_string(),
        size: 1,
        preview: None,
        content: vec![1],
        hash: format!("{}", id),
    };
    assert!(ClipboardDb::from_rows("p".to_string(), vec![e(2, 5), e(1, 3)], 2).is_some());
    assert!(ClipboardDb::from_rows("p".to_string(), vec![e(1, 3), e(2, 5)], 2).is_none());
    assert!(ClipboardDb::from_rows("p".to_string(), vec![e(2, 5), e(1, 3)], 1).is_none());
    assert!(ClipboardDb::from_rows("p".to_string(), vec![e(2, 5), e(2, 3)], 2).is_none());
}

#[test]
fn exhausted_sequence() {
    let mut d = ClipboardDb::from_rows("p".to_string(), vec![], i64::MAX).unwrap();
    assert_eq!(d.insert_raw("text/plain", b"a", 1).err(), Some(DbError::SequenceExhausted));
    assert_eq!(d.get_total_count(), 0);
}
