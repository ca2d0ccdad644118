use y1_clipboard::paths::{data_dir, db_file_path, join};
use y1_clipboard::session::{is_exiting, on_interrupt, request_exit, ExitSignal, InterruptAction, OfferData};
use y1_clipboard::uri::{file_uri_path, promotion_path};

#[test]
fn exit_signal() {
    let mut s = ExitSignal::new();
    assert!(!is_exiting(&s));
    request_exit(&mut s);
    assert!(is_exiting(&s));
    let mut t = ExitSignal::new();
    assert_eq!(on_interrupt(&mut t), InterruptAction::Shutdown);
    assert_eq!(on_interrupt(&mut t), InterruptAction::ForceQuit);
    assert!(is_exiting(&t));
}

#[test]
fn offer_data_dedup() {
    let mut o = OfferData::new();
    o.record_offer("text/plain".to_string());
    o.record_offer("image/png".to_string());
    o.record_offer("text/plain".to_string());
    assert_eq!(o.mimes(), &["text/plain".to_string(), "image/png".to_string()][..]);
}

#[test]
fn db_paths() {
    assert_eq!(data_dir(Some("/xdg"), Some("/home/u")), "/xdg/y1-clipboard");
    assert_eq!(data_dir(Some("/xdg/"), None), "/xdg/y1-clipboard");
    assert_eq!(data_dir(None, Some("/home/u")), "/home/u/.local/share/y1-clipboard");
    assert_eq!(data_dir(None, None), "./y1-clipboard");
    assert_eq!(data_dir(Some(""), Some("/home/u")), "/home/u/.local/share/y1-clipboard");
    assert_eq!(data_dir(Some(""), None), "./y1-clipboard");
    assert_eq!(db_file_path("/xdg/y1-clipboard"), "/xdg/y1-clipboard/y1_clipboard.sqlite");
    assert_eq!(join("", "a"), "a");
    assert_eq!(join("/x", "/abs"), "/abs");
}

#[test]
fn uri_paths() {
    assert_eq!(file_uri_path(b"file:///home/u/My%20Pic.png\r\nfile:///other"), Some("/home/u/My Pic.png".to_string()));
    assert_eq!(file_uri_path(b"file://file:///a.png"), Some("/a.png".to_string()));
    assert_eq!(file_uri_path(b"https://x/a.png"), None);
    assert_eq!(file_uri_path(b"file:///bad%FF"), None);
    assert_eq!(file_uri_path(b"file:///a%2"), Some("/a%2".to_string()));
    assert_eq!(file_uri_path(b""), None);
    assert_eq!(promotion_path("text/uri-list", b"file:///tmp/a%20b.png"), Some("/tmp/a b.png".to_string()));
    assert_eq!(promotion_path("text/plain", b"file:///tmp/a.png"), None);
    assert_eq!(promotion_path("text/uri-list", b"https://x/a.png"), None);
}
