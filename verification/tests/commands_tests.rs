use y1_clipboard::args::RangeSelection;
use y1_clipboard::commands::{
    index_arg, is_affirmative, list_window, mime_arg, parse_index, parse_ipc_id,
    resolve_copy_target, route_command, search_query, shows_as_text, ArgContext, Command,
    CopyTarget, IndexArg,
};

fn v(xs: &[&str]) -> Vec<String> {
    xs.iter().map(|x| x.to_string()).collect()
}

#[test]
fn routing() {
    assert_eq!(route_command(&v(&["y1-clip"])), Command::Help);
    assert_eq!(route_command(&v(&["y1-clip", "list", "-h"])), Command::Help);
    assert_eq!(route_command(&v(&["y1-clip", "list", "--version"])), Command::Version);
    assert_eq!(route_command(&v(&["y1-clip", "--raw"])), Command::InvalidFormat);
    assert_eq!(route_command(&v(&["y1-clip", "list"])), Command::List);
    assert_eq!(route_command(&v(&["y1-clip", "copy-to", "3"])), Command::CopyTo);
    assert_eq!(route_command(&v(&["y1-clip", "paste-from"])), Command::PasteFrom);
    assert_eq!(route_command(&v(&["y1-clip", "version"])), Command::Version);
    assert_eq!(route_command(&v(&["y1-clip", "frobnicate"])), Command::Unrecognized);
    assert_eq!(route_command(&v(&["y1-clip", "daemon", "-v"])), Command::Daemon);
    assert_eq!(route_command(&v(&["y1-clip", "search", "x"])), Command::Search);
    assert_eq!(route_command(&v(&["y1-clip", "show", "1"])), Command::Show);
    assert_eq!(route_command(&v(&["y1-clip", "store"])), Command::Store);
    assert_eq!(route_command(&v(&["y1-clip", "delete", "0"])), Command::Delete);
    assert_eq!(route_command(&v(&["y1-clip", "wipe", "-f"])), Command::Wipe);
    assert_eq!(route_command(&v(&["y1-clip", "help"])), Command::Help);
    assert_eq!(route_command(&v(&["y1-clip", "serve-internal", "3"])), Command::Unrecognized);
}

#[test]
fn argument_context() {
    let c = ArgContext::parse(&v(&["y1-clip", "list", "0-5", "-R", "--bogus", "x", "-i", "-v"]));
    assert!(c.raw && c.use_id && c.verbose);
    assert!(!c.full && !c.force);
    assert_eq!(c.positionals, v(&["0-5", "x"]));
    assert_eq!(c.unknown_flags, v(&["--bogus"]));
    let e = ArgContext::parse(&v(&["y1-clip", "list"]));
    assert!(e.positionals.is_empty() && e.unknown_flags.is_empty() && !e.raw);
}

#[test]
fn listing_windows() {
    assert_eq!(list_window(10, RangeSelection::Single(3), false), (3, 4));
    assert_eq!(list_window(10, RangeSelection::Single(10), false), (0, 0));
    assert_eq!(list_window(10, RangeSelection::Range(2, 50), false), (2, 10));
    assert_eq!(list_window(10, RangeSelection::Range(20, 50), false), (9, 10));
    assert_eq!(list_window(0, RangeSelection::Range(0, 5), false), (0, 0));
    assert_eq!(list_window(10, RangeSelection::Latest(25), false), (0, 10));
    assert_eq!(list_window(10, RangeSelection::Latest(3), false), (0, 3));
    assert_eq!(list_window(10, RangeSelection::Single(3), true), (0, 10));
}

#[test]
fn copy_targets() {
    let ids = [40, 30, 20];
    let one = "1".to_string();
    let neg = "-1".to_string();
    let bad = "x".to_string();
    let far = "7".to_string();
    let id = "77".to_string();
    assert_eq!(resolve_copy_target(None, false, &ids), CopyTarget::MissingId);
    assert_eq!(resolve_copy_target(Some(&one), false, &ids), CopyTarget::Entry(30));
    assert_eq!(resolve_copy_target(Some(&far), false, &ids), CopyTarget::Invalid);
    assert_eq!(resolve_copy_target(Some(&neg), false, &ids), CopyTarget::Invalid);
    assert_eq!(resolve_copy_target(Some(&bad), false, &ids), CopyTarget::Invalid);
    assert_eq!(resolve_copy_target(Some(&id), true, &ids), CopyTarget::Entry(77));
    assert_eq!(resolve_copy_target(Some(&neg), true, &ids), CopyTarget::Invalid);
}

#[test]
fn ipc_and_index_parsing() {
    assert_eq!(parse_ipc_id(" 42\n"), Some(42));
    assert_eq!(parse_ipc_id("-9223372036854775808"), Some(i64::MIN));
    assert_eq!(parse_ipc_id("9223372036854775808"), None);
    assert_eq!(parse_ipc_id("-"), None);
    assert_eq!(parse_ipc_id("4x"), None);
    assert_eq!(parse_index("12"), Some(12));
    assert_eq!(parse_index(" 12"), None);
    assert_eq!(parse_index("+"), None);
}

#[test]
fn positional_arguments() {
    assert_eq!(index_arg(&v(&["y1-clip", "delete"])), IndexArg::Missing);
    assert_eq!(index_arg(&v(&["y1-clip", "delete", "-f"])), IndexArg::Missing);
    assert_eq!(index_arg(&v(&["y1-clip", "delete", "x"])), IndexArg::Invalid);
    assert_eq!(index_arg(&v(&["y1-clip", "delete", "4"])), IndexArg::Index(4));
    assert_eq!(search_query(&v(&["y1-clip", "search", "  foo "])), Some("foo".to_string()));
    assert_eq!(search_query(&v(&["y1-clip", "search", "   "])), None);
    assert_eq!(search_query(&v(&["y1-clip", "search", "-R"])), None);
    assert_eq!(mime_arg(&v(&["y1-clip", "store", "image/png"])), "image/png");
    assert_eq!(mime_arg(&v(&["y1-clip", "store"])), "text/plain;charset=utf-8");
}

#[test]
fn confirmation_and_text_display() {
    assert!(is_affirmative(" YES\n"));
    assert!(is_affirmative("y"));
    assert!(!is_affirmative("no"));
    assert!(!is_affirmative(""));
    assert!(shows_as_text("text/plain"));
    assert!(shows_as_text("UTF8_STRING"));
    assert!(!shows_as_text("image/png"));
}
