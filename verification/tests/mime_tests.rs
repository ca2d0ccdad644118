use y1_clipboard::mime::{
    classify_global, image_mime_for_extension, is_sensitive, mime_is_compatible, offer_mimes,
    plan_selection, select_mime, GlobalBinding, SelectionPlan,
};

fn v(xs: &[&str]) -> Vec<String> {
    xs.iter().map(|x| x.to_string()).collect()
}

#[test]
fn compatibility() {
    assert!(mime_is_compatible("text/plain", "text/plain"));
    assert!(mime_is_compatible("text/html", "text/plain;charset=utf-8"));
    assert!(mime_is_compatible("image/png", "image/jpeg"));
    assert!(mime_is_compatible("UTF8_STRING", "text/plain"));
    assert!(mime_is_compatible("STRING", "TEXT"));
    assert!(!mime_is_compatible("text/html", "STRING"));
    assert!(!mime_is_compatible("image/png", "text/plain"));
}

#[test]
fn sensitivity_is_case_insensitive() {
    assert!(is_sensitive(&v(&["text/plain", "x-kde-passwordManagerHint"])));
    assert!(is_sensitive(&v(&["application/X-SECRET"])));
    assert!(!is_sensitive(&v(&["text/plain"])));
    assert!(!is_sensitive(&[]));
}

#[test]
fn selection_priority() {
    assert_eq!(select_mime(&v(&["text/plain", "image/png", "image/webp"])), "image/webp");
    assert_eq!(select_mime(&v(&["text/plain", "text/plain;charset=utf-8"])), "text/plain;charset=utf-8");
    assert_eq!(select_mime(&v(&["text/html", "text/uri-list;x=1"])), "text/uri-list;x=1");
    assert_eq!(select_mime(&v(&["application/x", "image/bmp", "text/html"])), "image/bmp");
    assert_eq!(select_mime(&v(&["application/x", "text/html"])), "text/html");
    assert_eq!(select_mime(&v(&["application/x", "application/y"])), "application/x");
    assert_eq!(select_mime(&[]), "text/plain;charset=utf-8");
}

#[test]
fn selection_plans() {
    assert!(matches!(plan_selection(true, None, &v(&["text/plain"])), SelectionPlan::Ignore));
    assert!(matches!(plan_selection(false, None, &[]), SelectionPlan::Ignore));
    match plan_selection(false, None, &v(&["image/png"])) {
        SelectionPlan::Receive { mime, large_buffer } => {
            assert_eq!(mime, "image/png");
            assert!(large_buffer);
        }
        SelectionPlan::Ignore => panic!("expected a receive plan"),
    }
    match plan_selection(false, None, &v(&["text/plain"])) {
        SelectionPlan::Receive { mime, large_buffer } => {
            assert_eq!(mime, "text/plain");
            assert!(!large_buffer);
        }
        SelectionPlan::Ignore => panic!("expected a receive plan"),
    }
}

fn received(plan: SelectionPlan) -> (String, bool) {
    match plan {
        SelectionPlan::Receive { mime, large_buffer } => (mime, large_buffer),
        SelectionPlan::Ignore => panic!("expected a receive plan"),
    }
}

#[test]
fn selection_plans_follow_the_requested_type() {
    let offer = v(&["text/plain", "image/png"]);
    assert_eq!(received(plan_selection(false, None, &offer)), ("image/png".to_string(), true));
    assert_eq!(
        received(plan_selection(false, Some("text/plain"), &offer)),
        ("text/plain".to_string(), false)
    );
    assert_eq!(
        received(plan_selection(false, Some("image/jpeg"), &offer)),
        ("image/png".to_string(), true)
    );
    assert_eq!(
        received(plan_selection(false, Some("UTF8_STRING"), &v(&["image/png", "text/html"]))),
        ("text/html".to_string(), false)
    );
    assert_eq!(
        received(plan_selection(false, Some("application/x-other"), &offer)),
        ("image/png".to_string(), true)
    );
    assert!(matches!(plan_selection(true, Some("text/plain"), &offer), SelectionPlan::Ignore));
    assert!(matches!(plan_selection(false, Some("text/plain"), &[]), SelectionPlan::Ignore));
}

#[test]
fn offered_types_for_restore() {
    assert_eq!(offer_mimes("image/png"), v(&["image/png"]));
    assert_eq!(
        offer_mimes("text/plain;charset=utf-8"),
        v(&["text/plain;charset=utf-8", "text/plain", "UTF8_STRING", "STRING", "TEXT"])
    );
}

#[test]
fn image_extensions() {
    assert_eq!(image_mime_for_extension("PNG"), Some("image/png"));
    assert_eq!(image_mime_for_extension("jpeg"), Some("image/jpeg"));
    assert_eq!(image_mime_for_extension("JPG"), Some("image/jpeg"));
    assert_eq!(image_mime_for_extension("webp"), Some("image/webp"));
    assert_eq!(image_mime_for_extension("gif"), Some("image/gif"));
    assert_eq!(image_mime_for_extension("bmp"), None);
}

#[test]
fn globals() {
    assert_eq!(classify_global("ext_data_control_manager_v1", false), GlobalBinding::Manager);
    assert_eq!(classify_global("wl_seat", false), GlobalBinding::Seat);
    assert_eq!(classify_global("wl_seat", true), GlobalBinding::Ignore);
    assert_eq!(classify_global("wl_output", false), GlobalBinding::Ignore);
}
