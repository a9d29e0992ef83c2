use qrust_code::gui_state::{background_locked, preview_step, request_args, PreviewStep};

#[test]
fn requests_made_by_the_window() {
    let s = |t: &str| t.to_string();
    let a = request_args(&s("lien"), &s("out.svg"), 2048, &s("#000000"), &s("#ffffff"), &s("  "), true);
    assert_eq!(a.link, Some(s("lien")));
    assert_eq!(a.size, 720);
    assert_eq!(a.bg_image, None);
    assert!(a.gui);
    let a = request_args(&s("lien"), &s("out.svg"), 2048, &s("#000000"), &s("#ffffff"), &s("f.png"), false);
    assert_eq!(a.size, 2048);
    assert_eq!(a.bg_image, Some(s("f.png")));
    let a = request_args(&s("lien"), &s("out.svg"), 300, &s("#000000"), &s("#ffffff"), &s(""), true);
    assert_eq!(a.size, 300);
}

#[test]
fn background_colour_lock() {
    assert!(background_locked(true, "f.png"));
    assert!(!background_locked(true, "  "));
    assert!(!background_locked(false, "f.png"));
}

#[test]
fn preview_refresh_waits_for_still_fields() {
    assert_eq!(preview_step(false, 1000), PreviewStep::Idle);
    assert_eq!(preview_step(true, 139), PreviewStep::Wait);
    assert_eq!(preview_step(true, 140), PreviewStep::Refresh);
}
