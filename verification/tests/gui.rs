use deep_tek::{
    MeterValue, SpecialistGui, SpecialistId, SpecialistPage, format_delivery_eta, format_depth,
    truncate,
};
use deep_tek::pause_menu::PauseMenu;

#[test]
fn long_requirements_are_truncated_cleanly() {
    assert_eq!(truncate("ABCDEFGHIJ", 8), "ABCDE...");
}

#[test]
fn short_text_and_tiny_limits_are_kept_plain() {
    assert_eq!(truncate("ABC", 8), "ABC");
    assert_eq!(truncate("ABCDEFGHIJ", 3), "ABC");
    assert_eq!(truncate("ÄÖÜßABC", 5), "ÄÖ...");
}

#[test]
fn depth_text_includes_sign_and_single_decimal_place() {
    assert_eq!(format_depth(126), "DEPTH +12.6M");
    assert_eq!(format_depth(-7), "DEPTH -0.7M");
}

#[test]
fn extreme_depths_format_exactly() {
    assert_eq!(format_depth(0), "DEPTH +0.0M");
    assert_eq!(format_depth(i32::MIN), "DEPTH -214748364.8M");
}

#[test]
fn delivery_eta_matches_the_terminal_queue_readout() {
    assert_eq!(format_delivery_eta(5, 1), "QUEUE 1   NEXT DROP 5S");
    assert_eq!(format_delivery_eta(125, 3), "QUEUE 3   NEXT DROP 125S");
}

#[test]
fn specialist_window_pages() {
    let mut gui = SpecialistGui::new();
    assert!(!gui.is_open());
    gui.show(SpecialistId::QUARTERMASTER());
    assert!(gui.is_open());
    assert_eq!(gui.specialist(), Some(SpecialistId::QUARTERMASTER()));
    assert_eq!(gui.definition().unwrap().name, "Rook Hale");
    gui.open_details();
    assert_eq!(gui.page(), SpecialistPage::Details);
    gui.back();
    assert_eq!(gui.page(), SpecialistPage::Conversation);
    assert!(gui.is_open());
    gui.dismiss();
    assert!(!gui.is_open());
    gui.show(SpecialistId::new(40));
    assert!(gui.definition().is_none());
}

#[test]
fn meters_keep_their_values() {
    let meter = MeterValue::new(75, 100);
    assert_eq!(meter.current, 75);
    assert_eq!(meter.maximum, 100);
}

#[test]
fn pause_menu_tracks_settings_and_errors() {
    let mut menu = PauseMenu::new();
    menu.show_settings();
    assert!(menu.settings_open());
    menu.set_save_failed();
    assert_eq!(menu.error(), Some("SAVE FAILED - WORLD KEPT OPEN"));
    assert!(menu.settings_open());
    menu.show_root();
    assert!(!menu.settings_open());
    menu.show_settings();
    menu.clear_error();
    assert_eq!(menu.error(), None);
    assert!(!menu.settings_open());
}
