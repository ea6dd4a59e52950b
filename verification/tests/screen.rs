use deep_tek::{AppScreen, ScreenKey, ScreenState, screen_after_key, simulation_paused};

fn playing() -> ScreenState {
    ScreenState { screen: AppScreen::Playing, window_open: false, dialog_open: false }
}

#[test]
fn escape_closes_open_gameplay_ui_before_opening_pause() {
    let state = ScreenState { window_open: true, ..playing() };

    let state = screen_after_key(state, ScreenKey::Escape);
    assert!(!state.window_open);
    assert_eq!(state.screen, AppScreen::Playing);

    let state = screen_after_key(state, ScreenKey::Escape);
    assert_eq!(state.screen, AppScreen::Paused);

    let state = screen_after_key(state, ScreenKey::Escape);
    assert_eq!(state.screen, AppScreen::Playing);
}

#[test]
fn escape_closes_contracts_without_opening_pause() {
    let state = ScreenState { screen: AppScreen::Contracts, ..playing() };

    let state = screen_after_key(state, ScreenKey::Escape);

    assert_eq!(state.screen, AppScreen::Playing);
}

#[test]
fn tab_toggles_the_world_map_and_escape_closes_it() {
    let state = playing();

    let state = screen_after_key(state, ScreenKey::Tab);
    assert_eq!(state.screen, AppScreen::WorldMap);

    let state = screen_after_key(state, ScreenKey::Tab);
    assert_eq!(state.screen, AppScreen::Playing);

    let state = screen_after_key(state, ScreenKey::Tab);
    let state = screen_after_key(state, ScreenKey::Escape);
    assert_eq!(state.screen, AppScreen::Playing);
}

#[test]
fn tab_is_ignored_while_a_dialog_is_open() {
    let state = ScreenState { dialog_open: true, ..playing() };
    assert_eq!(screen_after_key(state, ScreenKey::Tab), state);
    let closed = screen_after_key(state, ScreenKey::Escape);
    assert_eq!(closed, playing());
}

#[test]
fn the_world_menu_handles_its_own_keys() {
    let state = ScreenState { screen: AppScreen::WorldMenu, ..playing() };
    assert_eq!(screen_after_key(state, ScreenKey::Escape), state);
    assert_eq!(screen_after_key(state, ScreenKey::Tab), state);
}

#[test]
fn play_stands_still_while_paused_or_in_contracts() {
    assert!(simulation_paused(AppScreen::Paused));
    assert!(simulation_paused(AppScreen::Contracts));
    assert!(!simulation_paused(AppScreen::Playing));
    assert!(!simulation_paused(AppScreen::WorldMap));
}
