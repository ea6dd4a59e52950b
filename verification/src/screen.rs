use vstd::prelude::*;

verus! {

/// The screens of a running session.
#[derive(Clone, Copy, Debug, PartialEq, Eq, Structural)]
pub enum AppScreen {
    WorldMenu,
    Playing,
    Paused,
    Contracts,
    WorldMap,
}

/// What the keys act on: the screen, whether a gameplay window such as the
/// inventory is open, and whether a terminal dialog (procurement or a
/// specialist conversation) is open.
#[derive(Clone, Copy, Debug, PartialEq, Eq, Structural)]
pub struct ScreenState {
    pub screen: AppScreen,
    pub window_open: bool,
    pub dialog_open: bool,
}

/// The keys that move between screens.
#[derive(Clone, Copy, Debug, PartialEq, Eq, Structural)]
pub enum ScreenKey {
    Escape,
    Tab,
}

/// Escape closes an open window or dialog before anything else; with none
/// open it pauses play, resumes from the pause menu and closes the contracts
/// window and the map. Tab toggles the map during play and on the map, but
/// not while a dialog is open. The world menu handles its own keys.
pub open spec fn screen_transition(state: ScreenState, key: ScreenKey) -> ScreenState {
    if state.screen == AppScreen::WorldMenu {
        state
    } else {
        match key {
            ScreenKey::Escape => if state.window_open || state.dialog_open {
                ScreenState { screen: state.screen, window_open: false, dialog_open: false }
            } else {
                ScreenState {
                    screen: match state.screen {
                        AppScreen::Playing => AppScreen::Paused,
                        _ => AppScreen::Playing,
                    },
                    ..state
                }
            },
            ScreenKey::Tab => if state.dialog_open {
                state
            } else {
                match state.screen {
                    AppScreen::Playing => ScreenState { screen: AppScreen::WorldMap, ..state },
                    AppScreen::WorldMap => ScreenState { screen: AppScreen::Playing, ..state },
                    _ => state,
                }
            },
        }
    }
}

/// The screen state after a key press.
pub fn screen_after_key(state: ScreenState, key: ScreenKey) -> (next: ScreenState)
    ensures
        next == screen_transition(state, key),
{
    if state.screen == AppScreen::WorldMenu {
        return state;
    }
    match key {
        ScreenKey::Escape => {
            if state.window_open || state.dialog_open {
                ScreenState { screen: state.screen, window_open: false, dialog_open: false }
            } else {
                let screen = match state.screen {
                    AppScreen::Playing => AppScreen::Paused,
                    _ => AppScreen::Playing,
                };
                ScreenState { screen, ..state }
            }
        },
        ScreenKey::Tab => {
            if state.dialog_open {
                return state;
            }
            match state.screen {
                AppScreen::Playing => ScreenState { screen: AppScreen::WorldMap, ..state },
                AppScreen::WorldMap => ScreenState { screen: AppScreen::Playing, ..state },
                _ => state,
            }
        },
    }
}

/// Whether the simulation stands still on a screen: while paused or in the
/// contracts window.
pub fn simulation_paused(screen: AppScreen) -> (paused: bool)
    ensures
        paused == (screen == AppScreen::Paused || screen == AppScreen::Contracts),
{
    match screen {
        AppScreen::Paused | AppScreen::Contracts => true,
        _ => false,
    }
}

} // verus!
