use vstd::prelude::*;

verus! {

/// The message shown when saving fails.
pub open spec fn save_failed_message() -> &'static str {
    "SAVE FAILED - WORLD KEPT OPEN"
}

/// The two render distance presets.
#[derive(Clone, Copy, Debug, Default, PartialEq, Eq, Structural)]
pub enum RenderDistance {
    #[default]
    Medium,
    High,
}

/// What a click in the pause menu asks for.
#[derive(Clone, Copy, Debug, PartialEq, Eq, Structural)]
pub enum PauseMenuAction {
    Resume,
    Settings,
    Back,
    SetRenderDistance(RenderDistance),
    SaveAndMainMenu,
}

/// The pause menu: whether the settings page is open, and any error shown.
#[derive(Clone, Copy, Debug, Default, PartialEq, Eq)]
pub struct PauseMenu {
    error: Option<&'static str>,
    settings_open: bool,
}

impl PauseMenu {
    pub closed spec fn spec_error(&self) -> Option<&'static str> {
        self.error
    }

    pub closed spec fn spec_settings_open(&self) -> bool {
        self.settings_open
    }

    /// The root page with no error.
    pub fn new() -> (menu: Self)
        ensures
            menu.spec_error() is None,
            !menu.spec_settings_open(),
    {
        PauseMenu { error: None, settings_open: false }
    }

    pub fn error(&self) -> (error: Option<&'static str>)
        ensures
            error == self.spec_error(),
    {
        self.error
    }

    pub fn settings_open(&self) -> (open: bool)
        ensures
            open == self.spec_settings_open(),
    {
        self.settings_open
    }

    pub fn show_settings(&mut self)
        ensures
            final(self).spec_settings_open(),
            final(self).spec_error() == old(self).spec_error(),
    {
        self.settings_open = true;
    }

    pub fn show_root(&mut self)
        ensures
            !final(self).spec_settings_open(),
            final(self).spec_error() == old(self).spec_error(),
    {
        self.settings_open = false;
    }

    /// Clears the error and returns to the root page.
    pub fn clear_error(&mut self)
        ensures
            final(self).spec_error() is None,
            !final(self).spec_settings_open(),
    {
        self.error = None;
        self.settings_open = false;
    }

    /// Shows that saving failed and the world stays open.
    pub fn set_save_failed(&mut self)
        ensures
            final(self).spec_error() == Some(save_failed_message()),
            final(self).spec_settings_open() == old(self).spec_settings_open(),
    {
        self.error = Some("SAVE FAILED - WORLD KEPT OPEN");
    }
}

} // verus!
