//! What a key pressed inside the launcher window does.
use vstd::prelude::*;

verus! {

/// The keys the window reacts to; every other key is `Other`.
#[derive(Clone, Copy, PartialEq, Eq, Debug, Structural)]
pub enum WindowKey {
    Tab,
    LowerA,
    UpperA,
    Return,
    Other,
}

/// What the window does for a key.
#[derive(Clone, Copy, PartialEq, Eq, Debug, Structural)]
pub enum WindowAction {
    /// Move between the application list and the file list.
    SwitchLists,
    /// Focus the search field and select all of its text.
    FocusAndSelectAll,
    /// Focus the search field, the key then going on to it.
    FocusSearch,
    /// Activate the selected row of the active list.
    ActivateSelection,
    /// Nothing; the key goes on to the focused widget.
    Nothing,
}

/// The action for a key and whether the key stops there.
#[derive(Clone, Copy, PartialEq, Eq, Debug, Structural)]
pub struct KeyResponse {
    pub action: WindowAction,
    pub stop: bool,
}

/// The response to `key`, with `control` held or not.
pub open spec fn spec_key_response(key: WindowKey, control: bool) -> KeyResponse {
    match key {
        WindowKey::Tab => KeyResponse { action: WindowAction::SwitchLists, stop: true },
        WindowKey::LowerA => if control {
            KeyResponse { action: WindowAction::FocusAndSelectAll, stop: true }
        } else {
            KeyResponse { action: WindowAction::FocusSearch, stop: false }
        },
        WindowKey::UpperA => KeyResponse { action: WindowAction::FocusSearch, stop: false },
        WindowKey::Return => KeyResponse { action: WindowAction::ActivateSelection, stop: true },
        WindowKey::Other => KeyResponse { action: WindowAction::Nothing, stop: false },
    }
}

/// Tab switches lists, Control+a selects the whole search text, a or A
/// focuses the search field and goes on to it, Return activates the
/// selection; any other key goes on untouched.
pub fn key_response(key: WindowKey, control: bool) -> (r: KeyResponse)
    ensures
        r == spec_key_response(key, control),
{
    match key {
        WindowKey::Tab => KeyResponse { action: WindowAction::SwitchLists, stop: true },
        WindowKey::LowerA => {
            if control {
                KeyResponse { action: WindowAction::FocusAndSelectAll, stop: true }
            } else {
                KeyResponse { action: WindowAction::FocusSearch, stop: false }
            }
        },
        WindowKey::UpperA => KeyResponse { action: WindowAction::FocusSearch, stop: false },
        WindowKey::Return => KeyResponse { action: WindowAction::ActivateSelection, stop: true },
        WindowKey::Other => KeyResponse { action: WindowAction::Nothing, stop: false },
    }
}

/// Only Tab, Return and Control+a stop at the window; every other key, with
/// or without Control, goes on to the focused widget (so typed text reaches
/// the search field), and a key outside the window's own keys does nothing.
pub proof fn law_only_window_keys_stop(key: WindowKey, control: bool)
    ensures
        spec_key_response(key, control).stop <==> (key == WindowKey::Tab || key == WindowKey::Return
            || (key == WindowKey::LowerA && control)),
        spec_key_response(WindowKey::Other, control) == (KeyResponse {
            action: WindowAction::Nothing,
            stop: false,
        }),
        spec_key_response(key, control).action == WindowAction::Nothing <==> key == WindowKey::Other,
{
}

} // verus!
