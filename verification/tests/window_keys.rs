use spotlauncher::window_keys::{key_response, KeyResponse, WindowAction, WindowKey};

#[test]
fn window_keys_respond_as_bound() {
    let r = |action, stop| KeyResponse { action, stop };
    assert_eq!(key_response(WindowKey::Tab, false), r(WindowAction::SwitchLists, true));
    assert_eq!(key_response(WindowKey::Tab, true), r(WindowAction::SwitchLists, true));
    assert_eq!(key_response(WindowKey::LowerA, true), r(WindowAction::FocusAndSelectAll, true));
    assert_eq!(key_response(WindowKey::LowerA, false), r(WindowAction::FocusSearch, false));
    assert_eq!(key_response(WindowKey::UpperA, true), r(WindowAction::FocusSearch, false));
    assert_eq!(key_response(WindowKey::UpperA, false), r(WindowAction::FocusSearch, false));
    assert_eq!(key_response(WindowKey::Return, false), r(WindowAction::ActivateSelection, true));
    assert_eq!(key_response(WindowKey::Other, true), r(WindowAction::Nothing, false));
}
