use spotlauncher::keyboard::{Key, KeyboardHandler, PollStep, PressedKeys, FIRE_PAUSE_MS, POLL_INTERVAL_MS};

fn pressed(keys: &[Key]) -> PressedKeys {
    let mut p = PressedKeys::new();
    for k in keys {
        p.press(*k);
    }
    p
}

#[test]
fn bind_returns_consecutive_indices() {
    let mut h = KeyboardHandler::new();
    assert_eq!(h.len(), 0);
    assert_eq!(h.bind(vec![Key::Space, Key::Alt]), 0);
    assert_eq!(h.bind(vec![Key::Escape]), 1);
    assert_eq!(h.len(), 2);
}

#[test]
fn bindings_fire_when_all_their_keys_are_held() {
    let mut h = KeyboardHandler::new();
    h.bind(vec![Key::Space, Key::Alt]);
    h.bind(vec![Key::Escape]);
    assert!(h.held_bindings(&pressed(&[])).is_empty());
    assert!(h.held_bindings(&pressed(&[Key::Space])).is_empty());
    assert_eq!(h.held_bindings(&pressed(&[Key::Alt, Key::Space])), vec![0]);
    assert_eq!(h.held_bindings(&pressed(&[Key::Escape, Key::Tab])), vec![1]);
    assert_eq!(h.held_bindings(&pressed(&[Key::Escape, Key::Alt, Key::Space])), vec![0, 1]);
    assert!(h.binding_held(0, &pressed(&[Key::Space, Key::Alt, Key::Enter])));
    assert!(!h.binding_held(1, &pressed(&[Key::Space, Key::Alt, Key::Enter])));
}

#[test]
fn a_binding_without_keys_always_fires() {
    let mut h = KeyboardHandler::new();
    h.bind(vec![]);
    assert_eq!(h.held_bindings(&pressed(&[])), vec![0]);
}

#[test]
fn press_and_release_track_held_keys() {
    let mut p = PressedKeys::new();
    assert!(!p.contains(Key::Tab));
    p.press(Key::Tab);
    p.press(Key::Tab);
    assert!(p.contains(Key::Tab));
    p.release(Key::Tab);
    assert!(!p.contains(Key::Tab));
    p.release(Key::Enter);
    assert!(!p.contains(Key::Enter));
}

#[test]
fn key_events_drive_the_bindings() {
    let mut h = KeyboardHandler::new();
    h.bind(vec![Key::Space, Key::Alt]);
    h.bind(vec![Key::Escape]);
    let mut p = PressedKeys::new();
    assert!(h.key_down(&mut p, Key::Alt).is_empty());
    assert_eq!(h.key_down(&mut p, Key::Space), vec![0]);
    // holding both, a repeat of Space fires again
    assert_eq!(h.key_down(&mut p, Key::Space), vec![0]);
    h.key_up(&mut p, Key::Alt);
    assert!(h.key_down(&mut p, Key::Space).is_empty());
    assert_eq!(h.key_down(&mut p, Key::Escape), vec![1]);
    h.key_up(&mut p, Key::Escape);
    h.key_up(&mut p, Key::Space);
    assert!(!p.contains(Key::Space));
    assert!(!p.contains(Key::Escape));
}

#[test]
fn binding_keys_are_kept() {
    let mut h = KeyboardHandler::new();
    h.bind(vec![Key::Space, Key::Alt]);
    let p = pressed(&[Key::Space]);
    assert!(!h.binding_held(0, &p));
}

#[test]
fn polling_pauses_after_a_fire() {

    let mut h = KeyboardHandler::new();
    h.bind(vec![Key::Space, Key::Alt]);
    assert_eq!(h.poll_step(0, &pressed(&[Key::Space, Key::Alt])), PollStep { fire: true, pause_ms: FIRE_PAUSE_MS });
    assert_eq!(h.poll_step(0, &pressed(&[Key::Space])), PollStep { fire: false, pause_ms: 0 });
    assert_eq!(FIRE_PAUSE_MS, 300);
    assert_eq!(POLL_INTERVAL_MS, 100);
}
