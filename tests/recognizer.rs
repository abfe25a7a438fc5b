use ferrite_edit::keys::Key;
use ferrite_edit::shortcuts::{Action, Modifiers, ShortcutManager};

fn no_mods() -> Modifiers {
    Modifiers { shift: false, control: false, alt: false, logo: false }
}

fn editor_bindings() -> ShortcutManager {
    let mut m = ShortcutManager::new();
    m.register(vec![Key::LControl, Key::O], Action::ReqFile);
    m.register(vec![Key::LControl, Key::S], Action::SaveFile);
    m
}

fn press(m: &mut ShortcutManager, keys: &[Key]) -> Vec<Option<Action>> {
    keys.iter().map(|k| m.receive(*k, no_mods())).collect()
}

#[test]
fn ctrl_o_then_enter_dispatches_open_file() {
    let mut m = editor_bindings();
    let out = press(&mut m, &[Key::LControl, Key::O]);
    assert_eq!(out, vec![None, None]);
    assert_eq!(m.current_keys_str(), "LControl-O");
    assert_eq!(m.receive(Key::Enter, no_mods()), Some(Action::ReqFile));
    assert_eq!(m.current_keys_str(), "empty");
    assert!(!m.accept);
}

#[test]
fn ctrl_x_then_enter_dispatches_nothing_and_resets() {
    let mut m = editor_bindings();
    press(&mut m, &[Key::LControl, Key::X]);
    assert_eq!(m.current_keys_str(), "LControl-X");
    assert_eq!(m.receive(Key::Enter, no_mods()), None);
    assert_eq!(m.current_keys_str(), "empty");
    assert!(!m.accept);
}

#[test]
fn register_then_replay_dispatches_action() {
    let mut m = ShortcutManager::new();
    m.register(vec![Key::RControl, Key::F, Key::G], Action::ReqFolder);
    press(&mut m, &[Key::RControl, Key::F, Key::G]);
    assert_eq!(m.receive(Key::Enter, no_mods()), Some(Action::ReqFolder));
    assert_eq!(m.current_keys_str(), "empty");
}

#[test]
fn escape_before_enter_cancels() {
    let mut m = editor_bindings();
    press(&mut m, &[Key::LControl, Key::S]);
    assert_eq!(m.receive(Key::Escape, no_mods()), None);
    assert_eq!(m.current_keys_str(), "empty");
    assert!(!m.accept);
    assert_eq!(m.receive(Key::Enter, no_mods()), None);
}

#[test]
fn seventh_key_starts_the_buffer_over() {
    let mut m = ShortcutManager::new();
    press(&mut m, &[Key::LControl, Key::A, Key::B, Key::C, Key::D, Key::E]);
    assert_eq!(m.current_keys_str(), "LControl-A-B-C-D-E");
    m.receive(Key::F, no_mods());
    assert_eq!(m.current_keys_str(), "F");
    assert!(m.accept);
    m.receive(Key::G, no_mods());
    assert_eq!(m.current_keys_str(), "F-G");
}

#[test]
fn overflow_can_still_match_a_binding() {
    let mut m = ShortcutManager::new();
    m.register(vec![Key::S], Action::SaveFile);
    press(&mut m, &[Key::LControl, Key::A, Key::B, Key::C, Key::D, Key::E, Key::S]);
    assert_eq!(m.receive(Key::Enter, no_mods()), Some(Action::SaveFile));
}

#[test]
fn unregister_then_replay_dispatches_nothing() {
    let mut m = editor_bindings();
    assert_eq!(m.unregister(vec![Key::LControl, Key::O]), Some(Action::ReqFile));
    press(&mut m, &[Key::LControl, Key::O]);
    assert_eq!(m.receive(Key::Enter, no_mods()), None);
    press(&mut m, &[Key::LControl, Key::S]);
    assert_eq!(m.receive(Key::Enter, no_mods()), Some(Action::SaveFile));
}

#[test]
fn unregister_unknown_returns_none() {
    let mut m = editor_bindings();
    assert_eq!(m.unregister(vec![Key::LControl, Key::Q]), None);
    assert_eq!(m.unregister(vec![]), None);
}

#[test]
fn register_overwrites_earlier_binding() {
    let mut m = editor_bindings();
    m.register(vec![Key::LControl, Key::O], Action::ReqFolder);
    press(&mut m, &[Key::LControl, Key::O]);
    assert_eq!(m.receive(Key::Enter, no_mods()), Some(Action::ReqFolder));
    assert_eq!(m.unregister(vec![Key::LControl, Key::O]), Some(Action::ReqFolder));
    assert_eq!(m.unregister(vec![Key::LControl, Key::O]), None);
}

#[test]
fn keys_outside_capture_are_ignored() {
    let mut m = editor_bindings();
    press(&mut m, &[Key::A, Key::O]);
    assert_eq!(m.current_keys_str(), "empty");
    assert!(!m.accept);
    assert!(!m.is_accepting(Key::A));
    assert!(m.is_accepting(Key::LControl));
    assert!(m.is_accepting(Key::RControl));
}

#[test]
fn colon_opens_capture_without_buffering() {
    let mut m = ShortcutManager::new();
    m.register(vec![Key::W, Key::Q], Action::SaveFile);
    assert_eq!(m.receive(Key::Colon, no_mods()), None);
    assert!(m.accept);
    assert_eq!(m.current_keys_str(), "empty");
    assert!(m.is_accepting(Key::W));
    press(&mut m, &[Key::W, Key::Q]);
    assert_eq!(m.current_keys_str(), "W-Q");
    assert_eq!(m.receive(Key::Enter, no_mods()), Some(Action::SaveFile));
}

#[test]
fn pending_action_clears_when_buffer_moves_on() {
    let mut m = editor_bindings();
    press(&mut m, &[Key::LControl, Key::O, Key::P]);
    assert_eq!(m.receive(Key::Enter, no_mods()), None);
}

#[test]
fn reset_returns_to_idle() {
    let mut m = editor_bindings();
    press(&mut m, &[Key::LControl, Key::O]);
    m.reset();
    assert_eq!(m.current_keys_str(), "empty");
    assert!(!m.accept);
    assert_eq!(m.receive(Key::Enter, no_mods()), None);
}

#[test]
fn key_names() {
    assert_eq!(Key::Key7.name(), "Key7");
    assert_eq!(Key::Escape.name(), "Escape");
    assert_eq!(Key::Z.name(), "Z");
}
