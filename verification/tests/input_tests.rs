use plutonium_engine::app::{
    hotkey_action, str_eq_ignore_ascii_case, HotkeyAction, Key, Keys, NamedKey, WasmAppConfig,
    WindowConfig,
};
use plutonium_engine::input::{ActionMap, ButtonSource, FrameButtons};
use plutonium_engine::app::HeldKeys;

fn frame(keys: &[&str], lmb: bool, rmb: bool, mmb: bool) -> FrameButtons {
    FrameButtons {
        pressed_keys: keys.iter().map(|k| k.to_string()).collect(),
        is_lmb_clicked: lmb,
        is_rmb_clicked: rmb,
        is_mmb_clicked: mmb,
    }
}

#[test]
fn unbound_map_resolves_nothing() {
    let map = ActionMap::new();
    assert!(map.resolve_buttons(&frame(&["Space"], true, true, true)).is_empty());
}

#[test]
fn key_and_mouse_bindings_fire() {
    let mut map = ActionMap::new();
    map.bind_button("jump".to_string(), ButtonSource::Key("Space".to_string()));
    map.bind_button("fire".to_string(), ButtonSource::MouseLeft);
    map.bind_button("aim".to_string(), ButtonSource::MouseRight);
    map.bind_button("menu".to_string(), ButtonSource::MouseMiddle);

    assert_eq!(
        map.resolve_buttons(&frame(&["Space"], true, false, false)),
        vec!["jump".to_string(), "fire".to_string()]
    );
    assert_eq!(
        map.resolve_buttons(&frame(&[], false, true, true)),
        vec!["aim".to_string(), "menu".to_string()]
    );
    assert!(map.resolve_buttons(&frame(&["Enter"], false, false, false)).is_empty());
}

#[test]
fn any_binding_of_an_action_fires_it_once() {
    let mut map = ActionMap::new();
    map.bind_button("jump".to_string(), ButtonSource::Key("Space".to_string()));
    map.bind_button("jump".to_string(), ButtonSource::Key("W".to_string()));
    map.bind_button("jump".to_string(), ButtonSource::MouseLeft);
    assert_eq!(
        map.resolve_buttons(&frame(&["W", "Space"], true, false, false)),
        vec!["jump".to_string()]
    );
    assert_eq!(
        map.resolve_buttons(&frame(&["W"], false, false, false)),
        vec!["jump".to_string()]
    );
}

#[test]
fn gamepad_buttons_never_fire() {
    let mut map = ActionMap::new();
    map.bind_button("start".to_string(), ButtonSource::GamepadButton("Start".to_string()));
    assert!(map.resolve_buttons(&frame(&["Start"], true, true, true)).is_empty());
}

#[test]
fn key_names_compare_exactly() {
    let mut map = ActionMap::new();
    map.bind_button("jump".to_string(), ButtonSource::Key("Space".to_string()));
    assert!(map.resolve_buttons(&frame(&["space"], false, false, false)).is_empty());
}

#[test]
fn ascii_case_insensitive_compare() {
    assert!(str_eq_ignore_ascii_case("Hello", "hELLO"));
    assert!(!str_eq_ignore_ascii_case("Hello", "Hell"));
    assert!(!str_eq_ignore_ascii_case("É", "é"));
    assert!(str_eq_ignore_ascii_case("", ""));
}

#[test]
fn key_queries() {
    let a = Key::Character("A".to_string());
    assert_eq!(a.character(), Some("A"));
    assert!(a.is_character_ignore_ascii_case("a"));
    assert!(!a.is_named("Enter"));
    let enter = Key::Named(NamedKey::Enter);
    assert_eq!(enter.character(), None);
    assert!(enter.is_named("Enter"));
    assert!(!enter.is_named("Escape"));
    let tab = Key::OtherNamed("Tab".to_string());
    assert!(tab.is_named("Tab"));
    assert!(!tab.is_named("F1"));
    assert!(!enter.is_character_ignore_ascii_case("enter"));
    assert_eq!(Key::Unidentified.character(), None);
}

#[test]
fn keys_collection() {
    let mut keys = Keys::new();
    assert!(keys.is_empty());
    keys.push(Key::Character("q".to_string()));
    keys.push(Key::Named(NamedKey::Escape));
    assert_eq!(keys.len(), 2);
    assert_eq!(keys.get(1), &Key::Named(NamedKey::Escape));
    assert!(keys.contains_character_ignore_ascii_case("Q"));
    assert!(!keys.contains_character_ignore_ascii_case("w"));
    assert!(keys.contains_named("Escape"));
    assert!(!keys.contains_named("Enter"));
    keys.clear();
    assert!(keys.is_empty());
    assert_eq!(keys.len(), 0);
}

#[test]
fn hotkeys() {
    let r = Key::Character("R".to_string());
    let p = Key::Character("p".to_string());
    let x = Key::Character("x".to_string());
    assert_eq!(hotkey_action(true, &x, false), HotkeyAction::ToggleFullscreen);
    assert_eq!(hotkey_action(true, &r, true), HotkeyAction::ToggleFullscreen);
    assert_eq!(hotkey_action(false, &r, false), HotkeyAction::StartRecording);
    assert_eq!(hotkey_action(false, &r, true), HotkeyAction::StopRecording);
    assert_eq!(hotkey_action(false, &p, true), HotkeyAction::StartReplay);
    assert_eq!(hotkey_action(false, &x, false), HotkeyAction::NoAction);
    assert_eq!(
        hotkey_action(false, &Key::Named(NamedKey::Enter), false),
        HotkeyAction::NoAction
    );
    assert_eq!(
        hotkey_action(false, &Key::Character("rr".to_string()), false),
        HotkeyAction::NoAction
    );
}

#[test]
fn window_and_wasm_defaults() {
    let w = WindowConfig::default();
    assert_eq!(w.title, "Plutonium Engine");
    assert_eq!(w.width, 800);
    assert_eq!(w.height, 600);
    let c = WasmAppConfig::default();
    assert!(c.prevent_default);
    assert!(c.focusable);
}

#[test]
fn held_keys_track_press_and_release() {
    let mut held = HeldKeys::new();
    let a_name = "Character(\"a\")".to_string();
    let enter_name = "Named(Enter)".to_string();
    assert!(!held.is_key_down(&a_name));
    held.press(a_name.clone(), Key::Character("a".to_string()));
    held.press(enter_name.clone(), Key::Named(NamedKey::Enter));
    assert!(held.is_key_down(&a_name));
    assert!(held.is_char_key_down('A'));
    assert!(held.is_char_key_down('a'));
    assert!(!held.is_char_key_down('b'));
    assert!(held.is_named_key_down("Enter"));
    assert!(!held.is_named_key_down("Escape"));
    held.press("Named(Tab)".to_string(), Key::OtherNamed("Tab".to_string()));
    assert!(held.is_named_key_down("Tab"));
    assert!(!held.is_named_key_down("F1"));

    held.release(&a_name);
    assert!(!held.is_key_down(&a_name));
    assert!(!held.is_char_key_down('a'));
    assert!(held.is_key_down(&enter_name));

    held.press(a_name.clone(), Key::Character("a".to_string()));
    assert!(held.is_key_down(&a_name));
    held.release(&"Named(Escape)".to_string());
    assert!(held.is_key_down(&a_name));
}

#[test]
fn replay_cursor_walks_the_recording_then_finishes() {
    let mut c = plutonium_engine::app::ReplayCursor::new(2);
    assert_eq!(c.next_frame(), plutonium_engine::app::ReplayStep::Frame(0));
    assert_eq!(c.next_frame(), plutonium_engine::app::ReplayStep::Frame(1));
    assert_eq!(c.next_frame(), plutonium_engine::app::ReplayStep::Finished);
    assert_eq!(c.next_frame(), plutonium_engine::app::ReplayStep::Finished);
    let mut empty = plutonium_engine::app::ReplayCursor::new(0);
    assert_eq!(empty.next_frame(), plutonium_engine::app::ReplayStep::Finished);
}
