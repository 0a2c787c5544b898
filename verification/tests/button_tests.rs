use plutonium_engine::pluto_objects::button::{ButtonEvents, ButtonState};

fn events(focused: bool, unfocused: bool, clicked: bool) -> ButtonEvents {
    ButtonEvents {
        focused,
        unfocused,
        clicked,
    }
}

#[test]
fn focus_follows_pointer_and_click_needs_pointer_on_button() {
    let mut b = ButtonState::new();
    assert!(!b.is_focused);
    assert_eq!(b.update(Some((true, false))), events(true, false, false));
    assert!(b.is_focused);
    assert_eq!(b.update(Some((true, true))), events(false, false, true));
    assert_eq!(b.update(Some((false, true))), events(false, true, false));
    assert!(!b.is_focused);
    assert_eq!(b.update(Some((false, false))), events(false, false, false));
}

#[test]
fn no_mouse_changes_nothing() {
    let mut b = ButtonState::new();
    b.update(Some((true, false)));
    assert_eq!(b.update(None), events(false, false, false));
    assert!(b.is_focused);
}
