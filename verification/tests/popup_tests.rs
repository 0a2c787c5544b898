use plutonium_engine::app::{Key, NamedKey};
use plutonium_engine::popup::{
    estimated_message_line_count, is_escape_pressed, popup_font_key, sanitize_config, PopupAction,
    PopupActionStyle, PopupConfig, PopupDismissReason, PopupEvent, PopupPointer,
    PopupRuntimeState, PopupSize,
};
use uuid::Uuid;

fn base_config() -> PopupConfig {
    PopupConfig {
        id: "p1".to_string(),
        title: "Title".to_string(),
        message: "Message".to_string(),
        actions: vec![
            PopupAction {
                id: "ok".to_string(),
                label: "OK".to_string(),
                style: PopupActionStyle::Primary,
            },
            PopupAction {
                id: "cancel".to_string(),
                label: "Cancel".to_string(),
                style: PopupActionStyle::Secondary,
            },
        ],
        size: PopupSize::Medium,
        dismiss_on_escape: true,
        dismiss_on_backdrop_click: true,
        auto_dismiss_ms: None,
        consume_opening_click: false,
        click_anywhere_action_id: None,
        block_input_behind_popup: true,
    }
}

/// No pointer this frame.
fn no_pointer() -> PopupPointer {
    PopupPointer {
        lmb_down: false,
        hovered_action: None,
        in_viewport: false,
        in_panel: false,
    }
}

/// The pointer on the backdrop, near the window's top-left corner.
fn backdrop(down: bool) -> PopupPointer {
    PopupPointer {
        lmb_down: down,
        hovered_action: None,
        in_viewport: true,
        in_panel: false,
    }
}

/// The pointer on the first action button.
fn first_button(down: bool) -> PopupPointer {
    PopupPointer {
        lmb_down: down,
        hovered_action: Some(0),
        in_viewport: true,
        in_panel: true,
    }
}

/// The pointer inside the panel, off the buttons.
fn panel(down: bool) -> PopupPointer {
    PopupPointer {
        lmb_down: down,
        hovered_action: None,
        in_viewport: true,
        in_panel: true,
    }
}

#[test]
fn replacing_popup_emits_replaced_event() {
    let mut state = PopupRuntimeState::new();
    state.show_popup(base_config());
    assert_eq!(
        state.drain_events(),
        vec![PopupEvent::Opened {
            popup_id: "p1".to_string()
        }]
    );
    let mut next = base_config();
    next.id = "p2".to_string();
    state.show_popup(next);

    let events = state.drain_events();
    assert_eq!(
        events,
        vec![
            PopupEvent::Dismissed {
                popup_id: "p1".to_string(),
                reason: PopupDismissReason::Replaced
            },
            PopupEvent::Opened {
                popup_id: "p2".to_string()
            }
        ]
    );
    assert!(state.is_open());
    assert_eq!(state.active().unwrap().config.id, "p2");
}

#[test]
fn close_popup_is_programmatic_and_id_scoped() {
    let mut state = PopupRuntimeState::new();
    state.show_popup(base_config());
    let _ = state.drain_events();
    assert!(!state.close_popup("wrong"));
    assert!(state.close_popup("p1"));
    assert!(!state.is_open());
    assert_eq!(
        state.drain_events(),
        vec![PopupEvent::Dismissed {
            popup_id: "p1".to_string(),
            reason: PopupDismissReason::Programmatic
        }]
    );
}

#[test]
fn action_click_emits_action_selected() {
    let mut state = PopupRuntimeState::new();
    state.show_popup(base_config());
    let _ = state.drain_events();
    state.update(first_button(false), &None, 16);
    state.update(first_button(true), &None, 16);

    assert!(!state.is_open());
    assert_eq!(
        state.drain_events(),
        vec![PopupEvent::ActionSelected {
            popup_id: "p1".to_string(),
            action_id: "ok".to_string()
        }]
    );
}

#[test]
fn escape_dismiss_respects_flag() {
    let mut state = PopupRuntimeState::new();
    let mut cfg = base_config();
    cfg.dismiss_on_escape = false;
    state.show_popup(cfg);
    let _ = state.drain_events();
    state.update(no_pointer(), &Some(Key::Named(NamedKey::Escape)), 16);
    assert!(state.is_open());
    assert!(state.drain_events().is_empty());

    let mut cfg2 = base_config();
    cfg2.id = "p2".to_string();
    cfg2.dismiss_on_escape = true;
    state.show_popup(cfg2);
    let _ = state.drain_events();
    state.update(no_pointer(), &Some(Key::Named(NamedKey::Escape)), 16);
    assert_eq!(
        state.drain_events(),
        vec![PopupEvent::Dismissed {
            popup_id: "p2".to_string(),
            reason: PopupDismissReason::Escape
        }]
    );
}

#[test]
fn backdrop_click_dismiss_respects_flag() {
    let mut state = PopupRuntimeState::new();
    let mut cfg = base_config();
    cfg.dismiss_on_backdrop_click = false;
    state.show_popup(cfg);
    let _ = state.drain_events();
    state.update(backdrop(true), &None, 16);
    assert!(state.is_open());
    assert!(state.drain_events().is_empty());

    let mut cfg2 = base_config();
    cfg2.id = "p2".to_string();
    cfg2.dismiss_on_backdrop_click = true;
    state.show_popup(cfg2);
    let _ = state.drain_events();
    state.update(backdrop(false), &None, 16);
    state.update(backdrop(true), &None, 16);
    assert_eq!(
        state.drain_events(),
        vec![PopupEvent::Dismissed {
            popup_id: "p2".to_string(),
            reason: PopupDismissReason::BackdropClick
        }]
    );
}

#[test]
fn auto_dismiss_fires_when_timeout_reached() {
    let mut state = PopupRuntimeState::new();
    let mut cfg = base_config();
    cfg.auto_dismiss_ms = Some(20);
    state.show_popup(cfg);
    let _ = state.drain_events();
    state.update(no_pointer(), &None, 10);
    assert!(state.is_open());
    state.update(no_pointer(), &None, 11);
    assert!(!state.is_open());
    assert_eq!(
        state.drain_events(),
        vec![PopupEvent::AutoDismissed {
            popup_id: "p1".to_string()
        }]
    );
}

#[test]
fn actions_are_sanitized_to_v1_limit() {
    let mut state = PopupRuntimeState::new();
    let mut cfg = base_config();
    cfg.actions.push(PopupAction {
        id: "extra".to_string(),
        label: "Extra".to_string(),
        style: PopupActionStyle::Danger,
    });
    state.show_popup(cfg);
    let _ = state.drain_events();
    assert_eq!(state.active().unwrap().config.actions.len(), 2);

    let mut cfg2 = base_config();
    cfg2.id = "p2".to_string();
    cfg2.actions.clear();
    state.show_popup(cfg2);
    let _ = state.drain_events();
    assert_eq!(state.active().unwrap().config.actions.len(), 1);
    assert_eq!(state.active().unwrap().config.actions[0].id, "ok");
}

#[test]
fn opening_frame_click_cannot_dismiss_popup() {
    let mut state = PopupRuntimeState::new();
    let mut cfg = base_config();
    cfg.dismiss_on_backdrop_click = true;
    state.show_popup(cfg);
    let _ = state.drain_events();

    state.update(backdrop(true), &None, 16);

    assert!(state.is_open());
    assert!(state.drain_events().is_empty());
}

#[test]
fn consume_opening_click_waits_for_release_before_click_actions() {
    let mut state = PopupRuntimeState::new();
    let mut cfg = base_config();
    cfg.consume_opening_click = true;
    state.show_popup(cfg);
    let _ = state.drain_events();

    state.update(backdrop(true), &None, 16);
    assert!(state.is_open());

    state.update(backdrop(false), &None, 16);
    assert!(state.is_open());

    state.update(backdrop(true), &None, 16);
    assert_eq!(
        state.drain_events(),
        vec![PopupEvent::Dismissed {
            popup_id: "p1".to_string(),
            reason: PopupDismissReason::BackdropClick
        }]
    );
}

#[test]
fn click_anywhere_action_fires_on_backdrop_and_panel() {
    let mut state = PopupRuntimeState::new();
    let mut cfg = base_config();
    cfg.click_anywhere_action_id = Some("ok".to_string());
    state.show_popup(cfg.clone());
    let _ = state.drain_events();
    state.update(backdrop(false), &None, 16);
    state.update(backdrop(true), &None, 16);
    assert_eq!(
        state.drain_events(),
        vec![PopupEvent::ActionSelected {
            popup_id: "p1".to_string(),
            action_id: "ok".to_string()
        }]
    );

    cfg.id = "p2".to_string();
    state.show_popup(cfg);
    let _ = state.drain_events();
    state.update(panel(false), &None, 16);
    state.update(panel(true), &None, 16);
    assert_eq!(
        state.drain_events(),
        vec![PopupEvent::ActionSelected {
            popup_id: "p2".to_string(),
            action_id: "ok".to_string()
        }]
    );
}

#[test]
fn popup_can_disable_background_input_blocking() {
    let mut state = PopupRuntimeState::new();
    let mut cfg = base_config();
    cfg.block_input_behind_popup = false;
    state.show_popup(cfg);
    assert!(!state.blocks_input_behind_popup());
}

#[test]
fn custom_popup_replacement_enqueues_object_cleanup() {
    let mut state = PopupRuntimeState::new();
    state.show_popup_with_objects(base_config(), vec![Uuid::nil()]);
    let _ = state.drain_events();
    let mut next = base_config();
    next.id = "p2".to_string();
    state.show_popup(next);

    assert_eq!(state.drain_popup_object_cleanup(), vec![Uuid::nil()]);
}

#[test]
fn closing_custom_popup_enqueues_its_objects() {
    let mut state = PopupRuntimeState::new();
    let a = Uuid::from_u128(7);
    let b = Uuid::from_u128(9);
    state.show_popup_with_objects(base_config(), vec![a, b]);
    assert!(state.active().unwrap().has_custom_panel);
    assert!(state.close_popup("p1"));
    assert_eq!(state.drain_popup_object_cleanup(), vec![a, b]);
    assert!(state.drain_popup_object_cleanup().is_empty());
}

#[test]
fn blocking_popup_withholds_input_for_its_closing_frame() {
    let mut state = PopupRuntimeState::new();
    assert!(!state.update_for_frame(backdrop(false), &None, 16));
    state.show_popup(base_config());
    assert!(state.update_for_frame(backdrop(false), &None, 16));
    assert!(state.update_for_frame(no_pointer(), &Some(Key::Named(NamedKey::Escape)), 16));
    assert!(!state.is_open());
    assert!(!state.update_for_frame(backdrop(false), &None, 16));
}

#[test]
fn non_blocking_popup_passes_input_through() {
    let mut state = PopupRuntimeState::new();
    let mut cfg = base_config();
    cfg.block_input_behind_popup = false;
    state.show_popup(cfg);
    assert!(!state.update_for_frame(backdrop(false), &None, 16));
}

#[test]
fn hovered_action_is_tracked_and_pressed_only_while_held() {
    let mut state = PopupRuntimeState::new();
    state.show_popup(base_config());
    state.update(first_button(false), &None, 16);
    let active = state.active().unwrap();
    assert_eq!(active.hovered_action, Some(0));
    assert_eq!(active.pressed_action, None);
}

#[test]
fn zero_timeout_closes_on_first_frame() {
    let mut state = PopupRuntimeState::new();
    let mut cfg = base_config();
    cfg.auto_dismiss_ms = Some(0);
    state.show_popup(cfg);
    let _ = state.drain_events();
    state.update(no_pointer(), &None, 0);
    assert!(!state.is_open());
    assert_eq!(
        state.drain_events(),
        vec![PopupEvent::AutoDismissed {
            popup_id: "p1".to_string()
        }]
    );
}

#[test]
fn update_without_popup_reports_nothing() {
    let mut state = PopupRuntimeState::new();
    state.update(backdrop(true), &Some(Key::Named(NamedKey::Escape)), 16);
    assert!(!state.is_open());
    assert!(state.drain_events().is_empty());
    assert!(state.drain_popup_object_cleanup().is_empty());
}

#[test]
fn sanitize_keeps_first_two_actions_or_adds_ok() {
    let mut cfg = base_config();
    cfg.actions.push(PopupAction {
        id: "extra".to_string(),
        label: "Extra".to_string(),
        style: PopupActionStyle::Danger,
    });
    let s = sanitize_config(cfg);
    assert_eq!(s.actions.len(), 2);
    assert_eq!(s.actions[0].id, "ok");
    assert_eq!(s.actions[1].id, "cancel");

    let mut empty = base_config();
    empty.actions.clear();
    let s2 = sanitize_config(empty);
    assert_eq!(s2.actions.len(), 1);
    assert_eq!(s2.actions[0].id, "ok");
    assert_eq!(s2.actions[0].label, "OK");
    assert_eq!(s2.actions[0].style, PopupActionStyle::Primary);
}

#[test]
fn escape_detection_only_matches_escape() {
    assert!(is_escape_pressed(&Some(Key::Named(NamedKey::Escape))));
    assert!(!is_escape_pressed(&Some(Key::Named(NamedKey::Enter))));
    assert!(!is_escape_pressed(&Some(Key::Character("\u{1b}".to_string()))));
    assert!(!is_escape_pressed(&None));
}

#[test]
fn message_line_estimate_counts_wrapped_rows() {
    assert_eq!(estimated_message_line_count("", 20), 1);
    assert_eq!(estimated_message_line_count("Message", 20), 1);
    assert_eq!(estimated_message_line_count("a\nb\nc", 20), 3);
    assert_eq!(estimated_message_line_count(&"x".repeat(40), 16), 3);
    assert_eq!(estimated_message_line_count(&"x".repeat(40), 4), 3);
    assert_eq!(estimated_message_line_count(&"y\n".repeat(30), 16), 12);
}

fn wrap_message_with_width(text: &str, width: usize) -> String {
    let mut w = plutonium_engine::popup_wrap::MessageWrap::new(text);
    while let Some(q) = w.question() {
        let fits = q.chars().count() <= width;
        w.answer(fits);
    }
    w.finish()
}

#[test]
fn message_wrap_breaks_between_words() {
    assert_eq!(wrap_message_with_width("hello world", 5), "hello\nworld");
    assert_eq!(wrap_message_with_width("hello world", 11), "hello world");
}

#[test]
fn message_wrap_splits_long_words_into_fitting_pieces() {
    assert_eq!(wrap_message_with_width("abcdefghij", 4), "abcd\nefgh\nij");
    assert_eq!(wrap_message_with_width("a bcdef", 3), "a\nbcd\nef");
    assert_eq!(wrap_message_with_width("ab", 0), "a\nb");
}

#[test]
fn message_wrap_keeps_blank_lines() {
    assert_eq!(wrap_message_with_width("", 10), "");
    assert_eq!(wrap_message_with_width("  \nx", 10), "\nx");
    assert_eq!(wrap_message_with_width("a\n\nb\n", 10), "a\n\nb\n");
}

#[test]
fn message_wrap_questions_follow_the_prefix_search() {
    let mut w = plutonium_engine::popup_wrap::MessageWrap::new("abc");
    assert_eq!(w.question().as_deref(), Some("abc"));
    w.answer(false);
    assert_eq!(w.question().as_deref(), Some("a"));
    w.answer(true);
    assert_eq!(w.question().as_deref(), Some("ab"));
    w.answer(false);
    assert_eq!(w.question().as_deref(), Some("bc"));
    w.answer(true);
    assert_eq!(w.question(), None);
    assert_eq!(w.finish(), "a\nbc");
}

#[test]
fn popup_font_prefers_roboto_then_default_then_first_key() {
    let keys = |ks: &[&str]| ks.iter().map(|k| k.to_string()).collect::<Vec<String>>();
    assert_eq!(popup_font_key(&keys(&["zed", "default", "roboto"])), Some("roboto".to_string()));
    assert_eq!(popup_font_key(&keys(&["zed", "default", "abc"])), Some("default".to_string()));
    assert_eq!(popup_font_key(&keys(&["zed", "mono", "Mono", "mon"])), Some("Mono".to_string()));
    assert_eq!(popup_font_key(&keys(&["é", "z"])), Some("z".to_string()));
    assert_eq!(popup_font_key(&keys(&[])), None);
}
