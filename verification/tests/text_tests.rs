use plutonium_engine::app::{Key, NamedKey};
use plutonium_engine::pluto_objects::text2d::{char_len_utf8, Text2DInternal};
use plutonium_engine::pluto_objects::text_input::TextInputInternal;

fn ch(s: &str) -> Key {
    Key::Character(s.to_string())
}

fn named(n: NamedKey) -> Key {
    Key::Named(n)
}

fn input(content: &str) -> TextInputInternal {
    TextInputInternal::new(Text2DInternal::new(content))
}

#[test]
fn char_lengths_follow_utf8() {
    assert_eq!(char_len_utf8('a'), 1);
    assert_eq!(char_len_utf8('é'), 2);
    assert_eq!(char_len_utf8('€'), 3);
    assert_eq!(char_len_utf8('😀'), 4);
}

#[test]
fn text2d_insert_at_byte_index() {
    let mut t = Text2DInternal::new("héllo");
    t.insert_at(3, "X");
    assert_eq!(t.get_content(), "héXllo");
    t.insert_at(0, "¡");
    assert_eq!(t.get_content(), "¡héXllo");
    t.insert_at(t.content_len(), "!");
    assert_eq!(t.get_content(), "¡héXllo!");
}

#[test]
fn text2d_insert_off_boundary_is_ignored() {
    let mut t = Text2DInternal::new("héllo");
    t.insert_at(2, "X");
    assert_eq!(t.get_content(), "héllo");
    t.insert_at(99, "X");
    assert_eq!(t.get_content(), "héllo");
}

#[test]
fn text2d_remove_at_byte_index() {
    let mut t = Text2DInternal::new("héllo");
    assert!(t.remove_at(1));
    assert_eq!(t.get_content(), "hllo");
    assert!(!t.remove_at(4));
    assert!(!t.remove_at(40));
    assert_eq!(t.get_content(), "hllo");
}

#[test]
fn text2d_remove_undoes_insert() {
    let mut t = Text2DInternal::new("a€b");
    t.insert_at(4, "ü");
    assert_eq!(t.get_content(), "a€üb");
    assert!(t.remove_at(4));
    assert_eq!(t.get_content(), "a€b");
}

#[test]
fn text2d_append_pop_and_lengths() {
    let mut t = Text2DInternal::new("ab");
    t.append_content("€");
    assert_eq!(t.get_content(), "ab€");
    assert_eq!(t.content_len(), 5);
    assert!(t.pop_content());
    assert_eq!(t.get_content(), "ab");
    t.set_content("");
    assert!(!t.pop_content());
    assert_eq!(t.content_len(), 0);
}

#[test]
fn new_input_puts_cursor_at_end_unfocused() {
    let ti = input("héllo");
    assert_eq!(ti.cursor_index(), 6);
    assert_eq!(ti.current_line(), 0);
    assert!(!ti.is_focused());
}

#[test]
fn typing_inserts_at_cursor() {
    let mut ti = input("ac");
    assert!(ti.handle_key_press(&named(NamedKey::ArrowLeft)));
    assert!(ti.handle_key_press(&ch("b")));
    assert_eq!(ti.get_content(), "abc");
    assert_eq!(ti.cursor_index(), 2);
    assert!(!ti.handle_key_press(&ch("")));
    assert_eq!(ti.get_content(), "abc");
}

#[test]
fn backspace_removes_previous_char() {
    let mut ti = input("añ");
    assert!(ti.handle_key_press(&named(NamedKey::Backspace)));
    assert_eq!(ti.get_content(), "a");
    assert_eq!(ti.cursor_index(), 1);
    assert!(ti.handle_key_press(&named(NamedKey::Backspace)));
    assert!(!ti.handle_key_press(&named(NamedKey::Backspace)));
    assert_eq!(ti.get_content(), "");
    assert_eq!(ti.cursor_index(), 0);
}

#[test]
fn backspace_undoes_typing() {
    let mut ti = input("x€y");
    ti.handle_key_press(&named(NamedKey::ArrowLeft));
    ti.handle_key_press(&ch("ß"));
    assert_eq!(ti.get_content(), "x€ßy");
    ti.handle_key_press(&named(NamedKey::Backspace));
    assert_eq!(ti.get_content(), "x€y");
    assert_eq!(ti.cursor_index(), 4);
}

#[test]
fn space_and_enter_insert_and_track_line() {
    let mut ti = input("a");
    assert!(ti.handle_key_press(&named(NamedKey::Space)));
    assert!(ti.handle_key_press(&named(NamedKey::Enter)));
    assert!(ti.handle_key_press(&ch("b")));
    assert_eq!(ti.get_content(), "a \nb");
    assert_eq!(ti.current_line(), 1);
    assert_eq!(ti.cursor_index(), 4);
}

#[test]
fn arrows_move_over_whole_chars() {
    let mut ti = input("a€");
    assert!(ti.handle_key_press(&named(NamedKey::ArrowLeft)));
    assert_eq!(ti.cursor_index(), 1);
    assert!(ti.handle_key_press(&named(NamedKey::ArrowLeft)));
    assert_eq!(ti.cursor_index(), 0);
    assert!(!ti.handle_key_press(&named(NamedKey::ArrowLeft)));
    assert!(ti.handle_key_press(&named(NamedKey::ArrowRight)));
    assert!(ti.handle_key_press(&named(NamedKey::ArrowRight)));
    assert_eq!(ti.cursor_index(), 4);
    assert!(!ti.handle_key_press(&named(NamedKey::ArrowRight)));
}

#[test]
fn up_and_down_keep_column_clamped_to_line() {
    let mut ti = input("");
    ti.set_content("abcd\nxy\nlong line");
    assert_eq!(ti.current_line(), 2);
    assert_eq!(ti.cursor_index(), 17);
    assert!(ti.handle_key_press(&named(NamedKey::ArrowUp)));
    assert_eq!(ti.current_line(), 1);
    assert_eq!(ti.cursor_index(), 7);
    assert!(ti.handle_key_press(&named(NamedKey::ArrowUp)));
    assert_eq!(ti.current_line(), 0);
    assert_eq!(ti.cursor_index(), 2);
    assert!(!ti.handle_key_press(&named(NamedKey::ArrowUp)));
    assert!(ti.handle_key_press(&named(NamedKey::ArrowDown)));
    assert_eq!(ti.current_line(), 1);
    assert_eq!(ti.cursor_index(), 7);
    assert!(ti.handle_key_press(&named(NamedKey::ArrowDown)));
    assert_eq!(ti.current_line(), 2);
    assert_eq!(ti.cursor_index(), 10);
    assert!(!ti.handle_key_press(&named(NamedKey::ArrowDown)));
}

#[test]
fn escape_drops_focus_without_moving() {
    let mut ti = input("abc");
    ti.set_focus(true);
    assert!(ti.is_focused());
    assert!(!ti.handle_key_press(&named(NamedKey::Escape)));
    assert!(!ti.is_focused());
    assert_eq!(ti.cursor_index(), 3);
}

#[test]
fn other_keys_do_nothing() {
    let mut ti = input("abc");
    assert!(!ti.handle_key_press(&Key::OtherNamed("Tab".to_string())));
    assert!(!ti.handle_key_press(&Key::Unidentified));
    assert_eq!(ti.get_content(), "abc");
    assert_eq!(ti.cursor_index(), 3);
}

#[test]
fn mouse_click_focuses_and_places_cursor() {
    let mut ti = input("héllo");
    ti.handle_mouse(true, true, 2, 0);
    assert!(ti.is_focused());
    assert_eq!(ti.cursor_index(), 1);
    ti.handle_mouse(true, false, 0, 0);
    assert!(!ti.is_focused());
}

#[test]
fn clear_resets_cursor() {
    let mut ti = input("a\nb");
    ti.clear();
    assert_eq!(ti.get_content(), "");
    assert_eq!(ti.cursor_index(), 0);
    assert_eq!(ti.current_line(), 0);
}

fn wrap_with_width(text: &str, width: usize) -> String {
    let mut w = plutonium_engine::pluto_objects::wrap::WordWrap::new(text);
    while let Some(line) = w.candidate() {
        let fits = line.chars().count() <= width;
        w.advance(fits);
    }
    w.finish()
}

#[test]
fn wrap_breaks_between_words() {
    assert_eq!(
        wrap_with_width("the quick brown fox\njumps  over\n\nthe lazy dog", 10),
        "the quick\nbrown fox\njumps over\n\nthe lazy\ndog"
    );
}

#[test]
fn wrap_keeps_oversized_words_on_their_own_line() {
    assert_eq!(wrap_with_width("supercalifragilistic a", 5), "supercalifragilistic\na");
    assert_eq!(wrap_with_width("ab supercalifragilistic", 5), "ab\nsupercalifragilistic");
}

#[test]
fn wrap_edge_cases() {
    assert_eq!(wrap_with_width("", 5), "");
    assert_eq!(wrap_with_width("a\n", 5), "a\n");
    assert_eq!(wrap_with_width("   \n\t x ", 5), "\nx");
    assert_eq!(wrap_with_width("a b c", 100), "a b c");
    assert_eq!(wrap_with_width("a\u{3000}b", 1), "a\nb");
}

#[test]
fn wrap_candidate_joins_with_one_space() {
    let mut w = plutonium_engine::pluto_objects::wrap::WordWrap::new("x  y");
    assert_eq!(w.candidate().as_deref(), Some("x"));
    w.advance(true);
    assert_eq!(w.candidate().as_deref(), Some("x y"));
    w.advance(true);
    assert_eq!(w.candidate(), None);
    w.advance(false);
    assert_eq!(w.finish(), "x y");
}
