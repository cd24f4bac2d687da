//! Keys and clicks.

use bevy_kitty::input::{
    char_to_keycode, f_key, handle_event, map_key, Key, KeyCode, KeyKind, RawEvent, ReaderAction,
    TermEvent, TermKey,
};

#[test]
fn typed_characters_carry_their_text() {
    // Text entry reads the logical key and the text; losing them makes typing silently do
    // nothing.
    let m = map_key(TermKey::Char('q')).unwrap();
    assert_eq!(m.code, KeyCode::KeyQ);
    assert_eq!(m.text.as_deref(), Some("q"));
    assert!(matches!(m.logical, Key::Character(s) if s == "q"));
}

#[test]
fn uppercase_maps_to_the_same_physical_key_but_keeps_its_case() {
    let m = map_key(TermKey::Char('Q')).unwrap();
    assert_eq!(m.code, KeyCode::KeyQ, "physical key is layout-level");
    assert_eq!(
        m.text.as_deref(),
        Some("Q"),
        "but the text must stay uppercase"
    );
}

#[test]
fn control_keys_have_no_text() {
    // A control key with text would insert a stray character into a text field.
    for k in [
        TermKey::Enter,
        TermKey::Esc,
        TermKey::Backspace,
        TermKey::Tab,
        TermKey::Up,
    ] {
        let m = map_key(k).unwrap();
        assert!(m.text.is_none(), "{k:?} should carry no text");
    }
}

#[test]
fn unmapped_keys_are_dropped_rather_than_guessed() {
    assert!(map_key(TermKey::Other).is_none());
    assert!(map_key(TermKey::F(13)).is_none());
    assert!(map_key(TermKey::F(0)).is_none());
}

#[test]
fn punctuation_gets_a_real_keycode_not_space() {
    // Falling back to Space for punctuation would make '-' act as a jump key in a game
    // that binds Space.
    for c in ['-', '=', ',', '.', '/', ';', '[', ']', '\\', '`', '\''] {
        assert_ne!(
            char_to_keycode(c),
            KeyCode::Space,
            "{c:?} should not fall back to Space"
        );
    }
    // Something genuinely unmappable still falls back, deliberately.
    assert_eq!(char_to_keycode('\u{263A}'), KeyCode::Space);
}

#[test]
fn function_keys_map_in_order() {
    assert_eq!(f_key(1).unwrap().0, KeyCode::F1);
    assert_eq!(f_key(12).unwrap().0, KeyCode::F12);
    // Out of range must be None, not silently F12: `map_key` relies on this.
    assert!(f_key(0).is_none());
    assert!(f_key(13).is_none());
}

#[test]
fn every_key_on_the_board_has_its_code() {
    assert_eq!(char_to_keycode('a'), KeyCode::KeyA);
    assert_eq!(char_to_keycode('A'), KeyCode::KeyA);
    assert_eq!(char_to_keycode('z'), KeyCode::KeyZ);
    assert_eq!(char_to_keycode('Z'), KeyCode::KeyZ);
    assert_eq!(char_to_keycode('0'), KeyCode::Digit0);
    assert_eq!(char_to_keycode('9'), KeyCode::Digit9);
    assert_eq!(char_to_keycode('-'), KeyCode::Minus);
    assert_eq!(char_to_keycode(' '), KeyCode::Space);
    // Only ASCII has a case here.
    assert_eq!(char_to_keycode('\u{c4}'), KeyCode::Space);
    let mut codes = Vec::new();
    for c in "abcdefghijklmnopqrstuvwxyz0123456789 -=,./;'[]\\`".chars() {
        let code = char_to_keycode(c);
        assert!(!codes.contains(&code), "{c:?} shares its key");
        codes.push(code);
    }
}

#[test]
fn arrows_and_pages_keep_their_directions() {
    let code = |k| map_key(k).unwrap().code;
    assert_eq!(code(TermKey::Left), KeyCode::ArrowLeft);
    assert_eq!(code(TermKey::Right), KeyCode::ArrowRight);
    assert_eq!(code(TermKey::Up), KeyCode::ArrowUp);
    assert_eq!(code(TermKey::Down), KeyCode::ArrowDown);
    assert_eq!(code(TermKey::Home), KeyCode::Home);
    assert_eq!(code(TermKey::End), KeyCode::End);
    assert_eq!(code(TermKey::PageUp), KeyCode::PageUp);
    assert_eq!(code(TermKey::PageDown), KeyCode::PageDown);
    assert_eq!(code(TermKey::Delete), KeyCode::Delete);
    assert_eq!(code(TermKey::F(7)), KeyCode::F7);
}

fn key(key: TermKey, control: bool, kind: KeyKind) -> ReaderAction {
    handle_event(RawEvent::Key { key, control, kind })
}

#[test]
fn clicks_are_counted_from_one() {
    let action = handle_event(RawEvent::LeftDown { column: 0, row: 41 });
    assert!(matches!(
        action,
        ReaderAction::Forward(TermEvent::Click { col: 1, row: 42 })
    ));
    assert!(matches!(
        handle_event(RawEvent::Other),
        ReaderAction::Ignore
    ));
}

#[test]
fn control_c_quits_and_plain_c_does_not() {
    assert!(matches!(
        key(TermKey::Char('c'), true, KeyKind::Press),
        ReaderAction::Quit
    ));
    assert!(matches!(
        key(TermKey::Char('c'), false, KeyKind::Press),
        ReaderAction::Forward(_)
    ));
    assert!(matches!(
        key(TermKey::Char('d'), true, KeyKind::Press),
        ReaderAction::Forward(_)
    ));
}

#[test]
fn only_a_release_releases() {
    for (kind, want) in [
        (KeyKind::Press, true),
        (KeyKind::Repeat, true),
        (KeyKind::Release, false),
    ] {
        match key(TermKey::Enter, false, kind) {
            ReaderAction::Forward(TermEvent::Key { key, pressed }) => {
                assert_eq!(key.code, KeyCode::Enter);
                assert_eq!(pressed, want);
            }
            other => panic!("{kind:?} gave {other:?}"),
        }
    }
    assert!(matches!(
        key(TermKey::Other, false, KeyKind::Press),
        ReaderAction::Ignore
    ));
}
