use gpui_ohos::inputmethod::{
    commit_text, context_window, delete_backward, delete_forward, encode_utf16, finish_preview, ime_edit, preview_text, show,
    ImeCommand, ImeEdit, InputMethod,
};
use gpui_ohos::keyboard::{
    dispatch_key, is_gpui_key, is_modifier_key, key_event, key_pre_ime, map_button, ohos_key, touch_phase, update_modifiers,
    KeyAction, Modifiers, MouseButton, TouchPhase,
};

fn key_of(action: &KeyAction) -> (String, Option<String>) {
    match action {
        KeyAction::Key { keystroke, .. } => (keystroke.key.clone(), keystroke.key_char.clone()),
        _ => panic!("expected a key"),
    }
}

#[test]
fn key_codes_map_to_names() {
    assert_eq!(ohos_key(2000), Some(("0".to_string(), Some('0'))));
    assert_eq!(ohos_key(2009), Some(("9".to_string(), Some('9'))));
    assert_eq!(ohos_key(2017), Some(("a".to_string(), Some('a'))));
    assert_eq!(ohos_key(2042), Some(("z".to_string(), Some('z'))));
    assert_eq!(ohos_key(2050), Some(("space".to_string(), Some(' '))));
    assert_eq!(ohos_key(2054), Some(("enter".to_string(), None)));
    assert_eq!(ohos_key(2090), Some(("f1".to_string(), None)));
    assert_eq!(ohos_key(2101), Some(("f12".to_string(), None)));
    assert_eq!(ohos_key(2061), Some(("\\".to_string(), Some('\\'))));
    assert_eq!(ohos_key(2063), Some(("'".to_string(), Some('\''))));
    assert_eq!(ohos_key(2083), Some(("insert".to_string(), None)));
    assert_eq!(ohos_key(2067), None);
    assert_eq!(ohos_key(1), None);
}

#[test]
fn modifiers_follow_their_keys() {
    let mut m = Modifiers::none();
    assert!(update_modifiers(&mut m, 2072, true).control);
    assert!(update_modifiers(&mut m, 2048, true).shift);
    assert!(update_modifiers(&mut m, 2046, true).alt);
    assert!(update_modifiers(&mut m, 2077, true).platform);
    let now = update_modifiers(&mut m, 2073, false);
    assert!(!now.control && now.shift && now.alt && now.platform);
    assert_eq!(update_modifiers(&mut m, 2017, true), now);
    assert!(is_modifier_key(2045) && !is_modifier_key(2050));
}

#[test]
fn shortcuts_and_function_keys_go_first() {
    let none = Modifiers::none();
    assert!(!is_gpui_key(2017, none));
    assert!(is_gpui_key(2095, none));
    assert!(is_gpui_key(2017, Modifiers { control: true, ..none }));
    assert!(!is_gpui_key(2017, Modifiers { shift: true, ..none }));
}

#[test]
fn modifier_keys_are_shared_with_the_input_method() {
    let mut m = Modifiers::none();
    let route = key_pre_ime(&mut m, "main", 0, 2072, 0);
    assert!(!route.consumed);
    assert_eq!(route.id, "main");
    assert!(matches!(route.action, Some(KeyAction::Modifiers(Modifiers { control: true, .. }))));
    // Ctrl+A is a shortcut: consumed, with no text.
    let route = key_pre_ime(&mut m, "main", 0, 2017, 97);
    assert!(route.consumed);
    assert_eq!(key_of(route.action.as_ref().unwrap()), ("a".to_string(), None));
    // Plain text is the input method's.
    let mut m = Modifiers::none();
    let route = key_pre_ime(&mut m, "main", 0, 2017, 97);
    assert!(!route.consumed);
    assert!(route.action.is_none());
}

#[test]
fn shift_space_switches_input_methods() {
    let mut m = Modifiers::none();
    key_pre_ime(&mut m, "main", 0, 2047, 0);
    let route = key_pre_ime(&mut m, "main", 0, 2050, 32);
    assert!(!route.consumed);
    assert!(matches!(route.action, Some(KeyAction::Modifiers(_))));
    // Ctrl+Space is the application's.
    let mut m = Modifiers::none();
    key_pre_ime(&mut m, "main", 0, 2072, 0);
    let route = key_pre_ime(&mut m, "main", 0, 2050, 32);
    assert!(route.consumed);
}

#[test]
fn keys_after_the_input_method_carry_their_text() {
    let mut m = Modifiers::none();
    let event = key_event(&mut m, 0, 2017, 97);
    assert_eq!(key_of(&event), ("a".to_string(), Some("a".to_string())));
    key_event(&mut m, 0, 2047, 0);
    let event = key_event(&mut m, 0, 2017, 97);
    assert_eq!(key_of(&event), ("a".to_string(), Some("A".to_string())));
    // The reported character wins over the key's own.
    let event = key_event(&mut m, 1, 2017, 0xe9);
    match &event {
        KeyAction::Key { down, keystroke } => {
            assert!(!down);
            assert_eq!(keystroke.key_char, Some("\u{c9}".to_string()));
        }
        _ => panic!("expected a key"),
    }
    // A code with no name is dropped.
    assert!(matches!(key_event(&mut m, 0, 1, 0), KeyAction::Unmapped(1)));
}

#[test]
fn dispatch_key_leaves_no_text_for_shortcuts() {
    let m = Modifiers { platform: true, ..Modifiers::none() };
    let action = dispatch_key(true, 2017, m, Some(97));
    assert_eq!(key_of(&action), ("a".to_string(), None));
    let action = dispatch_key(true, 2054, Modifiers::none(), None);
    assert_eq!(key_of(&action), ("enter".to_string(), None));
    // An invalid reported character falls back to the key's own.
    let action = dispatch_key(true, 2017, Modifiers::none(), Some(0xD800));
    assert_eq!(key_of(&action), ("a".to_string(), Some("a".to_string())));
}

#[test]
fn buttons_and_phases() {
    assert_eq!(map_button(1), MouseButton::Left);
    assert_eq!(map_button(2), MouseButton::Right);
    assert_eq!(map_button(3), MouseButton::Middle);
    assert_eq!(map_button(4), MouseButton::Back);
    assert_eq!(map_button(5), MouseButton::Forward);
    assert_eq!(map_button(9), MouseButton::Left);
    assert_eq!(touch_phase(0), TouchPhase::Started);
    assert_eq!(touch_phase(1), TouchPhase::Moved);
    assert_eq!(touch_phase(2), TouchPhase::Ended);
}

#[test]
fn input_method_commands_queue_in_order() {
    let mut ime = InputMethod::new();
    commit_text(&mut ime, "好");
    delete_backward(&mut ime, 0);
    delete_forward(&mut ime, 3);
    preview_text(&mut ime, "ni");
    finish_preview(&mut ime);
    let commands = ime.drain();
    assert_eq!(commands.len(), 5);
    assert!(matches!(&commands[0], ImeCommand::Commit(t) if t == "好"));
    assert!(matches!(commands[1], ImeCommand::Backspace(1)));
    assert!(matches!(commands[2], ImeCommand::DeleteForward(3)));
    assert!(matches!(&commands[3], ImeCommand::Preview { text, start: -1, end: -1 } if text == "ni"));
    assert!(matches!(commands[4], ImeCommand::ClearPreview));
    assert!(ime.drain().is_empty());
}

#[test]
fn callbacks_keep_the_composition() {
    let mut ime = InputMethod::new();
    ime.on_insert(String::new());
    ime.on_delete_backward(-4);
    ime.on_delete_forward(2);
    ime.on_preview("zhong".to_string(), 0, 5);
    ime.on_enter_key();
    ime.on_enter_key();
    ime.on_move_cursor(3);
    ime.on_finish_preview();
    let commands = ime.drain();
    assert_eq!(commands.len(), 6);
    assert!(matches!(commands[0], ImeCommand::Backspace(1)));
    assert!(matches!(commands[1], ImeCommand::DeleteForward(2)));
    assert!(matches!(&commands[2], ImeCommand::Preview { text, start: 0, end: 5 } if text == "zhong"));
    assert!(matches!(&commands[3], ImeCommand::Commit(t) if t == "zhong"));
    assert!(matches!(commands[4], ImeCommand::MoveCursor(3)));
    assert!(matches!(commands[5], ImeCommand::ClearPreview));
}

#[test]
fn the_context_is_recorded_only_once_taken() {
    let mut ime = InputMethod::new();
    let notice = ime.plan_context_update("ab", 1, (0, 0, 0, 0), true).unwrap();
    assert_eq!(notice.units, vec![97, 98]);
    assert_eq!((notice.caret, notice.start), (1, 0));
    assert!(ime.plan_context_update("ab", 1, (0, 0, 0, 0), false).is_none());
    ime.context_delivered("ab", 1, (0, 0, 0, 0), 2, false);
    assert!(ime.plan_context_update("ab", 1, (0, 0, 0, 0), true).is_some());
    ime.context_delivered("ab", 1, (0, 0, 0, 0), 2, true);
    assert!(ime.plan_context_update("ab", 1, (0, 0, 0, 0), true).is_none());
    assert_eq!(ime.text_index_at_cursor(), 1);
    assert_eq!(ime.text_slice(5, true, 10), vec![97]);
    assert_eq!(ime.text_slice(5, false, 10), vec![98]);
    assert_eq!(ime.text_slice(-1, false, 10), Vec::<u16>::new());
    assert!(show(&mut ime, 12800009));
    assert!(ime.plan_context_update("ab", 1, (0, 0, 0, 0), true).is_some());
    assert!(!show(&mut ime, 0));
}

#[test]
fn utf16_and_the_context_window() {
    assert_eq!(encode_utf16("a好😀"), vec![0x61, 0x597d, 0xd83d, 0xde00]);
    assert_eq!(context_window(10, 3), (0, 10));
    assert_eq!(context_window(20000, 10000), (5904, 14096));
    assert_eq!(context_window(20000, 19999), (11808, 20000));
    assert_eq!(context_window(20000, 50000), (11808, 20000));
    assert_eq!(context_window(20000, 100), (0, 8192));
}

#[test]
fn commands_become_edits() {
    let edit = ime_edit(&ImeCommand::MoveCursor(4), false, None, None);
    assert!(matches!(edit, ImeEdit::Key(ref k) if k == "right"));
    assert!(matches!(ime_edit(&ImeCommand::MoveCursor(9), true, None, None), ImeEdit::Nothing));
    assert!(matches!(ime_edit(&ImeCommand::Commit("x".to_string()), false, Some(3), None), ImeEdit::Nothing));
    assert!(matches!(ime_edit(&ImeCommand::Backspace(5), true, Some(3), None), ImeEdit::Delete { start: 0, end: 3 }));
    assert!(matches!(ime_edit(&ImeCommand::Backspace(2), true, Some(3), None), ImeEdit::Delete { start: 1, end: 3 }));
    assert!(matches!(ime_edit(&ImeCommand::DeleteForward(2), true, Some(3), None), ImeEdit::Delete { start: 3, end: 5 }));
    let preview = ImeCommand::Preview { text: "ni".to_string(), start: -1, end: -1 };
    assert!(matches!(ime_edit(&preview, true, Some(0), Some((4, 6))), ImeEdit::Mark { range: Some((4, 6)), .. }));
    let preview = ImeCommand::Preview { text: "ni".to_string(), start: 1, end: 2 };
    assert!(matches!(ime_edit(&preview, true, Some(0), Some((4, 6))), ImeEdit::Mark { range: Some((1, 2)), .. }));
    assert!(matches!(ime_edit(&ImeCommand::ClearPreview, true, None, None), ImeEdit::Unmark));
}
