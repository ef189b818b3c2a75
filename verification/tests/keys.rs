use darkui::buffer::{datestr, LocalMillis, MsgBuffer};
use darkui::codec::tree_name;
use darkui::keys::{chat_key_action, edit_key_action, ChatKey, ChatKeyAction, EditAction, EditKey, KeyOutcome};
use darkui::repeat::{PressedKey, PressedKeysSmoothRepeat};

fn moves(a: EditAction) -> KeyOutcome {
    KeyOutcome::Handled { action: Some(a), changed: false }
}

fn edits(a: EditAction) -> KeyOutcome {
    KeyOutcome::Handled { action: Some(a), changed: true }
}

#[test]
fn arrows_move_or_select_by_char_or_word() {
    assert_eq!(edit_key_action(EditKey::Left, false, false, false), moves(EditAction::MoveLeft));
    assert_eq!(edit_key_action(EditKey::Left, false, true, false), moves(EditAction::SelectLeft));
    assert_eq!(edit_key_action(EditKey::Left, true, false, false), moves(EditAction::MoveWordLeft));
    assert_eq!(edit_key_action(EditKey::Left, true, true, false), moves(EditAction::SelectWordLeft));
    assert_eq!(edit_key_action(EditKey::Right, false, false, true), moves(EditAction::MoveRight));
    assert_eq!(edit_key_action(EditKey::Right, true, true, true), moves(EditAction::SelectWordRight));
    assert_eq!(edit_key_action(EditKey::Up, true, false, false), moves(EditAction::MoveUp));
    assert_eq!(edit_key_action(EditKey::Down, false, true, false), moves(EditAction::SelectDown));
}

#[test]
fn enter_needs_shift_and_line_ends() {
    assert_eq!(edit_key_action(EditKey::Enter, false, false, true), KeyOutcome::NotHandled);
    assert_eq!(edit_key_action(EditKey::KpEnter, true, false, true), KeyOutcome::NotHandled);
    assert_eq!(edit_key_action(EditKey::Enter, false, true, true), edits(EditAction::InsertNewline));
    assert_eq!(
        edit_key_action(EditKey::KpEnter, false, true, false),
        KeyOutcome::Handled { action: None, changed: false }
    );
}

#[test]
fn deletes_change_the_buffer() {
    assert_eq!(edit_key_action(EditKey::Delete, false, false, false), edits(EditAction::Delete));
    assert_eq!(edit_key_action(EditKey::Delete, true, true, false), edits(EditAction::DeleteWord));
    assert_eq!(edit_key_action(EditKey::Backspace, false, true, false), edits(EditAction::Backdelete));
    assert_eq!(edit_key_action(EditKey::Backspace, true, false, false), edits(EditAction::BackdeleteWord));
}

#[test]
fn home_and_end_reach_line_or_text_bounds() {
    assert_eq!(edit_key_action(EditKey::Home, false, false, false), moves(EditAction::MoveToLineStart));
    assert_eq!(edit_key_action(EditKey::Home, false, true, false), moves(EditAction::SelectToLineStart));
    assert_eq!(edit_key_action(EditKey::Home, true, false, false), moves(EditAction::MoveToTextStart));
    assert_eq!(edit_key_action(EditKey::End, true, true, false), moves(EditAction::SelectToTextEnd));
    assert_eq!(edit_key_action(EditKey::End, false, false, false), moves(EditAction::MoveToLineEnd));
    assert_eq!(edit_key_action(EditKey::Other, true, true, true), KeyOutcome::NotHandled);
}

#[test]
fn chat_keypad_types_and_cursor_keys_refresh() {
    assert_eq!(chat_key_action(ChatKey::Kp0), Some(ChatKeyAction::Insert('0')));
    assert_eq!(chat_key_action(ChatKey::Kp7), Some(ChatKeyAction::Insert('7')));
    assert_eq!(chat_key_action(ChatKey::KpDecimal), Some(ChatKeyAction::Insert('.')));
    assert_eq!(chat_key_action(ChatKey::Left), Some(ChatKeyAction::Refresh));
    assert_eq!(chat_key_action(ChatKey::Backspace), Some(ChatKeyAction::Refresh));
    assert_eq!(chat_key_action(ChatKey::End), Some(ChatKeyAction::Refresh));
    assert_eq!(chat_key_action(ChatKey::Other), None);
}

#[test]
fn midnight_choice_follows_the_local_mapping() {
    let day = 86_400_000u64;
    let ts = 3 * day + 5_000;
    assert_eq!(MsgBuffer::pick_midnight(ts, false, LocalMillis::Single(7), 9), 3 * day);
    assert_eq!(MsgBuffer::pick_midnight(ts, true, LocalMillis::Single(1_000), 9), 1_000);
    assert_eq!(MsgBuffer::pick_midnight(ts, true, LocalMillis::Ambiguous(500, 4_100_000), 9), 500);
    assert_eq!(MsgBuffer::pick_midnight(ts, true, LocalMillis::Gap, 259_200_000i64), 3 * day);
}

#[test]
fn chat_tree_name_is_versioned() {
    assert_eq!(tree_name("general"), "general__chat_tree_v2");
    assert_eq!(tree_name(""), "__chat_tree_v2");
}

#[test]
fn initial_press_goes_through_and_repeats_wait() {
    let mut keys = PressedKeysSmoothRepeat::new(60_000, 50);
    assert_eq!(keys.key_down(PressedKey::Char('a'), false), 1);
    // Within the start delay a repeat does not go through.
    assert_eq!(keys.key_down(PressedKey::Char('a'), true), 0);
    assert_eq!(keys.key_down(PressedKey::Key(7), true), 0);
    // A new initial press restarts the key and goes through again.
    assert_eq!(keys.key_down(PressedKey::Char('a'), false), 1);
    keys.clear();
    assert_eq!(keys.key_down(PressedKey::Key(7), false), 1);
}

#[test]
fn repeats_go_through_at_most_once_per_event() {
    let mut keys = PressedKeysSmoothRepeat::new(0, 1);
    let _ = keys.key_down(PressedKey::Key(3), true);
    for _ in 0..5 {
        assert!(keys.key_down(PressedKey::Key(3), true) <= 1);
    }
}

#[test]
fn midnight_lies_near_its_timestamp() {
    let day = 86_400_000u64;
    for ts in [3 * day, 1_700_000_000_000u64, 1_700_000_000_000 + day / 2, 4_000_000_000_000] {
        let m = MsgBuffer::midnight_of(ts);
        assert!(ts - 3 * day < m && m < ts + 2 * day);
        // The day's midnight is its own midnight.
        assert_eq!(MsgBuffer::midnight_of(m), m);
    }
}

#[test]
fn separator_label_names_the_local_date() {
    let label = datestr(1_700_000_000_000);
    assert!(label.ends_with(" 2023"));
    let parts: Vec<&str> = label.split(' ').collect();
    assert_eq!(parts.len(), 4);
    assert!(["Sun", "Mon", "Tue", "Wed", "Thu", "Fri", "Sat"].contains(&parts[0]));
    assert!(["13", "14", "15"].contains(&parts[1]));
    assert_eq!(parts[2], "Nov");
}
