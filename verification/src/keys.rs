//! Key handling decisions of the text editors: which editor action a key
//! press runs. The caller maps the platform's key codes and runs the
//! chosen action on its text driver.

use vstd::prelude::*;

verus! {

/// The keys the multi-purpose editor reacts to; every other key is `Other`.
#[derive(Debug, Clone, Copy, PartialEq, Eq, Structural)]
pub enum EditKey {
    Left,
    Right,
    Up,
    Down,
    Enter,
    KpEnter,
    Delete,
    Backspace,
    Home,
    End,
    Other,
}

/// An editing action on the text driver.
#[derive(Debug, Clone, Copy, PartialEq, Eq, Structural)]
pub enum EditAction {
    MoveLeft,
    SelectLeft,
    MoveWordLeft,
    SelectWordLeft,
    MoveRight,
    SelectRight,
    MoveWordRight,
    SelectWordRight,
    MoveUp,
    SelectUp,
    MoveDown,
    SelectDown,
    InsertNewline,
    Delete,
    DeleteWord,
    Backdelete,
    BackdeleteWord,
    MoveToLineStart,
    SelectToLineStart,
    MoveToTextStart,
    SelectToTextStart,
    MoveToLineEnd,
    SelectToLineEnd,
    MoveToTextEnd,
    SelectToTextEnd,
}

/// What a key press does in the editor.
#[derive(Debug, Clone, Copy, PartialEq, Eq, Structural)]
pub enum KeyOutcome {
    /// The key is not the editor's: it passes on.
    NotHandled,
    /// The editor takes the key, runs `action` if there is one, and marks
    /// the buffer changed when `changed`.
    Handled { action: Option<EditAction>, changed: bool },
}

/// A handled key running `a`, which leaves the buffer as it is.
pub open spec fn moves(a: EditAction) -> KeyOutcome {
    KeyOutcome::Handled { action: Some(a), changed: false }
}

/// A handled key running `a`, which changes the buffer.
pub open spec fn edits(a: EditAction) -> KeyOutcome {
    KeyOutcome::Handled { action: Some(a), changed: true }
}

/// The editor's key table. `action_mod` is the platform's action modifier
/// (ctrl, or logo on macOS): it makes horizontal moves, deletes and
/// Home/End work by word or on the whole text. Shift selects instead of
/// moving. Enter is the caller's unless shifted; shifted, it inserts a
/// newline where the editor allows line ends and otherwise does nothing.
pub open spec fn spec_edit_key_action(key: EditKey, action_mod: bool, shift: bool, allow_endl: bool) -> KeyOutcome {
    match key {
        EditKey::Left => moves(
            if action_mod {
                if shift { EditAction::SelectWordLeft } else { EditAction::MoveWordLeft }
            } else if shift {
                EditAction::SelectLeft
            } else {
                EditAction::MoveLeft
            },
        ),
        EditKey::Right => moves(
            if action_mod {
                if shift { EditAction::SelectWordRight } else { EditAction::MoveWordRight }
            } else if shift {
                EditAction::SelectRight
            } else {
                EditAction::MoveRight
            },
        ),
        EditKey::Up => moves(if shift { EditAction::SelectUp } else { EditAction::MoveUp }),
        EditKey::Down => moves(if shift { EditAction::SelectDown } else { EditAction::MoveDown }),
        EditKey::Enter | EditKey::KpEnter => if !shift {
            KeyOutcome::NotHandled
        } else if allow_endl {
            edits(EditAction::InsertNewline)
        } else {
            KeyOutcome::Handled { action: None, changed: false }
        },
        EditKey::Delete => edits(if action_mod { EditAction::DeleteWord } else { EditAction::Delete }),
        EditKey::Backspace => edits(if action_mod { EditAction::BackdeleteWord } else { EditAction::Backdelete }),
        EditKey::Home => moves(
            if action_mod {
                if shift { EditAction::SelectToTextStart } else { EditAction::MoveToTextStart }
            } else if shift {
                EditAction::SelectToLineStart
            } else {
                EditAction::MoveToLineStart
            },
        ),
        EditKey::End => moves(
            if action_mod {
                if shift { EditAction::SelectToTextEnd } else { EditAction::MoveToTextEnd }
            } else if shift {
                EditAction::SelectToLineEnd
            } else {
                EditAction::MoveToLineEnd
            },
        ),
        EditKey::Other => KeyOutcome::NotHandled,
    }
}

/// Of four actions, the one the modifiers pick: by word (or on the whole
/// text) with the action modifier, selecting with shift.
fn mod_action(word: bool, shift: bool, select_word: EditAction, move_word: EditAction, select: EditAction, mv: EditAction) -> (a: EditAction)
    ensures
        a == if word {
            if shift { select_word } else { move_word }
        } else if shift {
            select
        } else {
            mv
        },
{
    if word {
        if shift { select_word } else { move_word }
    } else if shift {
        select
    } else {
        mv
    }
}

/// Which editor action a key press runs (see [`spec_edit_key_action`]).
pub fn edit_key_action(key: EditKey, action_mod: bool, shift: bool, allow_endl: bool) -> (r: KeyOutcome)
    ensures
        r == spec_edit_key_action(key, action_mod, shift, allow_endl),
{
    match key {
        EditKey::Left => KeyOutcome::Handled {
            action: Some(
                mod_action(action_mod, shift, EditAction::SelectWordLeft, EditAction::MoveWordLeft, EditAction::SelectLeft, EditAction::MoveLeft),
            ),
            changed: false,
        },
        EditKey::Right => KeyOutcome::Handled {
            action: Some(
                mod_action(
                    action_mod,
                    shift,
                    EditAction::SelectWordRight,
                    EditAction::MoveWordRight,
                    EditAction::SelectRight,
                    EditAction::MoveRight,
                ),
            ),
            changed: false,
        },
        EditKey::Up => KeyOutcome::Handled {
            action: Some(if shift { EditAction::SelectUp } else { EditAction::MoveUp }),
            changed: false,
        },
        EditKey::Down => KeyOutcome::Handled {
            action: Some(if shift { EditAction::SelectDown } else { EditAction::MoveDown }),
            changed: false,
        },
        EditKey::Enter | EditKey::KpEnter => {
            if !shift {
                KeyOutcome::NotHandled
            } else if allow_endl {
                KeyOutcome::Handled { action: Some(EditAction::InsertNewline), changed: true }
            } else {
                KeyOutcome::Handled { action: None, changed: false }
            }
        },
        EditKey::Delete => KeyOutcome::Handled {
            action: Some(if action_mod { EditAction::DeleteWord } else { EditAction::Delete }),
            changed: true,
        },
        EditKey::Backspace => KeyOutcome::Handled {
            action: Some(if action_mod { EditAction::BackdeleteWord } else { EditAction::Backdelete }),
            changed: true,
        },
        EditKey::Home => KeyOutcome::Handled {
            action: Some(
                mod_action(
                    action_mod,
                    shift,
                    EditAction::SelectToTextStart,
                    EditAction::MoveToTextStart,
                    EditAction::SelectToLineStart,
                    EditAction::MoveToLineStart,
                ),
            ),
            changed: false,
        },
        EditKey::End => KeyOutcome::Handled {
            action: Some(
                mod_action(
                    action_mod,
                    shift,
                    EditAction::SelectToTextEnd,
                    EditAction::MoveToTextEnd,
                    EditAction::SelectToLineEnd,
                    EditAction::MoveToLineEnd,
                ),
            ),
            changed: false,
        },
        EditKey::Other => KeyOutcome::NotHandled,
    }
}

/// The keys the chat editor reacts to; every other key is `Other`.
#[derive(Debug, Clone, Copy, PartialEq, Eq, Structural)]
pub enum ChatKey {
    Kp0,
    Kp1,
    Kp2,
    Kp3,
    Kp4,
    Kp5,
    Kp6,
    Kp7,
    Kp8,
    Kp9,
    KpDecimal,
    Left,
    Right,
    Delete,
    Backspace,
    Home,
    End,
    Other,
}

/// What a key does in the chat editor.
#[derive(Debug, Clone, Copy, PartialEq, Eq, Structural)]
pub enum ChatKeyAction {
    /// Type this character.
    Insert(char),
    /// Pause the cursor blinking and redraw.
    Refresh,
}

/// The chat editor's key table: the keypad types its digit or the
/// decimal point; the cursor and delete keys refresh the view; every
/// other key is not the chat editor's.
pub open spec fn spec_chat_key_action(key: ChatKey) -> Option<ChatKeyAction> {
    match key {
        ChatKey::Kp0 => Some(ChatKeyAction::Insert('0')),
        ChatKey::Kp1 => Some(ChatKeyAction::Insert('1')),
        ChatKey::Kp2 => Some(ChatKeyAction::Insert('2')),
        ChatKey::Kp3 => Some(ChatKeyAction::Insert('3')),
        ChatKey::Kp4 => Some(ChatKeyAction::Insert('4')),
        ChatKey::Kp5 => Some(ChatKeyAction::Insert('5')),
        ChatKey::Kp6 => Some(ChatKeyAction::Insert('6')),
        ChatKey::Kp7 => Some(ChatKeyAction::Insert('7')),
        ChatKey::Kp8 => Some(ChatKeyAction::Insert('8')),
        ChatKey::Kp9 => Some(ChatKeyAction::Insert('9')),
        ChatKey::KpDecimal => Some(ChatKeyAction::Insert('.')),
        ChatKey::Left | ChatKey::Right | ChatKey::Delete | ChatKey::Backspace | ChatKey::Home | ChatKey::End => Some(
            ChatKeyAction::Refresh,
        ),
        ChatKey::Other => None,
    }
}

/// What a key does in the chat editor (see [`spec_chat_key_action`]).
pub fn chat_key_action(key: ChatKey) -> (r: Option<ChatKeyAction>)
    ensures
        r == spec_chat_key_action(key),
{
    match key {
        ChatKey::Kp0 => Some(ChatKeyAction::Insert('0')),
        ChatKey::Kp1 => Some(ChatKeyAction::Insert('1')),
        ChatKey::Kp2 => Some(ChatKeyAction::Insert('2')),
        ChatKey::Kp3 => Some(ChatKeyAction::Insert('3')),
        ChatKey::Kp4 => Some(ChatKeyAction::Insert('4')),
        ChatKey::Kp5 => Some(ChatKeyAction::Insert('5')),
        ChatKey::Kp6 => Some(ChatKeyAction::Insert('6')),
        ChatKey::Kp7 => Some(ChatKeyAction::Insert('7')),
        ChatKey::Kp8 => Some(ChatKeyAction::Insert('8')),
        ChatKey::Kp9 => Some(ChatKeyAction::Insert('9')),
        ChatKey::KpDecimal => Some(ChatKeyAction::Insert('.')),
        ChatKey::Left | ChatKey::Right | ChatKey::Delete | ChatKey::Backspace | ChatKey::Home | ChatKey::End => Some(
            ChatKeyAction::Refresh,
        ),
        ChatKey::Other => None,
    }
}

/// The keys that move the cursor.
pub open spec fn is_cursor_key(k: EditKey) -> bool {
    k == EditKey::Left || k == EditKey::Right || k == EditKey::Up || k == EditKey::Down || k == EditKey::Home
        || k == EditKey::End
}

/// Whether an action extends the selection rather than moving the cursor.
pub open spec fn is_selection(a: EditAction) -> bool {
    match a {
        EditAction::SelectLeft | EditAction::SelectWordLeft | EditAction::SelectRight | EditAction::SelectWordRight
        | EditAction::SelectUp | EditAction::SelectDown | EditAction::SelectToLineStart
        | EditAction::SelectToTextStart | EditAction::SelectToLineEnd | EditAction::SelectToTextEnd => true,
        _ => false,
    }
}

/// Whether an action reaches by word (horizontal moves) or to the whole
/// text's bound (Home/End) rather than by character or line.
pub open spec fn is_wide(a: EditAction) -> bool {
    match a {
        EditAction::MoveWordLeft | EditAction::SelectWordLeft | EditAction::MoveWordRight
        | EditAction::SelectWordRight | EditAction::MoveToTextStart | EditAction::SelectToTextStart
        | EditAction::MoveToTextEnd | EditAction::SelectToTextEnd => true,
        _ => false,
    }
}

/// The direction key an action goes in, or `Other` for actions that do
/// not move the cursor.
pub open spec fn direction_of(a: EditAction) -> EditKey {
    match a {
        EditAction::MoveLeft | EditAction::SelectLeft | EditAction::MoveWordLeft | EditAction::SelectWordLeft => EditKey::Left,
        EditAction::MoveRight | EditAction::SelectRight | EditAction::MoveWordRight | EditAction::SelectWordRight => EditKey::Right,
        EditAction::MoveUp | EditAction::SelectUp => EditKey::Up,
        EditAction::MoveDown | EditAction::SelectDown => EditKey::Down,
        EditAction::MoveToLineStart | EditAction::SelectToLineStart | EditAction::MoveToTextStart
        | EditAction::SelectToTextStart => EditKey::Home,
        EditAction::MoveToLineEnd | EditAction::SelectToLineEnd | EditAction::MoveToTextEnd
        | EditAction::SelectToTextEnd => EditKey::End,
        _ => EditKey::Other,
    }
}

/// Cursor keys move in their own direction and leave the text as it is;
/// shift turns the move into a selection, and the action modifier makes
/// horizontal moves go by word and Home/End reach the whole text's
/// bounds (it does not change Up/Down).
pub proof fn lemma_cursor_keys(k: EditKey, action_mod: bool, shift: bool, allow_endl: bool)
    requires
        is_cursor_key(k),
    ensures
        spec_edit_key_action(k, action_mod, shift, allow_endl) matches KeyOutcome::Handled { action: Some(a), changed }
            && !changed && direction_of(a) == k && is_selection(a) == shift && is_wide(a) == (action_mod && k
            != EditKey::Up && k != EditKey::Down),
{
}

/// Delete and Backspace always change the text and never select; Enter
/// is the editor's only with shift, and inserts a line end only where
/// line ends are allowed.
pub proof fn lemma_editing_keys(k: EditKey, action_mod: bool, shift: bool, allow_endl: bool)
    ensures
        (k == EditKey::Delete || k == EditKey::Backspace) ==> (spec_edit_key_action(k, action_mod, shift, allow_endl) matches KeyOutcome::Handled { action: Some(a), changed }
            && changed && !is_selection(a) && direction_of(a) == EditKey::Other),
        (k == EditKey::Enter || k == EditKey::KpEnter) ==> (spec_edit_key_action(k, action_mod, shift, allow_endl)
            is NotHandled <==> !shift),
        (k == EditKey::Enter || k == EditKey::KpEnter) && shift ==> (spec_edit_key_action(
            k,
            action_mod,
            shift,
            allow_endl,
        ) matches KeyOutcome::Handled { action: Some(a), .. } <==> allow_endl),
        k == EditKey::Other ==> spec_edit_key_action(k, action_mod, shift, allow_endl) is NotHandled,
{
}

} // verus!
