use vstd::prelude::*;

verus! {

/// A key, as the workbench tells keys apart.
#[derive(Debug, Clone, Copy, PartialEq, Eq, Structural)]
pub enum KeyCode {
    Char(char),
    Escape,
    Tab,
    UpArrow,
    DownArrow,
    LeftArrow,
    RightArrow,
    Home,
    End,
    PageUp,
    PageDown,
    Backspace,
    Delete,
    Enter,
    /// Any key the workbench does not act on.
    Other,
}

/// Modifier keys held with a key; `other` covers every modifier besides these four.
#[derive(Debug, Clone, Copy, PartialEq, Eq, Structural)]
pub struct Modifiers {
    pub shift: bool,
    pub alt: bool,
    pub ctrl: bool,
    pub super_key: bool,
    pub other: bool,
}

impl Modifiers {
    pub open spec fn is_none_spec(self) -> bool {
        !self.shift && !self.alt && !self.ctrl && !self.super_key && !self.other
    }

    /// No modifier at all.
    pub fn none() -> (r: Modifiers)
        ensures
            r.is_none_spec(),
    {
        Modifiers { shift: false, alt: false, ctrl: false, super_key: false, other: false }
    }

    pub fn is_none(self) -> (r: bool)
        ensures
            r == self.is_none_spec(),
    {
        !self.shift && !self.alt && !self.ctrl && !self.super_key && !self.other
    }
}

/// What a key press asks of the editor.
#[derive(Debug, Clone, Copy, PartialEq, Eq, Structural)]
pub enum EditAction {
    /// Give focus back to the terminal.
    Blur,
    CycleView,
    Up,
    Down,
    Left,
    Right,
    LineStart,
    LineEnd,
    PageUp,
    PageDown,
    Backspace,
    Delete,
    Insert(char),
    Save,
    Reload,
    /// Consumed without effect.
    Nothing,
}

/// The editor's key bindings. Plain keys move and edit; `Ctrl`/`Super` with `s` saves and
/// with `r` reloads; `Ctrl` with `a`/`e` goes to the line's start/end; any other char is typed
/// unless `Ctrl`, `Super` or `Alt` is held.
pub open spec fn edit_action_spec(key: KeyCode, mods: Modifiers) -> EditAction {
    let none = mods.is_none_spec();
    let command = mods.super_key || mods.ctrl;
    match key {
        KeyCode::Escape => if none { EditAction::Blur } else { EditAction::Nothing },
        KeyCode::Tab => if none { EditAction::CycleView } else { EditAction::Nothing },
        KeyCode::UpArrow => if none { EditAction::Up } else { EditAction::Nothing },
        KeyCode::DownArrow => if none { EditAction::Down } else { EditAction::Nothing },
        KeyCode::LeftArrow => if none { EditAction::Left } else { EditAction::Nothing },
        KeyCode::RightArrow => if none { EditAction::Right } else { EditAction::Nothing },
        KeyCode::Home => if none { EditAction::LineStart } else { EditAction::Nothing },
        KeyCode::End => if none { EditAction::LineEnd } else { EditAction::Nothing },
        KeyCode::PageUp => if none { EditAction::PageUp } else { EditAction::Nothing },
        KeyCode::PageDown => if none { EditAction::PageDown } else { EditAction::Nothing },
        KeyCode::Backspace => if none { EditAction::Backspace } else { EditAction::Nothing },
        KeyCode::Delete => if none { EditAction::Delete } else { EditAction::Nothing },
        KeyCode::Enter => if none { EditAction::Insert('\n') } else { EditAction::Nothing },
        KeyCode::Char(c) => if c == 's' && command {
            EditAction::Save
        } else if c == 'r' && command {
            EditAction::Reload
        } else if c == 'a' && mods.ctrl {
            EditAction::LineStart
        } else if c == 'e' && mods.ctrl {
            EditAction::LineEnd
        } else if !command && !mods.alt {
            EditAction::Insert(c)
        } else {
            EditAction::Nothing
        },
        KeyCode::Other => EditAction::Nothing,
    }
}

/// The editor action bound to a key press.
pub fn edit_action(key: KeyCode, mods: Modifiers) -> (r: EditAction)
    ensures
        r == edit_action_spec(key, mods),
{
    let none = mods.is_none();
    let command = mods.super_key || mods.ctrl;
    let plain = |a: EditAction| -> (r: EditAction)
        ensures
            r == (if none { a } else { EditAction::Nothing }),
        {
            if none {
                a
            } else {
                EditAction::Nothing
            }
        };
    match key {
        KeyCode::Escape => plain(EditAction::Blur),
        KeyCode::Tab => plain(EditAction::CycleView),
        KeyCode::UpArrow => plain(EditAction::Up),
        KeyCode::DownArrow => plain(EditAction::Down),
        KeyCode::LeftArrow => plain(EditAction::Left),
        KeyCode::RightArrow => plain(EditAction::Right),
        KeyCode::Home => plain(EditAction::LineStart),
        KeyCode::End => plain(EditAction::LineEnd),
        KeyCode::PageUp => plain(EditAction::PageUp),
        KeyCode::PageDown => plain(EditAction::PageDown),
        KeyCode::Backspace => plain(EditAction::Backspace),
        KeyCode::Delete => plain(EditAction::Delete),
        KeyCode::Enter => plain(EditAction::Insert('\n')),
        KeyCode::Char(c) => {
            if c == 's' && command {
                EditAction::Save
            } else if c == 'r' && command {
                EditAction::Reload
            } else if c == 'a' && mods.ctrl {
                EditAction::LineStart
            } else if c == 'e' && mods.ctrl {
                EditAction::LineEnd
            } else if !command && !mods.alt {
                EditAction::Insert(c)
            } else {
                EditAction::Nothing
            }
        },
        KeyCode::Other => EditAction::Nothing,
    }
}

} // verus!
