//! The key map: which editor command a terminal key event stands
//! for. The event arrives reduced to plain values, so the mapping is
//! a total, specified function.
use vstd::prelude::*;

verus! {

/// A cursor location on the terminal grid.
#[derive(Clone, Copy, PartialEq, Eq, Structural, Debug)]
pub struct CursorPosition {
    pub x: u16,
    pub y: u16,
}

/// Terminal dimensions, in character cells.
#[derive(Clone, Copy, PartialEq, Eq, Structural, Debug)]
pub struct TerminalSize {
    pub width: u16,
    pub height: u16,
}

/// An editor command, as produced from key events.
#[derive(Clone, Copy, PartialEq, Eq, Structural, Debug)]
pub enum Event {
    KeyPress(char),
    Exit,
    MoveCursor(CursorPosition),
    MoveCursorUp(u16),
    MoveCursorDown(u16),
    MoveCursorLeft(u16),
    MoveCursorRight(u16),
    NewLine,
}

/// The key of a key event, reduced to what the key map reads.
#[derive(Clone, Copy, PartialEq, Eq, Structural, Debug)]
pub enum KeyCode {
    Left,
    Right,
    Up,
    Down,
    Char(char),
    Other,
}

/// The modifier state of a key event: no modifier, control alone, or
/// anything else.
#[derive(Clone, Copy, PartialEq, Eq, Structural, Debug)]
pub enum KeyMods {
    Plain,
    Control,
    Other,
}

/// Whether the key went down, repeated, or came up.
#[derive(Clone, Copy, PartialEq, Eq, Structural, Debug)]
pub enum KeyEventKind {
    Press,
    Release,
    Repeat,
}

/// A key event as the terminal reports it.
#[derive(Clone, Copy, PartialEq, Eq, Structural, Debug)]
pub struct KeyPress {
    pub code: KeyCode,
    pub modifiers: KeyMods,
    pub kind: KeyEventKind,
}

/// The key bindings: arrows move the cursor one cell whatever the
/// modifiers, control-q exits, an unmodified printable key inserts
/// itself, and every other event is ignored. Only key-down events
/// count.
pub open spec fn key_event_spec(event: KeyPress) -> Option<Event> {
    if !(event.kind is Press) {
        None
    } else {
        match event.code {
            KeyCode::Left => Some(Event::MoveCursorLeft(1)),
            KeyCode::Right => Some(Event::MoveCursorRight(1)),
            KeyCode::Up => Some(Event::MoveCursorUp(1)),
            KeyCode::Down => Some(Event::MoveCursorDown(1)),
            KeyCode::Char(c) => match event.modifiers {
                KeyMods::Control => if c == 'q' {
                    Some(Event::Exit)
                } else {
                    None
                },
                KeyMods::Plain => Some(Event::KeyPress(c)),
                KeyMods::Other => None,
            },
            KeyCode::Other => None,
        }
    }
}

/// The key map itself; it carries no state.
#[derive(Clone, Copy, Debug)]
pub struct KeyMaps {}

impl KeyMaps {
    /// Maps one key event to the editor command it stands for.
    pub fn map_key_press_to_event(&self, event: KeyPress) -> (r: Option<Event>)
        ensures
            r == key_event_spec(event),
    {
        match event.kind {
            KeyEventKind::Press => match event.code {
                KeyCode::Left => Some(Event::MoveCursorLeft(1)),
                KeyCode::Right => Some(Event::MoveCursorRight(1)),
                KeyCode::Up => Some(Event::MoveCursorUp(1)),
                KeyCode::Down => Some(Event::MoveCursorDown(1)),
                KeyCode::Char(c) => match event.modifiers {
                    KeyMods::Control => if c == 'q' {
                        Some(Event::Exit)
                    } else {
                        None
                    },
                    KeyMods::Plain => Some(Event::KeyPress(c)),
                    KeyMods::Other => None,
                },
                KeyCode::Other => None,
            },
            _ => None,
        }
    }
}

} // verus!
