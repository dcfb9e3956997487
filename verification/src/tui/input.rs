//! The keys of a terminal.
use vstd::prelude::*;

verus! {

/// The keys that are held while another is pressed.
#[derive(Clone, Copy, Debug, PartialEq, Eq, Structural)]
pub struct Modifiers {
    pub ctrl: bool,
    pub alt: bool,
    pub shift: bool,
    pub logo: bool,
}

impl Default for Modifiers {
    fn default() -> (m: Self)
        ensures
            m == (Modifiers { ctrl: false, alt: false, shift: false, logo: false }),
    {
        Modifiers { ctrl: false, alt: false, shift: false, logo: false }
    }
}

/// A key of the terminal, by name.
#[derive(Clone, Copy, Debug, PartialEq, Eq, Structural)]
pub enum TermKey {
    Char(char),
    Escape,
    Enter,
    Backspace,
    Tab,
    Left,
    Right,
    Up,
    Down,
    Other,
}

/// A key as the terminal reports it.
#[derive(Clone, Copy, Debug, PartialEq, Eq, Structural)]
pub enum KeyCode {
    Char(char),
    Esc,
    Enter,
    Backspace,
    Tab,
    BackTab,
    Left,
    Right,
    Up,
    Down,
    Unbound,
}

/// What happened to a key.
#[derive(Clone, Copy, Debug, PartialEq, Eq, Structural)]
pub enum KeyEventKind {
    Press,
    Repeat,
    Release,
}

/// One report of the terminal.
#[derive(Clone, Copy, Debug, PartialEq, Eq, Structural)]
pub struct KeyEvent {
    pub code: KeyCode,
    pub kind: KeyEventKind,
    pub modifiers: Modifiers,
}

/// The name of a key.
pub open spec fn key_name(code: KeyCode) -> TermKey {
    match code {
        KeyCode::Char(c) => TermKey::Char(c),
        KeyCode::Esc => TermKey::Escape,
        KeyCode::Enter => TermKey::Enter,
        KeyCode::Backspace => TermKey::Backspace,
        KeyCode::Tab => TermKey::Tab,
        KeyCode::BackTab => TermKey::Tab,
        KeyCode::Left => TermKey::Left,
        KeyCode::Right => TermKey::Right,
        KeyCode::Up => TermKey::Up,
        KeyCode::Down => TermKey::Down,
        KeyCode::Unbound => TermKey::Other,
    }
}

/// Names a key. A key that is let go of is not pressed again.
pub fn from_crossterm(event: &KeyEvent) -> (r: Option<(TermKey, Modifiers)>)
    ensures
        r == if event.kind == KeyEventKind::Release {
            None
        } else {
            Some((key_name(event.code), event.modifiers))
        },
{
    match event.kind {
        KeyEventKind::Release => {
            return None;
        },
        _ => {},
    }
    let key = match event.code {
        KeyCode::Char(c) => TermKey::Char(c),
        KeyCode::Esc => TermKey::Escape,
        KeyCode::Enter => TermKey::Enter,
        KeyCode::Backspace => TermKey::Backspace,
        KeyCode::Tab => TermKey::Tab,
        KeyCode::BackTab => TermKey::Tab,
        KeyCode::Left => TermKey::Left,
        KeyCode::Right => TermKey::Right,
        KeyCode::Up => TermKey::Up,
        KeyCode::Down => TermKey::Down,
        KeyCode::Unbound => TermKey::Other,
    };
    Some((key, event.modifiers))
}

/// A key keeps its name; both tabs are one.
pub proof fn a_key_is_called_what_it_is(c: char)
    ensures
        key_name(KeyCode::Char(c)) == TermKey::Char(c),
        key_name(KeyCode::Esc) == TermKey::Escape,
        key_name(KeyCode::Enter) == TermKey::Enter,
        key_name(KeyCode::Backspace) == TermKey::Backspace,
        key_name(KeyCode::Tab) == TermKey::Tab,
        key_name(KeyCode::BackTab) == TermKey::Tab,
        key_name(KeyCode::Left) == TermKey::Left,
        key_name(KeyCode::Right) == TermKey::Right,
        key_name(KeyCode::Up) == TermKey::Up,
        key_name(KeyCode::Down) == TermKey::Down,
        key_name(KeyCode::Unbound) == TermKey::Other,
{
}

} // verus!
