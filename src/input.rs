use vstd::prelude::*;
use crate::grid::LayoutType;

verus! {

/// The key of a key press.
#[derive(Clone, Copy, Debug, PartialEq, Eq, Structural)]
pub enum KeyCode {
    Esc,
    Char(char),
    /// Any key that no binding uses.
    Other,
}

/// A key press with the modifiers held down.
#[derive(Clone, Copy, Debug, PartialEq, Eq, Structural)]
pub struct KeyInput {
    pub code: KeyCode,
    pub shift: bool,
    pub control: bool,
    pub alt: bool,
    /// Super, hyper or meta.
    pub other_modifiers: bool,
}

/// What a key press asks of the window manager.
#[derive(Clone, Copy, Debug, PartialEq, Eq, Structural)]
pub enum Command {
    Quit,
    CreateWindow(LayoutType),
    SelectPrevious,
    SelectNext,
    Ignore,
}

impl KeyInput {
    /// Control is the only modifier held.
    pub open spec fn control_only(self) -> bool {
        self.control && !self.shift && !self.alt && !self.other_modifiers
    }

    /// Alt is the only modifier held.
    pub open spec fn alt_only(self) -> bool {
        self.alt && !self.shift && !self.control && !self.other_modifiers
    }

    pub open spec fn is_char(self, lower: char, upper: char) -> bool {
        self.code == KeyCode::Char(lower) || self.code == KeyCode::Char(upper)
    }
}

/// The key bindings, tried in order: Escape, `q` or `Q` with any modifiers,
/// or Control+C quit; Control+T cuts the selected window side by side and
/// Alt+T stacked; `h` selects the previous window and `l` the next one, with
/// any modifiers, in either case.
pub open spec fn command_of(key: KeyInput) -> Command {
    if key.code == KeyCode::Esc || key.is_char('q', 'Q') || (key.control_only() && key.is_char('c', 'C')) {
        Command::Quit
    } else if key.control_only() && key.is_char('t', 'T') {
        Command::CreateWindow(LayoutType::Horizontal)
    } else if key.alt_only() && key.is_char('t', 'T') {
        Command::CreateWindow(LayoutType::Vertical)
    } else if key.is_char('h', 'H') {
        Command::SelectPrevious
    } else if key.is_char('l', 'L') {
        Command::SelectNext
    } else {
        Command::Ignore
    }
}

fn is_char(key: &KeyInput, lower: char, upper: char) -> (r: bool)
    ensures
        r == key.is_char(lower, upper),
{
    match key.code {
        KeyCode::Char(c) => c == lower || c == upper,
        _ => false,
    }
}

pub fn command_for(key: &KeyInput) -> (c: Command)
    ensures
        c == command_of(*key),
{
    let control_only = key.control && !key.shift && !key.alt && !key.other_modifiers;
    let alt_only = key.alt && !key.shift && !key.control && !key.other_modifiers;
    let is_esc = match key.code {
        KeyCode::Esc => true,
        _ => false,
    };
    if is_esc || is_char(key, 'q', 'Q') || (control_only && is_char(key, 'c', 'C')) {
        Command::Quit
    } else if control_only && is_char(key, 't', 'T') {
        Command::CreateWindow(LayoutType::Horizontal)
    } else if alt_only && is_char(key, 't', 'T') {
        Command::CreateWindow(LayoutType::Vertical)
    } else if is_char(key, 'h', 'H') {
        Command::SelectPrevious
    } else if is_char(key, 'l', 'L') {
        Command::SelectNext
    } else {
        Command::Ignore
    }
}

} // verus!
