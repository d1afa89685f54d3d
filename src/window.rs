use vstd::prelude::*;

verus! {

/// What a window holds.
#[derive(Clone, Copy, Debug, PartialEq, Eq, Structural)]
pub enum WindowType {
    /// A pane with nothing in it yet.
    Blank,
    /// A pane meant to host a terminal.
    Terminal,
}

impl Default for WindowType {
    fn default() -> (r: WindowType)
        ensures
            r == WindowType::Blank,
    {
        WindowType::Blank
    }
}

/// A window of the registry: known only by its position there.
#[derive(Clone, Debug)]
pub struct Window {
    pub window_type: WindowType,
    pub title: String,
    pub is_selected: bool,
}

impl Window {
    pub fn new(title: String, is_selected: bool, window_type: WindowType) -> (w: Window)
        ensures
            w.title@ == title@,
            w.is_selected == is_selected,
            w.window_type == window_type,
    {
        Window { window_type, title, is_selected }
    }

    /// Sets the selection flag and leaves the rest as it was.
    pub fn selection(&mut self, is_selected: bool)
        ensures
            final(self).is_selected == is_selected,
            final(self).title == old(self).title,
            final(self).window_type == old(self).window_type,
    {
        self.is_selected = is_selected;
    }

    pub fn title(&self) -> (r: &str)
        ensures
            r@ == self.title@,
    {
        self.title.as_str()
    }

    pub fn is_selected(&self) -> (r: bool)
        ensures
            r == self.is_selected,
    {
        self.is_selected
    }

    pub fn window_type(&self) -> (r: WindowType)
        ensures
            r == self.window_type,
    {
        self.window_type
    }
}

/// The decimal digit `d` as a character.
pub open spec fn digit_char(d: nat) -> char {
    if d == 0 { '0' } else if d == 1 { '1' } else if d == 2 { '2' } else if d == 3 { '3' }
    else if d == 4 { '4' } else if d == 5 { '5' } else if d == 6 { '6' } else if d == 7 { '7' }
    else if d == 8 { '8' } else { '9' }
}

/// `n` written in decimal, without leading zeros.
pub open spec fn decimal(n: nat) -> Seq<char>
    decreases n,
{
    if n < 10 {
        seq![digit_char(n)]
    } else {
        decimal(n / 10).push(digit_char(n % 10))
    }
}

/// Relies on `usize`'s `ToString` (through `Display`): the number in decimal.
#[verifier::external_body]
pub(crate) fn decimal_string(n: usize) -> (r: String)
    ensures
        r@ == decimal(n as nat),
{
    n.to_string()
}

} // verus!
