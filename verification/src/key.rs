//! Keyboard input, as the screens read it.

use vstd::prelude::*;

verus! {

/// A key, as far as the screens tell keys apart.
#[derive(Clone, Copy, Debug, PartialEq, Eq, Structural)]
pub enum Key {
    Char(char),
    Enter,
    Esc,
    Backspace,
    Up,
    Down,
    PageUp,
    PageDown,
    Other,
}

/// A key press: the key and whether Control was held.
#[derive(Clone, Copy, Debug, PartialEq, Eq, Structural)]
pub struct KeyInput {
    pub code: Key,
    pub ctrl: bool,
}

/// Whether a key press asks to quit: `q` or `Q`, or Control-`c`.
pub open spec fn spec_is_quit(key: KeyInput) -> bool {
    key.code == Key::Char('q') || key.code == Key::Char('Q') || (key.code == Key::Char('c') && key.ctrl)
}

/// Whether a key press asks to quit: `q` or `Q`, or Control-`c`.
pub fn is_quit(key: &KeyInput) -> (r: bool)
    ensures
        r == spec_is_quit(*key),
{
    key.code == Key::Char('q') || key.code == Key::Char('Q') || (key.code == Key::Char('c') && key.ctrl)
}

} // verus!
