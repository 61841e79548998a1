//! The keyboard decoder of the shell: two layouts, the shift keys, the
//! control keys, and no repeats.

use vstd::prelude::*;
use crate::keyboard::keymap::{to_ascii, to_ascii_of, to_shift_ascii, to_shift_ascii_of};
use crate::keyboard::keymap_fr::{
    to_ascii_fr,
    to_ascii_fr_of,
    to_shift_ascii_fr,
    to_shift_ascii_fr_of,
};

verus! {

pub const KEYBOARD_DATA_PORT: u16 = 0x60;

pub const SHIFT_LEFT: u8 = 0x2A;

pub const SHIFT_RIGHT: u8 = 0x36;

pub const SHIFT_LEFT_RELEASE: u8 = 0xAA;

pub const SHIFT_RIGHT_RELEASE: u8 = 0xB6;

/// The key that asks for the first virtual terminal.
pub const SWITCH_TO_FIRST: char = '\x01';

/// The key that asks for the second virtual terminal.
pub const SWITCH_TO_SECOND: char = '\x02';

/// The layouts.
#[derive(Debug, Clone, Copy, PartialEq, Eq, Structural)]
pub enum Keymap {
    EN,
    FR,
}

/// What the decoder remembers between scancodes.
#[derive(Debug, Clone, Copy, PartialEq, Eq, Structural)]
pub struct Keyboard {
    pub shift_pressed: bool,
    pub last_scancode: u8,
    pub keymap: Keymap,
}

/// The key of a scancode on a layout, with or without shift.
pub open spec fn key_of(keymap: Keymap, shift: bool, scancode: u8) -> Option<char> {
    match keymap {
        Keymap::EN => if shift {
            to_shift_ascii_of(scancode)
        } else {
            to_ascii_of(scancode)
        },
        Keymap::FR => if shift {
            to_shift_ascii_fr_of(scancode)
        } else {
            to_ascii_fr_of(scancode)
        },
    }
}

/// What one scancode yields.
///
/// A scancode that repeats the last one yields nothing. The shift keys
/// yield nothing. Enter yields a line feed, backspace the delete
/// character, F1 and F2 the keys that ask for a virtual terminal. Any
/// other key press yields the key of the layout; a release yields
/// nothing.
pub open spec fn decoded(keyboard: Keyboard, scancode: u8) -> Option<char> {
    if scancode == keyboard.last_scancode {
        None
    } else if scancode == SHIFT_LEFT || scancode == SHIFT_RIGHT || scancode == SHIFT_LEFT_RELEASE
        || scancode == SHIFT_RIGHT_RELEASE {
        None
    } else if scancode == 0x1C {
        Some('\n')
    } else if scancode == 0x0E {
        Some('\x7f')
    } else if scancode == 0x3B {
        Some(SWITCH_TO_FIRST)
    } else if scancode == 0x3C {
        Some(SWITCH_TO_SECOND)
    } else if scancode & 0x80 == 0 {
        key_of(keyboard.keymap, keyboard.shift_pressed, scancode)
    } else {
        None
    }
}

/// What the decoder remembers after one scancode: the scancode itself,
/// and the shift keys as they stand.
pub open spec fn advanced(keyboard: Keyboard, scancode: u8) -> Keyboard {
    if scancode == keyboard.last_scancode {
        keyboard
    } else {
        Keyboard {
            last_scancode: scancode,
            shift_pressed: if scancode == SHIFT_LEFT || scancode == SHIFT_RIGHT {
                true
            } else if scancode == SHIFT_LEFT_RELEASE || scancode == SHIFT_RIGHT_RELEASE {
                false
            } else {
                keyboard.shift_pressed
            },
            ..keyboard
        }
    }
}

impl Keyboard {
    /// A decoder on the English layout with no key held.
    pub fn new() -> (keyboard: Keyboard)
        ensures
            keyboard == (Keyboard { shift_pressed: false, last_scancode: 0, keymap: Keymap::EN }),
    {
        Keyboard { shift_pressed: false, last_scancode: 0, keymap: Keymap::EN }
    }

    /// Decodes the scancode that was read from the data port.
    pub fn read(&mut self, scancode: u8) -> (key: Option<char>)
        ensures
            key == decoded(*old(self), scancode),
            *final(self) == advanced(*old(self), scancode),
    {
        if scancode == self.last_scancode {
            return None;
        }
        self.last_scancode = scancode;
        if scancode == SHIFT_LEFT || scancode == SHIFT_RIGHT {
            self.shift_pressed = true;
            return None;
        }
        if scancode == SHIFT_LEFT_RELEASE || scancode == SHIFT_RIGHT_RELEASE {
            self.shift_pressed = false;
            return None;
        }
        if scancode == 0x1C {
            return Some('\n');
        }
        if scancode == 0x0E {
            return Some('\x7f');
        }
        if scancode == 0x3B {
            return Some(SWITCH_TO_FIRST);
        }
        if scancode == 0x3C {
            return Some(SWITCH_TO_SECOND);
        }
        if scancode & 0x80 == 0 {
            match self.keymap {
                Keymap::EN => if self.shift_pressed {
                    to_shift_ascii(scancode)
                } else {
                    to_ascii(scancode)
                },
                Keymap::FR => if self.shift_pressed {
                    to_shift_ascii_fr(scancode)
                } else {
                    to_ascii_fr(scancode)
                },
            }
        } else {
            None
        }
    }

    /// Changes to the other layout.
    pub fn toggle_keymap(&mut self)
        ensures
            *final(self) == (Keyboard {
                keymap: if old(self).keymap == Keymap::EN {
                    Keymap::FR
                } else {
                    Keymap::EN
                },
                ..*old(self)
            }),
    {
        self.keymap = match self.keymap {
            Keymap::EN => Keymap::FR,
            Keymap::FR => Keymap::EN,
        };
    }
}

} // verus!
