//! The plain decoder of the English layout and the start-up of the
//! keyboard controller.

use vstd::prelude::*;
use crate::keyboard::keymap::{to_ascii, to_ascii_of, to_shift_ascii, to_shift_ascii_of};
use crate::sys::pic::PortWrite;

verus! {

pub const KEYBOARD_STATUS_PORT: u16 = 0x64;

pub const KEYBOARD_DATA_PORT: u16 = 0x60;

pub const SHIFT_LEFT: u8 = 0x2A;

pub const SHIFT_RIGHT: u8 = 0x36;

pub const SHIFT_LEFT_RELEASE: u8 = 0xAA;

pub const SHIFT_RIGHT_RELEASE: u8 = 0xB6;

/// The two writes of the start-up: the command that enables the first
/// port, and, once the output buffer is drained, the command that starts
/// scanning.
pub fn init() -> (writes: [PortWrite; 2])
    ensures
        writes[0] == (PortWrite { port: KEYBOARD_STATUS_PORT, value: 0xAE }),
        writes[1] == (PortWrite { port: KEYBOARD_DATA_PORT, value: 0xF4 }),
{
    [
        PortWrite { port: KEYBOARD_STATUS_PORT, value: 0xAE },
        PortWrite { port: KEYBOARD_DATA_PORT, value: 0xF4 },
    ]
}

/// Whether the status byte says that the output buffer holds a byte that
/// has to be read away.
pub fn output_buffer_full(status: u8) -> (full: bool)
    ensures
        full == (status & 0x01 != 0),
{
    status & 0x01 != 0
}

/// Decodes one scancode: the shift keys set and clear `shift` and yield
/// no key; a key press yields the key of the English layout; a release
/// yields nothing.
pub fn read(shift: &mut bool, scancode: u8) -> (key: Option<char>)
    ensures
        *final(shift) == if scancode == SHIFT_LEFT || scancode == SHIFT_RIGHT {
            true
        } else if scancode == SHIFT_LEFT_RELEASE || scancode == SHIFT_RIGHT_RELEASE {
            false
        } else {
            *old(shift)
        },
        key == if scancode == SHIFT_LEFT || scancode == SHIFT_RIGHT || scancode & 0x80 != 0 {
            None
        } else if *old(shift) {
            to_shift_ascii_of(scancode)
        } else {
            to_ascii_of(scancode)
        },
{
    assert(SHIFT_LEFT_RELEASE & 0x80 != 0 && SHIFT_RIGHT_RELEASE & 0x80 != 0) by (bit_vector);
    if scancode == SHIFT_LEFT || scancode == SHIFT_RIGHT {
        *shift = true;
        return None;
    }
    if scancode == SHIFT_LEFT_RELEASE || scancode == SHIFT_RIGHT_RELEASE {
        *shift = false;
        return None;
    }
    if scancode & 0x80 == 0 {
        if *shift {
            to_shift_ascii(scancode)
        } else {
            to_ascii(scancode)
        }
    } else {
        None
    }
}

} // verus!
