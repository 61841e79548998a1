//! The scancode tables of the English layout.

use vstd::prelude::*;

verus! {

/// The key of a scancode on the English layout without shift.
pub open spec fn to_ascii_of(scancode: u8) -> Option<char> {
    match scancode {
        0x02 => Some('1'),
        0x03 => Some('2'),
        0x04 => Some('3'),
        0x05 => Some('4'),
        0x06 => Some('5'),
        0x07 => Some('6'),
        0x08 => Some('7'),
        0x09 => Some('8'),
        0x0A => Some('9'),
        0x0B => Some('0'),
        0x0C => Some('-'),
        0x0D => Some('='),
        0x10 => Some('q'),
        0x11 => Some('w'),
        0x12 => Some('e'),
        0x13 => Some('r'),
        0x14 => Some('t'),
        0x15 => Some('y'),
        0x16 => Some('u'),
        0x17 => Some('i'),
        0x18 => Some('o'),
        0x19 => Some('p'),
        0x1A => Some('['),
        0x1B => Some(']'),
        0x1E => Some('a'),
        0x1F => Some('s'),
        0x20 => Some('d'),
        0x21 => Some('f'),
        0x22 => Some('g'),
        0x23 => Some('h'),
        0x24 => Some('j'),
        0x25 => Some('k'),
        0x26 => Some('l'),
        0x27 => Some(';'),
        0x28 => Some('\''),
        0x2B => Some('\\'),
        0x2C => Some('z'),
        0x2D => Some('x'),
        0x2E => Some('c'),
        0x2F => Some('v'),
        0x30 => Some('b'),
        0x31 => Some('n'),
        0x32 => Some('m'),
        0x33 => Some(','),
        0x34 => Some('.'),
        0x35 => Some('/'),
        0x39 => Some(' '),
        _ => None,
    }
}

/// The key of a scancode on the English layout without shift.
pub fn to_ascii(scancode: u8) -> (key: Option<char>)
    ensures
        key == to_ascii_of(scancode),
{
    match scancode {
        0x02 => Some('1'),
        0x03 => Some('2'),
        0x04 => Some('3'),
        0x05 => Some('4'),
        0x06 => Some('5'),
        0x07 => Some('6'),
        0x08 => Some('7'),
        0x09 => Some('8'),
        0x0A => Some('9'),
        0x0B => Some('0'),
        0x0C => Some('-'),
        0x0D => Some('='),
        0x10 => Some('q'),
        0x11 => Some('w'),
        0x12 => Some('e'),
        0x13 => Some('r'),
        0x14 => Some('t'),
        0x15 => Some('y'),
        0x16 => Some('u'),
        0x17 => Some('i'),
        0x18 => Some('o'),
        0x19 => Some('p'),
        0x1A => Some('['),
        0x1B => Some(']'),
        0x1E => Some('a'),
        0x1F => Some('s'),
        0x20 => Some('d'),
        0x21 => Some('f'),
        0x22 => Some('g'),
        0x23 => Some('h'),
        0x24 => Some('j'),
        0x25 => Some('k'),
        0x26 => Some('l'),
        0x27 => Some(';'),
        0x28 => Some('\''),
        0x2B => Some('\\'),
        0x2C => Some('z'),
        0x2D => Some('x'),
        0x2E => Some('c'),
        0x2F => Some('v'),
        0x30 => Some('b'),
        0x31 => Some('n'),
        0x32 => Some('m'),
        0x33 => Some(','),
        0x34 => Some('.'),
        0x35 => Some('/'),
        0x39 => Some(' '),
        _ => None,
    }
}

/// The key of a scancode on the English layout with shift.
pub open spec fn to_shift_ascii_of(scancode: u8) -> Option<char> {
    match scancode {
        0x02 => Some('!'),
        0x03 => Some('@'),
        0x04 => Some('#'),
        0x05 => Some('$'),
        0x06 => Some('%'),
        0x07 => Some('^'),
        0x08 => Some('&'),
        0x09 => Some('*'),
        0x0A => Some('('),
        0x0B => Some(')'),
        0x0C => Some('_'),
        0x0D => Some('+'),
        0x10 => Some('Q'),
        0x11 => Some('W'),
        0x12 => Some('E'),
        0x13 => Some('R'),
        0x14 => Some('T'),
        0x15 => Some('Y'),
        0x16 => Some('U'),
        0x17 => Some('I'),
        0x18 => Some('O'),
        0x19 => Some('P'),
        0x1A => Some('{'),
        0x1B => Some('}'),
        0x1E => Some('A'),
        0x1F => Some('S'),
        0x20 => Some('D'),
        0x21 => Some('F'),
        0x22 => Some('G'),
        0x23 => Some('H'),
        0x24 => Some('J'),
        0x25 => Some('K'),
        0x26 => Some('L'),
        0x27 => Some(':'),
        0x28 => Some('"'),
        0x2B => Some('|'),
        0x2C => Some('Z'),
        0x2D => Some('X'),
        0x2E => Some('C'),
        0x2F => Some('V'),
        0x30 => Some('B'),
        0x31 => Some('N'),
        0x32 => Some('M'),
        0x33 => Some('<'),
        0x34 => Some('>'),
        0x35 => Some('?'),
        0x39 => Some(' '),
        _ => None,
    }
}

/// The key of a scancode on the English layout with shift.
pub fn to_shift_ascii(scancode: u8) -> (key: Option<char>)
    ensures
        key == to_shift_ascii_of(scancode),
{
    match scancode {
        0x02 => Some('!'),
        0x03 => Some('@'),
        0x04 => Some('#'),
        0x05 => Some('$'),
        0x06 => Some('%'),
        0x07 => Some('^'),
        0x08 => Some('&'),
        0x09 => Some('*'),
        0x0A => Some('('),
        0x0B => Some(')'),
        0x0C => Some('_'),
        0x0D => Some('+'),
        0x10 => Some('Q'),
        0x11 => Some('W'),
        0x12 => Some('E'),
        0x13 => Some('R'),
        0x14 => Some('T'),
        0x15 => Some('Y'),
        0x16 => Some('U'),
        0x17 => Some('I'),
        0x18 => Some('O'),
        0x19 => Some('P'),
        0x1A => Some('{'),
        0x1B => Some('}'),
        0x1E => Some('A'),
        0x1F => Some('S'),
        0x20 => Some('D'),
        0x21 => Some('F'),
        0x22 => Some('G'),
        0x23 => Some('H'),
        0x24 => Some('J'),
        0x25 => Some('K'),
        0x26 => Some('L'),
        0x27 => Some(':'),
        0x28 => Some('"'),
        0x2B => Some('|'),
        0x2C => Some('Z'),
        0x2D => Some('X'),
        0x2E => Some('C'),
        0x2F => Some('V'),
        0x30 => Some('B'),
        0x31 => Some('N'),
        0x32 => Some('M'),
        0x33 => Some('<'),
        0x34 => Some('>'),
        0x35 => Some('?'),
        0x39 => Some(' '),
        _ => None,
    }
}

} // verus!
