//! The PS/2 keyboard: scancode tables and the plain decoder.

pub mod keyboard;
pub mod keymap;
pub mod keymap_fr;
