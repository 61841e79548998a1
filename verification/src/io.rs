//! The text screen, the keyboard and the shell.

pub mod hexdump;
pub mod keyboard;
pub mod shell;
pub mod vga_buffer;
