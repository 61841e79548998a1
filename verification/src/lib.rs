//! Memory management and interrupt plumbing of a 32-bit protected-mode x86
//! kernel, as plain data structures with machine-checked contracts.
//!
//! The crate holds no global state and touches no hardware: every operation
//! takes the structures it works on as arguments, in the order
//! allocator, directory, bitmap.

pub mod boot;
pub mod io;
pub mod keyboard;
pub mod memory;
pub mod sys;
