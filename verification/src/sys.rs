//! Boot information and the tables and controllers of the CPU.

pub mod gdt;
pub mod idt;
pub mod interrupts;
pub mod multiboot;
pub mod pic;
pub mod string;
