//! The interrupt descriptor table: 256 gates.

use vstd::prelude::*;

verus! {

/// Number of gates in the table.
pub const ENTRY_COUNT: usize = 256;

/// Attributes of a present 32-bit interrupt gate for ring 0.
pub const INTERRUPT_GATE: u8 = 0x8E;

/// Attributes of the trap descriptor that user mode may call.
pub const USER_GATE: u8 = 0xEE;

/// Vector of the timer interrupt.
pub const TIMER_VECTOR: usize = 0x20;

/// Vector of the keyboard interrupt.
pub const KEYBOARD_VECTOR: usize = 0x21;

/// Vector of the software trap.
pub const SYSCALL_VECTOR: usize = 0x80;

/// One gate, field by field as the CPU reads it.
#[derive(Debug, Clone, Copy, PartialEq, Eq, Structural)]
pub struct IdtEntry {
    pub isr_low: u16,
    pub kernel_cs: u16,
    pub reserved: u8,
    pub attributes: u8,
    pub isr_high: u16,
}

/// The descriptor that sends a vector to the routine at `isr`.
pub open spec fn gate(isr: usize, kernel_cs: u16, attr: u8) -> IdtEntry {
    IdtEntry {
        isr_low: (isr & 0x0000_FFFF) as u16,
        kernel_cs,
        reserved: 0,
        attributes: attr,
        isr_high: ((isr & 0xFFFF_0000) >> 16) as u16,
    }
}

impl IdtEntry {
    /// The low 32 bits of the address that the descriptor leads to.
    pub open spec fn target(&self) -> usize {
        (self.isr_low as usize) | ((self.isr_high as usize) << 16)
    }

    /// The privilege level a caller needs.
    pub open spec fn dpl(&self) -> u8 {
        (self.attributes >> 5) & 0x3
    }

    /// Whether the descriptor is marked present.
    pub open spec fn present(&self) -> bool {
        self.attributes & 0x80 != 0
    }

    pub fn new(isr: usize, kernel_cs: u16, attr: u8) -> (entry: IdtEntry)
        ensures
            entry == gate(isr, kernel_cs, attr),
            entry.target() == isr & 0xFFFF_FFFF,
    {
        let low = (isr & 0x0000_FFFF) as u16;
        let high = ((isr & 0xFFFF_0000) >> 16) as u16;
        assert((low as usize) | ((high as usize) << 16) == isr & 0xFFFF_FFFF) by (bit_vector)
            requires
                low == (isr & 0x0000_FFFF) as u16,
                high == ((isr & 0xFFFF_0000) >> 16) as u16,
        ;
        IdtEntry { isr_low: low, kernel_cs, reserved: 0, attributes: attr, isr_high: high }
    }

    /// The eight bytes of the descriptor in memory order.
    pub fn to_bytes(&self) -> (bytes: [u8; 8])
        ensures
            bytes[0] == self.isr_low & 0xFF,
            bytes[1] == self.isr_low >> 8,
            bytes[2] == self.kernel_cs & 0xFF,
            bytes[3] == self.kernel_cs >> 8,
            bytes[4] == self.reserved,
            bytes[5] == self.attributes,
            bytes[6] == self.isr_high & 0xFF,
            bytes[7] == self.isr_high >> 8,
    {
        let low = self.isr_low;
        let cs = self.kernel_cs;
        let high = self.isr_high;
        assert(low & 0xFF <= 0xFF && low >> 8 <= 0xFF && cs & 0xFF <= 0xFF && cs >> 8 <= 0xFF && high
            & 0xFF <= 0xFF && high >> 8 <= 0xFF) by (bit_vector);
        [
            (low & 0xFF) as u8,
            (low >> 8) as u8,
            (cs & 0xFF) as u8,
            (cs >> 8) as u8,
            self.reserved,
            self.attributes,
            (high & 0xFF) as u8,
            (high >> 8) as u8,
        ]
    }
}

/// The addresses of the routines that the kernel installs.
#[derive(Debug, Clone, Copy)]
pub struct Handlers {
    /// The routines of the CPU exceptions, by vector; vector 0x0F is
    /// reserved and its slot is not installed.
    pub exceptions: [usize; 21],
    pub timer: usize,
    pub keyboard: usize,
    pub syscall: usize,
}

/// The table.
pub struct Idt {
    pub entries: [IdtEntry; ENTRY_COUNT],
}

/// The descriptor that `set_idt` puts at `vector`, if it puts one there.
pub open spec fn installed(handlers: Handlers, vector: int) -> Option<IdtEntry> {
    if 0 <= vector <= 0x14 && vector != 0x0F {
        Some(gate(handlers.exceptions[vector], 0x08, INTERRUPT_GATE))
    } else if vector == TIMER_VECTOR {
        Some(gate(handlers.timer, 0x08, INTERRUPT_GATE))
    } else if vector == KEYBOARD_VECTOR {
        Some(gate(handlers.keyboard, 0x08, INTERRUPT_GATE))
    } else if vector == SYSCALL_VECTOR {
        Some(gate(handlers.syscall, 0x08, USER_GATE))
    } else {
        None
    }
}

impl Idt {
    /// A table of empty gates.
    pub fn new() -> (idt: Idt)
        ensures
            forall|i: int| 0 <= i < ENTRY_COUNT ==> idt.entries[i] == gate(0, 0, 0),
    {
        assert(0usize & 0x0000_FFFF == 0 && (0usize & 0xFFFF_0000) >> 16 == 0) by (bit_vector);
        Idt { entries: [IdtEntry::new(0, 0, 0); ENTRY_COUNT] }
    }

    pub fn set_entry(&mut self, index: usize, isr: usize, kernel_cs: u16, attributes: u8)
        requires
            index < ENTRY_COUNT,
        ensures
            final(self).entries@ == old(self).entries@.update(
                index as int,
                gate(isr, kernel_cs, attributes),
            ),
    {
        self.entries[index] = IdtEntry::new(isr, kernel_cs, attributes);
    }

    /// The limit that the table register takes: the table's size less one.
    pub fn descriptor_limit() -> (limit: u16)
        ensures
            limit == 8 * ENTRY_COUNT - 1,
    {
        2047
    }
}

/// Installs the kernel's gates: the CPU exceptions 0x00 to 0x14 without
/// the reserved 0x0F, the timer at 0x20 and the keyboard at 0x21 as
/// interrupt gates for ring 0, and the software trap at 0x80 as a gate
/// that ring 3 may call. Every other gate stays as it is.
pub fn set_idt(idt: &mut Idt, handlers: &Handlers)
    ensures
        forall|vector: int|
            0 <= vector < ENTRY_COUNT ==> #[trigger] final(idt).entries[vector] == match installed(
                *handlers,
                vector,
            ) {
                Some(entry) => entry,
                None => old(idt).entries[vector],
            },
{
    let mut vector: usize = 0;
    while vector <= 0x14
        invariant
            vector <= 0x15,
            forall|v: int|
                0 <= v < ENTRY_COUNT ==> #[trigger] idt.entries[v] == if v < vector && v != 0x0F {
                    gate(handlers.exceptions[v], 0x08, INTERRUPT_GATE)
                } else {
                    old(idt).entries[v]
                },
        decreases 0x15 - vector,
    {
        if vector != 0x0F {
            idt.set_entry(vector, handlers.exceptions[vector], 0x08, INTERRUPT_GATE);
        }
        vector += 1;
    }
    idt.set_entry(TIMER_VECTOR, handlers.timer, 0x08, INTERRUPT_GATE);
    idt.set_entry(KEYBOARD_VECTOR, handlers.keyboard, 0x08, INTERRUPT_GATE);
    idt.set_entry(SYSCALL_VECTOR, handlers.syscall, 0x08, USER_GATE);
}

} // verus!
