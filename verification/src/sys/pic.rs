//! The cascaded pair of 8259A interrupt controllers and the interval
//! timer, as the port writes that program them.

use vstd::prelude::*;

verus! {

/// First vector of the master controller after the remap.
pub const PIC_1_OFFSET: u8 = 0x20;

/// First vector of the slave controller after the remap.
pub const PIC_2_OFFSET: u8 = 0x28;

pub const CMD_INIT: u8 = 0x11;

pub const CMD_END_OF_INTERRUPT: u8 = 0x20;

pub const MODE_8086: u8 = 0x01;

/// The port whose write serves as a short delay.
pub const WAIT_PORT: u16 = 0x80;

/// Input frequency of the interval timer in Hz.
pub const BASE_FREQUENCY: u32 = 1193182;

/// The tick rate that the kernel programs, in Hz.
pub const DESIRED_FREQUENCY: u32 = 100;

/// One byte to be written to an I/O port.
#[derive(Debug, Clone, Copy, PartialEq, Eq, Structural)]
pub struct PortWrite {
    pub port: u16,
    pub value: u8,
}

/// One controller: its first vector and its two ports.
#[derive(Debug, Clone, Copy, PartialEq, Eq, Structural)]
pub struct Pic {
    pub offset: u8,
    pub command: u8,
    pub data: u8,
}

impl Pic {
    /// Whether the vector is one of the eight of this controller.
    pub open spec fn handles(&self, interrupt_id: u8) -> bool {
        self.offset <= interrupt_id && interrupt_id < self.offset + 8
    }

    pub fn handles_interrupt(&self, interrupt_id: u8) -> (handled: bool)
        ensures
            handled == self.handles(interrupt_id),
    {
        self.offset <= interrupt_id && (interrupt_id as u16) < self.offset as u16 + 8
    }

    /// The write that ends the interrupt in service.
    pub fn end_of_interrupt(&self) -> (write: PortWrite)
        ensures
            write == (PortWrite { port: self.command as u16, value: CMD_END_OF_INTERRUPT }),
    {
        PortWrite { port: self.command as u16, value: CMD_END_OF_INTERRUPT }
    }

    /// The write that sets the interrupt mask.
    pub fn write_mask(&self, mask: u8) -> (write: PortWrite)
        ensures
            write == (PortWrite { port: self.data as u16, value: mask }),
    {
        PortWrite { port: self.data as u16, value: mask }
    }

    /// The port from which the interrupt mask is read.
    pub fn mask_port(&self) -> (port: u16)
        ensures
            port == self.data,
    {
        self.data as u16
    }
}

/// The master controller and the slave behind it.
#[derive(Debug, Clone, Copy)]
pub struct ChainedPics {
    pub pics: [Pic; 2],
}

/// The writes that end interrupt `interrupt_id`: none if neither
/// controller handles it; else the slave first, if the interrupt came
/// through it, then the master.
pub open spec fn end_of_interrupt_writes(pics: ChainedPics, interrupt_id: u8) -> Seq<PortWrite> {
    let master = PortWrite { port: pics.pics[0].command as u16, value: CMD_END_OF_INTERRUPT };
    let slave = PortWrite { port: pics.pics[1].command as u16, value: CMD_END_OF_INTERRUPT };
    if pics.pics[1].handles(interrupt_id) {
        seq![slave, master]
    } else if pics.pics[0].handles(interrupt_id) {
        seq![master]
    } else {
        Seq::empty()
    }
}

/// The writes that remap both controllers and restore the saved masks:
/// the initialisation command, the vector offset, the cascade wiring and
/// the 8086 mode, each first to the master and then to the slave and each
/// followed by a write to the wait port; at last the two masks.
pub open spec fn initialize_writes(pics: ChainedPics, mask1: u8, mask2: u8) -> Seq<PortWrite> {
    let wait = PortWrite { port: WAIT_PORT, value: 0 };
    let m = pics.pics[0];
    let s = pics.pics[1];
    seq![
        PortWrite { port: m.command as u16, value: CMD_INIT },
        wait,
        PortWrite { port: s.command as u16, value: CMD_INIT },
        wait,
        PortWrite { port: m.data as u16, value: m.offset },
        wait,
        PortWrite { port: s.data as u16, value: s.offset },
        wait,
        PortWrite { port: m.data as u16, value: 4 },
        wait,
        PortWrite { port: s.data as u16, value: 2 },
        wait,
        PortWrite { port: m.data as u16, value: MODE_8086 },
        wait,
        PortWrite { port: s.data as u16, value: MODE_8086 },
        wait,
        PortWrite { port: m.data as u16, value: mask1 },
        PortWrite { port: s.data as u16, value: mask2 },
    ]
}

impl ChainedPics {
    /// The pair at the standard ports with the given vector offsets.
    pub fn new(offset1: u8, offset2: u8) -> (pics: ChainedPics)
        ensures
            pics.pics[0] == (Pic { offset: offset1, command: 0x20, data: 0x21 }),
            pics.pics[1] == (Pic { offset: offset2, command: 0xA0, data: 0xA1 }),
    {
        ChainedPics {
            pics: [
                Pic { offset: offset1, command: 0x20, data: 0x21 },
                Pic { offset: offset2, command: 0xA0, data: 0xA1 },
            ],
        }
    }

    /// The writes of the remap, to be issued in order; `mask1` and `mask2`
    /// are the masks read before.
    pub fn initialize(&self, mask1: u8, mask2: u8) -> (writes: Vec<PortWrite>)
        ensures
            writes@ == initialize_writes(*self, mask1, mask2),
    {
        let wait = PortWrite { port: WAIT_PORT, value: 0 };
        let m = self.pics[0];
        let s = self.pics[1];
        let mut writes: Vec<PortWrite> = Vec::new();
        writes.push(PortWrite { port: m.command as u16, value: CMD_INIT });
        writes.push(wait);
        writes.push(PortWrite { port: s.command as u16, value: CMD_INIT });
        writes.push(wait);
        writes.push(PortWrite { port: m.data as u16, value: m.offset });
        writes.push(wait);
        writes.push(PortWrite { port: s.data as u16, value: s.offset });
        writes.push(wait);
        writes.push(PortWrite { port: m.data as u16, value: 4 });
        writes.push(wait);
        writes.push(PortWrite { port: s.data as u16, value: 2 });
        writes.push(wait);
        writes.push(PortWrite { port: m.data as u16, value: MODE_8086 });
        writes.push(wait);
        writes.push(PortWrite { port: s.data as u16, value: MODE_8086 });
        writes.push(wait);
        let masks = self.write_masks(mask1, mask2);
        writes.push(masks[0]);
        writes.push(masks[1]);
        assert(writes@ =~= initialize_writes(*self, mask1, mask2));
        writes
    }

    /// The ports from which the two masks are read, master first.
    pub fn read_masks(&self) -> (ports: [u16; 2])
        ensures
            ports[0] == self.pics[0].data,
            ports[1] == self.pics[1].data,
    {
        [self.pics[0].mask_port(), self.pics[1].mask_port()]
    }

    /// The writes that set the two masks, master first.
    pub fn write_masks(&self, mask1: u8, mask2: u8) -> (writes: [PortWrite; 2])
        ensures
            writes[0] == (PortWrite { port: self.pics[0].data as u16, value: mask1 }),
            writes[1] == (PortWrite { port: self.pics[1].data as u16, value: mask2 }),
    {
        [self.pics[0].write_mask(mask1), self.pics[1].write_mask(mask2)]
    }

    /// The writes that mask every line of both controllers.
    pub fn disable(&self) -> (writes: [PortWrite; 2])
        ensures
            writes[0] == (PortWrite { port: self.pics[0].data as u16, value: 0xFF }),
            writes[1] == (PortWrite { port: self.pics[1].data as u16, value: 0xFF }),
    {
        self.write_masks(u8::MAX, u8::MAX)
    }

    pub fn handles_interrupt(&self, interrupt_id: u8) -> (handled: bool)
        ensures
            handled == (self.pics[0].handles(interrupt_id) || self.pics[1].handles(interrupt_id)),
    {
        self.pics[0].handles_interrupt(interrupt_id) || self.pics[1].handles_interrupt(interrupt_id)
    }

    /// The writes that acknowledge interrupt `interrupt_id`.
    pub fn notify_end_of_interrupt(&self, interrupt_id: u8) -> (writes: Vec<PortWrite>)
        ensures
            writes@ == end_of_interrupt_writes(*self, interrupt_id),
    {
        let mut writes: Vec<PortWrite> = Vec::new();
        if self.handles_interrupt(interrupt_id) {
            if self.pics[1].handles_interrupt(interrupt_id) {
                writes.push(self.pics[1].end_of_interrupt());
            }
            writes.push(self.pics[0].end_of_interrupt());
        }
        assert(writes@ =~= end_of_interrupt_writes(*self, interrupt_id));
        writes
    }
}

/// The writes that program channel 0 of the interval timer to `frequency`
/// ticks a second: the mode byte, then the low and the high byte of the
/// divisor, which is the base frequency divided by `frequency`.
pub fn configure_pit(frequency: u32) -> (writes: [PortWrite; 3])
    requires
        frequency > 0,
    ensures
        writes[0] == (PortWrite { port: 0x43, value: 0x36 }),
        writes[1].port == 0x40,
        writes[2].port == 0x40,
        writes[1].value == (BASE_FREQUENCY / frequency) % 0x100,
        writes[2].value == (BASE_FREQUENCY / frequency) / 0x100 % 0x100,
{
    let divisor = BASE_FREQUENCY / frequency;
    let low = divisor & 0xFF;
    let high = (divisor >> 8) & 0xFF;
    assert(low == divisor % 0x100 && high == divisor / 0x100 % 0x100) by (bit_vector)
        requires
            low == divisor & 0xFF,
            high == (divisor >> 8) & 0xFF,
    ;
    [
        PortWrite { port: 0x43, value: 0x36 },
        PortWrite { port: 0x40, value: low as u8 },
        PortWrite { port: 0x40, value: high as u8 },
    ]
}

} // verus!
