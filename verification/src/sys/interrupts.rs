//! Interrupt vectors, the frame that the CPU pushes, and the tick counter.

use vstd::prelude::*;
use crate::sys::pic::{ChainedPics, PortWrite, end_of_interrupt_writes};

verus! {

/// The vectors that the kernel names.
#[derive(Debug, Clone, Copy, PartialEq, Eq, Structural)]
pub enum InterruptIndex {
    DivByZero,
    SingleStepInt,
    Nmi,
    Breakpoint,
    Overflow,
    BoundRangeExceed,
    InvOpcode,
    CoprocNotAvail,
    DoubleFault,
    CoprocSegmentOverrun,
    InvTSS,
    SegmentNotPresent,
    StackSegmentFault,
    GeneralProtectionFault,
    PageFault,
    Reserved,
    FloatPointException,
    AlignmentCheck,
    MachineCheck,
    SIMDFloatingPointException,
    VirtualizationException,
    ControlProtectionException,
    Timer,
    Keyboard,
}

/// The vector number of each name.
pub open spec fn vector_of(index: InterruptIndex) -> u8 {
    match index {
        InterruptIndex::DivByZero => 0x00,
        InterruptIndex::SingleStepInt => 0x01,
        InterruptIndex::Nmi => 0x02,
        InterruptIndex::Breakpoint => 0x03,
        InterruptIndex::Overflow => 0x04,
        InterruptIndex::BoundRangeExceed => 0x05,
        InterruptIndex::InvOpcode => 0x06,
        InterruptIndex::CoprocNotAvail => 0x07,
        InterruptIndex::DoubleFault => 0x08,
        InterruptIndex::CoprocSegmentOverrun => 0x09,
        InterruptIndex::InvTSS => 0x0A,
        InterruptIndex::SegmentNotPresent => 0x0B,
        InterruptIndex::StackSegmentFault => 0x0C,
        InterruptIndex::GeneralProtectionFault => 0x0D,
        InterruptIndex::PageFault => 0x0E,
        InterruptIndex::Reserved => 0x0F,
        InterruptIndex::FloatPointException => 0x10,
        InterruptIndex::AlignmentCheck => 0x11,
        InterruptIndex::MachineCheck => 0x12,
        InterruptIndex::SIMDFloatingPointException => 0x13,
        InterruptIndex::VirtualizationException => 0x14,
        InterruptIndex::ControlProtectionException => 0x15,
        InterruptIndex::Timer => 0x20,
        InterruptIndex::Keyboard => 0x21,
    }
}

/// Whether the CPU pushes an error code when it raises `vector`: for the
/// double fault, the invalid TSS, the segment that is not present, the
/// stack segment fault, the general protection fault, the page fault,
/// the alignment check and the control protection exception.
pub open spec fn has_error_code(vector: u8) -> bool {
    vector == 0x08 || (0x0A <= vector <= 0x0E) || vector == 0x11 || vector == 0x15
}

/// Whether the routine of `vector` finds an error code above the frame
/// that the CPU pushed.
pub fn pushes_error_code(vector: u8) -> (pushes: bool)
    ensures
        pushes == has_error_code(vector),
{
    match vector {
        0x08 | 0x0A | 0x0B | 0x0C | 0x0D | 0x0E | 0x11 | 0x15 => true,
        _ => false,
    }
}

impl InterruptIndex {
    /// The vector number.
    pub fn vector(&self) -> (vector: u8)
        ensures
            vector == vector_of(*self),
    {
        match self {
            InterruptIndex::DivByZero => 0x00,
            InterruptIndex::SingleStepInt => 0x01,
            InterruptIndex::Nmi => 0x02,
            InterruptIndex::Breakpoint => 0x03,
            InterruptIndex::Overflow => 0x04,
            InterruptIndex::BoundRangeExceed => 0x05,
            InterruptIndex::InvOpcode => 0x06,
            InterruptIndex::CoprocNotAvail => 0x07,
            InterruptIndex::DoubleFault => 0x08,
            InterruptIndex::CoprocSegmentOverrun => 0x09,
            InterruptIndex::InvTSS => 0x0A,
            InterruptIndex::SegmentNotPresent => 0x0B,
            InterruptIndex::StackSegmentFault => 0x0C,
            InterruptIndex::GeneralProtectionFault => 0x0D,
            InterruptIndex::PageFault => 0x0E,
            InterruptIndex::Reserved => 0x0F,
            InterruptIndex::FloatPointException => 0x10,
            InterruptIndex::AlignmentCheck => 0x11,
            InterruptIndex::MachineCheck => 0x12,
            InterruptIndex::SIMDFloatingPointException => 0x13,
            InterruptIndex::VirtualizationException => 0x14,
            InterruptIndex::ControlProtectionException => 0x15,
            InterruptIndex::Timer => 0x20,
            InterruptIndex::Keyboard => 0x21,
        }
    }

    /// The name of a vector, where it has one.
    pub fn from_vector(vector: u8) -> (index: Option<InterruptIndex>)
        ensures
            match index {
                Some(i) => vector_of(i) == vector,
                None => forall|i: InterruptIndex| vector_of(i) != vector,
            },
    {
        match vector {
            0x00 => Some(InterruptIndex::DivByZero),
            0x01 => Some(InterruptIndex::SingleStepInt),
            0x02 => Some(InterruptIndex::Nmi),
            0x03 => Some(InterruptIndex::Breakpoint),
            0x04 => Some(InterruptIndex::Overflow),
            0x05 => Some(InterruptIndex::BoundRangeExceed),
            0x06 => Some(InterruptIndex::InvOpcode),
            0x07 => Some(InterruptIndex::CoprocNotAvail),
            0x08 => Some(InterruptIndex::DoubleFault),
            0x09 => Some(InterruptIndex::CoprocSegmentOverrun),
            0x0A => Some(InterruptIndex::InvTSS),
            0x0B => Some(InterruptIndex::SegmentNotPresent),
            0x0C => Some(InterruptIndex::StackSegmentFault),
            0x0D => Some(InterruptIndex::GeneralProtectionFault),
            0x0E => Some(InterruptIndex::PageFault),
            0x0F => Some(InterruptIndex::Reserved),
            0x10 => Some(InterruptIndex::FloatPointException),
            0x11 => Some(InterruptIndex::AlignmentCheck),
            0x12 => Some(InterruptIndex::MachineCheck),
            0x13 => Some(InterruptIndex::SIMDFloatingPointException),
            0x14 => Some(InterruptIndex::VirtualizationException),
            0x15 => Some(InterruptIndex::ControlProtectionException),
            0x20 => Some(InterruptIndex::Timer),
            0x21 => Some(InterruptIndex::Keyboard),
            _ => None,
        }
    }

    /// Whether the handler of this exception halts the machine after its
    /// report: every one does but the breakpoint, which returns.
    pub fn halts(&self) -> (halts: bool)
        ensures
            halts == (*self != InterruptIndex::Breakpoint),
    {
        match self {
            InterruptIndex::Breakpoint => false,
            _ => true,
        }
    }
}

/// What the CPU pushes before it enters a handler.
#[derive(Debug, Clone, Copy, PartialEq, Eq, Structural)]
pub struct IntStackFrame {
    pub eip: u32,
    pub cs: u32,
    pub eflags: u32,
    pub esp: u32,
    pub ss: u32,
}

/// Whether the interrupt flag is set in a value of `eflags`.
pub fn is_enabled(eflags: u32) -> (enabled: bool)
    ensures
        enabled == (eflags & 0x200 != 0),
{
    (eflags & 0x200) != 0
}

/// The count of timer interrupts since boot. It never goes down: at the
/// largest value it stays.
#[derive(Debug, Clone, Copy, PartialEq, Eq, Structural)]
pub struct Ticks {
    pub count: usize,
}

impl View for Ticks {
    type V = nat;

    open spec fn view(&self) -> nat {
        self.count as nat
    }
}

impl Ticks {
    pub fn new() -> (ticks: Ticks)
        ensures
            ticks@ == 0,
    {
        Ticks { count: 0 }
    }

    /// Counts one timer interrupt.
    pub fn tick(&mut self)
        ensures
            final(self)@ == if old(self)@ < usize::MAX {
                old(self)@ + 1
            } else {
                old(self)@
            },
            final(self)@ >= old(self)@,
    {
        if self.count < usize::MAX {
            self.count += 1;
        }
    }

    pub fn get(&self) -> (count: usize)
        ensures
            count == self@,
    {
        self.count
    }

    /// Whole seconds since boot at 100 ticks a second.
    pub fn uptime(&self) -> (seconds: usize)
        ensures
            seconds == self@ / 100,
    {
        self.count / 100
    }
}

/// What the timer interrupt does: it counts the tick and acknowledges the
/// interrupt at the controllers. The writes are the caller's to issue.
pub fn timer_interrupt_handler(ticks: &mut Ticks, pics: &ChainedPics) -> (writes: Vec<PortWrite>)
    ensures
        final(ticks)@ >= old(ticks)@,
        final(ticks)@ == if old(ticks)@ < usize::MAX {
            old(ticks)@ + 1
        } else {
            old(ticks)@
        },
        writes@ == end_of_interrupt_writes(*pics, 0x20),
{
    ticks.tick();
    pics.notify_end_of_interrupt(InterruptIndex::Timer.vector())
}

} // verus!
