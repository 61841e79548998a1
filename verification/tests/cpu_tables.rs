use kfs::memory::paging::{PageDirectory as RawDirectory, PageFault, PageTable as RawTable};
use kfs::sys::gdt::{Gdt, GdtEntry};
use kfs::sys::idt::{set_idt, Handlers, Idt, IdtEntry};
use kfs::sys::interrupts::{
    is_enabled, pushes_error_code, timer_interrupt_handler, IntStackFrame, InterruptIndex, Ticks,
};
use kfs::sys::pic::{configure_pit, ChainedPics, Pic, PortWrite, PIC_1_OFFSET, PIC_2_OFFSET};
use kfs::sys::string::{append, atoi, find_byte, substring_between};

#[test]
fn gdt_entry_packs_base_limit_and_flags() {
    let e = GdtEntry::new(0x1234_5678, 0xABCDE, 0x9A, 0xC);
    assert_eq!(e.base_low, 0x5678);
    assert_eq!(e.base_middle, 0x34);
    assert_eq!(e.base_high, 0x12);
    assert_eq!(e.limit_low, 0xBCDE);
    assert_eq!(e.granularity, 0xCA);
    assert_eq!(e.access, 0x9A);
    assert_eq!(e.to_bytes(), [0xDE, 0xBC, 0x78, 0x56, 0x34, 0x9A, 0xCA, 0x12]);
}

#[test]
fn gdt_has_seven_flat_segments() {
    let gdt = Gdt::new();
    let entries = gdt.entries();
    assert_eq!(entries[0].to_bytes(), [0; 8]);
    let access = [0x00, 0x9A, 0x92, 0x92, 0xFA, 0xF2, 0xF2];
    for i in 1..7 {
        assert_eq!(entries[i].to_bytes(), [0xFF, 0xFF, 0, 0, 0, access[i], 0xCF, 0]);
    }
    assert_eq!(gdt.user_code_segment.access >> 5 & 3, 3);
    assert_eq!(gdt.kernel_code_segment.access >> 5 & 3, 0);
    assert_eq!(Gdt::descriptor_limit(), 55);
}

#[test]
fn idt_entry_splits_the_handler_address() {
    let e = IdtEntry::new(0x0012_3456, 0x08, 0x8E);
    assert_eq!(e.isr_low, 0x3456);
    assert_eq!(e.isr_high, 0x0012);
    assert_eq!(e.kernel_cs, 0x08);
    assert_eq!(e.reserved, 0);
    assert_eq!(e.attributes, 0x8E);
    assert_eq!(e.to_bytes(), [0x56, 0x34, 0x08, 0x00, 0x00, 0x8E, 0x12, 0x00]);
}

#[test]
fn set_idt_installs_the_kernel_vectors() {
    let mut exceptions = [0usize; 21];
    for (i, slot) in exceptions.iter_mut().enumerate() {
        *slot = 0x10_0000 + 0x100 * i;
    }
    let handlers = Handlers { exceptions, timer: 0x20_0000, keyboard: 0x21_0000, syscall: 0x80_0000 };
    let mut idt = Idt::new();
    set_idt(&mut idt, &handlers);
    for v in 0..=0x14usize {
        if v == 0x0F {
            assert_eq!(idt.entries[v], IdtEntry::new(0, 0, 0));
        } else {
            assert_eq!(idt.entries[v], IdtEntry::new(0x10_0000 + 0x100 * v, 0x08, 0x8E));
        }
    }
    assert_eq!(idt.entries[0x15], IdtEntry::new(0, 0, 0));
    assert_eq!(idt.entries[0x20], IdtEntry::new(0x20_0000, 0x08, 0x8E));
    assert_eq!(idt.entries[0x21], IdtEntry::new(0x21_0000, 0x08, 0x8E));
    assert_eq!(idt.entries[0x22], IdtEntry::new(0, 0, 0));
    assert_eq!(idt.entries[0x80], IdtEntry::new(0x80_0000, 0x08, 0xEE));
    assert_eq!(idt.entries[0x80].attributes >> 5 & 3, 3);
    assert_eq!(idt.entries[0xFF], IdtEntry::new(0, 0, 0));
    assert_eq!(Idt::descriptor_limit(), 2047);
    idt.set_entry(0xFF, 0xDEAD_BEEF, 0x10, 0x8F);
    assert_eq!(idt.entries[0xFF].isr_low, 0xBEEF);
    assert_eq!(idt.entries[0xFF].isr_high, 0xDEAD);
}

#[test]
fn pic_handles_eight_vectors_each() {
    let pics = ChainedPics::new(PIC_1_OFFSET, PIC_2_OFFSET);
    assert!(!pics.handles_interrupt(0x1F));
    assert!(pics.handles_interrupt(0x20));
    assert!(pics.handles_interrupt(0x27));
    assert!(pics.handles_interrupt(0x28));
    assert!(pics.handles_interrupt(0x2F));
    assert!(!pics.handles_interrupt(0x30));
    assert!(pics.pics[0].handles_interrupt(0x27) && !pics.pics[0].handles_interrupt(0x28));
    let high = Pic { offset: 250, command: 0x20, data: 0x21 };
    assert!(high.handles_interrupt(255) && !high.handles_interrupt(249));
}

#[test]
fn end_of_interrupt_goes_to_the_slave_first() {
    let pics = ChainedPics::new(0x20, 0x28);
    assert_eq!(pics.notify_end_of_interrupt(0x21), vec![PortWrite { port: 0x20, value: 0x20 }]);
    assert_eq!(
        pics.notify_end_of_interrupt(0x2C),
        vec![PortWrite { port: 0xA0, value: 0x20 }, PortWrite { port: 0x20, value: 0x20 }]
    );
    assert_eq!(pics.notify_end_of_interrupt(0x30), vec![]);
}

#[test]
fn pic_remap_sequence() {
    let pics = ChainedPics::new(0x20, 0x28);
    let w = pics.initialize(0xB8, 0x8E);
    let wait = PortWrite { port: 0x80, value: 0 };
    let expected = vec![
        PortWrite { port: 0x20, value: 0x11 },
        wait,
        PortWrite { port: 0xA0, value: 0x11 },
        wait,
        PortWrite { port: 0x21, value: 0x20 },
        wait,
        PortWrite { port: 0xA1, value: 0x28 },
        wait,
        PortWrite { port: 0x21, value: 4 },
        wait,
        PortWrite { port: 0xA1, value: 2 },
        wait,
        PortWrite { port: 0x21, value: 1 },
        wait,
        PortWrite { port: 0xA1, value: 1 },
        wait,
        PortWrite { port: 0x21, value: 0xB8 },
        PortWrite { port: 0xA1, value: 0x8E },
    ];
    assert_eq!(w, expected);
    assert_eq!(pics.read_masks(), [0x21, 0xA1]);
    assert_eq!(
        pics.disable(),
        [PortWrite { port: 0x21, value: 0xFF }, PortWrite { port: 0xA1, value: 0xFF }]
    );
}

#[test]
fn pit_divisor_for_one_hundred_hertz() {
    // 1193182 / 100 = 11931 = 0x2E9B.
    assert_eq!(
        configure_pit(100),
        [
            PortWrite { port: 0x43, value: 0x36 },
            PortWrite { port: 0x40, value: 0x9B },
            PortWrite { port: 0x40, value: 0x2E },
        ]
    );
    // Below 19 Hz the divisor has more than 16 bits; its low 16 are written.
    let slow = configure_pit(1);
    assert_eq!(slow[1].value, (1193182u32 & 0xFF) as u8);
    assert_eq!(slow[2].value, ((1193182u32 >> 8) & 0xFF) as u8);
}

#[test]
fn interrupt_vectors() {
    assert_eq!(InterruptIndex::DivByZero.vector(), 0);
    assert_eq!(InterruptIndex::Breakpoint.vector(), 3);
    assert_eq!(InterruptIndex::PageFault.vector(), 0x0E);
    assert_eq!(InterruptIndex::ControlProtectionException.vector(), 0x15);
    assert_eq!(InterruptIndex::Timer.vector(), 0x20);
    assert_eq!(InterruptIndex::Keyboard.vector(), 0x21);
    for v in 0..=255u8 {
        match InterruptIndex::from_vector(v) {
            Some(i) => assert_eq!(i.vector(), v),
            None => assert!(v > 0x15 && v != 0x20 && v != 0x21),
        }
    }
}

#[test]
fn breakpoint_returns_and_every_other_exception_halts() {
    assert!(!InterruptIndex::Breakpoint.halts());
    assert!(InterruptIndex::PageFault.halts());
    assert!(InterruptIndex::DivByZero.halts());
    assert!(InterruptIndex::GeneralProtectionFault.halts());
}

#[test]
fn interrupt_flag_is_bit_nine() {
    assert!(is_enabled(0x202));
    assert!(!is_enabled(0x002));
    assert!(!is_enabled(0x100));
    let frame = IntStackFrame { eip: 0x10_0000, cs: 8, eflags: 0x202, esp: 0, ss: 0x10 };
    assert!(is_enabled(frame.eflags));
}

#[test]
fn ticks_count_up_and_never_down() {
    let mut ticks = Ticks::new();
    let mut last = ticks.get();
    for _ in 0..500 {
        ticks.tick();
        assert!(ticks.get() >= last);
        last = ticks.get();
    }
    assert_eq!(ticks.get(), 500);
    assert_eq!(ticks.uptime(), 5);
    let mut full = Ticks { count: usize::MAX };
    full.tick();
    assert_eq!(full.get(), usize::MAX);
}

#[test]
fn timer_interrupt_counts_and_acknowledges() {
    let mut ticks = Ticks::new();
    let pics = ChainedPics::new(0x20, 0x28);
    let writes = timer_interrupt_handler(&mut ticks, &pics);
    assert_eq!(ticks.get(), 1);
    assert_eq!(writes, vec![PortWrite { port: 0x20, value: 0x20 }]);
}

#[test]
fn substring_between_finds_the_first_pair() {
    assert_eq!(substring_between(b"\x1b[12;m", 0x1b, b'm'), Some(&b"[12;"[..]));
    assert_eq!(substring_between(b"a[b]c[d]", b'[', b']'), Some(&b"b"[..]));
    assert_eq!(substring_between(b"[]", b'[', b']'), Some(&b""[..]));
    assert_eq!(substring_between(b"][", b'[', b']'), None);
    assert_eq!(substring_between(b"abc", b'[', b']'), None);
    assert_eq!(substring_between(b"a[bc", b'[', b']'), None);
    assert_eq!(substring_between(b"xaxbx", b'x', b'x'), Some(&b"a"[..]));
    assert_eq!(find_byte(b"hello", b'l', 0), 2);
    assert_eq!(find_byte(b"hello", b'l', 3), 3);
    assert_eq!(find_byte(b"hello", b'z', 0), 5);
}

#[test]
fn atoi_reads_decimal_numbers() {
    assert_eq!(atoi(b"0"), Ok(0));
    assert_eq!(atoi(b"15"), Ok(15));
    assert_eq!(atoi(b"007"), Ok(7));
    assert_eq!(atoi(b"4096"), Ok(4096));
    assert_eq!(atoi(b""), Ok(0));
    assert_eq!(atoi(b"-1"), Err("Negative numbers are not supported for usize"));
    assert_eq!(atoi(b"-"), Err("Negative numbers are not supported for usize"));
    assert_eq!(atoi(b"12a"), Err("Invalid character"));
    assert_eq!(atoi(b" 1"), Err("Invalid character"));
    assert_eq!(atoi(b"+1"), Err("Invalid character"));
    assert_eq!(atoi(b"1-"), Err("Invalid character"));
}

#[test]
fn append_copies_where_it_fits() {
    let mut buffer = [0u8; 14000];
    append(b"abc", &mut buffer, 0);
    append(b"de", &mut buffer, 3);
    assert_eq!(&buffer[..6], b"abcde\0");
    append(b"xyz", &mut buffer, 13998);
    assert_eq!(&buffer[13996..], [0, 0, 0, 0]);
    append(b"xy", &mut buffer, 13998);
    assert_eq!(&buffer[13996..], [0, 0, b'x', b'y']);
    append(b"q", &mut buffer, 14000);
    append(b"", &mut buffer, 14000);
    assert_eq!(&buffer[..5], b"abcde");
}

#[test]
fn raw_walk_needs_both_entries_present() {
    let mut directory = RawDirectory::new();
    let mut table = RawTable::new();
    assert_eq!(directory.translate(0x0040_1234, &table), None);
    directory.entry[1] = 0x0001_0003;
    assert_eq!(directory.translate(0x0040_1234, &table), None);
    table.entry[1] = 0x0022_F003;
    assert_eq!(directory.translate(0x0040_1234, &table), Some(0x0022_F234));
    assert_eq!(directory.translate(0x0040_2234, &table), None);
    table.entry[1] = 0x0022_F002;
    assert_eq!(directory.translate(0x0040_1234, &table), None);
    table.entry[1023] = 0xFFFF_F007;
    directory.entry[1023] = 0x1;
    assert_eq!(directory.translate(0xFFFF_FFFF, &table), Some(0xFFFF_FFFF));
    assert_ne!(PageFault::DemandPaging, PageFault::ProtectionViolation);
    assert_ne!(PageFault::InvalidMemoryAccess, PageFault::ProtectionViolation);
}

#[test]
fn vectors_that_carry_an_error_code() {
    let with_code: [u8; 8] = [0x08, 0x0A, 0x0B, 0x0C, 0x0D, 0x0E, 0x11, 0x15];
    for vector in 0..=255u8 {
        assert_eq!(pushes_error_code(vector), with_code.contains(&vector), "vector {}", vector);
    }
    assert!(pushes_error_code(InterruptIndex::PageFault.vector()));
    assert!(pushes_error_code(InterruptIndex::DoubleFault.vector()));
    assert!(!pushes_error_code(InterruptIndex::Breakpoint.vector()));
    assert!(!pushes_error_code(InterruptIndex::Timer.vector()));
}
