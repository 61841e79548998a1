//! The global descriptor table: seven flat segments over the whole 4 GiB.

use vstd::prelude::*;

verus! {

/// Physical address at which the boot convention places the table.
pub const GDT_ADDRESS: usize = 0x0000_0800;

/// Selector of the kernel code segment.
pub const KERNEL_CODE_SELECTOR: u16 = 0x08;

/// Selector of the kernel data segment.
pub const KERNEL_DATA_SELECTOR: u16 = 0x10;

/// One segment descriptor, field by field as the CPU reads it.
#[derive(Debug, Clone, Copy, PartialEq, Eq, Structural)]
pub struct GdtEntry {
    pub limit_low: u16,
    pub base_low: u16,
    pub base_middle: u8,
    pub access: u8,
    pub granularity: u8,
    pub base_high: u8,
}

/// The descriptor that encodes `base`, the low 20 bits of `limit`, the
/// access byte and the low four bits of `gran` as the flags nibble.
pub open spec fn encode(base: u32, limit: u32, access: u8, gran: u8) -> GdtEntry {
    GdtEntry {
        limit_low: (limit & 0xFFFF) as u16,
        base_low: (base & 0xFFFF) as u16,
        base_middle: ((base >> 16) & 0xFF) as u8,
        access,
        granularity: (((limit >> 16) & 0x0F) as u8) | (gran << 4),
        base_high: ((base >> 24) & 0xFF) as u8,
    }
}

impl GdtEntry {
    /// The segment base that the descriptor encodes.
    pub open spec fn base(&self) -> u32 {
        (self.base_low as u32) | ((self.base_middle as u32) << 16) | ((self.base_high as u32) << 24)
    }

    /// The 20-bit segment limit that the descriptor encodes.
    pub open spec fn limit(&self) -> u32 {
        (self.limit_low as u32) | (((self.granularity & 0x0F) as u32) << 16)
    }

    /// The flags nibble: granularity and operand size.
    pub open spec fn flags(&self) -> u8 {
        self.granularity >> 4
    }

    /// The privilege level that the access byte grants.
    pub open spec fn dpl(&self) -> u8 {
        (self.access >> 5) & 0x3
    }

    pub fn new(base: u32, limit: u32, access: u8, gran: u8) -> (entry: GdtEntry)
        ensures
            entry == encode(base, limit, access, gran),
            entry.base() == base,
            entry.limit() == limit & 0xF_FFFF,
            entry.flags() == gran & 0x0F,
    {
        let entry = GdtEntry {
            base_low: (base & 0xFFFF) as u16,
            base_middle: ((base >> 16) & 0xFF) as u8,
            base_high: ((base >> 24) & 0xFF) as u8,
            limit_low: (limit & 0xFFFF) as u16,
            access,
            granularity: (((limit >> 16) & 0x0F) as u8) | (gran << 4),
        };
        proof {
            let low = (base & 0xFFFF) as u16;
            let middle = ((base >> 16) & 0xFF) as u8;
            let high = ((base >> 24) & 0xFF) as u8;
            assert((low as u32) | ((middle as u32) << 16) | ((high as u32) << 24) == base)
                by (bit_vector)
                requires
                    low == (base & 0xFFFF) as u16,
                    middle == ((base >> 16) & 0xFF) as u8,
                    high == ((base >> 24) & 0xFF) as u8,
            ;
            let limit_low = (limit & 0xFFFF) as u16;
            let granularity = (((limit >> 16) & 0x0F) as u8) | (gran << 4);
            assert((limit_low as u32) | (((granularity & 0x0F) as u32) << 16) == limit & 0xF_FFFF
                && granularity >> 4 == gran & 0x0F) by (bit_vector)
                requires
                    limit_low == (limit & 0xFFFF) as u16,
                    granularity == (((limit >> 16) & 0x0F) as u8) | (gran << 4),
            ;
        }
        entry
    }

    /// The eight bytes of the descriptor in memory order.
    pub fn to_bytes(&self) -> (bytes: [u8; 8])
        ensures
            bytes[0] == self.limit_low & 0xFF,
            bytes[1] == self.limit_low >> 8,
            bytes[2] == self.base_low & 0xFF,
            bytes[3] == self.base_low >> 8,
            bytes[4] == self.base_middle,
            bytes[5] == self.access,
            bytes[6] == self.granularity,
            bytes[7] == self.base_high,
    {
        let limit_low = self.limit_low;
        let base_low = self.base_low;
        assert(limit_low & 0xFF <= 0xFF && limit_low >> 8 <= 0xFF && base_low & 0xFF <= 0xFF
            && base_low >> 8 <= 0xFF) by (bit_vector);
        [
            (limit_low & 0xFF) as u8,
            (limit_low >> 8) as u8,
            (base_low & 0xFF) as u8,
            (base_low >> 8) as u8,
            self.base_middle,
            self.access,
            self.granularity,
            self.base_high,
        ]
    }
}

/// The table: the null segment, then code, data and stack for the kernel
/// and for user mode.
#[derive(Debug, Clone, Copy, PartialEq, Eq, Structural)]
pub struct Gdt {
    pub null_segment: GdtEntry,
    pub kernel_code_segment: GdtEntry,
    pub kernel_data_segment: GdtEntry,
    pub kernel_stack_segment: GdtEntry,
    pub user_code_segment: GdtEntry,
    pub user_data_segment: GdtEntry,
    pub user_stack_segment: GdtEntry,
}

/// Whether a descriptor spans the whole 4 GiB: base 0, limit 0xFFFFF in
/// units of 4 KiB, 32-bit.
pub open spec fn is_flat(entry: GdtEntry) -> bool {
    entry.base() == 0 && entry.limit() == 0xF_FFFF && entry.flags() == 0xC
}

impl Gdt {
    pub fn new() -> (gdt: Gdt)
        ensures
            gdt.null_segment == encode(0, 0, 0, 0),
            gdt.kernel_code_segment == encode(0, 0xF_FFFF, 0x9A, 0xC),
            gdt.kernel_data_segment == encode(0, 0xF_FFFF, 0x92, 0xC),
            gdt.kernel_stack_segment == encode(0, 0xF_FFFF, 0x92, 0xC),
            gdt.user_code_segment == encode(0, 0xF_FFFF, 0xFA, 0xC),
            gdt.user_data_segment == encode(0, 0xF_FFFF, 0xF2, 0xC),
            gdt.user_stack_segment == encode(0, 0xF_FFFF, 0xF2, 0xC),
            is_flat(gdt.kernel_code_segment),
            is_flat(gdt.kernel_data_segment),
            is_flat(gdt.kernel_stack_segment),
            is_flat(gdt.user_code_segment),
            is_flat(gdt.user_data_segment),
            is_flat(gdt.user_stack_segment),
            gdt.kernel_code_segment.dpl() == 0,
            gdt.kernel_data_segment.dpl() == 0,
            gdt.kernel_stack_segment.dpl() == 0,
            gdt.user_code_segment.dpl() == 3,
            gdt.user_data_segment.dpl() == 3,
            gdt.user_stack_segment.dpl() == 3,
    {
        assert(0xF_FFFFu32 & 0xF_FFFF == 0xF_FFFF && 0xCu8 & 0x0F == 0xC && (0x9Au8 >> 5) & 0x3 == 0
            && (0x92u8 >> 5) & 0x3 == 0 && (0xFAu8 >> 5) & 0x3 == 3 && (0xF2u8 >> 5) & 0x3 == 3)
            by (bit_vector);
        Gdt {
            null_segment: GdtEntry::new(0, 0, 0, 0),
            kernel_code_segment: GdtEntry::new(0x0, 0xFFFFF, 0x9A, 0xC),
            kernel_data_segment: GdtEntry::new(0x0, 0xFFFFF, 0x92, 0xC),
            kernel_stack_segment: GdtEntry::new(0x0, 0xFFFFF, 0x92, 0xC),
            user_code_segment: GdtEntry::new(0x0, 0xFFFFF, 0xFA, 0xC),
            user_data_segment: GdtEntry::new(0x0, 0xFFFFF, 0xF2, 0xC),
            user_stack_segment: GdtEntry::new(0x0, 0xFFFFF, 0xF2, 0xC),
        }
    }

    /// The segments in table order.
    pub fn entries(&self) -> (entries: [GdtEntry; 7])
        ensures
            entries[0] == self.null_segment,
            entries[1] == self.kernel_code_segment,
            entries[2] == self.kernel_data_segment,
            entries[3] == self.kernel_stack_segment,
            entries[4] == self.user_code_segment,
            entries[5] == self.user_data_segment,
            entries[6] == self.user_stack_segment,
    {
        [
            self.null_segment,
            self.kernel_code_segment,
            self.kernel_data_segment,
            self.kernel_stack_segment,
            self.user_code_segment,
            self.user_data_segment,
            self.user_stack_segment,
        ]
    }

    /// The limit that the table register takes: the table's size less one.
    pub fn descriptor_limit() -> (limit: u16)
        ensures
            limit == 7 * 8 - 1,
    {
        55
    }
}

} // verus!
