//! The two-level walk on raw 32-bit entry words, and the kinds of page
//! fault.

use vstd::prelude::*;

verus! {

/// Number of entries in a directory or table page.
pub const ENTRY_COUNT: usize = 1024;

/// Size of a page in bytes.
pub const PAGE_SIZE: usize = 4096;

/// First and last address of the user part of the address space.
pub const USER_SPACE_LOW: u32 = 0x0000_0000;

pub const USER_SPACE_HIGH: u32 = 0xBFFF_FFFF;

/// First and last address of the kernel part of the address space.
pub const KERNEL_SPACE_LOW: u32 = 0xC000_0000;

pub const KERNEL_SPACE_HIGH: u32 = 0xFFFF_FFFF;

/// Why a page fault came about.
#[derive(Debug, Clone, Copy, PartialEq, Eq, Structural)]
pub enum PageFault {
    /// The page is not loaded.
    DemandPaging,
    /// The address is out of range or not mapped.
    InvalidMemoryAccess,
    /// The access breaks the protection of the page.
    ProtectionViolation,
}

/// A directory page as 1024 raw words.
pub struct PageDirectory {
    pub entry: [u32; ENTRY_COUNT],
}

/// A table page as 1024 raw words.
pub struct PageTable {
    pub entry: [u32; ENTRY_COUNT],
}

/// The physical address that the walk yields for `va`, with `table` the
/// page table behind the directory slot of `va`: none unless both the
/// directory entry and the table entry are present.
pub open spec fn walk(directory: Seq<u32>, table: Seq<u32>, va: u32) -> Option<u32> {
    let pdi = (va >> 22) & 0x3FF;
    let pti = (va >> 12) & 0x3FF;
    if directory[pdi as int] & 0x1 == 0 || table[pti as int] & 0x1 == 0 {
        None
    } else {
        Some(((table[pti as int] & 0xFFFF_F000) + (va & 0xFFF)) as u32)
    }
}

impl PageDirectory {
    /// A directory without any entry present.
    pub fn new() -> (directory: PageDirectory)
        ensures
            forall|i: int| 0 <= i < ENTRY_COUNT ==> directory.entry[i] == 0,
    {
        PageDirectory { entry: [0u32; ENTRY_COUNT] }
    }

    /// Translates `virtual_address` through this directory and the page
    /// table that its slot names.
    pub fn translate(&self, virtual_address: u32, page_table: &PageTable) -> (physical: Option<u32>)
        ensures
            physical == walk(self.entry@, page_table.entry@, virtual_address),
    {
        let pdi = (virtual_address >> 22) & 0x3FF;
        let pti = (virtual_address >> 12) & 0x3FF;
        let offset = virtual_address & 0xFFF;
        assert(pdi < 1024 && pti < 1024 && offset <= 0xFFF) by (bit_vector)
            requires
                pdi == (virtual_address >> 22) & 0x3FF,
                pti == (virtual_address >> 12) & 0x3FF,
                offset == virtual_address & 0xFFF,
        ;
        if self.entry[pdi as usize] & 0x1 == 0 {
            return None;
        }
        if page_table.entry[pti as usize] & 0x1 == 0 {
            return None;
        }
        let word = page_table.entry[pti as usize];
        let frame = word & 0xFFFF_F000;
        assert(frame <= 0xFFFF_F000) by (bit_vector)
            requires
                frame == word & 0xFFFF_F000,
        ;
        Some(frame + offset)
    }
}

impl PageTable {
    /// A table without any entry present.
    pub fn new() -> (table: PageTable)
        ensures
            forall|i: int| 0 <= i < ENTRY_COUNT ==> table.entry[i] == 0,
    {
        PageTable { entry: [0u32; ENTRY_COUNT] }
    }
}

} // verus!
