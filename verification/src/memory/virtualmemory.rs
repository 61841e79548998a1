//! Two-level paging: the page directory, its page tables and the recursive
//! self-map through the last directory entry.
//!
//! A `PageDirectory` holds the directory page and the memory of the 1024
//! page tables it can refer to, one per directory slot. Hardware is not
//! touched here: loading `cr3`, setting `cr0.PG` and `invlpg` are the
//! caller's part.

use vstd::prelude::*;
use crate::memory::physicalmemory::{PhysicalMemory, PhysicalMemoryError, N_FRAMES};

verus! {

/// Physical address of the frame that holds the page directory.
pub const PDA: usize = 0x21000;

/// Number of entries in a page directory and in a page table.
pub const ENTRY_COUNT: usize = 1024;

/// First virtual address of the recursive window: the last 4 MiB.
pub const RECURSIVE_WINDOW: usize = 0xFFC0_0000;

/// Virtual address at which the directory itself appears once the
/// recursive entry is in place.
pub const RECURSIVE_DIRECTORY: usize = 0xFFFF_F000;

/// Directory slot of the recursive entry.
pub const RECURSIVE_SLOT: usize = 1023;

/// Whether the present bit of an entry word is set.
pub open spec fn word_present(word: usize) -> bool {
    word & 0x1 != 0
}

/// The frame base that an entry word carries in its top 20 bits.
pub open spec fn word_frame(word: usize) -> usize {
    word & 0xFFFF_F000
}

/// Directory slot of a virtual address.
pub open spec fn dir_index(va: int) -> int {
    va / 0x40_0000
}

/// Table slot of a virtual address.
pub open spec fn table_index(va: int) -> int {
    (va / 0x1000) % 1024
}

/// Why a page operation was refused.
#[derive(Debug, Clone, Copy, PartialEq, Eq, Structural)]
pub enum PagingError {
    /// The frame bitmap refused; the value says why.
    Frame(PhysicalMemoryError),
    /// The page already has a present table entry.
    AlreadyMapped,
    /// The page has no present table entry.
    NotMapped,
    /// The address lies in the recursive window or beyond the 4 GiB space.
    Reserved,
}

/// A page table entry: frame base in the top 20 bits, flags in the low 12.
#[derive(Debug, Clone, Copy, PartialEq, Eq, Structural)]
pub struct PageTableEntry(pub usize);

impl PageTableEntry {
    pub fn new(address: usize, flags: usize) -> (entry: PageTableEntry)
        requires
            address % 0x1000 == 0,
        ensures
            entry.0 == address | flags,
    {
        PageTableEntry(address | flags)
    }

    pub fn is_present(&self) -> (present: bool)
        ensures
            present == word_present(self.0),
    {
        self.0 & 0x1 != 0
    }

    pub fn page_frame_address(&self) -> (address: usize)
        ensures
            address == word_frame(self.0),
    {
        self.0 & 0xFFFF_F000
    }
}

/// The 1024 entries of one page table.
pub struct PageTable {
    pub entries: [PageTableEntry; ENTRY_COUNT],
}

impl PageTable {
    /// A table without any mapping.
    pub fn new() -> (table: PageTable)
        ensures
            forall|j: int| 0 <= j < ENTRY_COUNT ==> table.entries[j].0 == 0,
    {
        PageTable { entries: [PageTableEntry(0); ENTRY_COUNT] }
    }

    pub fn ref_table(&self) -> (entries: &[PageTableEntry; ENTRY_COUNT])
        ensures
            *entries == self.entries,
    {
        &self.entries
    }

    /// Zeroes every entry.
    pub fn clear(&mut self)
        ensures
            forall|j: int| 0 <= j < ENTRY_COUNT ==> final(self).entries[j].0 == 0,
    {
        let mut i: usize = 0;
        while i < ENTRY_COUNT
            invariant
                i <= ENTRY_COUNT,
                forall|j: int| 0 <= j < i ==> self.entries[j].0 == 0,
            decreases ENTRY_COUNT - i,
        {
            self.entries[i] = PageTableEntry(0);
            i += 1;
        }
    }

    pub fn set_entry(&mut self, index: usize, address: usize, flags: usize)
        requires
            index < ENTRY_COUNT,
            address % 0x1000 == 0,
        ensures
            final(self).entries@ == old(self).entries@.update(
                index as int,
                PageTableEntry(address | flags),
            ),
    {
        self.entries[index] = PageTableEntry::new(address, flags);
    }
}

/// A page directory entry: the frame of a page table and flags.
#[derive(Debug, Clone, Copy, PartialEq, Eq, Structural)]
pub struct PageDirectoryEntry(pub usize);

impl PageDirectoryEntry {
    pub fn new(address: usize, flags: usize) -> (entry: PageDirectoryEntry)
        requires
            address % 0x1000 == 0,
        ensures
            entry.0 == address | flags,
    {
        PageDirectoryEntry(address | flags)
    }

    pub fn page_table_address(&self) -> (address: usize)
        ensures
            address == word_frame(self.0),
    {
        self.0 & 0xFFFF_F000
    }

    pub fn is_present(&self) -> (present: bool)
        ensures
            present == word_present(self.0),
    {
        self.0 & 0x1 != 0
    }
}

/// The page directory with the page tables behind it.
pub struct PageDirectory {
    entries: [PageDirectoryEntry; ENTRY_COUNT],
    tables: Vec<PageTable>,
    frame: usize,
    recursive: bool,
}

pub proof fn lemma_split_address(va: usize)
    by (bit_vector)
    ensures
        va >> 22 == va / 0x40_0000,
        (va & 0x3F_F000) >> 12 == (va / 0x1000) % 1024,
        (va >> 12) & 0x3FF == (va / 0x1000) % 1024,
        va & 0xFFF == va % 0x1000,
        (va & 0x3F_F000) >> 12 < 1024,
        va < 0xFFC0_0000 ==> va >> 22 < 1023,
        va & 0xFFF == 0 <==> va % 0x1000 == 0,
{
}

/// An aligned frame base below 4 GiB joined with flags of 12 bits keeps
/// both apart.
pub proof fn lemma_entry_word(address: usize, flags: usize)
    by (bit_vector)
    requires
        address % 0x1000 == 0,
    ensures
        ((address | flags) & 0x1 != 0) == (flags & 0x1 != 0),
        address <= 0xFFFF_FFFF && flags <= 0xFFF ==> (address | flags) & 0xFFFF_F000 == address,
        (address | 0x3) & 0x1 != 0,
        (address | 0x7) & 0x1 != 0,
        0usize & 0x1 == 0,
        (0usize | 0usize) == 0,
        address <= 0xFFFF_FFFF && flags <= 0xFFF ==> (address | flags) == ((address | flags)
            & 0xFFFF_F000) | flags,
{
}

/// The frame base of an entry word is aligned and lies below 4 GiB, and
/// joined with flags that hold the present bit it makes a present entry.
pub proof fn lemma_word_frame(word: usize)
    by (bit_vector)
    ensures
        (word & 0xFFFF_F000) % 0x1000 == 0,
        word & 0xFFFF_F000 <= 0xFFFF_F000,
        ((word & 0xFFFF_F000) | 0x3) & 0x1 != 0,
        ((word & 0xFFFF_F000) | 0x7) & 0x1 != 0,
{
}

impl PageDirectory {
    /// Every page table slot exists, the directory's frame is a frame
    /// below 4 GiB, and the page table slot behind the last directory
    /// entry, which no page operation reaches, is empty.
    pub closed spec fn wf(&self) -> bool {
        &&& self.tables.len() == ENTRY_COUNT
        &&& self.frame % 0x1000 == 0
        &&& self.frame <= 0xFFFF_F000
        &&& forall|j: int|
            0 <= j < ENTRY_COUNT ==> (#[trigger] self.tables[RECURSIVE_SLOT as int].entries[j]).0
                == 0
    }

    /// No page of the recursive window has a table entry of its own.
    pub proof fn lemma_last_table_empty(&self)
        requires
            self.wf(),
        ensures
            forall|j: int| 0 <= j < ENTRY_COUNT ==> self.pte(RECURSIVE_SLOT as int, j) == 0,
    {
    }

    /// What well-formedness says of the directory's frame.
    pub proof fn lemma_frame_aligned(&self)
        requires
            self.wf(),
        ensures
            self.frame() % 0x1000 == 0,
            self.frame() <= 0xFFFF_F000,
    {
    }

    /// The word in directory slot `i`.
    pub closed spec fn pde(&self, i: int) -> usize {
        self.entries[i].0
    }

    /// The word in slot `j` of the page table behind directory slot `i`.
    pub closed spec fn pte(&self, i: int, j: int) -> usize {
        self.tables[i].entries[j].0
    }

    /// Physical address of the frame that holds the directory.
    pub closed spec fn frame(&self) -> usize {
        self.frame
    }

    /// Whether page tables are reached through the recursive window.
    pub closed spec fn recursive(&self) -> bool {
        self.recursive
    }

    /// The table entry word of page number `page`.
    pub open spec fn page_word(&self, page: int) -> usize {
        self.pte(page / 1024, page % 1024)
    }

    /// Whether the directory slot of page number `page` is present.
    pub open spec fn has_table(&self, page: int) -> bool {
        word_present(self.pde(page / 1024))
    }

    /// Whether page number `page` can be mapped without a new page table:
    /// its directory entry is present and its table entry is not.
    pub open spec fn mappable(&self, page: int) -> bool {
        word_present(self.pde(page / 1024)) && !word_present(self.page_word(page))
    }

    /// Whether the last directory entry is present and points at the
    /// directory's own frame.
    pub open spec fn self_mapped(&self) -> bool {
        word_present(self.pde(RECURSIVE_SLOT as int)) && word_frame(self.pde(RECURSIVE_SLOT as int))
            == self.frame()
    }

    /// The table entry word that the two-level walk reaches for `va`, if
    /// the directory entry on the way is present. Through a self-mapped
    /// last slot the directory itself is read as the page table.
    pub open spec fn walk(&self, va: int) -> Option<usize> {
        if 0 <= va <= 0xFFFF_FFFF && word_present(self.pde(dir_index(va))) {
            if dir_index(va) == RECURSIVE_SLOT && self.self_mapped() {
                Some(self.pde(table_index(va)))
            } else {
                Some(self.pte(dir_index(va), table_index(va)))
            }
        } else {
            None
        }
    }

    /// Whether `va` lies in a page with a present table entry.
    pub open spec fn maps(&self, va: int) -> bool {
        self.walk(va) matches Some(word) && word_present(word)
    }

    /// The physical address that `va` translates to.
    pub open spec fn translate_spec(&self, va: int) -> Option<int> {
        match self.walk(va) {
            Some(word) => if word_present(word) {
                Some(word_frame(word) + va % 0x1000)
            } else {
                None
            },
            None => None,
        }
    }

    /// Two directories that agree on every word and on their own place.
    pub open spec fn same_words(&self, other: &PageDirectory) -> bool {
        &&& forall|i: int| 0 <= i < ENTRY_COUNT ==> self.pde(i) == other.pde(i)
        &&& forall|i: int, j: int|
            0 <= i < ENTRY_COUNT && 0 <= j < ENTRY_COUNT ==> self.pte(i, j) == other.pte(i, j)
        &&& self.frame() == other.frame()
        &&& self.recursive() == other.recursive()
    }

    /// A directory in the frame at `frame` with no entry present and all
    /// page tables zeroed, addressed physically.
    pub fn new(frame: usize) -> (dir: PageDirectory)
        requires
            frame % 0x1000 == 0,
            frame <= 0xFFFF_F000,
        ensures
            dir.wf(),
            dir.frame() == frame,
            !dir.recursive(),
            forall|i: int| 0 <= i < ENTRY_COUNT ==> dir.pde(i) == 0,
            forall|i: int, j: int| 0 <= i < ENTRY_COUNT && 0 <= j < ENTRY_COUNT ==> dir.pte(i, j) == 0,
    {
        let mut tables: Vec<PageTable> = Vec::new();
        let mut i: usize = 0;
        while i < ENTRY_COUNT
            invariant
                i <= ENTRY_COUNT,
                tables.len() == i,
                forall|a: int, b: int|
                    0 <= a < i && 0 <= b < ENTRY_COUNT ==> (#[trigger] tables[a].entries[b]).0 == 0,
            decreases ENTRY_COUNT - i,
        {
            tables.push(PageTable::new());
            i += 1;
        }
        PageDirectory { entries: [PageDirectoryEntry(0); ENTRY_COUNT], tables, frame, recursive: false }
    }

    pub fn ref_dir(&self) -> (entries: &[PageDirectoryEntry; ENTRY_COUNT])
        ensures
            forall|i: int| 0 <= i < ENTRY_COUNT ==> entries[i].0 == self.pde(i),
    {
        &self.entries
    }

    /// The page table behind directory slot `index`.
    pub fn ref_table(&self, index: usize) -> (table: &PageTable)
        requires
            self.wf(),
            index < ENTRY_COUNT,
        ensures
            forall|j: int| 0 <= j < ENTRY_COUNT ==> table.entries[j].0 == self.pte(index as int, j),
    {
        &self.tables[index]
    }

    /// Physical address of the directory's frame.
    pub fn frame_address(&self) -> (address: usize)
        ensures
            address == self.frame(),
    {
        self.frame
    }

    /// Whether the directory is addressed through the recursive window.
    pub fn is_recursive(&self) -> (recursive: bool)
        ensures
            recursive == self.recursive(),
    {
        self.recursive
    }

    /// The address at which the directory page itself is reached.
    pub fn address(&self) -> (address: usize)
        ensures
            address == if self.recursive() {
                RECURSIVE_DIRECTORY
            } else {
                self.frame()
            },
    {
        if self.recursive {
            RECURSIVE_DIRECTORY
        } else {
            self.frame
        }
    }

    /// Zeroes every directory entry.
    pub fn clear(&mut self)
        ensures
            forall|i: int| 0 <= i < ENTRY_COUNT ==> final(self).pde(i) == 0,
            forall|i: int, j: int|
                0 <= i < ENTRY_COUNT && 0 <= j < ENTRY_COUNT ==> final(self).pte(i, j) == old(self).pte(
                    i,
                    j,
                ),
            final(self).frame() == old(self).frame(),
            final(self).recursive() == old(self).recursive(),
            final(self).wf() == old(self).wf(),
    {
        let mut i: usize = 0;
        while i < ENTRY_COUNT
            invariant
                i <= ENTRY_COUNT,
                forall|j: int| 0 <= j < i ==> self.entries[j].0 == 0,
                self.tables == old(self).tables,
                self.frame == old(self).frame,
                self.recursive == old(self).recursive,
            decreases ENTRY_COUNT - i,
        {
            self.entries[i] = PageDirectoryEntry(0);
            i += 1;
        }
    }

    /// The address at which the page table of directory slot `offset` is
    /// reached: inside the recursive window once that is in use, else the
    /// frame that the entry names.
    pub fn table_address_add(&self, offset: usize) -> (address: usize)
        requires
            offset < ENTRY_COUNT,
        ensures
            address == if self.recursive() {
                0xFFC0_0000 + offset * 0x1000
            } else {
                word_frame(self.pde(offset as int)) as int
            },
    {
        if self.recursive {
            assert(offset << 12 == offset * 0x1000) by (bit_vector)
                requires
                    offset < 1024,
            ;
            0xFFC0_0000usize + (offset << 12)
        } else {
            self.entries[offset].page_table_address()
        }
    }

    /// Writes directory slot `index`.
    pub fn set_entry(&mut self, index: usize, address: usize, flags: usize)
        requires
            index < ENTRY_COUNT,
            address % 0x1000 == 0,
        ensures
            final(self).pde(index as int) == address | flags,
            forall|i: int| 0 <= i < ENTRY_COUNT && i != index ==> final(self).pde(i) == old(self).pde(i),
            forall|i: int, j: int|
                0 <= i < ENTRY_COUNT && 0 <= j < ENTRY_COUNT ==> final(self).pte(i, j) == old(self).pte(
                    i,
                    j,
                ),
            final(self).frame() == old(self).frame(),
            final(self).recursive() == old(self).recursive(),
            final(self).wf() == old(self).wf(),
    {
        self.entries[index] = PageDirectoryEntry::new(address, flags);
    }

    /// Switches between physical addressing of the page tables and
    /// addressing through the recursive window.
    pub fn set_recursive(&mut self, recursive: bool)
        ensures
            final(self).recursive() == recursive,
            forall|i: int| 0 <= i < ENTRY_COUNT ==> final(self).pde(i) == old(self).pde(i),
            forall|i: int, j: int|
                0 <= i < ENTRY_COUNT && 0 <= j < ENTRY_COUNT ==> final(self).pte(i, j) == old(self).pte(
                    i,
                    j,
                ),
            final(self).frame() == old(self).frame(),
            final(self).wf() == old(self).wf(),
    {
        self.recursive = recursive;
    }

    /// Whether directory slot `i` is present and names the frame `frame`
    /// as its page table.
    pub open spec fn table_at(&self, i: int, frame: int) -> bool {
        word_present(self.pde(i)) && word_frame(self.pde(i)) as int == frame * 0x1000
    }

    /// Whether page number `page` is mapped to the frame `frame`.
    pub open spec fn page_at(&self, page: int, frame: int) -> bool {
        self.has_table(page) && word_present(self.page_word(page)) && word_frame(
            self.page_word(page),
        ) as int == frame * 0x1000
    }

    /// Whether a present entry refers to `frame`, as a page table or as
    /// the frame of a page.
    pub open spec fn refers_to(&self, frame: int) -> bool {
        ||| exists|i: int| 0 <= i < ENTRY_COUNT && #[trigger] self.table_at(i, frame)
        ||| exists|page: int| 0 <= page < N_FRAMES && #[trigger] self.page_at(page, frame)
    }

    /// No frame that the bitmap holds free is referred to by a present
    /// entry.
    pub open spec fn consistent(&self, bitmap: &PhysicalMemory) -> bool {
        forall|frame: int| #[trigger] self.refers_to(frame) ==> bitmap@.contains(frame)
    }

    /// No frame is mapped by two pages, and no page table is mapped as a
    /// page.
    pub open spec fn exclusive(&self) -> bool {
        &&& forall|p: int, q: int, frame: int|
            0 <= p < N_FRAMES && 0 <= q < N_FRAMES && #[trigger] self.page_at(p, frame)
                && #[trigger] self.page_at(q, frame) ==> p == q
        &&& forall|i: int, page: int, frame: int|
            0 <= i < ENTRY_COUNT && 0 <= page < N_FRAMES ==> !(#[trigger] self.table_at(i, frame)
                && #[trigger] self.page_at(page, frame))
    }

    /// The entry word that a read of four bytes at `va` yields, where `va`
    /// translates into the directory's own frame.
    pub open spec fn read_directory_through(&self, va: int) -> Option<usize> {
        match self.translate_spec(va) {
            Some(pa) => if self.frame() <= pa < self.frame() + 0x1000 && (pa - self.frame()) % 4
                == 0 {
                Some(self.pde((pa - self.frame()) / 4))
            } else {
                None
            },
            None => None,
        }
    }

    /// What a page operation leaves when it writes `word` into the table
    /// entry of `va`: with `table` the directory entry of `va` was absent
    /// and now names that fresh, zeroed table; without it the directory
    /// page is untouched. Nothing else differs.
    pub open spec fn entry_written(
        &self,
        post: &PageDirectory,
        va: int,
        word: usize,
        table: Option<usize>,
    ) -> bool {
        let i = dir_index(va);
        let j = table_index(va);
        &&& post.wf()
        &&& post.frame() == self.frame()
        &&& post.recursive() == self.recursive()
        &&& forall|a: int| 0 <= a < ENTRY_COUNT && a != i ==> post.pde(a) == self.pde(a)
        &&& post.pde(i) == match table {
            Some(frame) => frame | 0x3,
            None => self.pde(i),
        }
        &&& forall|a: int, b: int|
            0 <= a < ENTRY_COUNT && 0 <= b < ENTRY_COUNT && a != i ==> post.pte(a, b) == self.pte(a, b)
        &&& forall|b: int|
            0 <= b < ENTRY_COUNT && b != j ==> post.pte(i, b) == if table is Some {
                0
            } else {
                self.pte(i, b)
            }
        &&& post.pte(i, j) == word
    }

    /// What mapping `pages` pages in a row leaves: page `n` of the run,
    /// counted from `va`, holds the frame `n` pages after `pa` joined with
    /// `flags`; the directory page and every other table entry are
    /// untouched.
    pub open spec fn run_mapped(
        &self,
        post: &PageDirectory,
        va: int,
        pa: int,
        pages: int,
        flags: usize,
    ) -> bool {
        &&& post.wf()
        &&& post.frame() == self.frame()
        &&& post.recursive() == self.recursive()
        &&& forall|a: int| 0 <= a < ENTRY_COUNT ==> post.pde(a) == self.pde(a)
        &&& forall|page: int|
            0 <= page < N_FRAMES ==> #[trigger] post.page_word(page) == if va / 0x1000 <= page < va
                / 0x1000 + pages {
                ((pa + (page - va / 0x1000) * 0x1000) as usize) | flags
            } else {
                self.page_word(page)
            }
    }

    /// What unmapping `pages` pages in a row leaves: their table entries
    /// are zero; the directory page and every other table entry are
    /// untouched.
    pub open spec fn run_unmapped(&self, post: &PageDirectory, va: int, pages: int) -> bool {
        &&& post.wf()
        &&& post.frame() == self.frame()
        &&& post.recursive() == self.recursive()
        &&& forall|a: int| 0 <= a < ENTRY_COUNT ==> post.pde(a) == self.pde(a)
        &&& forall|page: int|
            0 <= page < N_FRAMES ==> #[trigger] post.page_word(page) == if va / 0x1000 <= page < va
                / 0x1000 + pages {
                0
            } else {
                self.page_word(page)
            }
    }

    /// What `init_directory` leaves once the directory slots from `low` up
    /// to, not including, `high` have their page tables: a slot that had
    /// none names a fresh frame with flags 0x3, free before and in use
    /// now, and its table is zeroed; every other word is untouched, and
    /// the bitmap gained the frames of the new tables only, one for each.
    /// The bitmap's cursor stands on the word of the last table's frame;
    /// where no table was missing, the bitmap is as it was. Each frame is
    /// the one that `alloc_frame` hands out when its slot's turn comes.
    pub open spec fn tables_ensured(
        &self,
        bitmap: &PhysicalMemory,
        post: &PageDirectory,
        post_bitmap: &PhysicalMemory,
        low: int,
        high: int,
    ) -> bool {
        &&& post.wf()
        &&& post.frame() == self.frame()
        &&& post.recursive() == self.recursive()
        &&& forall|i: int|
            0 <= i < ENTRY_COUNT ==> #[trigger] post.pde(i) == if low <= i < high && !word_present(
                self.pde(i),
            ) {
                word_frame(post.pde(i)) | 0x3
            } else {
                self.pde(i)
            }
        &&& forall|i: int|
            low <= i < high && 0 <= i < ENTRY_COUNT && !word_present(self.pde(i)) ==> {
                &&& !bitmap@.contains(word_frame(#[trigger] post.pde(i)) as int / 0x1000)
                &&& post_bitmap@.contains(word_frame(post.pde(i)) as int / 0x1000)
            }
        &&& forall|i: int, j: int|
            0 <= i < ENTRY_COUNT && 0 <= j < ENTRY_COUNT ==> #[trigger] post.pte(i, j) == if low <= i
                < high && !word_present(self.pde(i)) {
                0
            } else {
                self.pte(i, j)
            }
        &&& forall|frame: int| bitmap@.contains(frame) ==> post_bitmap@.contains(frame)
        &&& forall|frame: int|
            post_bitmap@.contains(frame) && !bitmap@.contains(frame) ==> exists|i: int|
                low <= i < high && 0 <= i < ENTRY_COUNT && !word_present(self.pde(i)) && word_frame(
                    #[trigger] post.pde(i),
                ) as int == frame * 0x1000
        &&& forall|i: int, k: int|
            low <= i < k < high && 0 <= i && k < ENTRY_COUNT && !word_present(self.pde(i))
                && !word_present(self.pde(k)) ==> word_frame(#[trigger] post.pde(i)) != word_frame(
                #[trigger] post.pde(k),
            )
        &&& if self.last_absent(low, high) < 0 {
            *post_bitmap == *bitmap
        } else {
            post_bitmap.cursor() == word_frame(post.pde(self.last_absent(low, high))) as int / 0x1000
                / 32
        }
        &&& self.tables_in_turn(bitmap, post, post_bitmap, low, high)
    }

    /// Whether the bitmap came to be by one `alloc_frame` for each slot
    /// from `low` up to, not including, `high` that had no page table, in
    /// the order of the slots, each handing out the frame that the slot
    /// names now.
    pub open spec fn tables_in_turn(
        &self,
        bitmap: &PhysicalMemory,
        post: &PageDirectory,
        post_bitmap: &PhysicalMemory,
        low: int,
        high: int,
    ) -> bool
        decreases high - low,
    {
        if high <= low {
            *post_bitmap == *bitmap
        } else if !(0 <= high - 1 < ENTRY_COUNT) || word_present(self.pde(high - 1)) {
            self.tables_in_turn(bitmap, post, post_bitmap, low, high - 1)
        } else {
            exists|mid: PhysicalMemory|
                {
                    &&& self.tables_in_turn(bitmap, post, &mid, low, high - 1)
                    &&& #[trigger] mid.alloc_frame_post(
                        post_bitmap,
                        Ok::<usize, PhysicalMemoryError>(word_frame(post.pde(high - 1))),
                    )
                }
        }
    }

    /// The frames that earlier slots took do not depend on the slots from
    /// `high` on.
    proof fn lemma_in_turn_same(
        &self,
        bitmap: &PhysicalMemory,
        now: &PageDirectory,
        next: &PageDirectory,
        reached: &PhysicalMemory,
        low: int,
        high: int,
    )
        requires
            self.tables_in_turn(bitmap, now, reached, low, high),
            forall|i: int| 0 <= i < high && i < ENTRY_COUNT ==> next.pde(i) == now.pde(i),
        ensures
            self.tables_in_turn(bitmap, next, reached, low, high),
        decreases high - low,
    {
        if high <= low {
        } else if !(0 <= high - 1 < ENTRY_COUNT) || word_present(self.pde(high - 1)) {
            self.lemma_in_turn_same(bitmap, now, next, reached, low, high - 1);
        } else {
            let mid = choose|mid: PhysicalMemory|
                {
                    &&& self.tables_in_turn(bitmap, now, &mid, low, high - 1)
                    &&& #[trigger] mid.alloc_frame_post(
                        reached,
                        Ok::<usize, PhysicalMemoryError>(word_frame(now.pde(high - 1))),
                    )
                };
            self.lemma_in_turn_same(bitmap, now, next, &mid, low, high - 1);
            assert(next.pde(high - 1) == now.pde(high - 1));
            assert(mid.alloc_frame_post(
                reached,
                Ok::<usize, PhysicalMemoryError>(word_frame(next.pde(high - 1))),
            ));
        }
    }

    /// The highest directory slot from `low` up to, not including, `high`
    /// that has no page table; -1 if each has one.
    pub open spec fn last_absent(&self, low: int, high: int) -> int
        decreases high - low,
    {
        if high <= low {
            -1
        } else if 0 <= high - 1 < ENTRY_COUNT && !word_present(self.pde(high - 1)) {
            high - 1
        } else {
            self.last_absent(low, high - 1)
        }
    }

    /// The contract of `init_directory`.
    pub open spec fn init_directory_post(
        &self,
        bitmap: &PhysicalMemory,
        post: &PageDirectory,
        post_bitmap: &PhysicalMemory,
        start: usize,
        end: usize,
        r: Result<(), PagingError>,
    ) -> bool {
        let low = start as int / 0x40_0000;
        let high = (end as int + 0x3F_FFFF) / 0x40_0000;
        if end > RECURSIVE_WINDOW {
            r == Err::<(), PagingError>(PagingError::Reserved) && *post == *self && *post_bitmap
                == *bitmap
        } else if start >= end {
            r is Ok && *post == *self && *post_bitmap == *bitmap
        } else {
            match r {
                Ok(()) => self.tables_ensured(bitmap, post, post_bitmap, low, high),
                Err(e) => e == PagingError::Frame(PhysicalMemoryError::NoFrameAvailable)
                    && post_bitmap.full() && exists|reached: int|
                    low <= reached < high && !word_present(post.pde(reached))
                        && #[trigger] self.tables_ensured(bitmap, post, post_bitmap, low, reached),
            }
        }
    }

    proof fn lemma_table_kept(
        &self,
        bitmap: &PhysicalMemory,
        now: &PageDirectory,
        now_bitmap: &PhysicalMemory,
        low: int,
        pdi: int,
    )
        requires
            0 <= low <= pdi < ENTRY_COUNT,
            self.tables_ensured(bitmap, now, now_bitmap, low, pdi),
            word_present(now.pde(pdi)),
        ensures
            self.tables_ensured(bitmap, now, now_bitmap, low, pdi + 1),
    {
        assert(now.pde(pdi) == self.pde(pdi));
        assert forall|frame: int|
            now_bitmap@.contains(frame) && !bitmap@.contains(frame) implies exists|i: int|
            low <= i < pdi + 1 && 0 <= i < ENTRY_COUNT && !word_present(self.pde(i)) && word_frame(
                #[trigger] now.pde(i),
            ) as int == frame * 0x1000 by {
            let i = choose|i: int|
                low <= i < pdi && 0 <= i < ENTRY_COUNT && !word_present(self.pde(i)) && word_frame(
                    #[trigger] now.pde(i),
                ) as int == frame * 0x1000;
            assert(low <= i < pdi + 1);
        }
        assert forall|i: int, k: int|
            low <= i < k < pdi + 1 && 0 <= i && k < ENTRY_COUNT && !word_present(self.pde(i))
                && !word_present(self.pde(k)) implies word_frame(#[trigger] now.pde(i)) != word_frame(
            #[trigger] now.pde(k),
        ) by {
            assert(k < pdi);
        }
        assert(self.last_absent(low, pdi + 1) == self.last_absent(low, pdi));
    }

    proof fn lemma_table_added(
        &self,
        bitmap: &PhysicalMemory,
        now: &PageDirectory,
        now_bitmap: &PhysicalMemory,
        next: &PageDirectory,
        next_bitmap: &PhysicalMemory,
        low: int,
        pdi: int,
        table: usize,
    )
        requires
            0 <= low <= pdi < ENTRY_COUNT,
            self.tables_ensured(bitmap, now, now_bitmap, low, pdi),
            !word_present(now.pde(pdi)),
            table % 0x1000 == 0,
            table <= 0xFFFF_F000,
            !now_bitmap@.contains(table as int / 0x1000),
            now_bitmap.marked(next_bitmap, table as int / 0x1000),
            now_bitmap.alloc_frame_post(next_bitmap, Ok::<usize, PhysicalMemoryError>(table)),
            next.wf(),
            next.frame() == now.frame(),
            next.recursive() == now.recursive(),
            next.pde(pdi) == table | 0x3,
            forall|i: int| 0 <= i < ENTRY_COUNT && i != pdi ==> next.pde(i) == now.pde(i),
            forall|j: int| 0 <= j < ENTRY_COUNT ==> next.pte(pdi, j) == 0,
            forall|i: int, j: int|
                0 <= i < ENTRY_COUNT && 0 <= j < ENTRY_COUNT && i != pdi ==> next.pte(i, j) == now.pte(
                    i,
                    j,
                ),
        ensures
            self.tables_ensured(bitmap, next, next_bitmap, low, pdi + 1),
    {
        lemma_entry_word(table, 0x3);
        assert(now.pde(pdi) == self.pde(pdi));
        assert(word_frame(next.pde(pdi)) == table);
        assert forall|i: int| 0 <= i < ENTRY_COUNT implies #[trigger] next.pde(i) == if low <= i < pdi
            + 1 && !word_present(self.pde(i)) {
            word_frame(next.pde(i)) | 0x3
        } else {
            self.pde(i)
        } by {
            if i != pdi {
                assert(next.pde(i) == now.pde(i));
            }
        }
        assert forall|i: int|
            low <= i < pdi + 1 && 0 <= i < ENTRY_COUNT && !word_present(self.pde(i)) implies !bitmap@.contains(
            word_frame(#[trigger] next.pde(i)) as int / 0x1000,
        ) && next_bitmap@.contains(word_frame(next.pde(i)) as int / 0x1000) by {
            if i != pdi {
                assert(next.pde(i) == now.pde(i));
            }
        }
        assert forall|i: int, j: int|
            0 <= i < ENTRY_COUNT && 0 <= j < ENTRY_COUNT implies #[trigger] next.pte(i, j) == if low
            <= i < pdi + 1 && !word_present(self.pde(i)) {
            0
        } else {
            self.pte(i, j)
        } by {
            if i != pdi {
                assert(next.pte(i, j) == now.pte(i, j));
            }
        }
        assert forall|frame: int|
            next_bitmap@.contains(frame) && !bitmap@.contains(frame) implies exists|i: int|
            low <= i < pdi + 1 && 0 <= i < ENTRY_COUNT && !word_present(self.pde(i)) && word_frame(
                #[trigger] next.pde(i),
            ) as int == frame * 0x1000 by {
            if now_bitmap@.contains(frame) {
                let i = choose|i: int|
                    low <= i < pdi && 0 <= i < ENTRY_COUNT && !word_present(self.pde(i)) && word_frame(
                        #[trigger] now.pde(i),
                    ) as int == frame * 0x1000;
                assert(next.pde(i) == now.pde(i));
            } else {
                assert(word_frame(next.pde(pdi)) as int == frame * 0x1000);
            }
        }
        assert forall|i: int, k: int|
            low <= i < k < pdi + 1 && 0 <= i && k < ENTRY_COUNT && !word_present(self.pde(i))
                && !word_present(self.pde(k)) implies word_frame(#[trigger] next.pde(i)) != word_frame(
            #[trigger] next.pde(k),
        ) by {
            assert(next.pde(i) == now.pde(i));
            if k == pdi {
                assert(now_bitmap@.contains(word_frame(now.pde(i)) as int / 0x1000));
            } else {
                assert(next.pde(k) == now.pde(k));
            }
        }
        assert(self.last_absent(low, pdi + 1) == pdi);
        self.lemma_in_turn_same(bitmap, now, next, now_bitmap, low, pdi);
        assert(now_bitmap.alloc_frame_post(
            next_bitmap,
            Ok::<usize, PhysicalMemoryError>(word_frame(next.pde(pdi))),
        ));
        assert(self.tables_in_turn(bitmap, next, next_bitmap, low, pdi + 1));
    }

    /// Putting missing page tables in place keeps directory and bitmap
    /// consistent, and every frame with at most one use.
    pub proof fn law_init_directory_keeps_consistency(
        &self,
        bitmap: &PhysicalMemory,
        post: &PageDirectory,
        post_bitmap: &PhysicalMemory,
        start: usize,
        end: usize,
        r: Result<(), PagingError>,
    )
        requires
            self.consistent(bitmap),
            self.exclusive(),
            self.init_directory_post(bitmap, post, post_bitmap, start, end, r),
        ensures
            post.consistent(post_bitmap),
            post.exclusive(),
    {
        let low = start as int / 0x40_0000;
        if end <= RECURSIVE_WINDOW && start < end {
            let high = if r is Ok {
                (end as int + 0x3F_FFFF) / 0x40_0000
            } else {
                choose|reached: int|
                    low <= reached < (end as int + 0x3F_FFFF) / 0x40_0000 && !word_present(
                        post.pde(reached),
                    ) && #[trigger] self.tables_ensured(bitmap, post, post_bitmap, low, reached)
            };
            self.lemma_tables_ensured_consistent(bitmap, post, post_bitmap, low, high);
        }
    }

    proof fn lemma_tables_ensured_consistent(
        &self,
        bitmap: &PhysicalMemory,
        post: &PageDirectory,
        post_bitmap: &PhysicalMemory,
        low: int,
        high: int,
    )
        requires
            self.consistent(bitmap),
            self.exclusive(),
            self.tables_ensured(bitmap, post, post_bitmap, low, high),
        ensures
            post.consistent(post_bitmap),
            post.exclusive(),
    {
        lemma_entry_word(0, 0);
        assert forall|page: int, frame: int|
            0 <= page < N_FRAMES && #[trigger] post.page_at(page, frame) implies self.page_at(
            page,
            frame,
        ) by {
            let i = page / 1024;
            assert(0 <= i < 1024);
            assert(post.page_word(page) == post.pte(i, page % 1024));
            assert(self.page_word(page) == self.pte(i, page % 1024));
            if low <= i < high && !word_present(self.pde(i)) {
                assert(post.pte(i, page % 1024) == 0);
            } else {
                assert(post.pte(i, page % 1024) == self.pte(i, page % 1024));
                assert(post.pde(i) == self.pde(i));
            }
        }
        assert forall|i: int, frame: int|
            0 <= i < ENTRY_COUNT && #[trigger] post.table_at(i, frame) implies post_bitmap@.contains(
            frame,
        ) && (self.table_at(i, frame) || !bitmap@.contains(frame)) by {
            if low <= i < high && !word_present(self.pde(i)) {
                lemma_word_frame(post.pde(i));
            } else {
                assert(post.pde(i) == self.pde(i));
                assert(self.table_at(i, frame));
                assert(self.refers_to(frame));
            }
        }
        assert forall|frame: int| #[trigger] post.refers_to(frame) implies post_bitmap@.contains(
            frame,
        ) by {
            if exists|i: int| 0 <= i < ENTRY_COUNT && #[trigger] post.table_at(i, frame) {
                let i = choose|i: int| 0 <= i < ENTRY_COUNT && #[trigger] post.table_at(i, frame);
                assert(post.table_at(i, frame));
            } else {
                let page = choose|page: int|
                    0 <= page < N_FRAMES && #[trigger] post.page_at(page, frame);
                assert(self.page_at(page, frame));
                assert(self.refers_to(frame));
            }
        }
        assert forall|i: int, page: int, frame: int|
            0 <= i < ENTRY_COUNT && 0 <= page < N_FRAMES implies !(#[trigger] post.table_at(i, frame)
            && #[trigger] post.page_at(page, frame)) by {
            if post.table_at(i, frame) && post.page_at(page, frame) {
                assert(self.page_at(page, frame));
                assert(self.refers_to(frame));
            }
        }
    }

    /// Makes sure that every directory slot that covers an address from
    /// `start` up to `end` has a page table, taking a frame from `bitmap`
    /// for each that is missing.
    pub fn init_directory(&mut self, bitmap: &mut PhysicalMemory, start: usize, end: usize) -> (r:
        Result<(), PagingError>)
        requires
            old(self).wf(),
        ensures
            final(self).wf(),
            old(self).init_directory_post(old(bitmap), final(self), final(bitmap), start, end, r),
    {
        if end > RECURSIVE_WINDOW {
            return Err(PagingError::Reserved);
        }
        if start >= end {
            return Ok(());
        }
        proof {
            lemma_split_address(start);
            lemma_split_address((end - 1) as usize);
        }
        let low = start >> 22;
        let high = ((end - 1) >> 22) + 1;
        let mut pdi = low;
        proof {
            assert(high as int == (end as int + 0x3F_FFFF) / 0x40_0000);
            assert(((end - 1) as usize) >> 22 < 1023) by (bit_vector)
                requires
                    end <= 0xFFC0_0000,
                    end >= 1,
            ;
        }
        while pdi < high
            invariant
                low <= pdi <= high <= 1023,
                low as int == start as int / 0x40_0000,
                high as int == (end as int + 0x3F_FFFF) / 0x40_0000,
                start < end <= RECURSIVE_WINDOW,
                self.wf(),
                old(self).wf(),
                old(self).tables_ensured(old(bitmap), &*self, &*bitmap, low as int, pdi as int),
            decreases high - pdi,
        {
            let ghost now = *self;
            let ghost now_bitmap = *bitmap;
            if !self.entries[pdi].is_present() {
                let table = match bitmap.alloc_frame() {
                    Ok(address) => address,
                    Err(e) => {
                        return Err(PagingError::Frame(e));
                    },
                };
                proof {
                    lemma_split_address(table);
                    assert(table as int / 0x1000 * 0x1000 == table);
                }
                self.entries[pdi] = PageDirectoryEntry::new(table, 0x3);
                self.tables[pdi].clear();
                proof {
                    old(self).lemma_table_added(
                        old(bitmap),
                        &now,
                        &now_bitmap,
                        &*self,
                        &*bitmap,
                        low as int,
                        pdi as int,
                        table,
                    );
                }
            } else {
                proof {
                    old(self).lemma_table_kept(
                        old(bitmap),
                        &now,
                        &now_bitmap,
                        low as int,
                        pdi as int,
                    );
                }
            }
            pdi += 1;
        }
        Ok(())
    }

    /// The contract of `map_page`, as a relation between the state before
    /// and after.
    pub open spec fn map_page_post(
        &self,
        bitmap: &PhysicalMemory,
        post: &PageDirectory,
        post_bitmap: &PhysicalMemory,
        va: usize,
        pa: usize,
        flags: usize,
        r: Result<(), PagingError>,
    ) -> bool {
        let i = dir_index(va as int);
        let j = table_index(va as int);
        if va >= RECURSIVE_WINDOW {
            r == Err::<(), PagingError>(PagingError::Reserved) && *post == *self && *post_bitmap
                == *bitmap
        } else if word_present(self.pde(i)) {
            if word_present(self.pte(i, j)) {
                r == Err::<(), PagingError>(PagingError::AlreadyMapped) && *post == *self
                    && *post_bitmap == *bitmap
            } else {
                r is Ok && *post_bitmap == *bitmap && self.entry_written(
                    post,
                    va as int,
                    pa | flags,
                    None,
                )
            }
        } else if bitmap.full() {
            r == Err::<(), PagingError>(PagingError::Frame(PhysicalMemoryError::NoFrameAvailable))
                && *post == *self && *post_bitmap == *bitmap
        } else {
            let table = word_frame(post.pde(i));
            &&& r is Ok
            &&& bitmap.is_next_free(table as int / 0x1000)
            &&& bitmap.marked(post_bitmap, table as int / 0x1000)
            &&& self.entry_written(post, va as int, pa | flags, Some(table))
        }
    }

    /// The contract of `unmap_page`, as a relation between the state
    /// before and after.
    pub open spec fn unmap_page_post(
        &self,
        bitmap: &PhysicalMemory,
        post: &PageDirectory,
        post_bitmap: &PhysicalMemory,
        va: usize,
        r: Result<(), PagingError>,
    ) -> bool {
        let i = dir_index(va as int);
        let j = table_index(va as int);
        let frame = word_frame(self.pte(i, j)) as int / 0x1000;
        if va >= RECURSIVE_WINDOW {
            r == Err::<(), PagingError>(PagingError::Reserved) && *post == *self && *post_bitmap
                == *bitmap
        } else if !word_present(self.pde(i)) || !word_present(self.pte(i, j)) {
            r == Err::<(), PagingError>(PagingError::NotMapped) && *post == *self && *post_bitmap
                == *bitmap
        } else if !bitmap@.contains(frame) {
            r == Err::<(), PagingError>(PagingError::Frame(PhysicalMemoryError::FrameNotInUse))
                && *post == *self && *post_bitmap == *bitmap
        } else {
            r is Ok && bitmap.released(post_bitmap, frame) && self.entry_written(
                post,
                va as int,
                0,
                None,
            )
        }
    }

    /// Maps the page at `virtual_address` to the frame at
    /// `physical_address` with `flags`. A page table that is missing is
    /// taken from `bitmap`, entered with flags 0x3 and zeroed first.
    ///
    /// Nothing marks the data frame: whoever maps a frame has reserved it.
    pub fn map_page(
        &mut self,
        bitmap: &mut PhysicalMemory,
        virtual_address: usize,
        physical_address: usize,
        flags: usize,
    ) -> (r: Result<(), PagingError>)
        requires
            old(self).wf(),
            virtual_address % 0x1000 == 0,
            physical_address % 0x1000 == 0,
        ensures
            final(self).wf(),
            old(self).map_page_post(
                old(bitmap),
                final(self),
                final(bitmap),
                virtual_address,
                physical_address,
                flags,
                r,
            ),
    {
        if virtual_address >= RECURSIVE_WINDOW {
            return Err(PagingError::Reserved);
        }
        proof {
            lemma_split_address(virtual_address);
        }
        let pdi = virtual_address >> 22;
        let pti = (virtual_address & 0x3F_F000) >> 12;
        if !self.entries[pdi].is_present() {
            let table = match bitmap.alloc_frame() {
                Ok(address) => address,
                Err(e) => {
                    return Err(PagingError::Frame(e));
                },
            };
            proof {
                lemma_split_address(table);
                lemma_entry_word(table, 0x3);
                assert(table as int / 0x1000 * 0x1000 == table);
            }
            self.entries[pdi] = PageDirectoryEntry::new(table, 0x3);
            self.tables[pdi].clear();
            self.tables[pdi].set_entry(pti, physical_address, flags);
            proof {
                assert(word_frame(self.pde(pdi as int)) == table);
            }
            return Ok(());
        }
        if self.tables[pdi].entries[pti].is_present() {
            return Err(PagingError::AlreadyMapped);
        }
        self.tables[pdi].set_entry(pti, physical_address, flags);
        Ok(())
    }

    /// Removes the mapping of the page at `virtual_address` and returns
    /// its frame to `bitmap`. The page table stays in place even when its
    /// last entry goes.
    pub fn unmap_page(&mut self, bitmap: &mut PhysicalMemory, virtual_address: usize) -> (r: Result<
        (),
        PagingError,
    >)
        requires
            old(self).wf(),
            virtual_address % 0x1000 == 0,
        ensures
            final(self).wf(),
            old(self).unmap_page_post(old(bitmap), final(self), final(bitmap), virtual_address, r),
    {
        if virtual_address >= RECURSIVE_WINDOW {
            return Err(PagingError::Reserved);
        }
        proof {
            lemma_split_address(virtual_address);
        }
        let pdi = (virtual_address >> 22) & 0x3FF;
        let pti = (virtual_address >> 12) & 0x3FF;
        assert(pdi == virtual_address >> 22) by (bit_vector)
            requires
                pdi == (virtual_address >> 22) & 0x3FF,
                virtual_address < 0xFFC0_0000,
        ;
        if !self.entries[pdi].is_present() {
            return Err(PagingError::NotMapped);
        }
        let entry = self.tables[pdi].entries[pti];
        if !entry.is_present() {
            return Err(PagingError::NotMapped);
        }
        let frame = entry.page_frame_address();
        proof {
            let word = entry.0;
            lemma_split_address(frame);
            lemma_word_frame(word);
        }
        match bitmap.free_frame(frame) {
            Ok(()) => {},
            Err(e) => {
                return Err(PagingError::Frame(e));
            },
        }
        proof {
            lemma_entry_word(0, 0);
        }
        self.tables[pdi].set_entry(pti, 0x0, 0x0);
        Ok(())
    }

    /// The physical address behind `virtual_address`, by the two-level walk.
    pub fn translate(&self, virtual_address: usize) -> (physical: Option<usize>)
        requires
            self.wf(),
        ensures
            match physical {
                Some(address) => self.translate_spec(virtual_address as int) == Some(address as int),
                None => self.translate_spec(virtual_address as int) is None,
            },
    {
        if virtual_address > 0xFFFF_FFFF {
            return None;
        }
        proof {
            lemma_split_address(virtual_address);
        }
        let pdi = virtual_address >> 22;
        let pti = (virtual_address >> 12) & 0x3FF;
        let offset = virtual_address & 0xFFF;
        assert(pdi < 1024) by (bit_vector)
            requires
                pdi == virtual_address >> 22,
                virtual_address <= 0xFFFF_FFFF,
        ;
        assert(pti < 1024) by (bit_vector)
            requires
                pti == (virtual_address >> 12) & 0x3FF,
        ;
        if !self.entries[pdi].is_present() {
            return None;
        }
        let last = self.entries[RECURSIVE_SLOT];
        let word = if pdi == RECURSIVE_SLOT && last.is_present() && last.page_table_address()
            == self.frame {
            self.entries[pti].0
        } else {
            self.tables[pdi].entries[pti].0
        };
        if word & 0x1 == 0 {
            return None;
        }
        let frame = word & 0xFFFF_F000;
        assert(frame <= 0xFFFF_F000 && offset <= 0xFFF) by (bit_vector)
            requires
                frame == word & 0xFFFF_F000,
                offset == virtual_address & 0xFFF,
        ;
        Some(frame + offset)
    }

    /// A frame that the bitmap holds free is referred to by no present
    /// entry, as long as directory and bitmap are consistent.
    pub proof fn law_free_frame_is_unreferenced(&self, bitmap: &PhysicalMemory, address: usize)
        requires
            self.consistent(bitmap),
            address % 0x1000 == 0,
            !bitmap@.contains(address as int / 0x1000),
        ensures
            !self.refers_to(address as int / 0x1000),
    {
        let frame = address as int / 0x1000;
        assert(!self.refers_to(frame));
    }

    /// Marking a frame keeps directory and bitmap consistent, and so does
    /// releasing a frame that no present entry refers to.
    pub proof fn law_frame_operations_keep_consistency(
        &self,
        bitmap: &PhysicalMemory,
        post_bitmap: &PhysicalMemory,
        frame: int,
    )
        requires
            self.consistent(bitmap),
            bitmap.marked(post_bitmap, frame) || (bitmap.released(post_bitmap, frame)
                && !self.refers_to(frame)),
        ensures
            self.consistent(post_bitmap),
    {
        assert forall|other: int| #[trigger] self.refers_to(other) implies post_bitmap@.contains(
            other,
        ) by {
            assert(bitmap@.contains(other));
        }
    }

    /// Mapping a frame that is in use keeps directory and bitmap
    /// consistent.
    pub proof fn law_map_page_keeps_consistency(
        &self,
        bitmap: &PhysicalMemory,
        post: &PageDirectory,
        post_bitmap: &PhysicalMemory,
        va: usize,
        pa: usize,
        flags: usize,
        r: Result<(), PagingError>,
    )
        requires
            self.consistent(bitmap),
            va % 0x1000 == 0,
            pa % 0x1000 == 0,
            pa <= 0xFFFF_F000,
            flags <= 0xFFF,
            bitmap@.contains(pa as int / 0x1000),
            self.map_page_post(bitmap, post, post_bitmap, va, pa, flags, r),
        ensures
            post.consistent(post_bitmap),
    {
        let i = dir_index(va as int);
        let j = table_index(va as int);
        let target = va as int / 0x1000;
        lemma_entry_word(pa, flags);
        if r is Ok {
            assert(target / 1024 == i && target % 1024 == j);
            assert forall|frame: int| #[trigger] post.refers_to(frame) implies post_bitmap@.contains(
                frame,
            ) by {
                if exists|a: int| 0 <= a < ENTRY_COUNT && #[trigger] post.table_at(a, frame) {
                    let a = choose|a: int| 0 <= a < ENTRY_COUNT && #[trigger] post.table_at(a, frame);
                    if post.pde(a) == self.pde(a) {
                        assert(self.table_at(a, frame));
                        assert(self.refers_to(frame));
                    }
                } else {
                    let page = choose|page: int|
                        0 <= page < N_FRAMES && #[trigger] post.page_at(page, frame);
                    assert(post.page_word(page) == post.pte(page / 1024, page % 1024));
                    if page == target {
                    } else {
                        assert(page / 1024 != i || page % 1024 != j);
                        if post.page_word(page) == self.page_word(page) && post.pde(page / 1024)
                            == self.pde(page / 1024) {
                            assert(self.page_at(page, frame));
                            assert(self.refers_to(frame));
                        } else {
                            lemma_entry_word(0, 0);
                        }
                    }
                }
            }
        }
    }

    /// Unmapping a page keeps directory and bitmap consistent where no
    /// other entry refers to the page's frame.
    pub proof fn law_unmap_page_keeps_consistency(
        &self,
        bitmap: &PhysicalMemory,
        post: &PageDirectory,
        post_bitmap: &PhysicalMemory,
        va: usize,
        r: Result<(), PagingError>,
    )
        requires
            self.consistent(bitmap),
            self.exclusive(),
            va % 0x1000 == 0,
            self.unmap_page_post(bitmap, post, post_bitmap, va, r),
        ensures
            post.consistent(post_bitmap),
            post.exclusive(),
    {
        let i = dir_index(va as int);
        let j = table_index(va as int);
        let target = va as int / 0x1000;
        if r is Ok {
            assert(target / 1024 == i && target % 1024 == j);
            let gone = word_frame(self.pte(i, j)) as int / 0x1000;
            let word = self.pte(i, j);
            lemma_word_frame(word);
            assert(self.page_at(target, gone));
            lemma_entry_word(0, 0);
            assert forall|page: int, frame: int|
                0 <= page < N_FRAMES && #[trigger] post.page_at(page, frame) implies self.page_at(
                page,
                frame,
            ) && page != target by {
                assert(post.page_word(page) == post.pte(page / 1024, page % 1024));
                if page != target {
                    assert(page / 1024 != i || page % 1024 != j);
                }
            }
            assert forall|a: int, frame: int|
                0 <= a < ENTRY_COUNT && #[trigger] post.table_at(a, frame) implies self.table_at(
                a,
                frame,
            ) by {}
            assert forall|frame: int| #[trigger] post.refers_to(frame) implies post_bitmap@.contains(
                frame,
            ) by {
                if exists|a: int| 0 <= a < ENTRY_COUNT && #[trigger] post.table_at(a, frame) {
                    let a = choose|a: int| 0 <= a < ENTRY_COUNT && #[trigger] post.table_at(a, frame);
                    assert(self.table_at(a, frame));
                    assert(self.refers_to(frame));
                } else {
                    let page = choose|page: int|
                        0 <= page < N_FRAMES && #[trigger] post.page_at(page, frame);
                    assert(self.page_at(page, frame));
                    assert(self.refers_to(frame));
                }
            }
        }
    }

    /// Mapping a frame that is in use and that no entry refers to keeps
    /// every frame with at most one page.
    pub proof fn law_map_page_keeps_exclusive(
        &self,
        bitmap: &PhysicalMemory,
        post: &PageDirectory,
        post_bitmap: &PhysicalMemory,
        va: usize,
        pa: usize,
        flags: usize,
        r: Result<(), PagingError>,
    )
        requires
            self.consistent(bitmap),
            self.exclusive(),
            va % 0x1000 == 0,
            pa % 0x1000 == 0,
            pa <= 0xFFFF_F000,
            flags <= 0xFFF,
            bitmap@.contains(pa as int / 0x1000),
            !self.refers_to(pa as int / 0x1000),
            self.map_page_post(bitmap, post, post_bitmap, va, pa, flags, r),
        ensures
            post.exclusive(),
    {
        let i = dir_index(va as int);
        let j = table_index(va as int);
        let target = va as int / 0x1000;
        let data = pa as int / 0x1000;
        lemma_entry_word(pa, flags);
        if r is Ok {
            assert(target / 1024 == i && target % 1024 == j);
            lemma_entry_word(0, 0);
            assert forall|page: int, frame: int|
                0 <= page < N_FRAMES && #[trigger] post.page_at(page, frame) implies (page == target
                && frame == data) || (page != target && self.page_at(page, frame)) by {
                assert(post.page_word(page) == post.pte(page / 1024, page % 1024));
                if page != target {
                    assert(page / 1024 != i || page % 1024 != j);
                }
            }
            assert forall|p: int, q: int, frame: int|
                0 <= p < N_FRAMES && 0 <= q < N_FRAMES && #[trigger] post.page_at(p, frame)
                    && #[trigger] post.page_at(q, frame) implies p == q by {
                if p != target && q != target {
                    assert(self.page_at(p, frame) && self.page_at(q, frame));
                } else if p != target {
                    assert(self.page_at(p, frame));
                    assert(self.refers_to(data));
                } else if q != target {
                    assert(self.page_at(q, frame));
                    assert(self.refers_to(data));
                }
            }
            assert forall|a: int, page: int, frame: int|
                0 <= a < ENTRY_COUNT && 0 <= page < N_FRAMES implies !(#[trigger] post.table_at(a, frame)
                && #[trigger] post.page_at(page, frame)) by {
                if post.table_at(a, frame) && post.page_at(page, frame) {
                    if post.pde(a) == self.pde(a) {
                        assert(self.table_at(a, frame));
                        if page == target {
                            assert(self.refers_to(data));
                        } else {
                            assert(self.page_at(page, frame));
                        }
                    } else {
                        // The fresh table was free; nothing referred to it, and the
                        // data frame was in use.
                        assert(!bitmap@.contains(frame));
                        if page != target {
                            assert(self.page_at(page, frame));
                            assert(self.refers_to(frame));
                        }
                    }
                }
            }
        }
    }

    /// Mapping a page that is not mapped below the recursive window
    /// succeeds wherever its table is in place or any frame at all is
    /// free, whatever the bitmap's cursor: a missing table takes a frame
    /// that was free, and no other frame changes.
    pub proof fn law_map_needs_only_a_free_frame(
        &self,
        bitmap: &PhysicalMemory,
        post: &PageDirectory,
        post_bitmap: &PhysicalMemory,
        va: usize,
        pa: usize,
        flags: usize,
        r: Result<(), PagingError>,
        free: int,
    )
        requires
            va < RECURSIVE_WINDOW,
            self.map_page_post(bitmap, post, post_bitmap, va, pa, flags, r),
            !(word_present(self.pde(dir_index(va as int))) && word_present(
                self.pte(dir_index(va as int), table_index(va as int)),
            )),
            word_present(self.pde(dir_index(va as int))) || (0 <= free < N_FRAMES && !bitmap@.contains(
                free,
            )),
        ensures
            r is Ok,
            post.pte(dir_index(va as int), table_index(va as int)) == pa | flags,
            if word_present(self.pde(dir_index(va as int))) {
                *post_bitmap == *bitmap
            } else {
                let table = word_frame(post.pde(dir_index(va as int))) as int / 0x1000;
                &&& !bitmap@.contains(table)
                &&& post_bitmap@ == bitmap@.insert(table)
                &&& post.pde(dir_index(va as int)) == word_frame(post.pde(dir_index(va as int))) | 0x3
            },
    {
        if !word_present(self.pde(dir_index(va as int))) {
            assert(!bitmap.frame_used(free));
        }
    }

    /// Mapping a page and unmapping it again leaves every translation
    /// below the recursive window as it was, and the bitmap as it was but
    /// for two frames: the page's own, which is free now, and the page
    /// table that the mapping may have brought in, which stays in use.
    /// Where the page table was in place and the page's entry zero, every
    /// word of directory and tables is as it was.
    pub proof fn law_map_then_unmap(
        &self,
        bitmap: &PhysicalMemory,
        mapped: &PageDirectory,
        mapped_bitmap: &PhysicalMemory,
        post: &PageDirectory,
        post_bitmap: &PhysicalMemory,
        va: usize,
        pa: usize,
        flags: usize,
        first: Result<(), PagingError>,
        second: Result<(), PagingError>,
    )
        requires
            self.wf(),
            va % 0x1000 == 0,
            pa % 0x1000 == 0,
            pa <= 0xFFFF_F000,
            flags <= 0xFFF,
            self.map_page_post(bitmap, mapped, mapped_bitmap, va, pa, flags, first),
            first is Ok,
            mapped.unmap_page_post(mapped_bitmap, post, post_bitmap, va, second),
            second is Ok,
        ensures
            forall|v: int| 0 <= v < RECURSIVE_WINDOW ==> post.translate_spec(v) == self.translate_spec(v),
            post_bitmap@ == mapped_bitmap@.remove(pa as int / 0x1000),
            word_present(self.pde(dir_index(va as int))) ==> mapped_bitmap@ == bitmap@,
            !word_present(self.pde(dir_index(va as int))) ==> mapped_bitmap@ == bitmap@.insert(
                word_frame(post.pde(dir_index(va as int))) as int / 0x1000,
            ),
            word_present(self.pde(dir_index(va as int))) && self.pte(
                dir_index(va as int),
                table_index(va as int),
            ) == 0 ==> post.same_words(self),
    {
        let i = dir_index(va as int);
        let j = table_index(va as int);
        lemma_entry_word(pa, flags);
        lemma_entry_word(0, 0);
        assert(word_frame(mapped.pte(i, j)) == pa);
        assert forall|v: int| 0 <= v < RECURSIVE_WINDOW implies post.translate_spec(v)
            == self.translate_spec(v) by {
            let a = dir_index(v);
            let b = table_index(v);
            assert(0 <= a < 1023 && 0 <= b < 1024);
            if a == i && b == j {
            } else {
                assert(post.pte(a, b) == mapped.pte(a, b));
            }
        }
        if word_present(self.pde(i)) && self.pte(i, j) == 0 {
            assert forall|a: int, b: int|
                0 <= a < ENTRY_COUNT && 0 <= b < ENTRY_COUNT implies post.pte(a, b) == self.pte(
                a,
                b,
            ) by {
                if a == i && b == j {
                } else {
                    assert(post.pte(a, b) == mapped.pte(a, b));
                }
            }
        }
    }

    /// Once the last directory entry points at the directory's own frame,
    /// the four bytes at `0xFFFFF000 + 4 * i` are directory entry `i`, and
    /// the page table of a present slot `i` appears at
    /// `0xFFC00000 + 4096 * i`.
    pub proof fn law_recursive_window(&self, i: int)
        requires
            self.wf(),
            self.self_mapped(),
            0 <= i < ENTRY_COUNT,
        ensures
            self.translate_spec(RECURSIVE_DIRECTORY + 4 * i) == Some(self.frame() + 4 * i),
            self.read_directory_through(RECURSIVE_DIRECTORY + 4 * i) == Some(self.pde(i)),
            word_present(self.pde(i)) ==> forall|offset: int|
                0 <= offset < 0x1000 ==> #[trigger] self.translate_spec(
                    RECURSIVE_WINDOW + 0x1000 * i + offset,
                ) == Some(word_frame(self.pde(i)) + offset),
    {
        let va = RECURSIVE_DIRECTORY + 4 * i;
        assert(dir_index(va) == 1023 && table_index(va) == 1023);
        assert(va % 0x1000 == 4 * i);
        if word_present(self.pde(i)) {
            assert forall|offset: int| 0 <= offset < 0x1000 implies #[trigger] self.translate_spec(
                RECURSIVE_WINDOW + 0x1000 * i + offset,
            ) == Some(word_frame(self.pde(i)) + offset) by {
                let v = RECURSIVE_WINDOW + 0x1000 * i + offset;
                assert(dir_index(v) == 1023 && table_index(v) == i);
                assert(v % 0x1000 == offset);
            }
        }
    }

    /// Page operations leave the recursive entry alone.
    pub proof fn law_entry_written_keeps_self_map(
        &self,
        post: &PageDirectory,
        va: int,
        word: usize,
        table: Option<usize>,
    )
        requires
            self.self_mapped(),
            0 <= va < RECURSIVE_WINDOW,
            self.entry_written(post, va, word, table),
        ensures
            post.self_mapped(),
    {
        assert(dir_index(va) < 1023);
        assert(post.pde(1023) == self.pde(1023));
    }
}

/// The directory slot of page number `page`.
pub open spec fn page_slot(page: int) -> int {
    page / 1024
}

/// The directory slot of the page table that was opened last when the
/// pages in `done` were mapped in order into an empty directory: the
/// slot of the last page that no earlier page shares its slot with; -1
/// if there is no page.
pub open spec fn last_opened(done: Seq<int>) -> int
    decreases done.len(),
{
    if done.len() == 0 {
        -1
    } else if exists|m: int| 0 <= m < done.len() - 1 && #[trigger] page_slot(done[m]) == page_slot(
        done.last(),
    ) {
        last_opened(done.drop_last())
    } else {
        page_slot(done.last())
    }
}

/// The table opened last is the table of one of the pages.
proof fn lemma_last_opened_in(done: Seq<int>)
    requires
        done.len() > 0,
    ensures
        exists|n: int| 0 <= n < done.len() && #[trigger] page_slot(done[n]) == last_opened(done),
    decreases done.len(),
{
    if exists|m: int| 0 <= m < done.len() - 1 && #[trigger] page_slot(done[m]) == page_slot(
        done.last(),
    ) {
        let rest = done.drop_last();
        lemma_last_opened_in(rest);
        let n = choose|n: int| 0 <= n < rest.len() && #[trigger] page_slot(rest[n]) == last_opened(rest);
        assert(page_slot(done[n]) == last_opened(done));
    } else {
        assert(page_slot(done[done.len() - 1]) == last_opened(done));
    }
}

/// Why the page `page` cannot be identity mapped after the pages in
/// `done`, if it cannot: it lies in the recursive window, or it is
/// mapped already, or else a frame for its table is wanting.
pub open spec fn plan_error(done: Seq<int>, page: int) -> PagingError {
    if page >= 0xFFC00 {
        PagingError::Reserved
    } else if done.contains(page) {
        PagingError::AlreadyMapped
    } else {
        PagingError::Frame(PhysicalMemoryError::NoFrameAvailable)
    }
}

/// The pages that boot maps onto themselves, by page number: page 0, the
/// VGA text buffer, the pages of the kernel image, and the page of the
/// boot information where it lies outside the kernel image.
pub open spec fn boot_pages(kernel_start: usize, kernel_end: usize, multiboot_info: usize) -> Seq<
    int,
> {
    let first = kernel_start as int / 0x1000;
    let last = kernel_end as int / 0x1000;
    let info = multiboot_info as int / 0x1000;
    let kernel = Seq::new(
        if last >= first {
            (last - first + 1) as nat
        } else {
            0nat
        },
        |i: int| first + i,
    );
    let fixed = seq![0int, 0xB8int] + kernel;
    if info < first || info > last {
        fixed.push(info)
    } else {
        fixed
    }
}

impl PageDirectory {
    /// Whether exactly the pages in `done` are mapped below the recursive
    /// window, each onto itself with flags 0x3, and every other entry of
    /// a page table in place is zero.
    pub open spec fn identity_mapped(&self, done: Seq<int>) -> bool {
        &&& done.no_duplicates()
        &&& forall|n: int| 0 <= n < done.len() ==> 0 <= #[trigger] done[n] < 0xFFC00
        &&& forall|n: int| 0 <= n < done.len() ==> self.has_table(#[trigger] done[n])
        &&& forall|page: int|
            0 <= page < 0xFFC00 && self.has_table(page) ==> #[trigger] self.page_word(page) == if done.contains(
                page,
            ) {
                ((page * 0x1000) as usize) | 0x3
            } else {
                0
            }
    }

    /// Every byte of an identity-mapped page translates to itself.
    pub proof fn law_identity_translates(&self, done: Seq<int>, address: int)
        requires
            self.identity_mapped(done),
            0 <= address,
            done.contains(address / 0x1000),
        ensures
            self.translate_spec(address) == Some(address),
    {
        let page = address / 0x1000;
        let n = choose|n: int| 0 <= n < done.len() && done[n] == page;
        assert(self.has_table(done[n]));
        assert(page / 1024 == dir_index(address) && page % 1024 == table_index(address));
        let base = (page * 0x1000) as usize;
        lemma_entry_word(base, 0x3);
        assert(self.page_word(page) == base | 0x3);
    }

    /// Whether the page tables in place below the recursive slot are
    /// those that the pages in `done` need and no others, each in a frame
    /// of its own, and the bitmap has gained no frame beyond those of
    /// `start` but theirs: each is the frame that `alloc_frame` handed
    /// out when the first page of its slot was mapped. The cursor stands
    /// on the word of the frame of the table that was opened last.
    pub open spec fn tables_opened(
        &self,
        bitmap: &PhysicalMemory,
        start: &PhysicalMemory,
        done: Seq<int>,
    ) -> bool {
        &&& bitmap.cursor() == if last_opened(done) < 0 {
            start.cursor()
        } else {
            word_frame(self.pde(last_opened(done))) as int / 0x1000 / 32
        }
        &&& forall|i: int|
            0 <= i < RECURSIVE_SLOT && word_present(#[trigger] self.pde(i)) ==> exists|n: int|
                0 <= n < done.len() && #[trigger] page_slot(done[n]) == i
        &&& forall|i: int, k: int|
            0 <= i < k < RECURSIVE_SLOT && word_present(#[trigger] self.pde(i)) && word_present(
                #[trigger] self.pde(k),
            ) ==> word_frame(self.pde(i)) != word_frame(self.pde(k))
        &&& forall|frame: int|
            bitmap@.contains(frame) && !start@.contains(frame) ==> exists|i: int|
                0 <= i < RECURSIVE_SLOT && #[trigger] self.table_at(i, frame)
        &&& self.opened_in_turn(bitmap, start, done)
    }

    /// Whether `bitmap` came from `start` by one `alloc_frame` for each
    /// page of `done` that was the first of its directory slot, in the
    /// order of `done`, each handing out the frame that the slot names.
    pub open spec fn opened_in_turn(
        &self,
        bitmap: &PhysicalMemory,
        start: &PhysicalMemory,
        done: Seq<int>,
    ) -> bool
        decreases done.len(),
    {
        if done.len() == 0 {
            *bitmap == *start
        } else if exists|m: int| 0 <= m < done.len() - 1 && #[trigger] page_slot(done[m]) == page_slot(
            done.last(),
        ) {
            self.opened_in_turn(bitmap, start, done.drop_last())
        } else {
            exists|mid: PhysicalMemory|
                {
                    &&& self.opened_in_turn(&mid, start, done.drop_last())
                    &&& #[trigger] mid.alloc_frame_post(
                        bitmap,
                        Ok::<usize, PhysicalMemoryError>(word_frame(self.pde(page_slot(done.last())))),
                    )
                }
        }
    }

    /// The frames that the tables took depend on the directory only
    /// through the slots of the pages mapped.
    proof fn lemma_opened_same(
        &self,
        other: &PageDirectory,
        bitmap: &PhysicalMemory,
        start: &PhysicalMemory,
        done: Seq<int>,
    )
        requires
            self.opened_in_turn(bitmap, start, done),
            forall|n: int|
                0 <= n < done.len() ==> other.pde(#[trigger] page_slot(done[n])) == self.pde(
                    page_slot(done[n]),
                ),
        ensures
            other.opened_in_turn(bitmap, start, done),
        decreases done.len(),
    {
        if done.len() > 0 {
            let rest = done.drop_last();
            assert forall|n: int| 0 <= n < rest.len() implies other.pde(#[trigger] page_slot(rest[n]))
                == self.pde(page_slot(rest[n])) by {
                assert(rest[n] == done[n]);
            }
            if exists|m: int| 0 <= m < done.len() - 1 && #[trigger] page_slot(done[m]) == page_slot(
                done.last(),
            ) {
                self.lemma_opened_same(other, bitmap, start, rest);
            } else {
                let mid = choose|mid: PhysicalMemory|
                    {
                        &&& self.opened_in_turn(&mid, start, rest)
                        &&& #[trigger] mid.alloc_frame_post(
                            bitmap,
                            Ok::<usize, PhysicalMemoryError>(
                                word_frame(self.pde(page_slot(done.last()))),
                            ),
                        )
                    };
                self.lemma_opened_same(other, &mid, start, rest);
                assert(other.pde(page_slot(done[done.len() - 1])) == self.pde(
                    page_slot(done[done.len() - 1]),
                ));
                assert(mid.alloc_frame_post(
                    bitmap,
                    Ok::<usize, PhysicalMemoryError>(word_frame(other.pde(page_slot(done.last())))),
                ));
            }
        }
    }

    /// Whether the first `n` pages of `plan` are identity mapped, with
    /// the page tables that they need and no others, and the bitmap has
    /// gained the frames of these tables and no others.
    #[verifier::opaque]
    pub open spec fn mapped_up_to(
        &self,
        bitmap: &PhysicalMemory,
        start: &PhysicalMemory,
        plan: Seq<int>,
        n: int,
    ) -> bool {
        &&& self.identity_mapped(plan.take(n))
        &&& self.tables_backed(bitmap, start@)
        &&& self.tables_opened(bitmap, start, plan.take(n))
        &&& forall|frame: int| start@.contains(frame) ==> bitmap@.contains(frame)
    }

    /// Where the identity mapping of `plan` stands when it ends with the
    /// error `e` at its page number `n`: the pages before are mapped, and
    /// `e` tells why page `n` could not follow. For want of a frame it
    /// fails only where that page has no table yet and the bitmap, with
    /// the tables taken so far, is full.
    pub open spec fn stopped_at(
        &self,
        bitmap: &PhysicalMemory,
        start: &PhysicalMemory,
        plan: Seq<int>,
        n: int,
        e: PagingError,
    ) -> bool {
        &&& self.mapped_up_to(bitmap, start, plan, n)
        &&& e == plan_error(plan.take(n), plan[n])
        &&& e is Frame ==> !self.has_table(plan[n]) && bitmap.full()
    }

    /// Whether every page table in place below the recursive slot lies in
    /// a frame that is in use and that is none of `initial`.
    pub open spec fn tables_backed(&self, bitmap: &PhysicalMemory, initial: Set<int>) -> bool {
        forall|i: int|
            0 <= i < RECURSIVE_SLOT && word_present(#[trigger] self.pde(i)) ==> bitmap@.contains(
                word_frame(self.pde(i)) as int / 0x1000,
            ) && !initial.contains(word_frame(self.pde(i)) as int / 0x1000)
    }

    /// An address space of identity-mapped pages whose frames, like the
    /// directory's own, were in use before its page tables were taken, is
    /// consistent with the bitmap; and no frame has two uses in it unless
    /// the directory's own frame is one of the pages.
    proof fn lemma_boot_consistent(
        &self,
        bitmap: &PhysicalMemory,
        initial: Set<int>,
        plan: Seq<int>,
    )
        requires
            self.wf(),
            self.identity_mapped(plan),
            self.tables_backed(bitmap, initial),
            self.pde(RECURSIVE_SLOT as int) == self.frame() | 0x3,
            forall|frame: int| initial.contains(frame) ==> bitmap@.contains(frame),
            forall|n: int| 0 <= n < plan.len() ==> initial.contains(#[trigger] plan[n]),
            initial.contains(self.frame() as int / 0x1000),
        ensures
            self.consistent(bitmap),
            !plan.contains(self.frame() as int / 0x1000) ==> self.exclusive(),
    {
        let own = self.frame() as int / 0x1000;
        lemma_entry_word(self.frame(), 0x3);
        lemma_entry_word(0, 0);
        assert(word_frame(self.pde(RECURSIVE_SLOT as int)) == self.frame());
        assert forall|page: int, frame: int|
            0 <= page < N_FRAMES && #[trigger] self.page_at(page, frame) implies plan.contains(page)
            && frame == page by {
            assert(self.page_word(page) == self.pte(page / 1024, page % 1024));
            if page >= 0xFFC00 {
                assert(page / 1024 == 1023);
            } else {
                if plan.contains(page) {
                    let base = (page * 0x1000) as usize;
                    lemma_entry_word(base, 0x3);
                }
            }
        }
        assert forall|i: int, frame: int|
            0 <= i < ENTRY_COUNT && #[trigger] self.table_at(i, frame) implies bitmap@.contains(frame)
            && (i < RECURSIVE_SLOT ==> !initial.contains(frame)) && (i == RECURSIVE_SLOT ==> frame
            == own) by {
            let word = self.pde(i);
            lemma_word_frame(word);
        }
        assert forall|frame: int| #[trigger] self.refers_to(frame) implies bitmap@.contains(frame) by {
            if exists|i: int| 0 <= i < ENTRY_COUNT && #[trigger] self.table_at(i, frame) {
                let i = choose|i: int| 0 <= i < ENTRY_COUNT && #[trigger] self.table_at(i, frame);
                assert(self.table_at(i, frame));
            } else {
                let page = choose|page: int|
                    0 <= page < N_FRAMES && #[trigger] self.page_at(page, frame);
                assert(self.page_at(page, frame));
                let n = choose|n: int| 0 <= n < plan.len() && plan[n] == page;
                assert(initial.contains(plan[n]));
            }
        }
        if !plan.contains(own) {
            assert forall|i: int, page: int, frame: int|
                0 <= i < ENTRY_COUNT && 0 <= page < N_FRAMES implies !(#[trigger] self.table_at(i, frame)
                && #[trigger] self.page_at(page, frame)) by {
                if self.table_at(i, frame) && self.page_at(page, frame) {
                    let n = choose|n: int| 0 <= n < plan.len() && plan[n] == page;
                    assert(initial.contains(plan[n]));
                }
            }
        }
    }

    /// The table that was opened last lies below the recursive slot.
    proof fn lemma_last_opened(&self, done: Seq<int>)
        requires
            self.identity_mapped(done),
        ensures
            done.len() > 0 ==> 0 <= last_opened(done) < RECURSIVE_SLOT,
    {
        if done.len() > 0 {
            assert(0 <= done.last() < 0xFFC00);
            if exists|m: int| 0 <= m < done.len() - 1 && #[trigger] page_slot(done[m]) == page_slot(
                done.last(),
            ) {
                lemma_last_opened_in(done.drop_last());
            }
        }
    }

    /// Mapping one more page keeps the page tables those that the pages
    /// mapped need.
    proof fn lemma_table_opened(
        &self,
        bitmap: &PhysicalMemory,
        post: &PageDirectory,
        post_bitmap: &PhysicalMemory,
        start: &PhysicalMemory,
        done: Seq<int>,
        va: usize,
        r: Result<(), PagingError>,
    )
        requires
            va % 0x1000 == 0,
            va < RECURSIVE_WINDOW,
            self.map_page_post(bitmap, post, post_bitmap, va, va, 0x3, r),
            r is Ok,
            self.identity_mapped(done),
            self.tables_backed(bitmap, start@),
            self.tables_opened(bitmap, start, done),
        ensures
            post.tables_opened(post_bitmap, start, done.push(va as int / 0x1000)),
    {
        let target = va as int / 0x1000;
        let i = dir_index(va as int);
        let next = done.push(target);
        assert(target / 1024 == i);
        assert(0 <= i < RECURSIVE_SLOT);
        let fresh = !word_present(self.pde(i));
        assert(next.drop_last() =~= done);
        assert(next.last() == target);
        assert forall|n: int| 0 <= n < done.len() implies post.pde(#[trigger] page_slot(done[n]))
            == self.pde(page_slot(done[n])) by {
            assert(self.has_table(done[n]));
            assert(0 <= page_slot(done[n]) < ENTRY_COUNT);
        }
        self.lemma_opened_same(post, bitmap, start, done);
        if fresh {
            lemma_word_frame(post.pde(i));
            lemma_entry_word(word_frame(post.pde(i)), 0x3);
            assert forall|m: int| 0 <= m < next.len() - 1 implies #[trigger] page_slot(next[m]) != i by {
                assert(self.has_table(done[m]));
            }
            assert(last_opened(next) == i);
            assert(page_slot(next.last()) == i);
            assert(bitmap.alloc_frame_post(
                post_bitmap,
                Ok::<usize, PhysicalMemoryError>(word_frame(post.pde(page_slot(next.last())))),
            ));
            assert(post.opened_in_turn(post_bitmap, start, next));
        } else {
            let n = choose|n: int| 0 <= n < done.len() && #[trigger] page_slot(done[n]) == i;
            assert(page_slot(next[n]) == page_slot(next.last()));
            assert(last_opened(next) == last_opened(done));
            self.lemma_last_opened(done);
            assert(post.pde(last_opened(done)) == self.pde(last_opened(done)));
            assert(post.opened_in_turn(post_bitmap, start, next));
        }
        assert forall|a: int| 0 <= a < RECURSIVE_SLOT && word_present(#[trigger] post.pde(a)) implies exists|
            n: int,
        | 0 <= n < next.len() && #[trigger] page_slot(next[n]) == a by {
            if a == i {
                assert(page_slot(next[done.len() as int]) == a);
            } else {
                assert(post.pde(a) == self.pde(a));
                let n = choose|n: int| 0 <= n < done.len() && #[trigger] page_slot(done[n]) == a;
                assert(page_slot(next[n]) == a);
            }
        }
        assert forall|a: int, k: int|
            0 <= a < k < RECURSIVE_SLOT && word_present(#[trigger] post.pde(a)) && word_present(
                #[trigger] post.pde(k),
            ) implies word_frame(post.pde(a)) != word_frame(post.pde(k)) by {
            if fresh && (a == i || k == i) {
                let other = if a == i {
                    k
                } else {
                    a
                };
                assert(post.pde(other) == self.pde(other));
                assert(bitmap@.contains(word_frame(self.pde(other)) as int / 0x1000));
                assert(!bitmap@.contains(word_frame(post.pde(i)) as int / 0x1000));
            } else {
                assert(post.pde(a) == self.pde(a));
                assert(post.pde(k) == self.pde(k));
            }
        }
        assert forall|frame: int| post_bitmap@.contains(frame) && !start@.contains(frame) implies exists|
            a: int,
        | 0 <= a < RECURSIVE_SLOT && #[trigger] post.table_at(a, frame) by {
            if bitmap@.contains(frame) {
                let a = choose|a: int| 0 <= a < RECURSIVE_SLOT && #[trigger] self.table_at(a, frame);
                assert(post.pde(a) == self.pde(a));
                assert(post.table_at(a, frame));
            } else {
                assert(fresh);
                assert(frame == word_frame(post.pde(i)) as int / 0x1000);
                assert(post.table_at(i, frame));
            }
        }
    }

    /// Maps the page at `address` onto itself with flags 0x3.
    fn identity_map(
        &mut self,
        bitmap: &mut PhysicalMemory,
        address: usize,
        Ghost(done): Ghost<Seq<int>>,
        Ghost(start): Ghost<PhysicalMemory>,
    ) -> (r: Result<(), PagingError>)
        requires
            old(self).wf(),
            address % 0x1000 == 0,
            old(self).identity_mapped(done),
            old(self).tables_backed(old(bitmap), start@),
            old(self).tables_opened(old(bitmap), &start, done),
            forall|frame: int| start@.contains(frame) ==> old(bitmap)@.contains(frame),
        ensures
            final(self).tables_backed(final(bitmap), start@),
            final(self).wf(),
            final(self).frame() == old(self).frame(),
            final(self).recursive() == old(self).recursive(),
            final(self).pde(1023) == old(self).pde(1023),
            forall|frame: int| old(bitmap)@.contains(frame) ==> final(bitmap)@.contains(frame),
            match r {
                Ok(()) => {
                    &&& final(self).identity_mapped(done.push(address as int / 0x1000))
                    &&& final(self).tables_opened(
                        final(bitmap),
                        &start,
                        done.push(address as int / 0x1000),
                    )
                },
                Err(e) => {
                    &&& *final(self) == *old(self)
                    &&& *final(bitmap) == *old(bitmap)
                    &&& e == plan_error(done, address as int / 0x1000)
                    &&& e is Frame ==> !old(self).has_table(address as int / 0x1000) && old(
                        bitmap,
                    ).full()
                },
            },
    {
        let ghost target = address as int / 0x1000;
        let r = self.map_page(bitmap, address, address, 0x3);
        proof {
            let i = dir_index(address as int);
            let j = table_index(address as int);
            lemma_entry_word(0, 0);
            assert forall|a: int|
                0 <= a < RECURSIVE_SLOT && word_present(#[trigger] self.pde(a)) implies bitmap@.contains(
                word_frame(self.pde(a)) as int / 0x1000,
            ) && !start@.contains(word_frame(self.pde(a)) as int / 0x1000) by {
                if self.pde(a) == old(self).pde(a) {
                    assert(word_present(old(self).pde(a)));
                } else {
                    assert(a == i);
                    lemma_word_frame(self.pde(a));
                }
            }
            if address < RECURSIVE_WINDOW {
                assert(target / 1024 == i && target % 1024 == j);
                assert(0 <= target < 0xFFC00);
                lemma_entry_word(address, 0x3);
                if word_present(old(self).pde(i)) {
                    assert(old(self).has_table(target));
                    if word_present(old(self).pte(i, j)) {
                        assert(old(self).page_word(target) != 0);
                    } else {
                        assert(old(self).page_word(target) == old(self).pte(i, j));
                        if done.contains(target) {
                            let base = (target * 0x1000) as usize;
                            lemma_entry_word(base, 0x3);
                        }
                    }
                } else {
                    if done.contains(target) {
                        let n = choose|n: int| 0 <= n < done.len() && done[n] == target;
                        assert(old(self).has_table(done[n]));
                    }
                }
            }
            if r is Ok {
                old(self).lemma_table_opened(
                    old(bitmap),
                    &*self,
                    &*bitmap,
                    &start,
                    done,
                    address,
                    r,
                );
                let next = done.push(target);
                assert(!done.contains(target));
                assert forall|a: int, b: int| 0 <= a < next.len() && 0 <= b < next.len() && a
                    != b implies next[a] != next[b] by {
                    if a < done.len() && b < done.len() {
                    } else if a < done.len() {
                        assert(done.contains(done[a]));
                    } else {
                        assert(done.contains(done[b]));
                    }
                }
                assert forall|n: int| 0 <= n < next.len() implies 0 <= #[trigger] next[n] < 0xFFC00
                    && self.has_table(next[n]) by {
                    if n < done.len() {
                        assert(next[n] == done[n]);
                        assert(old(self).has_table(done[n]));
                        let slot = done[n] / 1024;
                        assert(0 <= slot < 1024);
                        if slot != i {
                            assert(self.pde(slot) == old(self).pde(slot));
                        }
                    } else {
                        assert(next[n] == target);
                        if !word_present(old(self).pde(i)) {
                            let w = self.pde(i);
                            lemma_word_frame(w);
                        }
                    }
                }
                assert forall|page: int| 0 <= page < 0xFFC00 && self.has_table(page) implies #[trigger] self.page_word(
                    page,
                ) == if next.contains(page) {
                    ((page * 0x1000) as usize) | 0x3
                } else {
                    0
                } by {
                    assert(self.page_word(page) == self.pte(page / 1024, page % 1024));
                    assert(0 <= page / 1024 < 1024);
                    if page == target {
                        assert(next[done.len() as int] == target);
                    } else {
                        assert(page / 1024 != i || page % 1024 != j);
                        assert(next.contains(page) == done.contains(page)) by {
                            if done.contains(page) {
                                let n = choose|n: int| 0 <= n < done.len() && done[n] == page;
                                assert(next[n] == page);
                            }
                            if next.contains(page) {
                                let n = choose|n: int| 0 <= n < next.len() && next[n] == page;
                                assert(n < done.len());
                                assert(done[n] == page);
                            }
                        }
                        if page / 1024 == i && !word_present(old(self).pde(i)) {
                            if done.contains(page) {
                                let n = choose|n: int| 0 <= n < done.len() && done[n] == page;
                                assert(old(self).has_table(done[n]));
                            }
                        } else {
                            assert(old(self).has_table(page));
                            assert(old(self).page_word(page) == old(self).pte(
                                page / 1024,
                                page % 1024,
                            ));
                        }
                    }
                }
            }
        }
        r
    }

    /// In a directory without entries no page of the plan is mapped yet.
    proof fn lemma_nothing_mapped(&self, bitmap: &PhysicalMemory, plan: Seq<int>)
        requires
            forall|i: int| 0 <= i < ENTRY_COUNT ==> self.pde(i) == 0,
        ensures
            self.mapped_up_to(bitmap, bitmap, plan, 0),
    {
        reveal(PageDirectory::mapped_up_to);
        lemma_entry_word(0, 0);
        assert(plan.take(0) =~= Seq::<int>::empty());
        assert forall|i: int| 0 <= i < ENTRY_COUNT implies !word_present(#[trigger] self.pde(i)) by {
            assert(self.pde(i) == 0);
        }
        assert forall|page: int| 0 <= page < 0xFFC00 implies !self.has_table(page) by {
            assert(0 <= page / 1024 < ENTRY_COUNT);
            assert(!word_present(self.pde(page / 1024)));
        }
    }

    /// Pointing the last directory entry at the directory's own frame
    /// leaves the identity mapping and its page tables as they are.
    proof fn lemma_self_map_keeps(
        &self,
        post: &PageDirectory,
        bitmap: &PhysicalMemory,
        start: &PhysicalMemory,
        plan: Seq<int>,
    )
        requires
            self.wf(),
            post.wf(),
            post.frame() == self.frame(),
            post.pde(RECURSIVE_SLOT as int) == self.frame() | 0x3,
            forall|i: int| 0 <= i < RECURSIVE_SLOT ==> post.pde(i) == self.pde(i),
            forall|i: int, j: int|
                0 <= i < ENTRY_COUNT && 0 <= j < ENTRY_COUNT ==> post.pte(i, j) == self.pte(i, j),
            self.mapped_up_to(bitmap, start, plan, plan.len() as int),
        ensures
            post.mapped_up_to(bitmap, start, plan, plan.len() as int),
            post.identity_mapped(plan),
            post.self_mapped(),
            start@.contains(self.frame() as int / 0x1000) && (forall|n: int|
                0 <= n < plan.len() ==> start@.contains(#[trigger] plan[n])) ==> {
                &&& post.consistent(bitmap)
                &&& !plan.contains(self.frame() as int / 0x1000) ==> post.exclusive()
            },
    {
        reveal(PageDirectory::mapped_up_to);
        self.lemma_frame_aligned();
        lemma_entry_word(self.frame(), 0x3);
        assert(plan.take(plan.len() as int) =~= plan);
        assert forall|n: int| 0 <= n < plan.len() implies post.has_table(#[trigger] plan[n]) by {
            assert(self.has_table(plan[n]));
            assert(0 <= plan[n] / 1024 < 1023);
        }
        assert forall|page: int| 0 <= page < 0xFFC00 && post.has_table(page) implies #[trigger] post.page_word(
            page,
        ) == if plan.contains(page) {
            ((page * 0x1000) as usize) | 0x3
        } else {
            0
        } by {
            assert(0 <= page / 1024 < 1023);
            assert(self.has_table(page));
            assert(post.page_word(page) == self.page_word(page));
        }
        assert(post.identity_mapped(plan));
        assert forall|i: int|
            0 <= i < RECURSIVE_SLOT && word_present(#[trigger] post.pde(i)) implies bitmap@.contains(
            word_frame(post.pde(i)) as int / 0x1000,
        ) && !start@.contains(word_frame(post.pde(i)) as int / 0x1000) by {
            assert(post.pde(i) == self.pde(i));
        }
        assert forall|i: int| 0 <= i < RECURSIVE_SLOT && word_present(#[trigger] post.pde(i)) implies exists|
            n: int,
        | 0 <= n < plan.len() && #[trigger] page_slot(plan[n]) == i by {
            assert(post.pde(i) == self.pde(i));
        }
        assert forall|i: int, k: int|
            0 <= i < k < RECURSIVE_SLOT && word_present(#[trigger] post.pde(i)) && word_present(
                #[trigger] post.pde(k),
            ) implies word_frame(post.pde(i)) != word_frame(post.pde(k)) by {
            assert(post.pde(i) == self.pde(i));
            assert(post.pde(k) == self.pde(k));
        }
        assert forall|frame: int| bitmap@.contains(frame) && !start@.contains(frame) implies exists|
            i: int,
        | 0 <= i < RECURSIVE_SLOT && #[trigger] post.table_at(i, frame) by {
            let i = choose|i: int| 0 <= i < RECURSIVE_SLOT && #[trigger] self.table_at(i, frame);
            assert(post.pde(i) == self.pde(i));
            assert(post.table_at(i, frame));
        }
        assert(self.identity_mapped(plan));
        self.lemma_last_opened(plan);
        if plan.len() > 0 {
            assert(post.pde(last_opened(plan)) == self.pde(last_opened(plan)));
        }
        assert forall|n: int| 0 <= n < plan.len() implies post.pde(#[trigger] page_slot(plan[n]))
            == self.pde(page_slot(plan[n])) by {
            assert(0 <= plan[n] < 0xFFC00);
        }
        self.lemma_opened_same(post, bitmap, start, plan);
        assert(post.tables_opened(bitmap, start, plan));
        if start@.contains(post.frame() as int / 0x1000) && (forall|n: int|
            0 <= n < plan.len() ==> start@.contains(#[trigger] plan[n])) {
            post.lemma_boot_consistent(bitmap, start@, plan);
        }
    }

    /// Maps page number `n` of the plan, `page`, onto itself.
    fn map_planned(
        &mut self,
        bitmap: &mut PhysicalMemory,
        page: usize,
        Ghost(plan): Ghost<Seq<int>>,
        Ghost(n): Ghost<int>,
        Ghost(start): Ghost<PhysicalMemory>,
    ) -> (r: Result<(), PagingError>)
        requires
            old(self).wf(),
            0 <= n < plan.len(),
            plan[n] == page,
            old(self).mapped_up_to(old(bitmap), &start, plan, n),
        ensures
            final(self).wf(),
            final(self).frame() == old(self).frame(),
            final(self).recursive() == old(self).recursive(),
            final(self).pde(1023) == old(self).pde(1023),
            forall|frame: int| start@.contains(frame) ==> final(bitmap)@.contains(frame),
            match r {
                Ok(()) => final(self).mapped_up_to(final(bitmap), &start, plan, n + 1),
                Err(e) => final(self).stopped_at(final(bitmap), &start, plan, n, e),
            },
    {
        reveal(PageDirectory::mapped_up_to);
        if page > 0xFFFFF {
            return Err(PagingError::Reserved);
        }
        let r = self.identity_map(bitmap, page * 0x1000, Ghost(plan.take(n)), Ghost(start));
        proof {
            assert((page * 0x1000) as int / 0x1000 == page);
            assert(plan.take(n).push(page as int) =~= plan.take(n + 1));
        }
        r
    }

    /// The contract of `init`: the pages of the plan are identity mapped
    /// in order, each new page table in a frame that was free; the first
    /// page that cannot be mapped ends the work with its error, as
    /// `stopped_at` states. With the whole plan mapped, the last directory
    /// entry names the directory's own frame.
    pub open spec fn init_post(
        &self,
        bitmap: &PhysicalMemory,
        post: &PageDirectory,
        post_bitmap: &PhysicalMemory,
        kernel_start: usize,
        kernel_end: usize,
        multiboot_info: usize,
        r: Result<(), PagingError>,
    ) -> bool {
        let plan = boot_pages(kernel_start, kernel_end, multiboot_info);
        &&& post.frame() == self.frame()
        &&& forall|frame: int| bitmap@.contains(frame) ==> post_bitmap@.contains(frame)
        &&& match r {
            Ok(()) => {
                &&& post.mapped_up_to(post_bitmap, bitmap, plan, plan.len() as int)
                &&& post.identity_mapped(plan)
                &&& post.self_mapped()
                &&& post.recursive()
                &&& post.pde(RECURSIVE_SLOT as int) == self.frame() | 0x3
                &&& bitmap@.contains(self.frame() as int / 0x1000) && (forall|n: int|
                    0 <= n < plan.len() ==> bitmap@.contains(#[trigger] plan[n])) ==> {
                    &&& post.consistent(post_bitmap)
                    &&& !plan.contains(self.frame() as int / 0x1000) ==> post.exclusive()
                }
            },
            Err(e) => post.recursive() == self.recursive() && exists|n: int|
                0 <= n < plan.len() && #[trigger] post.stopped_at(post_bitmap, bitmap, plan, n, e),
        }
    }

}

/// Builds the address space that paging starts with: the directory is
/// cleared, the boot pages are mapped onto themselves, the last
/// directory entry is pointed at the directory's own frame, and the
/// directory is from then on addressed through the recursive window.
/// Loading `cr3` and setting `cr0.PG` come between the last two steps
/// and are the caller's.
pub fn init(
    dir: &mut PageDirectory,
    bitmap: &mut PhysicalMemory,
    kernel_start: usize,
    kernel_end: usize,
    multiboot_info: usize,
) -> (r: Result<(), PagingError>)
    requires
        old(dir).wf(),
    ensures
        final(dir).wf(),
        old(dir).init_post(
            old(bitmap),
            final(dir),
            final(bitmap),
            kernel_start,
            kernel_end,
            multiboot_info,
            r,
        ),
{
    let ghost plan = boot_pages(kernel_start, kernel_end, multiboot_info);
    let ghost start = *bitmap;
    let first = kernel_start / 0x1000;
    let last = kernel_end / 0x1000;
    let info = multiboot_info / 0x1000;
    dir.clear();
    proof {
        dir.lemma_nothing_mapped(&*bitmap, plan);
        assert(plan[0] == 0 && plan[1] == 0xB8);
    }
    match dir.map_planned(bitmap, 0x0, Ghost(plan), Ghost(0), Ghost(start)) {
        Ok(()) => {},
        Err(e) => {
            return Err(e);
        },
    }
    match dir.map_planned(bitmap, 0xB8, Ghost(plan), Ghost(1), Ghost(start)) {
        Ok(()) => {},
        Err(e) => {
            return Err(e);
        },
    }
    let mut page = first;
    while page <= last
        invariant
            first <= page,
            first == kernel_start / 0x1000,
            last == kernel_end / 0x1000,
            page <= last + 1 || page == first,
            dir.wf(),
            dir.frame() == old(dir).frame(),
            dir.recursive() == old(dir).recursive(),
            plan == boot_pages(kernel_start, kernel_end, multiboot_info),
            start == *old(bitmap),
            forall|frame: int| start@.contains(frame) ==> bitmap@.contains(frame),
            dir.mapped_up_to(&*bitmap, &start, plan, 2 + (page - first)),
        decreases last + 1 - page,
    {
        proof {
            assert(plan[2 + (page - first)] == page);
        }
        match dir.map_planned(bitmap, page, Ghost(plan), Ghost(2 + (page - first)), Ghost(start)) {
            Ok(()) => {},
            Err(e) => {
                return Err(e);
            },
        }
        page += 1;
    }
    let ghost mut reached: int = if last >= first {
        2 + (last - first + 1)
    } else {
        2
    };
    if info < first || info > last {
        proof {
            assert(plan[plan.len() - 1] == info);
            assert(reached == plan.len() - 1);
        }
        match dir.map_planned(bitmap, info, Ghost(plan), Ghost(reached), Ghost(start)) {
            Ok(()) => {},
            Err(e) => {
                return Err(e);
            },
        }
        proof {
            reached = reached + 1;
        }
    }
    proof {
        assert(reached == plan.len());
        assert(plan.take(reached) =~= plan);
        dir.lemma_frame_aligned();
    }
    let frame = dir.frame;
    let ghost before = *dir;
    dir.set_entry(RECURSIVE_SLOT, frame, 0x3);
    dir.set_recursive(true);
    proof {
        before.lemma_self_map_keeps(&*dir, &*bitmap, &start, plan);
    }
    Ok(())
}

} // verus!
