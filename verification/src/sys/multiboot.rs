//! The Multiboot2 hand-off: the header's checksum, the walk over the tags
//! of the information blob, and the memory map.
//!
//! The blob is read as bytes: a size word and a reserved word, then tags
//! on 8-byte boundaries, each a type word, a size word and its payload.
//! All words are little-endian.

use vstd::prelude::*;

verus! {

/// The magic number of a Multiboot2 header.
pub const HEADER_MAGIC: u32 = 0xE852_50D6;

/// The value that a Multiboot2 loader leaves in `eax`.
pub const BOOTLOADER_MAGIC: u32 = 0x36D7_6289;

/// The type of the memory map tag.
pub const MEMORY_MAP_TAG: u32 = 6;

/// The type of a region of available RAM.
pub const AVAILABLE_RAM: u32 = 1;

/// Size in bytes of a memory map entry as this kernel reads it.
pub const ENTRY_BYTES: usize = 24;

/// The head of the memory map tag.
#[derive(Debug, Clone, Copy, PartialEq, Eq, Structural)]
pub struct MultibootMemoryMapTag {
    pub _type: u32,
    pub size: u32,
    pub entry_size: u32,
    pub entry_version: u32,
}

/// One region of the memory map.
#[derive(Debug, Clone, Copy, PartialEq, Eq, Structural)]
pub struct MultibootMemoryMapEntry {
    pub base_addr: u64,
    pub length: u64,
    pub _type: u32,
    pub reserved: u32,
}

/// The little-endian word of four bytes at `at`.
pub open spec fn word_at(bytes: Seq<u8>, at: int) -> int {
    bytes[at] + 0x100 * bytes[at + 1] + 0x1_0000 * bytes[at + 2] + 0x100_0000 * bytes[at + 3]
}

/// The little-endian word of eight bytes at `at`.
pub open spec fn long_at(bytes: Seq<u8>, at: int) -> int {
    word_at(bytes, at) + 0x1_0000_0000 * word_at(bytes, at + 4)
}

/// The next 8-byte boundary at or after `offset`.
pub open spec fn align8(offset: int) -> int {
    (offset + 7) / 8 * 8
}

/// Where the tags end: at the blob's own size word, or at the end of the
/// bytes at hand if that comes first.
pub open spec fn tags_end(bytes: Seq<u8>) -> int {
    if bytes.len() < 8 {
        0
    } else if word_at(bytes, 0) < bytes.len() {
        word_at(bytes, 0)
    } else {
        bytes.len() as int
    }
}

/// The offset of the first tag of type `wanted` that the walk from
/// `offset` reaches. The walk ends without a find where no whole tag head
/// is left or where a tag claims less than its own head.
pub open spec fn find_tag(bytes: Seq<u8>, offset: int, wanted: u32) -> Option<int>
    decreases bytes.len() - offset,
{
    if offset < 8 || offset + 8 > tags_end(bytes) {
        None
    } else if word_at(bytes, offset) == wanted {
        Some(offset)
    } else if word_at(bytes, offset + 4) < 8 || align8(offset + word_at(bytes, offset + 4)) + 8
        > tags_end(bytes) {
        None
    } else {
        find_tag(bytes, align8(offset + word_at(bytes, offset + 4)), wanted)
    }
}

/// The memory map entry whose bytes start at `at`.
pub open spec fn entry_at(bytes: Seq<u8>, at: int) -> MultibootMemoryMapEntry {
    MultibootMemoryMapEntry {
        base_addr: long_at(bytes, at) as u64,
        length: long_at(bytes, at + 8) as u64,
        _type: word_at(bytes, at + 16) as u32,
        reserved: word_at(bytes, at + 20) as u32,
    }
}

/// How many entries the memory map tag at `tag` holds: as many whole
/// entries as lie between its head and its end, none where the entry
/// size is below 24 bytes or the tag does not fit the bytes at hand.
pub open spec fn entry_count(bytes: Seq<u8>, tag: int) -> int {
    let size = word_at(bytes, tag + 4);
    let entry_size = word_at(bytes, tag + 8);
    if tag + 16 > bytes.len() || size < 16 || tag + size > bytes.len() || entry_size < 24 {
        0
    } else {
        (size - 16) / entry_size
    }
}

/// The entries of the memory map tag at `tag`.
pub open spec fn entries_of(bytes: Seq<u8>, tag: int) -> Seq<MultibootMemoryMapEntry> {
    Seq::new(
        entry_count(bytes, tag) as nat,
        |i: int| entry_at(bytes, tag + 16 + i * word_at(bytes, tag + 8)),
    )
}

/// The checksum that completes a header: magic, architecture, header
/// length and checksum add up to zero in 32 bits.
pub fn header_checksum(architecture: u32, header_length: u32) -> (checksum: u32)
    ensures
        (HEADER_MAGIC + architecture + header_length + checksum) % 0x1_0000_0000 == 0,
{
    let sum = HEADER_MAGIC.wrapping_add(architecture).wrapping_add(header_length);
    let checksum = 0u32.wrapping_sub(sum);
    assert((HEADER_MAGIC + architecture + header_length + checksum) % 0x1_0000_0000 == 0) by {
        let a = (HEADER_MAGIC + architecture) % 0x1_0000_0000;
        assert(HEADER_MAGIC.wrapping_add(architecture) == a);
        assert(sum == (a + header_length) % 0x1_0000_0000);
        assert(checksum == (0x1_0000_0000 - sum) % 0x1_0000_0000);
    }
    checksum
}

/// Whether `magic` is what a Multiboot2 loader hands over.
pub fn is_multiboot2(magic: u32) -> (ok: bool)
    ensures
        ok == (magic == BOOTLOADER_MAGIC),
{
    magic == BOOTLOADER_MAGIC
}

/// Reads the little-endian word at `at`.
pub fn read_word(bytes: &[u8], at: usize) -> (word: u32)
    requires
        at + 4 <= bytes@.len(),
    ensures
        word == word_at(bytes@, at as int),
{
    let _ = bytes.len();
    let b0 = bytes[at] as u32;
    let b1 = bytes[at + 1] as u32;
    let b2 = bytes[at + 2] as u32;
    let b3 = bytes[at + 3] as u32;
    b0 + 0x100 * b1 + 0x1_0000 * b2 + 0x100_0000 * b3
}

/// Reads the little-endian word of eight bytes at `at`.
pub fn read_long(bytes: &[u8], at: usize) -> (long: u64)
    requires
        at + 8 <= bytes@.len(),
    ensures
        long == long_at(bytes@, at as int),
{
    let _ = bytes.len();
    let low = read_word(bytes, at) as u64;
    let high = read_word(bytes, at + 4) as u64;
    low + 0x1_0000_0000 * high
}

/// Walks the tags of the information blob and returns the offset of the
/// first tag of type `multiboot_tag`.
pub fn parse_multiboot_info(info: &[u8], multiboot_tag: u32) -> (found: Option<usize>)
    ensures
        match found {
            Some(offset) => find_tag(info@, 8, multiboot_tag) == Some(offset as int),
            None => find_tag(info@, 8, multiboot_tag) is None,
        },
{
    if info.len() < 8 {
        return None;
    }
    let total = read_word(info, 0) as usize;
    let end = if total < info.len() {
        total
    } else {
        info.len()
    };
    let mut current: usize = 8;
    while current <= end && end - current >= 8
        invariant
            8 <= current,
            end == tags_end(info@),
            end <= info@.len(),
            find_tag(info@, 8, multiboot_tag) == find_tag(info@, current as int, multiboot_tag),
        decreases info@.len() - current,
    {
        let tag_type = read_word(info, current);
        if tag_type == multiboot_tag {
            return Some(current);
        }
        let size = read_word(info, current + 4) as usize;
        if size < 8 {
            return None;
        }
        if size > end - current {
            proof {
                let next = align8(current + size);
                assert(next + 8 > tags_end(info@));
            }
            return None;
        }
        let next = current + size;
        if end - next < 7 {
            proof {
                assert(align8(next as int) + 8 > tags_end(info@));
            }
            return None;
        }
        let aligned = (next + 7) / 8 * 8;
        current = aligned;
    }
    None
}

/// The head of the memory map tag at `tag`.
pub fn read_memory_map_tag(info: &[u8], tag: usize) -> (head: MultibootMemoryMapTag)
    requires
        tag + 16 <= info@.len(),
    ensures
        head._type == word_at(info@, tag as int),
        head.size == word_at(info@, tag + 4),
        head.entry_size == word_at(info@, tag + 8),
        head.entry_version == word_at(info@, tag + 12),
{
    let _ = info.len();
    MultibootMemoryMapTag {
        _type: read_word(info, tag),
        size: read_word(info, tag + 4),
        entry_size: read_word(info, tag + 8),
        entry_version: read_word(info, tag + 12),
    }
}

/// The memory map of the information blob: the entries of its first
/// memory map tag, or none where the blob has no such tag.
pub fn memory_map(info: &[u8]) -> (map: Option<Vec<MultibootMemoryMapEntry>>)
    ensures
        match map {
            Some(entries) => find_tag(info@, 8, MEMORY_MAP_TAG) matches Some(tag) && entries@
                == entries_of(info@, tag),
            None => find_tag(info@, 8, MEMORY_MAP_TAG) is None,
        },
{
    let tag = match parse_multiboot_info(info, MEMORY_MAP_TAG) {
        Some(tag) => tag,
        None => {
            return None;
        },
    };
    let mut entries: Vec<MultibootMemoryMapEntry> = Vec::new();
    if info.len() < 16 || tag > info.len() - 16 {
        assert(entries@ =~= entries_of(info@, tag as int));
        return Some(entries);
    }
    let head = read_memory_map_tag(info, tag);
    let size = head.size as usize;
    let entry_size = head.entry_size as usize;
    if size < 16 || size > info.len() - tag || entry_size < ENTRY_BYTES {
        assert(entries@ =~= entries_of(info@, tag as int));
        return Some(entries);
    }
    let count = (size - 16) / entry_size;
    let length = info.len();
    let mut i: usize = 0;
    while i < count
        invariant
            i <= count,
            count == entry_count(info@, tag as int),
            count == (size - 16) / entry_size as int,
            entry_size == word_at(info@, tag + 8),
            entry_size >= 24,
            16 <= size,
            tag + size <= info@.len(),
            info@.len() == length,
            entries@.len() == i,
            forall|j: int|
                0 <= j < i ==> entries@[j] == entry_at(info@, tag + 16 + j * entry_size),
        decreases count - i,
    {
        assert(i * entry_size + entry_size <= size - 16) by (nonlinear_arith)
            requires
                i < count,
                count == (size - 16) / entry_size as int,
                entry_size >= 24,
                size >= 16,
        ;
        let at = tag + 16 + i * entry_size;
        let entry = MultibootMemoryMapEntry {
            base_addr: read_long(info, at),
            length: read_long(info, at + 8),
            _type: read_word(info, at + 16),
            reserved: read_word(info, at + 20),
        };
        entries.push(entry);
        i += 1;
    }
    assert(entries@ =~= entries_of(info@, tag as int));
    Some(entries)
}

} // verus!
