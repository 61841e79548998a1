use kfs::boot::{init, BootError, KERNEL_HEAP_START, USER_HEAP_START};
use kfs::memory::dynamicmemory::{HeapAllocator, Layout};
use kfs::memory::heap_test::{alloc_test, kalloc_test, user_alloc_test};
use kfs::memory::physicalmemory::{self, PhysicalMemory, PhysicalMemoryError};
use kfs::memory::virtualmemory::{self, PageDirectory, PagingError, PDA};
use kfs::sys::multiboot::{
    header_checksum, is_multiboot2, memory_map, parse_multiboot_info, read_memory_map_tag,
    MultibootMemoryMapEntry, BOOTLOADER_MAGIC, HEADER_MAGIC,
};

fn push32(blob: &mut Vec<u8>, word: u32) {
    blob.extend_from_slice(&word.to_le_bytes());
}

fn push64(blob: &mut Vec<u8>, word: u64) {
    blob.extend_from_slice(&word.to_le_bytes());
}

/// A blob with a command line tag, a memory map tag and the end tag.
fn blob(entries: &[(u64, u64, u32)]) -> Vec<u8> {
    let mut b = Vec::new();
    push32(&mut b, 0);
    push32(&mut b, 0);
    // Tag 1, 13 bytes long, padded to 16.
    push32(&mut b, 1);
    push32(&mut b, 13);
    b.extend_from_slice(b"hello\0\0\0");
    // Tag 6.
    push32(&mut b, 6);
    push32(&mut b, 16 + 24 * entries.len() as u32);
    push32(&mut b, 24);
    push32(&mut b, 0);
    for &(base, length, kind) in entries {
        push64(&mut b, base);
        push64(&mut b, length);
        push32(&mut b, kind);
        push32(&mut b, 0);
    }
    push32(&mut b, 0);
    push32(&mut b, 8);
    let total = b.len() as u32;
    b[0..4].copy_from_slice(&total.to_le_bytes());
    b
}

fn usual_map() -> Vec<(u64, u64, u32)> {
    vec![
        (0x0, 0x9FC00, 1),
        (0x9FC00, 0x400, 2),
        (0xF0000, 0x10000, 2),
        (0x100000, 0x7EE0000, 1),
        (0x7FE0000, 0x20000, 2),
        (0xFFFC0000, 0x40000, 2),
    ]
}

#[test]
fn header_checksum_completes_the_sum() {
    let checksum = header_checksum(0, 0);
    assert_eq!(checksum, 0xE85250D6u32.wrapping_neg());
    assert_eq!(HEADER_MAGIC.wrapping_add(checksum), 0);
    let with_length = header_checksum(0, 24);
    assert_eq!(HEADER_MAGIC.wrapping_add(0).wrapping_add(24).wrapping_add(with_length), 0);
}

#[test]
fn only_the_multiboot2_magic_is_accepted() {
    assert!(is_multiboot2(0x36d76289));
    assert!(!is_multiboot2(0x2BADB002));
    assert_eq!(BOOTLOADER_MAGIC, 0x36d76289);
}

#[test]
fn tag_walk_finds_the_memory_map() {
    let b = blob(&usual_map());
    assert_eq!(parse_multiboot_info(&b, 1), Some(8));
    assert_eq!(parse_multiboot_info(&b, 6), Some(24));
    assert_eq!(parse_multiboot_info(&b, 0), Some(24 + 16 + 24 * 6));
    assert_eq!(parse_multiboot_info(&b, 9), None);
    let head = read_memory_map_tag(&b, 24);
    assert_eq!(head._type, 6);
    assert_eq!(head.size, 16 + 24 * 6);
    assert_eq!(head.entry_size, 24);
    assert_eq!(head.entry_version, 0);
}

#[test]
fn tag_walk_stops_at_malformed_tags() {
    assert_eq!(parse_multiboot_info(&[], 6), None);
    assert_eq!(parse_multiboot_info(&[16, 0, 0, 0, 0, 0, 0, 0], 6), None);
    // A tag that claims less than its own head.
    let mut b = Vec::new();
    push32(&mut b, 32);
    push32(&mut b, 0);
    push32(&mut b, 1);
    push32(&mut b, 4);
    push32(&mut b, 6);
    push32(&mut b, 16);
    push32(&mut b, 24);
    push32(&mut b, 0);
    assert_eq!(parse_multiboot_info(&b, 6), None);
    // A size word beyond the bytes at hand ends the walk at the bytes.
    let mut c = blob(&usual_map());
    c[0..4].copy_from_slice(&0xFFFFu32.to_le_bytes());
    assert_eq!(parse_multiboot_info(&c, 6), Some(24));
}

#[test]
fn memory_map_entries_are_decoded() {
    let b = blob(&usual_map());
    let map = memory_map(&b).unwrap();
    assert_eq!(map.len(), 6);
    assert_eq!(
        map[1],
        MultibootMemoryMapEntry { base_addr: 0x9FC00, length: 0x400, _type: 2, reserved: 0 }
    );
    assert_eq!(map[5].base_addr, 0xFFFC0000);
    assert_eq!(map[5].length, 0x40000);
    let none = blob(&[]);
    assert_eq!(memory_map(&none).unwrap().len(), 0);
    assert_eq!(memory_map(&[0u8; 8]), None);
}

#[test]
fn boot_seeding_marks_reserved_regions_and_fixed_frames() {
    let b = blob(&usual_map());
    let map = memory_map(&b).unwrap();
    let mut pm = PhysicalMemory::new();
    assert_eq!(physicalmemory::init(&mut pm, &map, 0x200400, 0x23F000, 0x10000), Ok(()));
    // Null guard, VGA, page directory, boot information.
    assert!(!pm.is_address_free(0x0));
    assert!(!pm.is_address_free(0xB8000));
    assert!(!pm.is_address_free(PDA));
    assert!(!pm.is_address_free(0x10000));
    // Kernel image, from the frame of its start to the frame of its end.
    assert!(pm.is_address_free(0x1FF000));
    assert!(!pm.is_address_free(0x200000));
    assert!(!pm.is_address_free(0x23F000));
    assert!(pm.is_address_free(0x240000));
    // Reserved regions: 0x9FC00..0xA0000 is frame 0x9F; 0xF0000..0x100000.
    assert!(!pm.is_address_free(0x9F000));
    assert!(pm.is_address_free(0x9E000));
    assert!(!pm.is_address_free(0xF0000));
    assert!(!pm.is_address_free(0xFF000));
    assert!(!pm.is_address_free(0x7FE0000));
    assert!(!pm.is_address_free(0xFFFF_F000));
    // Available RAM stays free.
    assert!(pm.is_address_free(0x100000));
    assert!(pm.is_address_free(0x1000));
    assert!(pm.is_address_free(0x22000));
}

#[test]
fn boot_seeding_stops_at_terminator_entries() {
    let map = [
        MultibootMemoryMapEntry { base_addr: 0x5000, length: 0x1000, _type: 2, reserved: 0 },
        MultibootMemoryMapEntry { base_addr: 0, length: 0, _type: 0, reserved: 0 },
        MultibootMemoryMapEntry { base_addr: 0x7000, length: 0x1000, _type: 2, reserved: 0 },
    ];
    let mut pm = PhysicalMemory::new();
    assert_eq!(physicalmemory::init(&mut pm, &map, 0x200000, 0x200000, 0x10000), Ok(()));
    assert!(!pm.is_address_free(0x5000));
    assert!(pm.is_address_free(0x7000));
    let with_eight = [
        MultibootMemoryMapEntry { base_addr: 0x5000, length: 0x1000, _type: 9, reserved: 0 },
        MultibootMemoryMapEntry { base_addr: 0x7000, length: 0x1000, _type: 2, reserved: 0 },
    ];
    let mut pm = PhysicalMemory::new();
    assert_eq!(physicalmemory::init(&mut pm, &with_eight, 0x200000, 0x200000, 0x10000), Ok(()));
    assert!(pm.is_address_free(0x5000));
    assert!(pm.is_address_free(0x7000));
}

#[test]
fn boot_seeding_covers_partial_frames_and_clips_at_four_gib() {
    let map = [
        MultibootMemoryMapEntry { base_addr: 0x5800, length: 0x1000, _type: 3, reserved: 0 },
        MultibootMemoryMapEntry { base_addr: 0xFFFF_F000, length: 0x10_0000, _type: 2, reserved: 0 },
        MultibootMemoryMapEntry {
            base_addr: 0xFD_0000_0000,
            length: 0x3_0000_0000,
            _type: 2,
            reserved: 0,
        },
        MultibootMemoryMapEntry { base_addr: 0x9000, length: 0, _type: 2, reserved: 0 },
    ];
    let mut pm = PhysicalMemory::new();
    assert_eq!(physicalmemory::init(&mut pm, &map, 0x200000, 0x200000, 0x10000), Ok(()));
    assert!(!pm.is_address_free(0x5000));
    assert!(!pm.is_address_free(0x6000));
    assert!(pm.is_address_free(0x7000));
    assert!(!pm.is_address_free(0xFFFF_F000));
    assert!(pm.is_address_free(0x9000));
}

#[test]
fn boot_seeding_reports_overlap_as_already_in_use() {
    let map = [MultibootMemoryMapEntry { base_addr: 0xB8000, length: 0x1000, _type: 2, reserved: 0 }];
    let mut pm = PhysicalMemory::new();
    assert_eq!(
        physicalmemory::init(&mut pm, &map, 0x200000, 0x200000, 0x10000),
        Err(PhysicalMemoryError::FrameAlreadyInUse)
    );
    // The frame of the boot information was not reached.
    assert!(pm.is_address_free(0x10000));
    assert!(!pm.is_address_free(0x0));
}

#[test]
fn boot_seeding_reports_kernel_beyond_four_gib() {
    let mut pm = PhysicalMemory::new();
    let end: u64 = 0x1_0000_0000;
    assert_eq!(
        physicalmemory::init(&mut pm, &[], 0xFFFF_E000, end as usize, 0x10000),
        Err(PhysicalMemoryError::OutOfMemory)
    );
    assert!(!pm.is_address_free(0xFFFF_F000));
}

#[test]
fn mark_run_marks_in_order() {
    let mut pm = PhysicalMemory::new();
    assert_eq!(physicalmemory::mark_run(&mut pm, 10, 3), Ok(()));
    assert!(!pm.is_frame_free(10) && !pm.is_frame_free(12) && pm.is_frame_free(13));
    assert_eq!(physicalmemory::mark_run(&mut pm, 8, 4), Err(PhysicalMemoryError::FrameAlreadyInUse));
    assert!(!pm.is_frame_free(8) && !pm.is_frame_free(9));
    assert_eq!(physicalmemory::mark_run(&mut pm, 20, 0), Ok(()));
}

#[test]
fn boot_paging_maps_identity_and_recursion() {
    let mut pm = PhysicalMemory::new();
    physicalmemory::init(&mut pm, &[], 0x200400, 0x23F000, 0x10000).unwrap();
    let mut dir = PageDirectory::new(PDA);
    assert_eq!(virtualmemory::init(&mut dir, &mut pm, 0x200400, 0x23F000, 0x10000), Ok(()));
    assert!(dir.is_recursive());
    assert_eq!(dir.translate(0x0), Some(0x0));
    assert_eq!(dir.translate(0xB8123), Some(0xB8123));
    assert_eq!(dir.translate(0x200000), Some(0x200000));
    assert_eq!(dir.translate(0x23FFFF), Some(0x23FFFF));
    assert_eq!(dir.translate(0x240000), None);
    assert_eq!(dir.translate(0x10004), Some(0x10004));
    assert_eq!(dir.translate(0x1000), None);
    assert_eq!(dir.ref_dir()[1023].0, PDA | 0x3);
    assert_eq!(dir.translate(0xFFFF_F000), Some(PDA));
    assert_eq!(dir.translate(0xFFFF_F000 + 4 * 1023), Some(PDA + 4 * 1023));
    // One page table, for the first 4 MiB, taken from the bitmap.
    assert!(dir.ref_dir()[0].is_present());
    assert!(!dir.ref_dir()[1].is_present());
    assert!(!pm.is_address_free(dir.ref_dir()[0].page_table_address()));
}

#[test]
fn boot_paging_skips_boot_information_inside_the_kernel() {
    let mut pm = PhysicalMemory::new();
    let mut dir = PageDirectory::new(PDA);
    assert_eq!(virtualmemory::init(&mut dir, &mut pm, 0x200000, 0x23F000, 0x210000), Ok(()));
    assert_eq!(dir.translate(0x210000), Some(0x210000));
}

#[test]
fn boot_paging_refuses_a_page_twice() {
    let mut pm = PhysicalMemory::new();
    let mut dir = PageDirectory::new(PDA);
    // The kernel image covers the VGA buffer.
    assert_eq!(
        virtualmemory::init(&mut dir, &mut pm, 0xB0000, 0xC0000, 0x10000),
        Err(PagingError::AlreadyMapped)
    );
    let mut dir = PageDirectory::new(PDA);
    let mut pm = PhysicalMemory::new();
    assert_eq!(
        virtualmemory::init(&mut dir, &mut pm, 0x200000, 0x200000, 0xFFC0_0000),
        Err(PagingError::Reserved)
    );
}

#[test]
fn init_directory_allocates_only_missing_tables() {
    let mut pm = PhysicalMemory::new();
    pm.alloc_frame_address(0).unwrap();
    let mut dir = PageDirectory::new(PDA);
    assert_eq!(dir.init_directory(&mut pm, 0x40_0000, 0xC0_0000), Ok(()));
    assert!(!dir.ref_dir()[0].is_present());
    assert!(dir.ref_dir()[1].is_present());
    assert!(dir.ref_dir()[2].is_present());
    assert!(!dir.ref_dir()[3].is_present());
    assert_eq!(dir.ref_dir()[1].0, 0x1000 | 0x3);
    assert_eq!(dir.ref_dir()[2].0, 0x2000 | 0x3);
    let before = pm.bitmap;
    assert_eq!(dir.init_directory(&mut pm, 0x40_0000, 0xC0_0000), Ok(()));
    assert!(pm.bitmap == before);
    assert_eq!(dir.init_directory(&mut pm, 0x40_0000, 0xC0_1000), Ok(()));
    assert!(dir.ref_dir()[3].is_present());
    assert_eq!(dir.init_directory(&mut pm, 0x40_0000, 0xFFC0_1000), Err(PagingError::Reserved));
    assert_eq!(dir.init_directory(&mut pm, 0xC0_0000, 0x40_0000), Ok(()));
}

#[test]
fn whole_boot_brings_up_both_heaps() {
    let b = blob(&usual_map());
    let mut pm = PhysicalMemory::new();
    let mut dir = PageDirectory::new(PDA);
    let mut user = HeapAllocator::new();
    let mut kernel = HeapAllocator::new();
    assert_eq!(
        init(&mut pm, &mut dir, &mut user, &mut kernel, 0x36d76289, &b, 0x100000, 0x17F000, 0x10000, true),
        Ok(())
    );
    assert!(dir.is_recursive());
    assert_eq!(user.next_virtual_address(), USER_HEAP_START);
    assert_eq!(kernel.next_virtual_address(), KERNEL_HEAP_START);
    assert!(kernel.is_kernel() && !user.is_kernel());
    // Boot diagnostic: what boot occupies is in use, plain RAM behind the kernel is not.
    assert!(!pm.is_address_free(0x0));
    assert!(!pm.is_address_free(0xB8000));
    assert!(!pm.is_address_free(0x100000));
    assert!(!pm.is_address_free(0x17F000));
    assert!(!pm.is_address_free(PDA));
    assert!(pm.is_address_free(0x700_0000));
    // The page tables of the heap windows took the first free frames.
    assert!(!pm.is_address_free(0x1000));
    // Both heaps serve requests, each in its own window and with its own flags.
    let layout = Layout::from_size_align(8192, 4096).unwrap();
    let u = user.allocate(&mut dir, &mut pm, layout).unwrap();
    let k = kernel.allocate(&mut dir, &mut pm, layout).unwrap();
    assert_eq!(u, USER_HEAP_START);
    assert_eq!(k, KERNEL_HEAP_START);
    let up = dir.translate(u).unwrap();
    let kp = dir.translate(k).unwrap();
    assert!(!pm.is_address_free(up) && !pm.is_address_free(kp));
    assert_ne!(up, kp);
    assert_eq!(dir.ref_table(u >> 22).entries[(u >> 12) & 0x3FF].0 & 0xFFF, 0x7);
    assert_eq!(dir.ref_table(k >> 22).entries[(k >> 12) & 0x3FF].0 & 0xFFF, 0x3);
    assert_eq!(user.deallocate(&mut dir, &mut pm, u, layout), Ok(()));
    assert_eq!(kernel.deallocate(&mut dir, &mut pm, k, layout), Ok(()));
}

#[test]
fn whole_boot_refuses_wrong_magic_and_missing_map() {
    let b = blob(&usual_map());
    let mut pm = PhysicalMemory::new();
    let mut dir = PageDirectory::new(PDA);
    let mut user = HeapAllocator::new();
    let mut kernel = HeapAllocator::new();
    assert_eq!(
        init(&mut pm, &mut dir, &mut user, &mut kernel, 0x2BADB002, &b, 0x100000, 0x17F000, 0x10000, true),
        Err(BootError::NotMultiboot)
    );
    assert_eq!(
        init(&mut pm, &mut dir, &mut user, &mut kernel, 0x36d76289, &[0u8; 8], 0x100000, 0x17F000, 0x10000, true),
        Err(BootError::NoMemoryMap)
    );
    let overlapping = blob(&[(0x0, 0x1000, 2)]);
    assert_eq!(
        init(&mut pm, &mut dir, &mut user, &mut kernel, 0x36d76289, &overlapping, 0x100000, 0x17F000, 0x10000, true),
        Err(BootError::Frames(PhysicalMemoryError::FrameAlreadyInUse))
    );
    let mut pm = PhysicalMemory::new();
    let mut dir = PageDirectory::new(PDA);
    // A kernel image that reaches into the user window is mapped there already.
    assert_eq!(
        init(&mut pm, &mut dir, &mut user, &mut kernel, 0x36d76289, &b, 0x100000, 0x300000, 0x10000, true),
        Err(BootError::Paging(PagingError::AlreadyMapped))
    );
}

#[test]
fn whole_boot_without_paging() {
    let b = blob(&usual_map());
    let mut pm = PhysicalMemory::new();
    let mut dir = PageDirectory::new(PDA);
    let mut user = HeapAllocator::new();
    let mut kernel = HeapAllocator::new();
    assert_eq!(
        init(&mut pm, &mut dir, &mut user, &mut kernel, 0x36d76289, &b, 0x100000, 0x17F000, 0x10000, false),
        Ok(())
    );
    assert!(!dir.is_recursive());
    assert!(!dir.ref_dir()[0].is_present());
    let a = user.allocate(&mut dir, &mut pm, Layout::from_size_align(4096, 4096).unwrap()).unwrap();
    assert!(a >= USER_HEAP_START);
    assert!(!pm.is_address_free(a));
}

#[test]
fn heap_exercises_leave_the_heap_usable() {
    let mut pm = PhysicalMemory::new();
    pm.alloc_frame_address(0).unwrap();
    let mut dir = PageDirectory::new(PDA);
    let mut heap = HeapAllocator::new();
    heap.init(
        &mut dir,
        &mut pm,
        0x4000_0000,
        0x7000_0000,
        kfs::memory::dynamicmemory::Privilege::Kernel,
        true,
    )
    .unwrap();
    assert_eq!(user_alloc_test(&mut heap, &mut dir, &mut pm, true), 8);
    assert!(kalloc_test(&mut heap, &mut dir, &mut pm));
    assert!(alloc_test(&mut heap, &mut dir, &mut pm, true));
    let mut small = HeapAllocator::new();
    small
        .init(&mut dir, &mut pm, 0x80_0000, 0x80_2000, kfs::memory::dynamicmemory::Privilege::Kernel, false)
        .unwrap();
    assert_eq!(user_alloc_test(&mut small, &mut dir, &mut pm, false), 2);
    assert!(!alloc_test(&mut small, &mut dir, &mut pm, false));
}

#[test]
fn kernel_exercise_needs_two_blocks_and_room() {
    let mut pm = PhysicalMemory::new();
    pm.alloc_frame_address(0).unwrap();
    let mut dir = PageDirectory::new(PDA);

    // One block of two pages: the first request is served, the second is
    // not, and the first block goes back.
    let mut one = HeapAllocator::new();
    one.init(&mut dir, &mut pm, 0x80_0000, 0x80_2000, kfs::memory::dynamicmemory::Privilege::Kernel, false)
        .unwrap();
    assert_eq!(one.free_counts(), [0, 1, 0, 0, 0, 0, 0, 0, 0, 0, 0]);
    let cursor = one.next_virtual_address();
    assert!(!kalloc_test(&mut one, &mut dir, &mut pm));
    assert_eq!(one.free_counts(), [0, 1, 0, 0, 0, 0, 0, 0, 0, 0, 0]);
    assert_eq!(one.next_virtual_address(), cursor + 0x2000);

    // One block of four pages: split in two, both requests are served,
    // and the first half goes back.
    let mut two = HeapAllocator::new();
    two.init(&mut dir, &mut pm, 0x100_0000, 0x100_4000, kfs::memory::dynamicmemory::Privilege::Kernel, false)
        .unwrap();
    assert_eq!(two.free_counts(), [0, 0, 1, 0, 0, 0, 0, 0, 0, 0, 0]);
    let cursor = two.next_virtual_address();
    assert!(kalloc_test(&mut two, &mut dir, &mut pm));
    assert_eq!(two.free_counts(), [0, 1, 0, 0, 0, 0, 0, 0, 0, 0, 0]);
    assert_eq!(two.free_list(1), vec![0x100_0000]);
    assert_eq!(two.next_virtual_address(), cursor + 0x4000);

    // A block is in stock now, but the window has no room left: nothing
    // is asked twice, and nothing changes.
    assert!(!kalloc_test(&mut two, &mut dir, &mut pm));
    assert_eq!(two.free_counts(), [0, 1, 0, 0, 0, 0, 0, 0, 0, 0, 0]);
    assert_eq!(two.next_virtual_address(), cursor + 0x4000);
}

#[test]
fn user_exercise_gives_back_what_it_took() {
    let mut pm = PhysicalMemory::new();
    pm.alloc_frame_address(0).unwrap();
    let mut dir = PageDirectory::new(PDA);
    let mut heap = HeapAllocator::new();
    heap.init(&mut dir, &mut pm, 0x80_0000, 0x280_0000, kfs::memory::dynamicmemory::Privilege::Kernel, false)
        .unwrap();
    assert_eq!(heap.free_counts(), [0, 0, 0, 0, 0, 0, 0, 0, 0, 0, 8]);
    let cursor = heap.next_virtual_address();
    assert_eq!(user_alloc_test(&mut heap, &mut dir, &mut pm, false), 5);
    // The first request splits a 4 MiB block down to one page; the blocks
    // of 1, 1, 16, 64 and 128 pages that were handed out are back on
    // their lists.
    assert_eq!(heap.free_counts(), [2, 1, 1, 1, 1, 1, 1, 1, 1, 1, 7]);
    assert_eq!(
        heap.next_virtual_address(),
        cursor + 0x1000 + 0x1000 + 0x1_0000 + 0x4_0000 + 0x8_0000
    );
}

#[test]
fn combined_exercise_counts_every_request() {
    let mut pm = PhysicalMemory::new();
    pm.alloc_frame_address(0).unwrap();
    let mut dir = PageDirectory::new(PDA);
    let mut heap = HeapAllocator::new();
    heap.init(&mut dir, &mut pm, 0x80_0000, 0x280_0000, kfs::memory::dynamicmemory::Privilege::Kernel, false)
        .unwrap();
    let cursor = heap.next_virtual_address();
    assert!(alloc_test(&mut heap, &mut dir, &mut pm, false));
    // Five blocks went out and came back. Then the one block of two
    // pages went out, a block of four pages was split for the next, and
    // the first came back beside the half that was left.
    assert_eq!(heap.free_counts(), [2, 2, 0, 1, 1, 1, 1, 1, 1, 1, 7]);
    assert_eq!(heap.next_virtual_address(), cursor + 0xD_2000 + 0x4000);
}

/// A bitmap in which every frame is in use but those listed.
fn full_but(free: &[usize]) -> PhysicalMemory {
    let mut pm = PhysicalMemory::new();
    for word in pm.bitmap.iter_mut() {
        *word = 0xFFFF_FFFF;
    }
    for frame in free {
        pm.bitmap[frame / 32] &= !(0x8000_0000u32 >> (frame % 32));
    }
    pm
}

#[test]
fn boot_paging_fails_for_want_of_a_frame_only_on_a_full_bitmap() {
    // No frame is free: the first page finds no frame for its table.
    let mut pm = full_but(&[]);
    pm.next = 7;
    let mut dir = PageDirectory::new(PDA);
    assert_eq!(
        virtualmemory::init(&mut dir, &mut pm, 0x200000, 0x23F000, 0x10000),
        Err(PagingError::Frame(PhysicalMemoryError::NoFrameAvailable))
    );
    assert!(!dir.ref_dir()[0].is_present());
    assert!(!dir.is_recursive());
    assert_eq!(pm.next, 7);

    // One frame is free, behind the cursor: it becomes the one table that
    // the plan needs.
    let mut pm = full_but(&[5]);
    pm.next = 100;
    let mut dir = PageDirectory::new(PDA);
    assert_eq!(virtualmemory::init(&mut dir, &mut pm, 0x200000, 0x23F000, 0x10000), Ok(()));
    assert_eq!(dir.ref_dir()[0].0, 0x5000 | 0x3);
    assert_eq!(pm.next, 0);
    assert_eq!(pm.alloc_frame(), Err(PhysicalMemoryError::NoFrameAvailable));

    // A kernel image across two directory slots needs two tables; with
    // one frame the pages of the first slot are mapped, and then no more.
    let mut pm = full_but(&[5]);
    let mut dir = PageDirectory::new(PDA);
    assert_eq!(
        virtualmemory::init(&mut dir, &mut pm, 0x3FE000, 0x401000, 0x10000),
        Err(PagingError::Frame(PhysicalMemoryError::NoFrameAvailable))
    );
    assert_eq!(dir.ref_dir()[0].0, 0x5000 | 0x3);
    assert!(!dir.ref_dir()[1].is_present());
    assert_eq!(dir.translate(0x3FF000), Some(0x3FF000));
    assert_eq!(dir.translate(0x400000), None);
    assert_eq!(dir.translate(0x10000), None);
    assert!(!dir.is_recursive());
}

#[test]
fn init_directory_stops_where_the_frames_end() {
    let mut pm = full_but(&[40, 9]);
    pm.next = 1;
    let mut dir = PageDirectory::new(PDA);
    assert_eq!(
        dir.init_directory(&mut pm, 0x40_0000, 0x100_0000),
        Err(PagingError::Frame(PhysicalMemoryError::NoFrameAvailable))
    );
    // The first table took the free frame from the cursor on, the second
    // the one behind it; the third found none.
    assert_eq!(dir.ref_dir()[1].0, 40 * 0x1000 | 0x3);
    assert_eq!(dir.ref_dir()[2].0, 9 * 0x1000 | 0x3);
    assert!(!dir.ref_dir()[3].is_present());
    assert_eq!(pm.next, 0);
    assert_eq!(pm.alloc_frame(), Err(PhysicalMemoryError::NoFrameAvailable));

    // With every table in place the bitmap is not touched, full or not.
    let mut pm = full_but(&[]);
    pm.next = 77;
    assert_eq!(dir.init_directory(&mut pm, 0x40_0000, 0xC0_0000), Ok(()));
    assert_eq!(pm.next, 77);
}

#[test]
fn whole_boot_reports_where_paging_fails() {
    let b = blob(&[]);
    // Every frame is in use but those that seeding marks: nothing is left
    // for a page table.
    let mut free: Vec<usize> = vec![0, 0xB8, PDA / 0x1000, 0x10];
    for frame in 0x100..=0x17F {
        free.push(frame);
    }
    let mut pm = full_but(&free);
    let mut dir = PageDirectory::new(PDA);
    let mut user = HeapAllocator::new();
    let mut kernel = HeapAllocator::new();
    assert_eq!(
        init(&mut pm, &mut dir, &mut user, &mut kernel, 0x36d76289, &b, 0x100000, 0x17F000, 0x10000, true),
        Err(BootError::Paging(PagingError::Frame(PhysicalMemoryError::NoFrameAvailable)))
    );
    assert_eq!(pm.alloc_frame(), Err(PhysicalMemoryError::NoFrameAvailable));
    assert_eq!(user.free_counts(), [0; 11]);
    assert_eq!(kernel.free_counts(), [0; 11]);

    // Without paging the same bitmap brings the heaps up, with nothing
    // on their lists.
    let mut pm = full_but(&free);
    let mut dir = PageDirectory::new(PDA);
    assert_eq!(
        init(&mut pm, &mut dir, &mut user, &mut kernel, 0x36d76289, &b, 0x100000, 0x17F000, 0x10000, false),
        Ok(())
    );
    assert!(!pm.is_frame_free(0x10) && !pm.is_frame_free(0x100) && !pm.is_frame_free(0xB8));
    assert_eq!(user.free_counts(), [0; 11]);
}

#[test]
fn seeding_leaves_the_cursor_on_the_last_frame_marked() {
    let mut pm = PhysicalMemory::new();
    pm.next = 5;
    assert_eq!(physicalmemory::mark_run(&mut pm, 20, 0), Ok(()));
    assert_eq!(pm.next, 5);
    assert_eq!(physicalmemory::mark_run(&mut pm, 60, 10), Ok(()));
    assert_eq!(pm.next, 69 / 32);
    assert_eq!(physicalmemory::mark_run(&mut pm, 50, 20), Err(PhysicalMemoryError::FrameAlreadyInUse));
    assert_eq!(pm.next, 59 / 32);

    let mut pm = PhysicalMemory::new();
    physicalmemory::init(&mut pm, &[], 0x200400, 0x23F000, 0x400_0000).unwrap();
    assert_eq!(pm.next, 0x4000 / 32);
    let mut pm = PhysicalMemory::new();
    // The boot information lies in the kernel image: the directory's
    // frame was the last to be marked.
    physicalmemory::init(&mut pm, &[], 0x200400, 0x23F000, 0x210000).unwrap();
    assert_eq!(pm.next, PDA / 0x1000 / 32);
}
