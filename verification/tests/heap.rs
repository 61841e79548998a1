use kfs::memory::dynamicmemory::{HeapAllocator, HeapError, Layout, Privilege};
use kfs::memory::physicalmemory::PhysicalMemory;
use kfs::memory::virtualmemory::{PageDirectory, PagingError, PDA};

fn boot_state() -> (PageDirectory, PhysicalMemory) {
    let mut pm = PhysicalMemory::new();
    pm.alloc_frame_address(0).unwrap();
    pm.alloc_frame_address(0xB8000).unwrap();
    pm.alloc_frame_address(PDA).unwrap();
    (PageDirectory::new(PDA), pm)
}

fn kernel_heap(paging: bool) -> (HeapAllocator, PageDirectory, PhysicalMemory) {
    let (mut dir, mut pm) = boot_state();
    let mut heap = HeapAllocator::new();
    heap.init(&mut dir, &mut pm, 0x80_0000, 0x280_0000, Privilege::Kernel, paging).unwrap();
    (heap, dir, pm)
}

#[test]
fn orders_of_sizes() {
    let heap = HeapAllocator::new();
    assert_eq!(heap.size_to_order(0), Some(0));
    assert_eq!(heap.size_to_order(1), Some(0));
    assert_eq!(heap.size_to_order(4096), Some(0));
    assert_eq!(heap.size_to_order(4097), Some(1));
    assert_eq!(heap.size_to_order(8192), Some(1));
    assert_eq!(heap.size_to_order(65536), Some(4));
    assert_eq!(heap.size_to_order(0x40_0000), Some(10));
    assert_eq!(heap.size_to_order(0x40_0001), None);
    assert_eq!(heap.size_to_order(usize::MAX), None);
}

#[test]
fn match_order_rounds_down() {
    let heap = HeapAllocator::new();
    assert_eq!(heap.match_order(0), None);
    assert_eq!(heap.match_order(4095), None);
    assert_eq!(heap.match_order(4097), None);
    assert_eq!(heap.match_order(4096), Some(0));
    assert_eq!(heap.match_order(3 * 4096), Some(1));
    assert_eq!(heap.match_order(0x40_0000), Some(10));
    assert_eq!(heap.match_order(0x4000_0000), Some(10));
}

#[test]
fn init_forms_largest_aligned_blocks() {
    let (heap, _dir, _pm) = kernel_heap(false);
    // 0x800000..0x2800000 is 32 MiB of free, 4 MiB-aligned frames.
    assert_eq!(heap.free_counts(), [0, 0, 0, 0, 0, 0, 0, 0, 0, 0, 8]);
}

#[test]
fn init_steps_around_used_frames() {
    let (mut dir, mut pm) = boot_state();
    pm.alloc_frame_address(0x80_1000).unwrap();
    let mut heap = HeapAllocator::new();
    heap.init(&mut dir, &mut pm, 0x80_0000, 0xC0_0000, Privilege::User, false).unwrap();
    // Frame 0 of the range stands alone, frame 1 is used, then blocks of 2, 4, ... 512 pages.
    assert_eq!(heap.free_counts(), [1, 1, 1, 1, 1, 1, 1, 1, 1, 1, 0]);
}

#[test]
fn init_caps_each_list() {
    let (mut dir, mut pm) = boot_state();
    let mut heap = HeapAllocator::new();
    heap.init(&mut dir, &mut pm, 0x4000_0000, 0xC000_0000, Privilege::User, false).unwrap();
    let counts = heap.free_counts();
    assert_eq!(counts[10], 300);
    assert_eq!(counts[9], 300);
    // 512 runs of 4 MiB: 300 stay whole, 150 more go as 300 halves, the last 62 as quarters.
    assert_eq!(counts[8], 248);
    assert_eq!(counts[7], 0);
}

#[test]
fn init_with_paging_prepares_page_tables() {
    let (heap, dir, pm) = kernel_heap(true);
    assert_eq!(heap.free_counts()[10] > 0, true);
    for pdi in 2..10 {
        assert!(dir.ref_dir()[pdi].is_present());
    }
    assert!(!dir.ref_dir()[10].is_present());
    // Eight page tables were taken from the first free frames behind the cursor,
    // which stood at the word of the directory's frame.
    assert!(!pm.is_address_free(0x20000));
    assert!(!pm.is_address_free(0x28000));
    assert!(pm.is_address_free(0x29000));
}

#[test]
fn init_refuses_window_into_recursive_region() {
    let (mut dir, mut pm) = boot_state();
    let mut heap = HeapAllocator::new();
    assert_eq!(
        heap.init(&mut dir, &mut pm, 0xFF00_0000, 0xFFD0_0000, Privilege::Kernel, true),
        Err(PagingError::Reserved)
    );
}

#[test]
fn init_refuses_mapped_window() {
    let (mut dir, mut pm) = boot_state();
    dir.map_page(&mut pm, 0x80_3000, 0xB8000, 0x3).unwrap();
    let mut heap = HeapAllocator::new();
    assert_eq!(
        heap.init(&mut dir, &mut pm, 0x80_0000, 0xC0_0000, Privilege::Kernel, true),
        Err(PagingError::AlreadyMapped)
    );
}

#[test]
fn allocate_splits_down_and_maps() {
    let (mut heap, mut dir, mut pm) = kernel_heap(true);
    let layout = Layout::from_size_align(8192, 4096).unwrap();
    let a = heap.allocate(&mut dir, &mut pm, layout).unwrap();
    assert_eq!(a, 0x80_0000);
    // The last order-10 block was split: one buddy on each order from 1 to 9.
    assert_eq!(heap.free_counts(), [0, 1, 1, 1, 1, 1, 1, 1, 1, 1, 7]);
    let p = dir.translate(a).unwrap();
    assert_eq!(p, 0x240_0000);
    assert_eq!(dir.translate(a + 0x1fff), Some(p + 0x1fff));
    assert!(!pm.is_address_free(p));
    assert!(!pm.is_address_free(p + 0x1000));
    assert!(pm.is_address_free(p + 0x2000));
    assert_eq!(dir.translate(a + 0x2000), None);
    // Kernel pages carry flags 0x3.
    assert_eq!(dir.ref_table(2).entries[0].0, p | 0x3);
}

#[test]
fn user_pages_carry_user_flags() {
    let (mut dir, mut pm) = boot_state();
    let mut heap = HeapAllocator::new();
    heap.init(&mut dir, &mut pm, 0x80_0000, 0xC0_0000, Privilege::User, true).unwrap();
    let a = heap.allocate(&mut dir, &mut pm, Layout::from_size_align(10, 4096).unwrap()).unwrap();
    let p = dir.translate(a).unwrap();
    assert_eq!(dir.ref_table(2).entries[0].0, p | 0x7);
}

#[test]
fn allocate_then_deallocate_restores_counts() {
    let (mut heap, mut dir, mut pm) = kernel_heap(true);
    let layout = Layout::from_size_align(8192, 4096).unwrap();
    let first = heap.allocate(&mut dir, &mut pm, layout).unwrap();
    heap.deallocate(&mut dir, &mut pm, first, layout).unwrap();
    let before = heap.free_counts();
    assert!(before[1] > 0);
    let a = heap.allocate(&mut dir, &mut pm, layout).unwrap();
    assert_eq!(heap.free_counts()[1], before[1] - 1);
    assert_eq!(heap.deallocate(&mut dir, &mut pm, a, layout), Ok(()));
    assert_eq!(heap.free_counts(), before);
    assert_eq!(dir.translate(a), None);
}

#[test]
fn virtual_addresses_are_never_reused() {
    let (mut heap, mut dir, mut pm) = kernel_heap(true);
    let layout = Layout::from_size_align(4096, 4096).unwrap();
    let a = heap.allocate(&mut dir, &mut pm, layout).unwrap();
    heap.deallocate(&mut dir, &mut pm, a, layout).unwrap();
    let b = heap.allocate(&mut dir, &mut pm, layout).unwrap();
    assert_eq!(b, a + 4096);
    // The frame is recycled.
    assert_eq!(dir.translate(b), Some(0x240_0000));
}

#[test]
fn without_paging_the_physical_base_is_returned() {
    let (mut heap, mut dir, mut pm) = kernel_heap(false);
    let layout = Layout::from_size_align(4096, 4096).unwrap();
    let a = heap.allocate(&mut dir, &mut pm, layout).unwrap();
    assert_eq!(a, 0x240_0000);
    assert!(!pm.is_address_free(a));
    assert_eq!(heap.deallocate(&mut dir, &mut pm, a, layout), Ok(()));
    assert!(pm.is_address_free(a));
}

#[test]
fn kalloc_round_trip() {
    let (mut heap, mut dir, mut pm) = kernel_heap(true);
    let warm = heap.kallocate(&mut dir, &mut pm, 8192).unwrap();
    heap.kdeallocate(&mut dir, &mut pm, warm, 8192).unwrap();
    let before = heap.free_counts();
    let a = heap.kallocate(&mut dir, &mut pm, 8192).unwrap();
    assert!(dir.translate(a).is_some());
    assert_eq!(heap.kdeallocate(&mut dir, &mut pm, a, 8192), Ok(()));
    assert_eq!(heap.free_counts()[1], before[1]);
    assert_eq!(heap.free_counts(), before);
}

#[test]
fn kalloc_rounds_up_to_pages() {
    let (mut heap, mut dir, mut pm) = kernel_heap(true);
    let a = heap.kallocate(&mut dir, &mut pm, 4097).unwrap();
    assert!(dir.translate(a + 4096).is_some());
    assert!(dir.translate(a + 8192).is_none());
}

#[test]
fn kalloc_refuses_more_than_four_mib() {
    let (mut heap, mut dir, mut pm) = kernel_heap(true);
    let before = heap.free_counts();
    assert_eq!(heap.kallocate(&mut dir, &mut pm, 0x40_0001), None);
    assert_eq!(heap.free_counts(), before);
    assert_eq!(heap.kdeallocate(&mut dir, &mut pm, 0x80_0000, 0x40_0001), Err(HeapError::TooLarge));
}

#[test]
fn kalloc_never_merges() {
    let (mut dir, mut pm) = boot_state();
    let mut heap = HeapAllocator::new();
    // Two single frames that are not neighbours of a larger free run.
    pm.alloc_frame_address(0x80_1000).unwrap();
    pm.alloc_frame_address(0x80_3000).unwrap();
    heap.init(&mut dir, &mut pm, 0x80_0000, 0x80_4000, Privilege::Kernel, false).unwrap();
    assert_eq!(heap.free_counts()[0], 2);
    let before = heap.free_counts();
    assert_eq!(heap.kallocate(&mut dir, &mut pm, 8192), None);
    assert_eq!(heap.free_counts(), before);
}

#[test]
fn merge_path_takes_one_block_and_fails() {
    let (mut dir, mut pm) = boot_state();
    let mut heap = HeapAllocator::new();
    pm.alloc_frame_address(0x80_1000).unwrap();
    pm.alloc_frame_address(0x80_3000).unwrap();
    heap.init(&mut dir, &mut pm, 0x80_0000, 0x80_4000, Privilege::User, false).unwrap();
    assert_eq!(heap.free_counts()[0], 2);
    let layout = Layout::from_size_align(8192, 4096).unwrap();
    assert_eq!(heap.allocate(&mut dir, &mut pm, layout), None);
    assert_eq!(heap.free_counts()[0], 1);
    assert!(!pm.is_address_free(0x80_2000));
}

#[test]
fn window_exhaustion_fails_the_allocation() {
    let (mut dir, mut pm) = boot_state();
    let mut heap = HeapAllocator::new();
    heap.init(&mut dir, &mut pm, 0x80_0000, 0x80_2000, Privilege::Kernel, true).unwrap();
    let layout = Layout::from_size_align(4096, 4096).unwrap();
    let a = heap.allocate(&mut dir, &mut pm, layout).unwrap();
    heap.deallocate(&mut dir, &mut pm, a, layout).unwrap();
    let b = heap.allocate(&mut dir, &mut pm, layout).unwrap();
    heap.deallocate(&mut dir, &mut pm, b, layout).unwrap();
    // Both pages of the window were used once; the frames are free again.
    assert_eq!(heap.allocate(&mut dir, &mut pm, layout), None);
}

#[test]
fn large_allocation_is_contiguous_in_virtual_space() {
    let (mut heap, mut dir, mut pm) = kernel_heap(true);
    let layout = Layout::from_size_align(10 * 1024 * 1024, 4096).unwrap();
    // With blocks of 4 MiB only, 10 MiB cannot be made up: 2 MiB would be left over.
    let untouched = heap.free_counts();
    assert_eq!(heap.allocate(&mut dir, &mut pm, layout), None);
    assert_eq!(heap.free_counts(), untouched);
    // A small allocation splits one block and leaves a buddy of every order below 10.
    let small = Layout::from_size_align(4096, 4096).unwrap();
    let s = heap.allocate(&mut dir, &mut pm, small).unwrap();
    assert_eq!(s, 0x80_0000);
    let before = heap.free_counts();
    assert_eq!(before, [1, 1, 1, 1, 1, 1, 1, 1, 1, 1, 7]);
    let a = heap.allocate(&mut dir, &mut pm, layout).unwrap();
    assert_eq!(a, 0x80_1000);
    // Two blocks of 4 MiB and one of 2 MiB were taken.
    assert_eq!(heap.free_counts(), [1, 1, 1, 1, 1, 1, 1, 1, 1, 0, 5]);
    for page in 0..(10 * 256) {
        assert!(dir.translate(a + page * 4096).is_some());
    }
    assert!(dir.translate(a + 10 * 1024 * 1024).is_none());
    assert_eq!(heap.deallocate(&mut dir, &mut pm, a, layout), Ok(()));
    for page in 0..(10 * 256) {
        assert!(dir.translate(a + page * 4096).is_none());
    }
    let after = heap.free_counts();
    let pages = |c: [usize; 11]| -> usize { (0..11).map(|k| c[k] << k).sum() };
    assert_eq!(pages(after), pages(before));
}

#[test]
fn large_allocation_needs_paging() {
    let (mut heap, mut dir, mut pm) = kernel_heap(false);
    let layout = Layout::from_size_align(8 * 1024 * 1024, 4096).unwrap();
    assert_eq!(heap.allocate(&mut dir, &mut pm, layout), None);
    assert_eq!(heap.deallocate(&mut dir, &mut pm, 0x80_0000, layout), Err(HeapError::TooLarge));
}

#[test]
fn invalid_free_is_refused() {
    let (mut heap, mut dir, mut pm) = kernel_heap(true);
    let layout = Layout::from_size_align(4096, 4096).unwrap();
    let before = heap.free_counts();
    assert_eq!(heap.deallocate(&mut dir, &mut pm, 0x90_0000, layout), Err(HeapError::InvalidBlock));
    assert_eq!(heap.deallocate(&mut dir, &mut pm, 0x80_0001, layout), Err(HeapError::InvalidBlock));
    assert_eq!(heap.free_counts(), before);
    let a = heap.allocate(&mut dir, &mut pm, layout).unwrap();
    // A block of one page is no block of two.
    let two = Layout::from_size_align(8192, 4096).unwrap();
    assert_eq!(heap.deallocate(&mut dir, &mut pm, a, two), Err(HeapError::InvalidBlock));
    assert_eq!(heap.deallocate(&mut dir, &mut pm, a, layout), Ok(()));
    assert_eq!(heap.deallocate(&mut dir, &mut pm, a, layout), Err(HeapError::InvalidBlock));
}

#[test]
fn layout_needs_power_of_two_alignment() {
    assert_eq!(Layout::from_size_align(10, 3), None);
    assert_eq!(Layout::from_size_align(10, 0), None);
    let layout = Layout::from_size_align(10, 8).unwrap();
    assert_eq!(layout.size(), 10);
    assert_eq!(layout.align(), 8);
}

#[test]
fn alignment_larger_than_size_decides_the_order() {
    let (mut heap, mut dir, mut pm) = kernel_heap(true);
    let layout = Layout::from_size_align(16, 16384).unwrap();
    let a = heap.allocate(&mut dir, &mut pm, layout).unwrap();
    assert!(dir.translate(a + 3 * 4096).is_some());
    assert!(dir.translate(a + 4 * 4096).is_none());
}

fn all_blocks(heap: &HeapAllocator) -> Vec<(usize, usize)> {
    let mut blocks = Vec::new();
    for order in 0..=10 {
        for base in heap.free_list(order) {
            blocks.push((base, order));
        }
    }
    blocks
}

fn assert_lists_sound(heap: &HeapAllocator, pm: &PhysicalMemory) {
    let blocks = all_blocks(heap);
    for &(base, order) in &blocks {
        // Every base is aligned to the size of its order, and its frames are free.
        assert_eq!(base % (4096usize << order), 0);
        for page in 0..(1usize << order) {
            assert!(pm.is_address_free(base + page * 4096));
        }
    }
    // No two blocks share a frame; in particular no address stands on two lists.
    let mut ranges: Vec<(usize, usize)> =
        blocks.iter().map(|&(base, order)| (base, base + (4096usize << order))).collect();
    ranges.sort();
    for pair in ranges.windows(2) {
        assert!(pair[0].1 <= pair[1].0);
    }
}

#[test]
fn free_lists_stay_aligned_and_disjoint() {
    let (mut dir, mut pm) = boot_state();
    pm.alloc_frame_address(0x80_5000).unwrap();
    pm.alloc_frame_address(0x93_0000).unwrap();
    let mut heap = HeapAllocator::new();
    heap.init(&mut dir, &mut pm, 0x80_0000, 0x180_0000, Privilege::User, true).unwrap();
    assert_lists_sound(&heap, &pm);
    let sizes = [4096usize, 8192, 100, 65536, 3 * 4096, 1 << 20, 4096, 1 << 22, 12288];
    let mut live = Vec::new();
    for (i, &size) in sizes.iter().enumerate() {
        let layout = Layout::from_size_align(size, 4096).unwrap();
        if let Some(a) = heap.allocate(&mut dir, &mut pm, layout) {
            live.push((a, layout));
        }
        assert_lists_sound(&heap, &pm);
        if i % 3 == 2 {
            let (a, l) = live.remove(0);
            assert_eq!(heap.deallocate(&mut dir, &mut pm, a, l), Ok(()));
            assert_lists_sound(&heap, &pm);
        }
    }
    // What is still handed out is mapped to frames in use.
    for &(a, layout) in &live {
        let mut offset = 0;
        while offset < layout.size() {
            let p = dir.translate(a + offset).unwrap();
            assert!(!pm.is_address_free(p & !0xFFF));
            offset += 4096;
        }
    }
    for (a, l) in live {
        assert_eq!(heap.deallocate(&mut dir, &mut pm, a, l), Ok(()));
        assert_lists_sound(&heap, &pm);
    }
}

#[test]
fn split_pushes_the_upper_halves() {
    let (mut heap, mut dir, mut pm) = kernel_heap(false);
    assert_eq!(heap.free_list(10).last(), Some(&0x240_0000));
    let a = heap.allocate(&mut dir, &mut pm, Layout::from_size_align(4096, 4096).unwrap()).unwrap();
    assert_eq!(a, 0x240_0000);
    // The buddy at each order is the address with the bit of that order set.
    for order in 0..10usize {
        assert_eq!(heap.free_list(order), vec![0x240_0000 ^ (1usize << (order + 12))]);
    }
    assert_eq!(heap.free_list(10).len(), 7);
}

#[test]
fn mapped_frames_are_never_free() {
    let (mut dir, mut pm) = boot_state();
    let mut heap = HeapAllocator::new();
    heap.init(&mut dir, &mut pm, 0x80_0000, 0x180_0000, Privilege::Kernel, true).unwrap();
    let mut live = Vec::new();
    for size in [4096usize, 20000, 8192, 1 << 16] {
        let layout = Layout::from_size_align(size, 4096).unwrap();
        live.push((heap.allocate(&mut dir, &mut pm, layout).unwrap(), layout));
    }
    let (a, l) = live.remove(1);
    heap.deallocate(&mut dir, &mut pm, a, l).unwrap();
    let mut mapped = 0;
    for pdi in 0..1023 {
        let entry = dir.ref_dir()[pdi];
        if !entry.is_present() {
            continue;
        }
        assert!(!pm.is_address_free(entry.page_table_address()));
        for pti in 0..1024 {
            let page = dir.ref_table(pdi).entries[pti];
            if page.is_present() {
                assert!(!pm.is_address_free(page.page_frame_address()));
                mapped += 1;
            }
        }
    }
    assert_eq!(mapped, 1 + 2 + 16);
}

#[test]
fn a_full_list_refuses_the_block() {
    let (mut heap, mut dir, mut pm) = kernel_heap(false);
    let layout = Layout::from_size_align(4096, 4096).unwrap();
    let mut live = Vec::new();
    for _ in 0..1100 {
        live.push(heap.allocate(&mut dir, &mut pm, layout).unwrap());
    }
    let mut refused = 0;
    for &a in &live {
        match heap.deallocate(&mut dir, &mut pm, a, layout) {
            Ok(()) => {}
            Err(e) => {
                assert_eq!(e, HeapError::ListFull);
                assert_eq!(heap.free_counts()[0], 1000);
                assert!(!pm.is_address_free(a));
                refused += 1;
            }
        }
    }
    assert!(refused > 0);
    assert_eq!(heap.free_counts()[0], 1000);
    assert_lists_sound(&heap, &pm);
}

#[test]
fn request_above_a_full_list_splits_from_the_top() {
    let (mut heap, mut dir, mut pm) = kernel_heap(false);
    let page = Layout::from_size_align(4096, 4096).unwrap();
    let mut live = Vec::new();
    for _ in 0..1024 {
        live.push(heap.allocate(&mut dir, &mut pm, page).unwrap());
    }
    for &a in live.iter().take(1000) {
        heap.deallocate(&mut dir, &mut pm, a, page).unwrap();
    }
    assert_eq!(heap.free_counts()[0], 1000);
    // Take every block of order 1 to 9, so that the next request of two pages must split.
    for order in 1..10usize {
        let l = Layout::from_size_align(4096 << order, 4096).unwrap();
        while heap.free_counts()[order] > 0 {
            heap.allocate(&mut dir, &mut pm, l).unwrap();
        }
    }
    let before = heap.free_counts();
    let one = heap.allocate(&mut dir, &mut pm, page).unwrap();
    assert_eq!(heap.free_counts()[0], 999);
    heap.deallocate(&mut dir, &mut pm, one, page).unwrap();
    assert_eq!(heap.free_counts(), before);
    // Order 1 is empty: a block of order 10 is split; orders 1 to 9 each get a buddy.
    let two = Layout::from_size_align(8192, 4096).unwrap();
    heap.allocate(&mut dir, &mut pm, two).unwrap();
    let after = heap.free_counts();
    assert_eq!(after[10], before[10] - 1);
    for order in 1..10 {
        assert_eq!(after[order], 1);
    }
    assert_eq!(after[0], 1000);
    assert_lists_sound(&heap, &pm);
}

#[test]
fn split_drops_the_half_that_finds_its_list_full() {
    let (mut heap, mut dir, mut pm) = kernel_heap(false);
    let page = Layout::from_size_align(4096, 4096).unwrap();
    let mut live = Vec::new();
    for _ in 0..1024 {
        live.push(heap.allocate(&mut dir, &mut pm, page).unwrap());
    }
    for &a in live.iter().take(1000) {
        heap.deallocate(&mut dir, &mut pm, a, page).unwrap();
    }
    assert_eq!(heap.free_counts()[0], 1000);
    let top = *heap.free_list(10).last().unwrap();
    // Splitting a block of order 10 down to order 0 by hand: order 0 has no room.
    let a = heap.allocate_split(&mut dir, &mut pm, 10, 0);
    assert_eq!(a, top);
    assert_eq!(heap.free_counts()[0], 1000);
    assert_eq!(heap.free_list(1).last(), Some(&(top ^ 0x2000)));
    assert!(!heap.free_list(0).contains(&(top ^ 0x1000)));
    assert!(pm.is_address_free(top ^ 0x1000));
    assert_lists_sound(&heap, &pm);
}

#[test]
fn layouts_that_overflow_when_rounded_are_refused() {
    let most = usize::MAX / 2;
    assert!(Layout::from_size_align(most, 1).is_some());
    assert!(Layout::from_size_align(most + 1, 1).is_none());
    assert!(Layout::from_size_align(most - 4095, 4096).is_some());
    assert!(Layout::from_size_align(most - 4094, 4096).is_none());
    assert!(Layout::from_size_align(0, most + 1).is_some());
    assert!(Layout::from_size_align(1, most + 1).is_none());
    assert!(Layout::from_size_align(16, 0).is_none());
    assert!(Layout::from_size_align(16, 24).is_none());
}

#[test]
fn pages_that_a_request_takes() {
    let heap = HeapAllocator::new();
    assert_eq!(heap.pages_taken(0), 1);
    assert_eq!(heap.pages_taken(10), 1);
    assert_eq!(heap.pages_taken(4097), 2);
    assert_eq!(heap.pages_taken(3 * 4096), 4);
    assert_eq!(heap.pages_taken(0x40_0000), 1024);
    assert_eq!(heap.pages_taken(0x40_0001), 1025);
    assert_eq!(heap.pages_taken(10 * 1024 * 1024), 2560);
}

#[test]
fn large_block_goes_back_at_the_largest_orders() {
    let (mut heap, mut dir, mut pm) = kernel_heap(true);
    let layout = Layout::from_size_align(10 * 1024 * 1024, 4096).unwrap();
    let small = Layout::from_size_align(4096, 4096).unwrap();
    heap.allocate(&mut dir, &mut pm, small).unwrap();
    let before = heap.free_counts();
    let a = heap.allocate(&mut dir, &mut pm, layout).unwrap();
    assert_eq!(heap.free_counts(), [1, 1, 1, 1, 1, 1, 1, 1, 1, 0, 5]);
    assert_eq!(heap.deallocate(&mut dir, &mut pm, a, layout), Ok(()));
    // Two blocks of 4 MiB and one of 2 MiB, as they were taken.
    assert_eq!(heap.free_counts(), before);
    // The cursor of the bitmap stands on the word of the last frame freed.
    let last = *heap.free_list(9).last().unwrap() / 0x1000 + 511;
    assert_eq!(pm.next, last / 32);
}

#[test]
fn blocks_leave_the_bitmap_cursor_on_their_last_frame() {
    let (mut heap, mut dir, mut pm) = kernel_heap(false);
    let layout = Layout::from_size_align(64 * 4096, 4096).unwrap();
    let a = heap.allocate(&mut dir, &mut pm, layout).unwrap();
    assert_eq!(pm.next, (a / 0x1000 + 63) / 32);
    let b = heap.allocate(&mut dir, &mut pm, layout).unwrap();
    assert_eq!(pm.next, (b / 0x1000 + 63) / 32);
    heap.deallocate(&mut dir, &mut pm, a, layout).unwrap();
    assert_eq!(pm.next, (a / 0x1000 + 63) / 32);
}
