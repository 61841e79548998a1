use kfs::memory::physicalmemory::{PhysicalMemory, PhysicalMemoryError, N_FRAMES};

#[test]
fn fresh_bitmap_has_every_frame_free() {
    let pm = PhysicalMemory::new();
    assert!(pm.is_frame_free(0));
    assert!(pm.is_frame_free(N_FRAMES - 1));
    assert!(pm.is_address_free(0x100000));
    assert!(!pm.is_frame_free(N_FRAMES));
}

#[test]
fn alloc_frame_scans_most_significant_bit_first() {
    let mut pm = PhysicalMemory::new();
    assert_eq!(pm.alloc_frame(), Ok(0x0));
    assert_eq!(pm.bitmap[0], 0x8000_0000);
    assert_eq!(pm.alloc_frame(), Ok(0x1000));
    assert_eq!(pm.bitmap[0], 0xC000_0000);
    assert_eq!(pm.alloc_frame(), Ok(0x2000));
}

#[test]
fn frame_index_maps_to_word_and_bit() {
    let mut pm = PhysicalMemory::new();
    // Frame 0xB8 lives in word 5, bit 31 - 24.
    assert_eq!(pm.alloc_frame_address(0xB8000), Ok(()));
    assert_eq!(pm.bitmap[0xB8 / 32], 1u32 << (31 - 0xB8 % 32));
    assert!(!pm.is_address_free(0xB8000));
    assert!(!pm.is_frame_free(0xB8));
    assert!(pm.is_frame_free(0xB9));
}

#[test]
fn alloc_then_free_restores_the_bitmap() {
    let mut pm = PhysicalMemory::new();
    pm.alloc_frame_address(0x5000).unwrap();
    let before = pm.bitmap;
    assert_eq!(pm.alloc_frame_address(0x123000), Ok(()));
    assert_eq!(pm.free_frame(0x123000), Ok(()));
    assert!(pm.bitmap == before);
}

#[test]
fn second_alloc_of_same_frame_is_refused() {
    let mut pm = PhysicalMemory::new();
    assert_eq!(pm.alloc_frame_address(0x7000), Ok(()));
    assert_eq!(pm.alloc_frame_address(0x7000), Err(PhysicalMemoryError::FrameAlreadyInUse));
}

#[test]
fn last_frame_below_four_gib_can_be_allocated() {
    let mut pm = PhysicalMemory::new();
    assert_eq!(pm.alloc_frame_address(0xFFFF_F000), Ok(()));
    assert!(!pm.is_address_free(0xFFFF_F000));
    assert_eq!(pm.bitmap[32767], 1);
}

#[test]
fn frame_beyond_four_gib_is_out_of_range() {
    let mut pm = PhysicalMemory::new();
    let address: u64 = 0x1_0000_0000;
    assert_eq!(pm.alloc_frame_address(address as usize), Err(PhysicalMemoryError::OutOfMemory));
    assert_eq!(pm.free_frame(address as usize), Err(PhysicalMemoryError::FrameNotInUse));
}

#[test]
fn freeing_a_free_frame_is_refused() {
    let mut pm = PhysicalMemory::new();
    assert_eq!(pm.free_frame(0x3000), Err(PhysicalMemoryError::FrameNotInUse));
}

#[test]
fn free_moves_the_cursor_back() {
    let mut pm = PhysicalMemory::new();
    for _ in 0..64 {
        pm.alloc_frame().unwrap();
    }
    assert_eq!(pm.alloc_frame(), Ok(64 * 0x1000));
    assert_eq!(pm.free_frame(3 * 0x1000), Ok(()));
    assert_eq!(pm.alloc_frame(), Ok(3 * 0x1000));
}

#[test]
fn alloc_frame_finds_a_free_frame_behind_the_cursor() {
    let mut pm = PhysicalMemory::new();
    for word in pm.bitmap.iter_mut() {
        *word = 0xFFFF_FFFF;
    }
    pm.bitmap[10] = 0xFFFF_FFFE;
    pm.next = 11;
    // Nothing is free from word 11 on: the scan starts over from word 0.
    assert_eq!(pm.alloc_frame(), Ok((10 * 32 + 31) * 0x1000));
    assert_eq!(pm.next, 10);
    assert_eq!(pm.alloc_frame(), Err(PhysicalMemoryError::NoFrameAvailable));
    assert_eq!(pm.next, 10);
}

#[test]
fn alloc_frame_prefers_frames_from_the_cursor_on() {
    let mut pm = PhysicalMemory::new();
    for word in pm.bitmap.iter_mut() {
        *word = 0xFFFF_FFFF;
    }
    pm.bitmap[0] = 0x7FFF_FFFF;
    pm.bitmap[1] = 0xFFFF_7FFF;
    pm.bitmap[32767] = 0xFFFF_FFFE;
    pm.next = 1;
    assert_eq!(pm.next_available(), Ok((32 + 16) * 0x1000));
    assert_eq!(pm.alloc_frame(), Ok((32 + 16) * 0x1000));
    assert_eq!(pm.alloc_frame(), Ok(0xFFFF_F000));
    assert_eq!(pm.next, 32767);
    assert_eq!(pm.alloc_frame(), Ok(0));
    assert_eq!(pm.alloc_frame(), Err(PhysicalMemoryError::NoFrameAvailable));
}

#[test]
fn alloc_frame_with_the_cursor_beyond_the_bitmap() {
    let mut pm = PhysicalMemory::new();
    pm.next = 40000;
    assert_eq!(pm.alloc_frame(), Ok(0));
    assert_eq!(pm.next, 0);
}
