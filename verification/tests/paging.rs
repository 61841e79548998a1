use kfs::memory::physicalmemory::{PhysicalMemory, PhysicalMemoryError};
use kfs::memory::virtualmemory::{PageDirectory, PageDirectoryEntry, PageTableEntry, PagingError, PDA};

fn boot_state() -> (PageDirectory, PhysicalMemory) {
    let mut pm = PhysicalMemory::new();
    pm.alloc_frame_address(0).unwrap();
    pm.alloc_frame_address(PDA).unwrap();
    (PageDirectory::new(PDA), pm)
}

#[test]
fn entry_words_split_into_frame_and_flags() {
    let pte = PageTableEntry::new(0x1234_5000, 0x7);
    assert_eq!(pte.0, 0x1234_5007);
    assert!(pte.is_present());
    assert_eq!(pte.page_frame_address(), 0x1234_5000);
    let pde = PageDirectoryEntry::new(0x40_0000, 0x2);
    assert!(!pde.is_present());
    assert_eq!(pde.page_table_address(), 0x40_0000);
}

#[test]
fn map_page_allocates_a_table_and_translates() {
    let (mut dir, mut pm) = boot_state();
    assert_eq!(dir.translate(0x40_0123), None);
    assert_eq!(dir.map_page(&mut pm, 0x40_0000, 0x20_0000, 0x3), Ok(()));
    assert_eq!(dir.translate(0x40_0123), Some(0x20_0123));
    // The scan starts at the word of the directory's frame, so the table is frame 0x20;
    // it is entered as supervisor, writable, present.
    assert_eq!(dir.ref_dir()[1].0, 0x20000 | 0x3);
    assert!(!pm.is_address_free(0x20000));
    assert_eq!(dir.ref_table(1).entries[0].0, 0x20_0000 | 0x3);
    // The data frame is the caller's to reserve.
    assert!(pm.is_address_free(0x20_0000));
}

#[test]
fn mapping_a_mapped_page_is_refused() {
    let (mut dir, mut pm) = boot_state();
    dir.map_page(&mut pm, 0x40_0000, 0x20_0000, 0x3).unwrap();
    assert_eq!(dir.map_page(&mut pm, 0x40_0000, 0x30_0000, 0x3), Err(PagingError::AlreadyMapped));
    assert_eq!(dir.translate(0x40_0000), Some(0x20_0000));
}

#[test]
fn recursive_window_cannot_be_mapped() {
    let (mut dir, mut pm) = boot_state();
    assert_eq!(dir.map_page(&mut pm, 0xFFC0_0000, 0x20_0000, 0x3), Err(PagingError::Reserved));
    assert_eq!(dir.map_page(&mut pm, 0xFFFF_F000, 0x20_0000, 0x3), Err(PagingError::Reserved));
    assert_eq!(dir.unmap_page(&mut pm, 0xFFC0_0000), Err(PagingError::Reserved));
    assert_eq!(dir.map_page(&mut pm, 0xFFBF_F000, 0x20_0000, 0x3), Ok(()));
}

#[test]
fn unmap_returns_the_frame_and_keeps_the_table() {
    let (mut dir, mut pm) = boot_state();
    dir.map_page(&mut pm, 0x40_0000, 0x20_0000, 0x7).unwrap();
    pm.alloc_frame_address(0x20_0000).unwrap();
    assert_eq!(dir.unmap_page(&mut pm, 0x40_0000), Ok(()));
    assert_eq!(dir.translate(0x40_0000), None);
    assert!(pm.is_address_free(0x20_0000));
    assert!(dir.ref_dir()[1].is_present());
    assert!(!pm.is_address_free(0x20000));
    assert_eq!(dir.ref_table(1).entries[0].0, 0);
}

#[test]
fn unmap_of_unmapped_page_is_refused() {
    let (mut dir, mut pm) = boot_state();
    assert_eq!(dir.unmap_page(&mut pm, 0x40_0000), Err(PagingError::NotMapped));
    dir.map_page(&mut pm, 0x40_0000, 0x20_0000, 0x3).unwrap();
    assert_eq!(dir.unmap_page(&mut pm, 0x40_1000), Err(PagingError::NotMapped));
}

#[test]
fn unmap_of_page_with_free_frame_reports_the_bitmap() {
    let (mut dir, mut pm) = boot_state();
    dir.map_page(&mut pm, 0x40_0000, 0x20_0000, 0x3).unwrap();
    assert_eq!(
        dir.unmap_page(&mut pm, 0x40_0000),
        Err(PagingError::Frame(PhysicalMemoryError::FrameNotInUse))
    );
    assert_eq!(dir.translate(0x40_0000), Some(0x20_0000));
}

#[test]
fn map_without_free_frame_for_the_table_fails() {
    let mut pm = PhysicalMemory::new();
    for word in pm.bitmap.iter_mut() {
        *word = 0xFFFF_FFFF;
    }
    let mut dir = PageDirectory::new(PDA);
    assert_eq!(
        dir.map_page(&mut pm, 0x40_0000, 0x20_0000, 0x3),
        Err(PagingError::Frame(PhysicalMemoryError::NoFrameAvailable))
    );
}

#[test]
fn map_takes_a_table_frame_from_behind_the_cursor() {
    let mut pm = PhysicalMemory::new();
    for word in pm.bitmap.iter_mut() {
        *word = 0xFFFF_FFFF;
    }
    pm.bitmap[0] = 0x7FFF_FFFF;
    pm.next = 1;
    let mut dir = PageDirectory::new(PDA);
    assert_eq!(dir.map_page(&mut pm, 0x40_0000, 0x20_0000, 0x3), Ok(()));
    assert_eq!(dir.translate(0x40_0123), Some(0x20_0123));
    assert_eq!(pm.bitmap[0], 0xFFFF_FFFF);
    assert_eq!(dir.ref_dir()[1].0, 0x3);
}

#[test]
fn recursive_entry_shows_the_directory_at_its_alias() {
    let (mut dir, mut pm) = boot_state();
    dir.map_page(&mut pm, 0x40_0000, 0x20_0000, 0x3).unwrap();
    dir.set_entry(1023, PDA, 0x3);
    dir.set_recursive(true);
    for i in 0..1024usize {
        assert_eq!(dir.translate(0xFFFF_F000 + 4 * i), Some(PDA + 4 * i));
    }
    // The page table of slot 1 appears at 0xFFC00000 + 1 * 4096.
    assert_eq!(dir.table_address_add(1), 0xFFC0_1000);
    assert_eq!(dir.translate(0xFFC0_1000), Some(0x20000));
    assert_eq!(dir.translate(0xFFC0_1000 + 4 * 0), Some(0x20000));
    assert_eq!(dir.address(), 0xFFFF_F000);
}

#[test]
fn table_address_without_recursion_is_the_entry_frame() {
    let (mut dir, mut pm) = boot_state();
    dir.map_page(&mut pm, 0x40_0000, 0x20_0000, 0x3).unwrap();
    assert_eq!(dir.table_address_add(1), 0x20000);
    assert_eq!(dir.address(), PDA);
}

#[test]
fn unmapped_address_has_no_translation_and_its_fault_halts() {
    let (mut dir, mut pm) = boot_state();
    dir.map_page(&mut pm, 0x40_0000, 0x20_0000, 0x3).unwrap();
    assert_eq!(dir.translate(0xDEAD_B000), None);
    let fault = kfs::sys::interrupts::InterruptIndex::from_vector(0x0E).unwrap();
    assert_eq!(fault, kfs::sys::interrupts::InterruptIndex::PageFault);
    assert!(fault.halts());
}
